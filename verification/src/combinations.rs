//! Combinations with replacement, drawn lazily from a pool of values.

use vstd::prelude::*;
use itertools::structs::CombinationsWithReplacement;
use itertools::Itertools;
use std::vec::IntoIter;
use crate::divisibility::strictly_increasing;

verus! {

/// The largest number of values that a single combination may hold.  It keeps
/// the index buffer of the generator within the size of an allocation on every
/// target.
pub const MAX_CHOICES: usize = 0x0fff_ffff;

/// The iterator of `itertools` over the combinations with replacement of the
/// items of another iterator.
#[verifier::external_type_specification]
#[verifier::external_body]
#[verifier::reject_recursive_types(I)]
pub struct ExCombinationsWithReplacement<I: Iterator>(CombinationsWithReplacement<I>) where
    I::Item: Clone;

/// The combinations that a generator of `itertools` has yet to yield, in the
/// order in which it will yield them.
pub uninterp spec fn pending(combos: CombinationsWithReplacement<IntoIter<u32>>) -> Seq<Seq<u32>>;

/// `c` with `head` put in front.
pub open spec fn prepend(head: u32, c: Seq<u32>) -> Seq<u32> {
    seq![head] + c
}

/// The ways to choose `k` entries of `pool` by non-decreasing position, where a
/// position may be chosen more than once.  They are listed in lexicographic
/// order of the positions: first those that begin with the first entry of the
/// pool, then those that avoid it.
pub open spec fn selections(pool: Seq<u32>, k: nat) -> Seq<Seq<u32>>
    decreases k, pool.len(),
{
    if k == 0 {
        seq![Seq::<u32>::empty()]
    } else if pool.len() == 0 {
        Seq::<Seq<u32>>::empty()
    } else {
        selections(pool, (k - 1) as nat).map_values(|c: Seq<u32>| prepend(pool[0], c)) + selections(
            pool.skip(1),
            k,
        )
    }
}

/// `c` consists of `k` entries of `pool` in non-decreasing order.
pub open spec fn is_selection(pool: Seq<u32>, k: nat, c: Seq<u32>) -> bool {
    &&& c.len() == k
    &&& forall|i: int| 0 <= i < c.len() ==> pool.contains(#[trigger] c[i])
    &&& forall|i: int, j: int| 0 <= i <= j < c.len() ==> c[i] <= c[j]
}

/// `Itertools::combinations_with_replacement` on the items of `pool`, taken in
/// order.  The generator that it returns is taken to yield the selections of
/// `k` entries of the pool in the order of `selections`: its index vector
/// starts at all zeros, which stands for `k` copies of the first entry, each
/// step raises the last index that can be raised and sets the indices after
/// it to the same value, and `k = 0` gives the one empty selection.  The bound
/// on `k` keeps the allocation of the index vector within its limits.
#[verifier::external_body]
pub(crate) fn start_combinations(pool: Vec<u32>, k: usize) -> (combos: CombinationsWithReplacement<
    IntoIter<u32>,
>)
    requires
        k <= MAX_CHOICES,
    ensures
        pending(combos) == selections(pool@, k as nat),
{
    pool.into_iter().combinations_with_replacement(k)
}

/// `Iterator::next` on the generator.  It is taken to yield the first pending
/// selection and to leave the rest pending, and to keep returning `None` once
/// nothing is pending.
#[verifier::external_body]
pub(crate) fn next_combination(combos: &mut CombinationsWithReplacement<IntoIter<u32>>) -> (next:
    Option<Vec<u32>>)
    ensures
        match next {
            Some(c) => {
                &&& pending(*old(combos)).len() > 0
                &&& c@ == pending(*old(combos))[0]
                &&& pending(*final(combos)) == pending(*old(combos)).skip(1)
            },
            None => pending(*old(combos)).len() == 0 && pending(*final(combos)) == pending(
                *old(combos),
            ),
        },
{
    combos.next()
}

/// For a pool without repetitions, listed in increasing order, the selections
/// are exactly the non-decreasing sequences of `k` pool entries, and none of
/// them is listed twice.
pub proof fn lemma_selections(pool: Seq<u32>, k: nat)
    requires
        strictly_increasing(pool),
    ensures
        selections(pool, k).no_duplicates(),
        forall|c: Seq<u32>| #[trigger] selections(pool, k).contains(c) <==> is_selection(pool, k, c),
    decreases k, pool.len(),
{
    let all = selections(pool, k);
    if k == 0 {
        assert forall|c: Seq<u32>| #[trigger] all.contains(c) <==> is_selection(pool, k, c) by {
            if is_selection(pool, k, c) {
                assert(c =~= Seq::<u32>::empty());
                assert(all[0] == c);
            }
        }
    } else if pool.len() == 0 {
        assert forall|c: Seq<u32>| #[trigger] all.contains(c) <==> is_selection(pool, k, c) by {
            if is_selection(pool, k, c) {
                assert(pool.contains(c[0]));
            }
        }
    } else {
        let shorter = selections(pool, (k - 1) as nat);
        let with_first = shorter.map_values(|c: Seq<u32>| prepend(pool[0], c));
        let rest = pool.skip(1);
        let without_first = selections(rest, k);
        lemma_selections(pool, (k - 1) as nat);
        assert(strictly_increasing(rest));
        lemma_selections(rest, k);
        assert(all == with_first + without_first);
        assert forall|c: Seq<u32>| #[trigger] with_first.contains(c) implies is_selection(pool, k, c)
            && c[0] == pool[0] by {
            let i = choose|i: int| 0 <= i < with_first.len() && with_first[i] == c;
            let tail = shorter[i];
            assert(shorter.contains(tail));
            assert(is_selection(pool, (k - 1) as nat, tail));
            assert(c == prepend(pool[0], tail));
            assert(pool.contains(pool[0]));
            assert forall|t: int| 0 <= t < c.len() implies pool.contains(#[trigger] c[t]) by {
                if t > 0 {
                    assert(c[t] == tail[t - 1]);
                }
            }
            assert forall|s: int, t: int| 0 <= s <= t < c.len() implies c[s] <= c[t] by {
                if s > 0 {
                    assert(c[s] == tail[s - 1] && c[t] == tail[t - 1]);
                } else if t > 0 {
                    assert(c[t] == tail[t - 1]);
                    assert(pool.contains(tail[t - 1]));
                }
            }
        }
        assert forall|c: Seq<u32>| #[trigger] without_first.contains(c) implies is_selection(
            pool,
            k,
            c,
        ) && c[0] > pool[0] by {
            assert(is_selection(rest, k, c));
            assert forall|t: int| 0 <= t < c.len() implies pool.contains(#[trigger] c[t]) && c[t]
                > pool[0] by {
                assert(rest.contains(c[t]));
                let p = choose|p: int| 0 <= p < rest.len() && rest[p] == c[t];
                assert(pool[p + 1] == c[t]);
            }
        }
        assert forall|c: Seq<u32>| is_selection(pool, k, c) implies #[trigger] all.contains(c) by {
            if c[0] == pool[0] {
                let tail = c.skip(1);
                assert forall|t: int| 0 <= t < tail.len() implies pool.contains(
                    #[trigger] tail[t],
                ) by {
                    assert(tail[t] == c[t + 1]);
                }
                assert(is_selection(pool, (k - 1) as nat, tail));
                assert(shorter.contains(tail));
                let i = choose|i: int| 0 <= i < shorter.len() && shorter[i] == tail;
                assert(prepend(pool[0], tail) =~= c);
                assert(with_first[i] == c);
                assert(all[i] == c);
            } else {
                assert forall|t: int| 0 <= t < c.len() implies rest.contains(#[trigger] c[t]) by {
                    assert(pool.contains(c[0]));
                    assert(pool.contains(c[t]));
                    assert(c[0] <= c[t]);
                    let p = choose|p: int| 0 <= p < pool.len() && pool[p] == c[t];
                    let q = choose|q: int| 0 <= q < pool.len() && pool[q] == c[0];
                    assert(q != 0);
                    assert(p != 0);
                    assert(rest[p - 1] == c[t]);
                }
                assert(is_selection(rest, k, c));
                assert(without_first.contains(c));
                let i = choose|i: int| 0 <= i < without_first.len() && without_first[i] == c;
                assert(all[with_first.len() + i] == c);
            }
        }
        assert forall|c: Seq<u32>| #[trigger] all.contains(c) implies is_selection(pool, k, c) by {
            let i = choose|i: int| 0 <= i < all.len() && all[i] == c;
            if i < with_first.len() {
                assert(with_first[i] == c);
                assert(with_first.contains(c));
            } else {
                assert(without_first[i - with_first.len()] == c);
                assert(without_first.contains(c));
            }
        }
        assert forall|i: int, j: int| 0 <= i < j < all.len() implies all[i] != all[j] by {
            if j < with_first.len() {
                let a = shorter[i];
                let b = shorter[j];
                assert(a != b);
                if prepend(pool[0], a) == prepend(pool[0], b) {
                    assert(prepend(pool[0], a).skip(1) =~= a);
                    assert(prepend(pool[0], b).skip(1) =~= b);
                }
            } else if i < with_first.len() {
                assert(with_first.contains(with_first[i]));
                assert(without_first.contains(without_first[j - with_first.len()]));
            } else {
                assert(without_first[i - with_first.len()] != without_first[j - with_first.len()]);
            }
        }
    }
}

} // verus!
