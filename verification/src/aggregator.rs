//! Candidate records and the total order in which they are handed on.
//!
//! Records are compared by modulus first and then by their exponent tuples in
//! lexicographic order, where a tuple comes before every longer tuple that it
//! begins.

use vstd::prelude::*;
use vstd::seq_lib::*;

verus! {

/// A tuple of exponents that was not discarded, with the modulus of its search.
#[derive(Debug, PartialEq, Eq)]
pub struct Output {
    pub level: u32,
    pub exponents: Vec<u32>,
}

impl View for Output {
    type V = (u32, Seq<u32>);

    open spec fn view(&self) -> (u32, Seq<u32>) {
        (self.level, self.exponents@)
    }
}

/// The records held by a sequence of outputs.
pub open spec fn records(outputs: Seq<Output>) -> Seq<(u32, Seq<u32>)> {
    outputs.map_values(|o: Output| o@)
}

/// `a` and `b` have the same first `i` entries.
pub open spec fn agree_before(a: Seq<u32>, b: Seq<u32>, i: int) -> bool {
    &&& 0 <= i <= a.len()
    &&& i <= b.len()
    &&& forall|j: int| 0 <= j < i ==> a[j] == b[j]
}

/// `a` and `b` agree before position `i`, and there `a` ends or has the smaller
/// entry, while `b` goes on.
pub open spec fn lex_less_at(a: Seq<u32>, b: Seq<u32>, i: int) -> bool {
    &&& agree_before(a, b, i)
    &&& i < b.len()
    &&& (i == a.len() || a[i] < b[i])
}

/// `a` comes strictly before `b` in lexicographic order.
pub open spec fn lex_less(a: Seq<u32>, b: Seq<u32>) -> bool {
    exists|i: int| lex_less_at(a, b, i)
}

/// Record `a` comes strictly before record `b`: it has the smaller modulus, or
/// the same modulus and the lexicographically smaller tuple.
pub open spec fn precedes(a: (u32, Seq<u32>), b: (u32, Seq<u32>)) -> bool {
    a.0 < b.0 || (a.0 == b.0 && lex_less(a.1, b.1))
}

/// No record of `s` comes strictly before an earlier one.
pub open spec fn sorted(s: Seq<(u32, Seq<u32>)>) -> bool {
    forall|i: int, j: int| 0 <= i < j < s.len() ==> !precedes(s[j], s[i])
}

/// Every record of `s` comes strictly before the later ones.
pub open spec fn strictly_sorted(s: Seq<(u32, Seq<u32>)>) -> bool {
    forall|i: int, j: int| 0 <= i < j < s.len() ==> precedes(s[i], s[j])
}

/// No tuple comes before itself.
pub proof fn lemma_lex_irreflexive(a: Seq<u32>)
    ensures
        !lex_less(a, a),
{
}

/// The lexicographic order is transitive.
pub proof fn lemma_lex_transitive(a: Seq<u32>, b: Seq<u32>, c: Seq<u32>)
    requires
        lex_less(a, b),
        lex_less(b, c),
    ensures
        lex_less(a, c),
{
    let i = choose|i: int| lex_less_at(a, b, i);
    let j = choose|j: int| lex_less_at(b, c, j);
    let m = if i <= j {
        i
    } else {
        j
    };
    assert(lex_less_at(a, c, m));
}

proof fn lemma_lex_trichotomy_from(a: Seq<u32>, b: Seq<u32>, i: int)
    requires
        agree_before(a, b, i),
    ensures
        a == b || lex_less(a, b) || lex_less(b, a),
    decreases a.len() - i,
{
    if i == a.len() {
        if i == b.len() {
            assert(a =~= b);
        } else {
            assert(lex_less_at(a, b, i));
        }
    } else if i == b.len() {
        assert(lex_less_at(b, a, i));
    } else if a[i] < b[i] {
        assert(lex_less_at(a, b, i));
    } else if b[i] < a[i] {
        assert(lex_less_at(b, a, i));
    } else {
        lemma_lex_trichotomy_from(a, b, i + 1);
    }
}

/// Of two different tuples one comes before the other.
pub proof fn lemma_lex_trichotomy(a: Seq<u32>, b: Seq<u32>)
    ensures
        a == b || lex_less(a, b) || lex_less(b, a),
{
    lemma_lex_trichotomy_from(a, b, 0);
}

/// The order of records is a strict total order: no record precedes itself,
/// the order is transitive, and of two different records one precedes the
/// other.
pub proof fn lemma_precedes_is_strict_total_order(
    a: (u32, Seq<u32>),
    b: (u32, Seq<u32>),
    c: (u32, Seq<u32>),
)
    ensures
        !precedes(a, a),
        precedes(a, b) && precedes(b, c) ==> precedes(a, c),
        a == b || precedes(a, b) || precedes(b, a),
{
    lemma_lex_irreflexive(a.1);
    if precedes(a, b) && precedes(b, c) && a.0 == b.0 && b.0 == c.0 {
        lemma_lex_transitive(a.1, b.1, c.1);
    }
    lemma_lex_trichotomy(a.1, b.1);
}

/// A record that precedes `y` precedes everything that does not precede `y`.
proof fn lemma_precedes_then_not_after(x: (u32, Seq<u32>), y: (u32, Seq<u32>), z: (u32, Seq<u32>))
    requires
        precedes(x, y),
        !precedes(z, y),
    ensures
        precedes(x, z),
{
    lemma_precedes_is_strict_total_order(x, y, z);
    lemma_precedes_is_strict_total_order(y, z, x);
}

/// Two strictly sorted sequences that hold the same records are equal.
pub proof fn lemma_strictly_sorted_unique(a: Seq<(u32, Seq<u32>)>, b: Seq<(u32, Seq<u32>)>)
    requires
        strictly_sorted(a),
        strictly_sorted(b),
        forall|r: (u32, Seq<u32>)| a.contains(r) <==> b.contains(r),
    ensures
        a == b,
    decreases a.len(),
{
    if a.len() == 0 {
        if b.len() > 0 {
            assert(b.contains(b[0]));
        }
        assert(a =~= b);
    } else {
        assert(a.contains(a[0]));
        assert(b.contains(a[0]));
        let j = choose|j: int| 0 <= j < b.len() && b[j] == a[0];
        assert(b.contains(b[0]));
        let i = choose|i: int| 0 <= i < a.len() && a[i] == b[0];
        lemma_precedes_is_strict_total_order(a[0], b[0], a[0]);
        assert(a[0] == b[0]);
        let a_rest = a.skip(1);
        let b_rest = b.skip(1);
        assert forall|r: (u32, Seq<u32>)| a_rest.contains(r) <==> b_rest.contains(r) by {
            lemma_precedes_is_strict_total_order(a[0], a[0], a[0]);
            if a_rest.contains(r) {
                let p = choose|p: int| 0 <= p < a_rest.len() && a_rest[p] == r;
                assert(a[p + 1] == r);
                assert(a.contains(r));
                let q = choose|q: int| 0 <= q < b.len() && b[q] == r;
                assert(precedes(a[0], a[p + 1]));
                assert(q != 0);
                assert(b_rest[q - 1] == r);
            }
            if b_rest.contains(r) {
                let p = choose|p: int| 0 <= p < b_rest.len() && b_rest[p] == r;
                assert(b[p + 1] == r);
                assert(b.contains(r));
                let q = choose|q: int| 0 <= q < a.len() && a[q] == r;
                assert(precedes(b[0], b[p + 1]));
                assert(q != 0);
                assert(a_rest[q - 1] == r);
            }
        }
        assert forall|s: int, t: int| 0 <= s < t < a_rest.len() implies precedes(
            a_rest[s],
            a_rest[t],
        ) by {
            assert(precedes(a[s + 1], a[t + 1]));
        }
        assert forall|s: int, t: int| 0 <= s < t < b_rest.len() implies precedes(
            b_rest[s],
            b_rest[t],
        ) by {
            assert(precedes(b[s + 1], b[t + 1]));
        }
        lemma_strictly_sorted_unique(a_rest, b_rest);
        assert(a =~= seq![a[0]] + a_rest);
        assert(b =~= seq![b[0]] + b_rest);
    }
}

/// The order of the result does not depend on the order of arrival: two sorted
/// sequences that hold the same records equally often are equal.
pub proof fn lemma_sorted_unique(a: Seq<(u32, Seq<u32>)>, b: Seq<(u32, Seq<u32>)>)
    requires
        sorted(a),
        sorted(b),
        a.to_multiset() == b.to_multiset(),
    ensures
        a == b,
    decreases a.len(),
{
    broadcast use group_to_multiset_ensures;

    assert(a.to_multiset().len() == a.len());
    assert(b.to_multiset().len() == b.len());
    if a.len() == 0 {
        assert(a =~= b);
    } else {
        assert(a.contains(a[0]));
        assert(b.to_multiset().count(a[0]) > 0);
        assert(b.contains(a[0]));
        let j = choose|j: int| 0 <= j < b.len() && b[j] == a[0];
        assert(b.contains(b[0]));
        assert(a.to_multiset().count(b[0]) > 0);
        assert(a.contains(b[0]));
        let i = choose|i: int| 0 <= i < a.len() && a[i] == b[0];
        lemma_precedes_is_strict_total_order(a[0], b[0], a[0]);
        assert(a[0] == b[0]);
        let a_rest = a.remove(0);
        let b_rest = b.remove(0);
        assert(a_rest.to_multiset() =~= b_rest.to_multiset());
        assert forall|s: int, t: int| 0 <= s < t < a_rest.len() implies !precedes(
            a_rest[t],
            a_rest[s],
        ) by {
            assert(a_rest[s] == a[s + 1] && a_rest[t] == a[t + 1]);
        }
        assert forall|s: int, t: int| 0 <= s < t < b_rest.len() implies !precedes(
            b_rest[t],
            b_rest[s],
        ) by {
            assert(b_rest[s] == b[s + 1] && b_rest[t] == b[t + 1]);
        }
        lemma_sorted_unique(a_rest, b_rest);
        assert(a =~= seq![a[0]] + a_rest);
        assert(b =~= seq![b[0]] + b_rest);
    }
}

/// A sorted sequence that holds no record twice is strictly sorted.
pub proof fn lemma_sorted_without_duplicates(s: Seq<(u32, Seq<u32>)>)
    requires
        sorted(s),
        s.no_duplicates(),
    ensures
        strictly_sorted(s),
{
    assert forall|i: int, j: int| 0 <= i < j < s.len() implies precedes(s[i], s[j]) by {
        lemma_precedes_is_strict_total_order(s[i], s[j], s[i]);
    }
}

/// Compares two exponent tuples lexicographically.
pub fn exponents_less(a: &Vec<u32>, b: &Vec<u32>) -> (less: bool)
    ensures
        less == lex_less(a@, b@),
{
    let mut i: usize = 0;
    while i < a.len() && i < b.len()
        invariant
            agree_before(a@, b@, i as int),
        decreases a.len() - i,
    {
        if a[i] != b[i] {
            proof {
                lemma_lex_irreflexive(a@);
                if a@[i as int] < b@[i as int] {
                    assert(lex_less_at(a@, b@, i as int));
                } else {
                    assert(lex_less_at(b@, a@, i as int));
                    if lex_less(a@, b@) {
                        lemma_lex_transitive(a@, b@, a@);
                    }
                }
            }
            return a[i] < b[i];
        }
        i = i + 1;
    }
    proof {
        lemma_lex_irreflexive(a@);
        if a.len() < b.len() {
            assert(lex_less_at(a@, b@, i as int));
        } else if a.len() == b.len() {
            assert(a@ =~= b@);
        } else {
            assert(lex_less_at(b@, a@, i as int));
            if lex_less(a@, b@) {
                lemma_lex_transitive(a@, b@, a@);
            }
        }
    }
    a.len() < b.len()
}

/// Tells whether record `a` comes strictly before record `b`.
pub fn output_precedes(a: &Output, b: &Output) -> (before: bool)
    ensures
        before == precedes(a@, b@),
{
    a.level < b.level || (a.level == b.level && exponents_less(&a.exponents, &b.exponents))
}

/// The position at which `x` can be put into the sorted vector `v`: after all
/// records that do not come after it.
fn insertion_point(v: &Vec<Output>, x: &Output) -> (pos: usize)
    requires
        sorted(records(v@)),
    ensures
        pos <= v.len(),
        forall|i: int| 0 <= i < pos ==> !precedes(x@, #[trigger] v@[i]@),
        forall|i: int| pos <= i < v.len() ==> precedes(x@, #[trigger] v@[i]@),
{
    let mut lo: usize = 0;
    let mut hi: usize = v.len();
    while lo < hi
        invariant
            lo <= hi <= v.len(),
            sorted(records(v@)),
            forall|i: int| 0 <= i < lo ==> !precedes(x@, #[trigger] v@[i]@),
            forall|i: int| hi <= i < v.len() ==> precedes(x@, #[trigger] v@[i]@),
        decreases hi - lo,
    {
        let mid = lo + (hi - lo) / 2;
        if output_precedes(x, &v[mid]) {
            assert forall|i: int| mid <= i < v.len() implies precedes(x@, #[trigger] v@[i]@) by {
                if i > mid {
                    assert(!precedes(records(v@)[i], records(v@)[mid as int]));
                    lemma_precedes_then_not_after(x@, v@[mid as int]@, v@[i]@);
                }
            }
            hi = mid;
        } else {
            assert forall|i: int| 0 <= i < mid + 1 implies !precedes(x@, #[trigger] v@[i]@) by {
                if i < mid && precedes(x@, v@[i]@) {
                    assert(!precedes(records(v@)[mid as int], records(v@)[i]));
                    lemma_precedes_then_not_after(x@, v@[i]@, v@[mid as int]@);
                }
            }
            lo = mid + 1;
        }
    }
    lo
}

/// Puts the records into the total order.  The result holds each record as
/// often as the input does.
pub fn aggregate(outputs: Vec<Output>) -> (ordered: Vec<Output>)
    ensures
        sorted(records(ordered@)),
        records(ordered@).to_multiset() == records(outputs@).to_multiset(),
{
    let ghost all = records(outputs@);
    let mut rest = outputs;
    let mut ordered: Vec<Output> = Vec::new();
    proof {
        broadcast use group_to_multiset_ensures;
        assert(records(ordered@) =~= Seq::empty());
        assert(records(ordered@).to_multiset().add(records(rest@).to_multiset()) =~= all.to_multiset());
    }
    loop
        invariant
            sorted(records(ordered@)),
            records(ordered@).to_multiset().add(records(rest@).to_multiset()) == all.to_multiset(),
        ensures
            rest@.len() == 0,
        decreases rest@.len(),
    {
        let ghost rest_before = records(rest@);
        let ghost ordered_before = records(ordered@);
        match rest.pop() {
            None => {
                break ;
            },
            Some(x) => {
                let pos = insertion_point(&ordered, &x);
                ordered.insert(pos, x);
                proof {
                    broadcast use group_to_multiset_ensures;
                    assert(rest_before =~= records(rest@).push(x@));
                    assert(records(ordered@) =~= ordered_before.insert(pos as int, x@));
                    assert(records(ordered@).to_multiset() =~= ordered_before.to_multiset().insert(
                        x@,
                    ));
                    assert(rest_before.to_multiset() =~= records(rest@).to_multiset().insert(x@));
                    assert(records(ordered@).to_multiset().add(records(rest@).to_multiset())
                        =~= ordered_before.to_multiset().add(rest_before.to_multiset()));
                    let now = records(ordered@);
                    assert forall|i: int, j: int| 0 <= i < j < now.len() implies !precedes(
                        now[j],
                        now[i],
                    ) by {
                        lemma_precedes_is_strict_total_order(now[i], now[j], now[i]);
                        if j < pos {
                            assert(now[i] == ordered_before[i] && now[j] == ordered_before[j]);
                        } else if j == pos {
                            assert(now[i] == ordered_before[i]);
                        } else if i < pos {
                            assert(now[i] == ordered_before[i] && now[j] == ordered_before[j - 1]);
                        } else if i == pos {
                            assert(now[j] == ordered_before[j - 1]);
                        } else {
                            assert(now[i] == ordered_before[i - 1] && now[j] == ordered_before[j
                                - 1]);
                        }
                    }
                }
            },
        }
    }
    proof {
        assert(records(rest@) =~= Seq::empty());
        assert(records(ordered@).to_multiset().add(records(rest@).to_multiset()) =~= records(
            ordered@,
        ).to_multiset());
    }
    ordered
}

} // verus!
