//! The search for candidates: which tuples are generated, which of them are
//! discarded, and what is handed on.

use vstd::prelude::*;
use crate::aggregator::{
    aggregate,
    lemma_sorted_without_duplicates,
    lemma_strictly_sorted_unique,
    records,
    sorted,
    strictly_sorted,
    Output,
};
use crate::combinations::{
    is_selection,
    lemma_selections,
    next_combination,
    pending,
    selections,
    start_combinations,
    MAX_CHOICES,
};
use crate::constants::{constants_of, modulus_of, LevelConstants};
use crate::cyclotomic::{
    accepts,
    castle_verdict,
    lemma_castle_verdict_unique,
    single_valued,
    CyclotomicInteger,
};
use crate::divisibility::{gcd_u32, is_proper_divisor, proper_divisors, strictly_increasing};
use crate::rules::{is_redundant, is_settled, redundant, settled};
use crate::survivors::{
    admissible,
    admits,
    all_at_level,
    in_unit,
    in_wave,
    lemma_survivors_join,
    lemma_survivors_same_domain,
    search_domain,
    survivors_of,
    tuple_of,
    tuples,
    unit_domain,
    wave_domain,
};

verus! {

/// Some run of the discard predicate on `l` keeps it: no rule before the castle
/// applies, every conjugate was answered to stay below the cutoff, and no rule
/// after the castle applies.
pub open spec fn may_keep<F: Fn(&Vec<usize>) -> bool>(
    l: Seq<u32>,
    c: LevelConstants,
    reaches_cutoff: F,
) -> bool {
    &&& !redundant(l, c)
    &&& castle_verdict(l, c.level, reaches_cutoff, true)
    &&& !settled(l, c)
}

/// Some run of the discard predicate on `l` discards it: a rule before the
/// castle applies, or some conjugate was answered to reach the cutoff, or the
/// castle was found below the cutoff and a rule after it applies.
pub open spec fn may_discard<F: Fn(&Vec<usize>) -> bool>(
    l: Seq<u32>,
    c: LevelConstants,
    reaches_cutoff: F,
) -> bool {
    ||| redundant(l, c)
    ||| castle_verdict(l, c.level, reaches_cutoff, false)
    ||| castle_verdict(l, c.level, reaches_cutoff, true) && settled(l, c)
}

/// Decides whether a cyclotomic integer can be left out of the candidates.
///
/// The rules are tried in a fixed order and the first that applies decides:
/// conjugation redundancy, sign pairs, cube-root pairs, fifth-root chains, then
/// the castle bound, then the exclusions for three and for four terms, then
/// seventh-root chains.  `reaches_cutoff` is asked about conjugates only when
/// none of the first four rules applies.
pub fn discard_candidate<F: Fn(&Vec<usize>) -> bool>(
    cyclotomic_integer: &CyclotomicInteger,
    n_values: &LevelConstants,
    reaches_cutoff: &F,
) -> (discard: bool)
    requires
        cyclotomic_integer.exponents@.len() >= 3,
        n_values.level > 0,
        cyclotomic_integer.level == n_values.level,
        accepts(*reaches_cutoff, n_values.level),
    ensures
        discard ==> may_discard(cyclotomic_integer.exponents@, *n_values, *reaches_cutoff),
        !discard ==> may_keep(cyclotomic_integer.exponents@, *n_values, *reaches_cutoff),
{
    let l = cyclotomic_integer.exponents;
    if is_redundant(l, n_values) {
        return true;
    }
    if !cyclotomic_integer.castle_strictly_less(reaches_cutoff) {
        return true;
    }
    is_settled(l, n_values)
}

/// The values of `[from, level)` that `admits` accepts, in increasing order.
pub fn admitted_values(level: u32, bound: u32, from: u32, lenient: bool) -> (vs: Vec<u32>)
    ensures
        strictly_increasing(vs@),
        forall|x: u32| vs@.contains(x) <==> admits(level, bound, from, lenient, x),
{
    let mut vs: Vec<u32> = Vec::new();
    let mut x: u32 = from;
    while x < level
        invariant
            from <= x,
            strictly_increasing(vs@),
            forall|i: int| 0 <= i < vs.len() ==> vs[i] < x,
            forall|y: u32| vs@.contains(y) <==> admits(level, bound, from, lenient, y) && y < x,
        decreases level - x,
    {
        if lenient || gcd_u32(x, level) >= bound {
            let ghost before = vs@;
            vs.push(x);
            assert(vs@[before.len() as int] == x);
            assert forall|y: u32| vs@.contains(y) <==> admits(level, bound, from, lenient, y) && y
                < x + 1 by {
                if vs@.contains(y) {
                    let i = choose|i: int| 0 <= i < vs@.len() && vs@[i] == y;
                    if i < before.len() {
                        assert(before[i] == y);
                        assert(before.contains(y));
                    }
                }
                if admits(level, bound, from, lenient, y) && y < x {
                    assert(before.contains(y));
                    let i = choose|i: int| 0 <= i < before.len() && before[i] == y;
                    assert(vs@[i] == y);
                }
            }
        }
        x = x + 1;
    }
    vs
}

/// The part of a unit that has been dealt with when all tuples shorter than
/// `len` and the first `done` tuples of length `len` have been classified;
/// `tails` lists what follows after the first three entries in the tuples of
/// length `len`.
spec fn unit_progress(
    level: u32,
    max_len: usize,
    j2: u32,
    j3: u32,
    len: nat,
    tails: Seq<Seq<u32>>,
    done: int,
) -> spec_fn(Seq<u32>) -> bool {
    |l: Seq<u32>|
        in_unit(level, max_len, j2, j3, l) && (l.len() < len || (l.len() == len && exists|i: int|
            0 <= i < done && l == tuple_of(j2, j3, #[trigger] tails[i])))
}

/// A selection from the pool of a unit, put after 0, `j2`, `j3`, is a tuple of
/// the unit.
proof fn lemma_selection_in_unit(
    level: u32,
    max_len: usize,
    j2: u32,
    j3: u32,
    pool: Seq<u32>,
    tail: Seq<u32>,
)
    requires
        is_proper_divisor(j2, level),
        admits(level, j2, 0, false, j3),
        forall|x: u32| pool.contains(x) <==> admits(level, j2, j3, j2 == 1, x),
        tail.len() + 3 <= max_len,
        is_selection(pool, tail.len(), tail),
    ensures
        in_unit(level, max_len, j2, j3, tuple_of(j2, j3, tail)),
        tuple_of(j2, j3, tail).len() == tail.len() + 3,
        tuple_of(j2, j3, tail).skip(3) == tail,
{
    let l = tuple_of(j2, j3, tail);
    assert(l.skip(3) =~= tail);
    assert forall|i: int| 3 <= i < l.len() implies admits(
        level,
        l[1],
        l[2],
        l[1] == 1,
        #[trigger] l[i],
    ) by {
        assert(l[i] == tail[i - 3]);
        assert(pool.contains(tail[i - 3]));
    }
    assert forall|i: int, j: int| 3 <= i <= j < l.len() implies l[i] <= l[j] by {
        assert(l[i] == tail[i - 3] && l[j] == tail[j - 3]);
    }
}

/// A tuple of a unit consists of 0, `j2`, `j3` and a selection from the pool of
/// the unit.
proof fn lemma_unit_is_selection(
    level: u32,
    max_len: usize,
    j2: u32,
    j3: u32,
    pool: Seq<u32>,
    l: Seq<u32>,
)
    requires
        forall|x: u32| pool.contains(x) <==> admits(level, j2, j3, j2 == 1, x),
        in_unit(level, max_len, j2, j3, l),
    ensures
        is_selection(pool, (l.len() - 3) as nat, l.skip(3)),
        l == tuple_of(j2, j3, l.skip(3)),
{
    let tail = l.skip(3);
    assert(l =~= tuple_of(j2, j3, tail));
    assert forall|i: int| 0 <= i < tail.len() implies pool.contains(#[trigger] tail[i]) by {
        assert(tail[i] == l[i + 3]);
        assert(admits(level, l[1], l[2], l[1] == 1, l[i + 3]));
    }
    assert forall|i: int, j: int| 0 <= i <= j < tail.len() implies tail[i] <= tail[j] by {
        assert(tail[i] == l[i + 3] && tail[j] == l[j + 3]);
    }
}

/// Classifies every tuple of the unit that begins with 0, `j2`, `j3` and
/// returns those that are not discarded, as records of the modulus.
pub fn unit_survivors<F: Fn(&Vec<usize>) -> bool>(
    n_values: &LevelConstants,
    max_len: usize,
    j2: u32,
    j3: u32,
    reaches_cutoff: &F,
) -> (out: Vec<Output>)
    requires
        n_values.level > 0,
        max_len <= MAX_CHOICES,
        is_proper_divisor(j2, n_values.level),
        admits(n_values.level, j2, 0, false, j3),
        accepts(*reaches_cutoff, n_values.level),
    ensures
        survivors_of(
            tuples(out@),
            unit_domain(n_values.level, max_len, j2, j3),
            *n_values,
            *reaches_cutoff,
        ),
        all_at_level(out@, n_values.level),
{
    let level = n_values.level;
    let pool = admitted_values(level, j2, j3, j2 == 1);
    let mut out: Vec<Output> = Vec::new();
    let mut len: usize = 3;
    assert(survivors_of(
        tuples(out@),
        unit_progress(level, max_len, j2, j3, 3, Seq::empty(), 0),
        *n_values,
        *reaches_cutoff,
    ));
    while len <= max_len
        invariant
            3 <= len,
            len <= max_len + 1 || max_len < 3,
            max_len <= MAX_CHOICES,
            level == n_values.level,
            level > 0,
            is_proper_divisor(j2, level),
            admits(level, j2, 0, false, j3),
            accepts(*reaches_cutoff, level),
            strictly_increasing(pool@),
            forall|x: u32| pool@.contains(x) <==> admits(level, j2, j3, j2 == 1, x),
            all_at_level(out@, level),
            survivors_of(
                tuples(out@),
                unit_progress(level, max_len, j2, j3, len as nat, Seq::empty(), 0),
                *n_values,
                *reaches_cutoff,
            ),
        decreases max_len + 1 - len,
    {
        let ghost tails = selections(pool@, (len - 3) as nat);
        let ghost mut done: int = 0;
        let pool_copy = pool.clone();
        assert(pool_copy@ =~= pool@);
        let mut combos = start_combinations(pool_copy, len - 3);
        proof {
            lemma_selections(pool@, (len - 3) as nat);
            lemma_survivors_same_domain(
                tuples(out@),
                unit_progress(level, max_len, j2, j3, len as nat, Seq::empty(), 0),
                unit_progress(level, max_len, j2, j3, len as nat, tails, 0),
                *n_values,
                *reaches_cutoff,
            );
        }
        loop
            invariant_except_break
                0 <= done <= tails.len(),
                pending(combos) == tails.skip(done),
            invariant
                3 <= len <= max_len,
                level == n_values.level,
                level > 0,
                is_proper_divisor(j2, level),
                admits(level, j2, 0, false, j3),
                accepts(*reaches_cutoff, level),
                forall|x: u32| pool@.contains(x) <==> admits(level, j2, j3, j2 == 1, x),
                tails == selections(pool@, (len - 3) as nat),
                tails.no_duplicates(),
                all_at_level(out@, level),
                forall|t: Seq<u32>| #[trigger]
                    tails.contains(t) <==> is_selection(pool@, (len - 3) as nat, t),
                survivors_of(
                    tuples(out@),
                    unit_progress(level, max_len, j2, j3, len as nat, tails, done),
                    *n_values,
                    *reaches_cutoff,
                ),
            ensures
                done == tails.len(),
            decreases tails.len() - done,
        {
            let next = next_combination(&mut combos);
            match next {
                None => {
                    break ;
                },
                Some(tail) => {
                    let ghost chosen = tail@;
                    assert(chosen == tails[done]);
                    assert(tails.contains(chosen));
                    let mut tail = tail;
                    let mut exponents: Vec<u32> = Vec::with_capacity(len);
                    exponents.push(0);
                    exponents.push(j2);
                    exponents.push(j3);
                    exponents.append(&mut tail);
                    let ghost t = tuple_of(j2, j3, chosen);
                    assert(exponents@ =~= t);
                    proof {
                        lemma_selection_in_unit(level, max_len, j2, j3, pool@, chosen);
                    }
                    let cyclotomic_integer = CyclotomicInteger { exponents: &exponents, level };
                    let discard = discard_candidate(&cyclotomic_integer, n_values, reaches_cutoff);
                    let ghost before = tuples(out@);
                    let ghost single = |l: Seq<u32>| l == t;
                    let ghost found = if discard {
                        Seq::<Seq<u32>>::empty()
                    } else {
                        seq![t]
                    };
                    if !discard {
                        out.push(Output { level, exponents });
                        assert(tuples(out@) =~= before + found);
                    } else {
                        assert(tuples(out@) =~= before + found);
                    }
                    proof {
                        let earlier = unit_progress(level, max_len, j2, j3, len as nat, tails, done);
                        let later = unit_progress(
                            level,
                            max_len,
                            j2,
                            j3,
                            len as nat,
                            tails,
                            done + 1,
                        );
                        assert(survivors_of(found, single, *n_values, *reaches_cutoff)) by {
                            if !discard {
                                assert(found[0] == t);
                            }
                        }
                        assert forall|l: Seq<u32>| !(#[trigger] earlier(l) && single(l)) by {
                            if earlier(l) && single(l) {
                                let i = choose|i: int|
                                    0 <= i < done && l == tuple_of(j2, j3, #[trigger] tails[i]);
                                assert(tuple_of(j2, j3, tails[i]).skip(3) =~= tails[i]);
                                assert(tails[i] == tails[done]);
                            }
                        }
                        assert forall|l: Seq<u32>| #[trigger] later(l) <==> earlier(l) || single(
                            l,
                        ) by {
                            if later(l) && !earlier(l) {
                                let i = choose|i: int|
                                    0 <= i < done + 1 && l == tuple_of(j2, j3, #[trigger] tails[i]);
                                assert(i == done);
                            }
                            if single(l) {
                                assert(l == tuple_of(j2, j3, tails[done]));
                            }
                        }
                        lemma_survivors_join(
                            before,
                            found,
                            earlier,
                            single,
                            later,
                            *n_values,
                            *reaches_cutoff,
                        );
                        assert(tails.skip(done).skip(1) =~= tails.skip(done + 1));
                        done = done + 1;
                    }
                },
            }
        }
        proof {
            let finished = unit_progress(level, max_len, j2, j3, len as nat, tails, done);
            let next_len = unit_progress(
                level,
                max_len,
                j2,
                j3,
                (len + 1) as nat,
                Seq::empty(),
                0,
            );
            assert forall|l: Seq<u32>| #[trigger] finished(l) <==> #[trigger] next_len(l) by {
                if next_len(l) && l.len() == len {
                    lemma_unit_is_selection(level, max_len, j2, j3, pool@, l);
                    assert(tails.contains(l.skip(3)));
                    let i = choose|i: int| 0 <= i < tails.len() && tails[i] == l.skip(3);
                    assert(l == tuple_of(j2, j3, tails[i]));
                }
            }
            lemma_survivors_same_domain(
                tuples(out@),
                finished,
                next_len,
                *n_values,
                *reaches_cutoff,
            );
        }
        len = len + 1;
    }
    proof {
        lemma_survivors_same_domain(
            tuples(out@),
            unit_progress(level, max_len, j2, j3, len as nat, Seq::empty(), 0),
            unit_domain(level, max_len, j2, j3),
            *n_values,
            *reaches_cutoff,
        );
    }
    out
}

/// The part of a wave that has been dealt with when the units of the first
/// `done` values of `thirds` are finished.
spec fn wave_progress(level: u32, max_len: usize, j2: u32, thirds: Seq<u32>, done: int) -> spec_fn(
    Seq<u32>,
) -> bool {
    |l: Seq<u32>|
        in_wave(level, max_len, j2, l) && exists|i: int| 0 <= i < done && l[2] == #[trigger] thirds[i]
}

/// The part of a search that has been dealt with when the waves of the first
/// `done` values of `divisors` are finished.
spec fn search_progress(level: u32, max_len: usize, divisors: Seq<u32>, done: int) -> spec_fn(
    Seq<u32>,
) -> bool {
    |l: Seq<u32>|
        admissible(level, max_len, l) && exists|i: int|
            0 <= i < done && l[1] == #[trigger] divisors[i]
}

/// Runs all units of the wave of `j2`, one value of `j3` after the other, and
/// returns their survivors.
pub fn wave_survivors<F: Fn(&Vec<usize>) -> bool>(
    n_values: &LevelConstants,
    max_len: usize,
    j2: u32,
    reaches_cutoff: &F,
) -> (out: Vec<Output>)
    requires
        n_values.level > 0,
        max_len <= MAX_CHOICES,
        is_proper_divisor(j2, n_values.level),
        accepts(*reaches_cutoff, n_values.level),
    ensures
        survivors_of(
            tuples(out@),
            wave_domain(n_values.level, max_len, j2),
            *n_values,
            *reaches_cutoff,
        ),
        all_at_level(out@, n_values.level),
{
    let level = n_values.level;
    let thirds = admitted_values(level, j2, 0, false);
    let mut out: Vec<Output> = Vec::new();
    assert(survivors_of(
        tuples(out@),
        wave_progress(level, max_len, j2, thirds@, 0),
        *n_values,
        *reaches_cutoff,
    ));
    for done in 0..thirds.len()
        invariant
            level == n_values.level,
            level > 0,
            max_len <= MAX_CHOICES,
            is_proper_divisor(j2, level),
            accepts(*reaches_cutoff, level),
            strictly_increasing(thirds@),
            forall|x: u32| thirds@.contains(x) <==> admits(level, j2, 0, false, x),
            all_at_level(out@, level),
            survivors_of(
                tuples(out@),
                wave_progress(level, max_len, j2, thirds@, done as int),
                *n_values,
                *reaches_cutoff,
            ),
    {
        let j3 = thirds[done];
        assert(thirds@.contains(j3));
        let mut unit = unit_survivors(n_values, max_len, j2, j3, reaches_cutoff);
        let ghost before = out@;
        let ghost added = unit@;
        out.append(&mut unit);
        proof {
            let earlier = wave_progress(level, max_len, j2, thirds@, done as int);
            let this_unit = unit_domain(level, max_len, j2, j3);
            let later = wave_progress(level, max_len, j2, thirds@, done + 1);
            assert(tuples(out@) =~= tuples(before) + tuples(added));
            assert forall|l: Seq<u32>| #[trigger] later(l) <==> earlier(l) || this_unit(l) by {
                if later(l) && !earlier(l) {
                    let i = choose|i: int| 0 <= i < done + 1 && l[2] == #[trigger] thirds@[i];
                    assert(i == done);
                }
                if this_unit(l) {
                    assert(l[2] == thirds@[done as int]);
                }
            }
            lemma_survivors_join(
                tuples(before),
                tuples(added),
                earlier,
                this_unit,
                later,
                *n_values,
                *reaches_cutoff,
            );
        }
    }
    proof {
        let finished = wave_progress(level, max_len, j2, thirds@, thirds@.len() as int);
        let whole = wave_domain(level, max_len, j2);
        assert forall|l: Seq<u32>| #[trigger] finished(l) <==> #[trigger] whole(l) by {
            if whole(l) {
                assert(thirds@.contains(l[2]));
                let i = choose|i: int| 0 <= i < thirds@.len() && thirds@[i] == l[2];
                assert(l[2] == thirds@[i]);
            }
        }
        lemma_survivors_same_domain(tuples(out@), finished, whole, *n_values, *reaches_cutoff);
    }
    out
}

/// Putting survivors into the total order keeps them survivors of the same
/// domain, and leaves each record before all later ones.
proof fn lemma_ordered_survivors<F: Fn(&Vec<usize>) -> bool>(
    collected: Seq<Output>,
    ordered: Seq<Output>,
    level: u32,
    domain: spec_fn(Seq<u32>) -> bool,
    c: LevelConstants,
    reaches_cutoff: F,
)
    requires
        survivors_of(tuples(collected), domain, c, reaches_cutoff),
        all_at_level(collected, level),
        sorted(records(ordered)),
        records(ordered).to_multiset() == records(collected).to_multiset(),
    ensures
        survivors_of(tuples(ordered), domain, c, reaches_cutoff),
        all_at_level(ordered, level),
        strictly_sorted(records(ordered)),
{
    broadcast use vstd::seq_lib::group_to_multiset_ensures;

    let from = records(collected);
    let to = records(ordered);
    assert forall|i: int| 0 <= i < ordered.len() implies (#[trigger] ordered[i]).level == level
        && domain(tuples(ordered)[i]) && may_keep(tuples(ordered)[i], c, reaches_cutoff) by {
        assert(to[i] == ordered[i]@);
        assert(to.contains(to[i]));
        assert(to.to_multiset().count(to[i]) > 0);
        assert(from.contains(to[i]));
        let j = choose|j: int| 0 <= j < from.len() && from[j] == to[i];
        assert(from[j] == collected[j]@);
        assert(tuples(collected)[j] == tuples(ordered)[i]);
    }
    assert forall|i: int| 0 <= i < tuples(ordered).len() implies domain(
        #[trigger] tuples(ordered)[i],
    ) && may_keep(tuples(ordered)[i], c, reaches_cutoff) by {
        assert(ordered[i].level == level);
    }
    assert forall|l: Seq<u32>| #[trigger] domain(l) implies tuples(ordered).contains(l)
        || may_discard(l, c, reaches_cutoff) by {
        if tuples(collected).contains(l) {
            let j = choose|j: int| 0 <= j < tuples(collected).len() && tuples(collected)[j] == l;
            let r = collected[j]@;
            assert(from[j] == r);
            assert(from.contains(r));
            assert(from.to_multiset().count(r) > 0);
            assert(to.contains(r));
            let i = choose|i: int| 0 <= i < to.len() && to[i] == r;
            assert(to[i] == ordered[i]@);
            assert(tuples(ordered)[i] == l);
        }
    }
    assert(from.no_duplicates()) by {
        assert forall|i: int, j: int| 0 <= i < from.len() && 0 <= j < from.len() && i
            != j implies from[i] != from[j] by {
            assert(from[i] == collected[i]@ && from[j] == collected[j]@);
            assert(tuples(collected)[i] != tuples(collected)[j]);
        }
    }
    from.lemma_multiset_has_no_duplicates();
    to.lemma_multiset_has_no_duplicates_conv();
    assert forall|i: int, j: int| 0 <= i < tuples(ordered).len() && 0 <= j < tuples(ordered).len()
        && i != j implies tuples(ordered)[i] != tuples(ordered)[j] by {
        assert(ordered[i].level == level && ordered[j].level == level);
        assert(to[i] == ordered[i]@ && to[j] == ordered[j]@);
        assert(to[i] != to[j]);
        if tuples(ordered)[i] == tuples(ordered)[j] {
            assert(ordered[i]@ == ordered[j]@);
        }
    }
    lemma_sorted_without_duplicates(to);
}

/// Searches level `n` for candidates of at most `max_len` terms.
///
/// The modulus is `n` when `n` is even and `2 n` otherwise.  Every admissible
/// tuple for this modulus is generated once, wave by wave over the proper
/// divisors of the modulus, and classified by the discard predicate, with
/// `reaches_cutoff` telling whether a conjugate reaches the cutoff of the
/// castle bound.  The tuples that are not discarded are returned as records
/// of the modulus, each before all records that follow it in the total order.
pub fn get_candidates<F: Fn(&Vec<usize>) -> bool>(n: u32, max_len: usize, reaches_cutoff: &F) -> (outputs:
    Vec<Output>)
    requires
        n >= 1,
        modulus_of(n) <= u32::MAX,
        max_len <= MAX_CHOICES,
        accepts(*reaches_cutoff, modulus_of(n) as u32),
    ensures
        strictly_sorted(records(outputs@)),
        all_at_level(outputs@, modulus_of(n) as u32),
        survivors_of(
            tuples(outputs@),
            search_domain(modulus_of(n) as u32, max_len),
            constants_of(n),
            *reaches_cutoff,
        ),
{
    let n_values = LevelConstants::new(n);
    let level = n_values.level;
    let divisors = proper_divisors(level);
    let mut collected: Vec<Output> = Vec::new();
    assert(survivors_of(
        tuples(collected@),
        search_progress(level, max_len, divisors@, 0),
        n_values,
        *reaches_cutoff,
    ));
    for done in 0..divisors.len()
        invariant
            level == n_values.level,
            level > 0,
            max_len <= MAX_CHOICES,
            accepts(*reaches_cutoff, level),
            strictly_increasing(divisors@),
            forall|d: u32| divisors@.contains(d) <==> is_proper_divisor(d, level),
            all_at_level(collected@, level),
            survivors_of(
                tuples(collected@),
                search_progress(level, max_len, divisors@, done as int),
                n_values,
                *reaches_cutoff,
            ),
    {
        let j2 = divisors[done];
        assert(divisors@.contains(j2));
        let mut wave = wave_survivors(&n_values, max_len, j2, reaches_cutoff);
        let ghost before = collected@;
        let ghost added = wave@;
        collected.append(&mut wave);
        proof {
            let earlier = search_progress(level, max_len, divisors@, done as int);
            let this_wave = wave_domain(level, max_len, j2);
            let later = search_progress(level, max_len, divisors@, done + 1);
            assert(tuples(collected@) =~= tuples(before) + tuples(added));
            assert forall|l: Seq<u32>| #[trigger] later(l) <==> earlier(l) || this_wave(l) by {
                if later(l) && !earlier(l) {
                    let i = choose|i: int| 0 <= i < done + 1 && l[1] == #[trigger] divisors@[i];
                    assert(i == done);
                }
                if this_wave(l) {
                    assert(l[1] == divisors@[done as int]);
                }
            }
            lemma_survivors_join(
                tuples(before),
                tuples(added),
                earlier,
                this_wave,
                later,
                n_values,
                *reaches_cutoff,
            );
        }
    }
    proof {
        let finished = search_progress(level, max_len, divisors@, divisors@.len() as int);
        let whole = search_domain(level, max_len);
        assert forall|l: Seq<u32>| #[trigger] finished(l) <==> #[trigger] whole(l) by {
            if whole(l) {
                assert(divisors@.contains(l[1]));
                let i = choose|i: int| 0 <= i < divisors@.len() && divisors@[i] == l[1];
                assert(l[1] == divisors@[i]);
            }
        }
        lemma_survivors_same_domain(tuples(collected@), finished, whole, n_values, *reaches_cutoff);
    }
    let ghost gathered = collected@;
    let outputs = aggregate(collected);
    proof {
        lemma_ordered_survivors(
            gathered,
            outputs@,
            level,
            search_domain(level, max_len),
            n_values,
            *reaches_cutoff,
        );
    }
    outputs
}

/// The discard predicate is a function of the tuple and the constants: with a
/// single-valued comparison, two runs on tuples of the same contents give the
/// same verdict.
pub proof fn lemma_discard_is_pure<F: Fn(&Vec<usize>) -> bool>(
    l: Seq<u32>,
    c: LevelConstants,
    reaches_cutoff: F,
    first: bool,
    second: bool,
)
    requires
        single_valued(reaches_cutoff),
        first ==> may_discard(l, c, reaches_cutoff),
        !first ==> may_keep(l, c, reaches_cutoff),
        second ==> may_discard(l, c, reaches_cutoff),
        !second ==> may_keep(l, c, reaches_cutoff),
    ensures
        first == second,
{
    lemma_castle_verdict_unique(l, c.level, reaches_cutoff);
}

/// A search is deterministic: with a single-valued comparison, two results
/// that each hold the survivors of the same domain at the same modulus, in
/// strict order, are the same sequence of records.
pub proof fn lemma_search_is_deterministic<F: Fn(&Vec<usize>) -> bool>(
    first: Seq<Output>,
    second: Seq<Output>,
    level: u32,
    domain: spec_fn(Seq<u32>) -> bool,
    c: LevelConstants,
    reaches_cutoff: F,
)
    requires
        single_valued(reaches_cutoff),
        strictly_sorted(records(first)),
        all_at_level(first, level),
        survivors_of(tuples(first), domain, c, reaches_cutoff),
        strictly_sorted(records(second)),
        all_at_level(second, level),
        survivors_of(tuples(second), domain, c, reaches_cutoff),
    ensures
        records(first) == records(second),
{
    lemma_survivors_contained(first, second, level, domain, c, reaches_cutoff);
    lemma_survivors_contained(second, first, level, domain, c, reaches_cutoff);
    lemma_strictly_sorted_unique(records(first), records(second));
}

/// With a single-valued comparison, every record of one list of survivors
/// occurs in any other list of survivors of the same domain.
proof fn lemma_survivors_contained<F: Fn(&Vec<usize>) -> bool>(
    first: Seq<Output>,
    second: Seq<Output>,
    level: u32,
    domain: spec_fn(Seq<u32>) -> bool,
    c: LevelConstants,
    reaches_cutoff: F,
)
    requires
        single_valued(reaches_cutoff),
        all_at_level(first, level),
        survivors_of(tuples(first), domain, c, reaches_cutoff),
        all_at_level(second, level),
        survivors_of(tuples(second), domain, c, reaches_cutoff),
    ensures
        forall|r: (u32, Seq<u32>)| records(first).contains(r) ==> records(second).contains(r),
{
    assert forall|r: (u32, Seq<u32>)| records(first).contains(r) implies records(second).contains(
        r,
    ) by {
        let i = choose|i: int| 0 <= i < records(first).len() && records(first)[i] == r;
        let l = tuples(first)[i];
        assert(first[i]@ == r);
        assert(first[i].level == level);
        assert(domain(l) && may_keep(l, c, reaches_cutoff));
        lemma_castle_verdict_unique(l, c.level, reaches_cutoff);
        assert(tuples(second).contains(l));
        let j = choose|j: int| 0 <= j < tuples(second).len() && tuples(second)[j] == l;
        assert(second[j].level == level);
        assert(records(second)[j] == r);
    }
}

} // verus!
