//! What a search is about: the tuples that it generates, and what it means for
//! a list of tuples to hold the survivors among them.

use vstd::prelude::*;
use crate::aggregator::Output;
use crate::cassels::{may_discard, may_keep};
use crate::constants::LevelConstants;
use crate::divisibility::{greatest_common_divisor, is_proper_divisor};

verus! {

/// `x` lies in `[from, level)` and, unless `lenient` holds, shares a divisor of
/// at least `bound` with `level`.
pub open spec fn admits(level: u32, bound: u32, from: u32, lenient: bool, x: u32) -> bool {
    from <= x < level && (lenient || greatest_common_divisor(x as nat, level as nat) >= bound)
}

/// The tuples that the search generates for the modulus `level` and the length
/// limit `max_len`: they begin with 0, continue with a proper divisor `j2` of
/// the modulus and with any `j3` below the modulus whose greatest common
/// divisor with the modulus is at least `j2`, and end with a non-decreasing run
/// of values in `[j3, level)`, each of which meets the same bound on its
/// greatest common divisor unless `j2` is 1.
pub open spec fn admissible(level: u32, max_len: usize, l: Seq<u32>) -> bool {
    &&& 3 <= l.len() <= max_len
    &&& l[0] == 0
    &&& is_proper_divisor(l[1], level)
    &&& admits(level, l[1], 0, false, l[2])
    &&& forall|i: int| 3 <= i < l.len() ==> admits(level, l[1], l[2], l[1] == 1, #[trigger] l[i])
    &&& forall|i: int, j: int| 3 <= i <= j < l.len() ==> l[i] <= l[j]
}

/// Every exponent of an admissible tuple lies below the modulus, and from the
/// third entry on the exponents do not decrease.
pub proof fn lemma_admissible_exponents(level: u32, max_len: usize, l: Seq<u32>)
    requires
        admissible(level, max_len, l),
    ensures
        forall|i: int| 0 <= i < l.len() ==> l[i] < level,
        forall|i: int, j: int| 2 <= i <= j < l.len() ==> l[i] <= l[j],
{
    assert forall|i: int| 0 <= i < l.len() implies l[i] < level by {
        if i >= 3 {
            assert(admits(level, l[1], l[2], l[1] == 1, l[i]));
        }
    }
    assert forall|i: int, j: int| 2 <= i <= j < l.len() implies l[i] <= l[j] by {
        if i == 2 && j >= 3 {
            assert(admits(level, l[1], l[2], l[1] == 1, l[j]));
        }
    }
}

/// The admissible tuples of one wave: those whose second entry is `j2`.
pub open spec fn in_wave(level: u32, max_len: usize, j2: u32, l: Seq<u32>) -> bool {
    admissible(level, max_len, l) && l[1] == j2
}

/// The admissible tuples of one unit: those that begin with 0, `j2`, `j3`.
pub open spec fn in_unit(level: u32, max_len: usize, j2: u32, j3: u32, l: Seq<u32>) -> bool {
    admissible(level, max_len, l) && l[1] == j2 && l[2] == j3
}

/// The tuple that begins with 0, `j2`, `j3` and continues with `tail`.
pub open spec fn tuple_of(j2: u32, j3: u32, tail: Seq<u32>) -> Seq<u32> {
    seq![0u32, j2, j3] + tail
}

/// The exponent tuples of the records of `out`.
pub open spec fn tuples(out: Seq<Output>) -> Seq<Seq<u32>> {
    out.map_values(|o: Output| o.exponents@)
}

/// Every record of `out` carries the modulus `level`.
pub open spec fn all_at_level(out: Seq<Output>, level: u32) -> bool {
    forall|i: int| 0 <= i < out.len() ==> (#[trigger] out[i]).level == level
}

/// `out` is a possible list of survivors among the tuples of `domain`: it
/// holds no tuple twice, each of its tuples lies in the domain and was kept by
/// some run of the discard predicate, and each tuple of the domain that it
/// lacks was discarded by some run.  When `reaches_cutoff` has one possible
/// answer for every conjugate, this fixes the set of tuples in `out`.
pub open spec fn survivors_of<F: Fn(&Vec<usize>) -> bool>(
    out: Seq<Seq<u32>>,
    domain: spec_fn(Seq<u32>) -> bool,
    c: LevelConstants,
    reaches_cutoff: F,
) -> bool {
    &&& out.no_duplicates()
    &&& forall|i: int|
        0 <= i < out.len() ==> domain(#[trigger] out[i]) && may_keep(out[i], c, reaches_cutoff)
    &&& forall|l: Seq<u32>| #[trigger]
        domain(l) ==> out.contains(l) || may_discard(l, c, reaches_cutoff)
}

/// Survivors of two disjoint domains, put one after the other, are survivors of
/// the union of the domains.
pub proof fn lemma_survivors_join<F: Fn(&Vec<usize>) -> bool>(
    first: Seq<Seq<u32>>,
    second: Seq<Seq<u32>>,
    first_domain: spec_fn(Seq<u32>) -> bool,
    second_domain: spec_fn(Seq<u32>) -> bool,
    domain: spec_fn(Seq<u32>) -> bool,
    c: LevelConstants,
    reaches_cutoff: F,
)
    requires
        survivors_of(first, first_domain, c, reaches_cutoff),
        survivors_of(second, second_domain, c, reaches_cutoff),
        forall|l: Seq<u32>| !(#[trigger] first_domain(l) && second_domain(l)),
        forall|l: Seq<u32>| #[trigger] domain(l) <==> first_domain(l) || second_domain(l),
    ensures
        survivors_of(first + second, domain, c, reaches_cutoff),
{
    let out = first + second;
    assert forall|i: int, j: int| 0 <= i < j < out.len() implies out[i] != out[j] by {
        if i < first.len() && j >= first.len() {
            assert(first_domain(first[i]));
            assert(second_domain(second[j - first.len()]));
        }
    }
    assert forall|i: int| 0 <= i < out.len() implies domain(#[trigger] out[i]) && may_keep(
        out[i],
        c,
        reaches_cutoff,
    ) by {
        if i < first.len() {
            assert(first_domain(first[i]));
        } else {
            assert(second_domain(second[i - first.len()]));
        }
    }
    assert forall|l: Seq<u32>| #[trigger] domain(l) implies out.contains(l) || may_discard(
        l,
        c,
        reaches_cutoff,
    ) by {
        if first_domain(l) && first.contains(l) {
            let i = choose|i: int| 0 <= i < first.len() && first[i] == l;
            assert(out[i] == l);
        }
        if second_domain(l) && second.contains(l) {
            let i = choose|i: int| 0 <= i < second.len() && second[i] == l;
            assert(out[first.len() + i] == l);
        }
    }
}

/// The domain of one unit, as a predicate on tuples.
pub open spec fn unit_domain(level: u32, max_len: usize, j2: u32, j3: u32) -> spec_fn(
    Seq<u32>,
) -> bool {
    |l: Seq<u32>| in_unit(level, max_len, j2, j3, l)
}

/// The domain of one wave, as a predicate on tuples.
pub open spec fn wave_domain(level: u32, max_len: usize, j2: u32) -> spec_fn(Seq<u32>) -> bool {
    |l: Seq<u32>| in_wave(level, max_len, j2, l)
}

/// The domain of a whole search, as a predicate on tuples.
pub open spec fn search_domain(level: u32, max_len: usize) -> spec_fn(Seq<u32>) -> bool {
    |l: Seq<u32>| admissible(level, max_len, l)
}

/// Survivors of a domain are survivors of any domain with the same tuples.
pub proof fn lemma_survivors_same_domain<F: Fn(&Vec<usize>) -> bool>(
    out: Seq<Seq<u32>>,
    domain: spec_fn(Seq<u32>) -> bool,
    other: spec_fn(Seq<u32>) -> bool,
    c: LevelConstants,
    reaches_cutoff: F,
)
    requires
        survivors_of(out, domain, c, reaches_cutoff),
        forall|l: Seq<u32>| #[trigger] domain(l) <==> #[trigger] other(l),
    ensures
        survivors_of(out, other, c, reaches_cutoff),
{
    assert forall|i: int| 0 <= i < out.len() implies other(#[trigger] out[i]) && may_keep(
        out[i],
        c,
        reaches_cutoff,
    ) by {
        assert(domain(out[i]));
    }
    assert forall|l: Seq<u32>| #[trigger] other(l) implies out.contains(l) || may_discard(
        l,
        c,
        reaches_cutoff,
    ) by {
        assert(domain(l));
    }
}

} // verus!
