//! The integer rules by which an exponent tuple is discarded.
//!
//! A tuple `l` stands for the sum `z^{l[0]} + ... + z^{l[len - 1]}` of powers of
//! a primitive root of unity `z` whose order is the modulus.  Each rule below
//! recognises tuples that need no further inspection: either an equivalent
//! tuple is kept elsewhere, or the sum is visibly of one of the forms that
//! Cassels's theorem lists.

use vstd::prelude::*;
use crate::constants::LevelConstants;

verus! {

/// The tuple exceeds its mirror image under `j -> level - j`.
pub open spec fn conjugation_redundant(l: Seq<u32>, c: LevelConstants) -> bool {
    l[2] + l[l.len() - 1] > c.level + l[1]
}

/// The exponent at `hi` equals the exponent at the earlier position `lo` plus `gap`.
pub open spec fn gap_at(l: Seq<u32>, gap: int, hi: int, lo: int) -> bool {
    0 <= lo < hi < l.len() && l[hi] == l[lo] + gap
}

/// Two terms of the sum differ by the factor -1.
pub open spec fn has_sign_pair(l: Seq<u32>, c: LevelConstants) -> bool {
    exists|hi: int, lo: int| gap_at(l, c.half as int, hi, lo)
}

/// The exponent at `hi` equals the exponent at the earlier position `lo` plus
/// `third` or plus twice `third`.
pub open spec fn cube_root_gap_at(l: Seq<u32>, third: u32, hi: int, lo: int) -> bool {
    gap_at(l, third as int, hi, lo) || gap_at(l, 2 * third, hi, lo)
}

/// Two terms of the sum differ by a primitive cube root of unity.
pub open spec fn has_cube_root_pair(l: Seq<u32>, c: LevelConstants) -> bool {
    c.third != 0 && exists|hi: int, lo: int| cube_root_gap_at(l, c.third, hi, lo)
}

/// `hi` exceeds `lo` by a positive multiple of `step`.
pub open spec fn steps_above(hi: u32, lo: u32, step: u32) -> bool {
    hi > lo && (hi - lo) % (step as int) == 0
}

/// Positions `a > b > c` whose exponents descend by positive multiples of `step`.
pub open spec fn chain_of_three(l: Seq<u32>, step: u32, a: int, b: int, c: int) -> bool {
    &&& 0 <= c < b < a < l.len()
    &&& steps_above(l[a], l[b], step)
    &&& steps_above(l[b], l[c], step)
}

/// Positions `a > b > c > d` whose exponents descend by positive multiples of `step`.
pub open spec fn chain_of_four(l: Seq<u32>, step: u32, a: int, b: int, c: int, d: int) -> bool {
    &&& 0 <= d < c < b < a < l.len()
    &&& steps_above(l[a], l[b], step)
    &&& steps_above(l[b], l[c], step)
    &&& steps_above(l[c], l[d], step)
}

/// Three terms of the sum differ pairwise by fifth roots of unity.
pub open spec fn has_fifth_root_chain(l: Seq<u32>, c: LevelConstants) -> bool {
    c.fifth != 0 && exists|i: int, j: int, k: int| chain_of_three(l, c.fifth, i, j, k)
}

/// Four terms of the sum differ pairwise by seventh roots of unity.
pub open spec fn has_seventh_root_chain(l: Seq<u32>, c: LevelConstants) -> bool {
    c.seventh != 0 && exists|i: int, j: int, k: int, m: int|
        chain_of_four(l, c.seventh, i, j, k, m)
}

/// A sum of three terms that is visibly of the second form of Cassels's theorem.
pub open spec fn three_term_exclusion(l: Seq<u32>, c: LevelConstants) -> bool {
    l.len() == 3 && {
        ||| l[2] + l[1] == c.half
        ||| l[2] == c.half + 2 * l[1]
        ||| (2 * l[2]) % (c.level as int) == c.half + l[1]
    }
}

/// For positions `i`, `i1`, `i2` of a four-term tuple: the gaps `l[i] - l[0]`
/// and `l[i2] - l[i1]` are unequal multiples of a fifth of the modulus, neither
/// is negative, and `l[1] - l[0]` and `l[i2] - l[i1]` do not add up to the
/// modulus.
pub open spec fn excluded_split(l: Seq<u32>, c: LevelConstants, i: int, i1: int, i2: int) -> bool {
    &&& l[i] >= l[0]
    &&& l[i2] >= l[i1]
    &&& (l[i] - l[0]) % (c.fifth as int) == 0
    &&& (l[i2] - l[i1]) % (c.fifth as int) == 0
    &&& l[i] - l[0] != l[i2] - l[i1]
    &&& (l[1] - l[0]) + (l[i2] - l[i1]) != c.level
}

/// A sum of four terms that is visibly of the third form of Cassels's theorem.
pub open spec fn four_term_exclusion(l: Seq<u32>, c: LevelConstants) -> bool {
    c.fifth != 0 && l.len() == 4 && {
        ||| excluded_split(l, c, 1, 2, 3)
        ||| excluded_split(l, c, 2, 1, 3)
        ||| excluded_split(l, c, 3, 1, 2)
    }
}

/// One of the rules that are tried before the castle is computed applies.
pub open spec fn redundant(l: Seq<u32>, c: LevelConstants) -> bool {
    ||| conjugation_redundant(l, c)
    ||| has_sign_pair(l, c)
    ||| has_cube_root_pair(l, c)
    ||| has_fifth_root_chain(l, c)
}

/// One of the rules that are tried after the castle has been found small applies.
pub open spec fn settled(l: Seq<u32>, c: LevelConstants) -> bool {
    ||| three_term_exclusion(l, c)
    ||| four_term_exclusion(l, c)
    ||| has_seventh_root_chain(l, c)
}

/// The verdict on a tuple whose castle is below the cutoff exactly if
/// `castle_below` holds: it is discarded when it is redundant, when its castle
/// reaches the cutoff, or when it is settled by the theorem.
pub open spec fn discards(l: Seq<u32>, c: LevelConstants, castle_below: bool) -> bool {
    redundant(l, c) || !castle_below || settled(l, c)
}

/// The verdict depends on nothing but the entries of the tuple, the constants
/// and the outcome of the castle test: tuples with the same entries get the
/// same verdict.
pub proof fn lemma_verdict_is_pure(
    first: Seq<u32>,
    second: Seq<u32>,
    c: LevelConstants,
    castle_below: bool,
)
    requires
        first.len() == second.len(),
        forall|i: int| 0 <= i < first.len() ==> first[i] == second[i],
    ensures
        discards(first, c, castle_below) == discards(second, c, castle_below),
{
    assert(first =~= second);
}

/// Starting from position `top`, the exponents descend `links` times by
/// positive multiples of `step`.
spec fn chain_below(l: Seq<u32>, step: u32, top: int, links: nat) -> bool
    decreases links,
{
    links == 0 || exists|below: int|
        0 <= below < top && #[trigger] steps_above(l[top], l[below], step) && chain_below(
            l,
            step,
            below,
            (links - 1) as nat,
        )
}

/// Looks below position `top` for a descent of `links` steps.
fn descends(l: &Vec<u32>, step: u32, top: usize, links: u8) -> (r: bool)
    requires
        step != 0,
        top < l.len(),
    ensures
        r == chain_below(l@, step, top as int, links as nat),
    decreases links,
{
    if links == 0 {
        return true;
    }
    for below in 0..top
        invariant
            step != 0,
            links > 0,
            top < l.len(),
            forall|b: int|
                0 <= b < below && #[trigger] steps_above(l@[top as int], l@[b], step)
                    ==> !chain_below(l@, step, b, (links - 1) as nat),
    {
        if l[top] > l[below] && (l[top] - l[below]) % step == 0 && descends(
            l,
            step,
            below,
            links - 1,
        ) {
            assert(steps_above(l@[top as int], l@[below as int], step));
            return true;
        }
    }
    false
}

/// Looks for a descent of `links` steps from any position.
fn has_chain(l: &Vec<u32>, step: u32, links: u8) -> (r: bool)
    requires
        step != 0,
    ensures
        r == exists|top: int| 0 <= top < l.len() && #[trigger] chain_below(l@, step, top, links as nat),
{
    for top in 0..l.len()
        invariant
            step != 0,
            forall|t: int| 0 <= t < top ==> !#[trigger] chain_below(l@, step, t, links as nat),
    {
        if descends(l, step, top, links) {
            return true;
        }
    }
    false
}

/// A descent of two steps is a chain of three positions.
proof fn lemma_chain_of_three(l: Seq<u32>, step: u32)
    ensures
        (exists|top: int| 0 <= top < l.len() && #[trigger] chain_below(l, step, top, 2)) <==> (exists|
            i: int,
            j: int,
            k: int,
        | chain_of_three(l, step, i, j, k)),
{
    reveal_with_fuel(chain_below, 3);
    if exists|top: int| 0 <= top < l.len() && #[trigger] chain_below(l, step, top, 2) {
        let a = choose|top: int| 0 <= top < l.len() && #[trigger] chain_below(l, step, top, 2);
        let b = choose|b: int|
            0 <= b < a && #[trigger] steps_above(l[a], l[b], step) && chain_below(l, step, b, 1);
        let c = choose|c: int|
            0 <= c < b && #[trigger] steps_above(l[b], l[c], step) && chain_below(l, step, c, 0);
        assert(chain_of_three(l, step, a, b, c));
    }
    if exists|i: int, j: int, k: int| chain_of_three(l, step, i, j, k) {
        let (a, b, c) = choose|i: int, j: int, k: int| chain_of_three(l, step, i, j, k);
        assert(chain_below(l, step, c, 0));
        assert(steps_above(l[b], l[c], step));
        assert(chain_below(l, step, b, 1));
        assert(steps_above(l[a], l[b], step));
        assert(chain_below(l, step, a, 2));
    }
}

/// A descent of three steps is a chain of four positions.
proof fn lemma_chain_of_four(l: Seq<u32>, step: u32)
    ensures
        (exists|top: int| 0 <= top < l.len() && #[trigger] chain_below(l, step, top, 3)) <==> (exists|
            i: int,
            j: int,
            k: int,
            m: int,
        | chain_of_four(l, step, i, j, k, m)),
{
    reveal_with_fuel(chain_below, 4);
    if exists|top: int| 0 <= top < l.len() && #[trigger] chain_below(l, step, top, 3) {
        let a = choose|top: int| 0 <= top < l.len() && #[trigger] chain_below(l, step, top, 3);
        let b = choose|b: int|
            0 <= b < a && #[trigger] steps_above(l[a], l[b], step) && chain_below(l, step, b, 2);
        let c = choose|c: int|
            0 <= c < b && #[trigger] steps_above(l[b], l[c], step) && chain_below(l, step, c, 1);
        let d = choose|d: int|
            0 <= d < c && #[trigger] steps_above(l[c], l[d], step) && chain_below(l, step, d, 0);
        assert(chain_of_four(l, step, a, b, c, d));
    }
    if exists|i: int, j: int, k: int, m: int| chain_of_four(l, step, i, j, k, m) {
        let (a, b, c, d) = choose|i: int, j: int, k: int, m: int| chain_of_four(l, step, i, j, k, m);
        assert(chain_below(l, step, d, 0));
        assert(steps_above(l[c], l[d], step));
        assert(chain_below(l, step, c, 1));
        assert(steps_above(l[b], l[c], step));
        assert(chain_below(l, step, b, 2));
        assert(steps_above(l[a], l[b], step));
        assert(chain_below(l, step, a, 3));
    }
}

/// Looks for two terms that differ by the factor -1.
fn find_sign_pair(l: &Vec<u32>, c: &LevelConstants) -> (r: bool)
    ensures
        r == has_sign_pair(l@, *c),
{
    for hi in 0..l.len()
        invariant
            forall|x: int, y: int| x < hi ==> !gap_at(l@, c.half as int, x, y),
    {
        for lo in 0..hi
            invariant
                hi < l.len(),
                forall|x: int, y: int| x < hi ==> !gap_at(l@, c.half as int, x, y),
                forall|y: int| y < lo ==> !gap_at(l@, c.half as int, hi as int, y),
        {
            if l[hi] as u64 == l[lo] as u64 + c.half as u64 {
                assert(gap_at(l@, c.half as int, hi as int, lo as int));
                return true;
            }
        }
    }
    false
}

/// Looks for two terms that differ by a primitive cube root of unity.
fn find_cube_root_pair(l: &Vec<u32>, c: &LevelConstants) -> (r: bool)
    ensures
        r == has_cube_root_pair(l@, *c),
{
    if c.third == 0 {
        return false;
    }
    for hi in 0..l.len()
        invariant
            c.third != 0,
            forall|x: int, y: int| x < hi ==> !cube_root_gap_at(l@, c.third, x, y),
    {
        for lo in 0..hi
            invariant
                c.third != 0,
                hi < l.len(),
                forall|x: int, y: int| x < hi ==> !cube_root_gap_at(l@, c.third, x, y),
                forall|y: int| y < lo ==> !cube_root_gap_at(l@, c.third, hi as int, y),
        {
            if l[hi] as u64 == l[lo] as u64 + c.third as u64 || l[hi] as u64 == l[lo] as u64 + 2
                * (c.third as u64) {
                assert(cube_root_gap_at(l@, c.third, hi as int, lo as int));
                return true;
            }
        }
    }
    false
}

/// Tests one way of splitting a four-term tuple into two pairs.
fn split_excluded(l: &Vec<u32>, c: &LevelConstants, i: usize, i1: usize, i2: usize) -> (r: bool)
    requires
        l.len() == 4,
        i < 4,
        i1 < 4,
        i2 < 4,
        c.fifth != 0,
    ensures
        r == excluded_split(l@, *c, i as int, i1 as int, i2 as int),
{
    if l[i] < l[0] || l[i2] < l[i1] {
        return false;
    }
    let first: u32 = l[i] - l[0];
    let second: u32 = l[i2] - l[i1];
    first % c.fifth == 0 && second % c.fifth == 0 && first != second && l[1] as i64 - l[0] as i64
        + second as i64 != c.level as i64
}

/// Applies the rules that need no castle: conjugation redundancy, sign pairs,
/// cube-root pairs and fifth-root chains, in this order.
pub fn is_redundant(l: &Vec<u32>, c: &LevelConstants) -> (r: bool)
    requires
        l.len() >= 3,
    ensures
        r == redundant(l@, *c),
{
    let len = l.len();
    if l[2] as u64 + l[len - 1] as u64 > c.level as u64 + l[1] as u64 {
        return true;
    }
    if find_sign_pair(l, c) {
        return true;
    }
    if find_cube_root_pair(l, c) {
        return true;
    }
    proof {
        lemma_chain_of_three(l@, c.fifth);
    }
    c.fifth != 0 && has_chain(l, c.fifth, 2)
}

/// Applies the rules that follow the castle bound: the two exclusions that the
/// theorem provides for sums of three and of four terms, then seventh-root
/// chains.
pub fn is_settled(l: &Vec<u32>, c: &LevelConstants) -> (r: bool)
    requires
        l.len() >= 3,
        c.level > 0,
    ensures
        r == settled(l@, *c),
{
    let len = l.len();
    if len == 3 && (l[2] as u64 + l[1] as u64 == c.half as u64 || l[2] as u64 == c.half as u64 + 2
        * (l[1] as u64) || (2 * (l[2] as u64)) % (c.level as u64) == c.half as u64 + l[1] as u64) {
        return true;
    }
    if c.fifth != 0 && len == 4 {
        if split_excluded(l, c, 1, 2, 3) || split_excluded(l, c, 2, 1, 3) || split_excluded(
            l,
            c,
            3,
            1,
            2,
        ) {
            return true;
        }
    }
    proof {
        lemma_chain_of_four(l@, c.seventh);
    }
    c.seventh != 0 && has_chain(l, c.seventh, 3)
}

/// The verdict on a tuple once it is known whether its castle is below the
/// cutoff.
pub fn discard_given_castle(l: &Vec<u32>, c: &LevelConstants, castle_below: bool) -> (r: bool)
    requires
        l.len() >= 3,
        c.level > 0,
    ensures
        r == discards(l@, *c, castle_below),
{
    is_redundant(l, c) || !castle_below || is_settled(l, c)
}

} // verus!
