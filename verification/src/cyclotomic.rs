//! Cyclotomic integers and their Galois conjugates.
//!
//! The conjugates of `z^{e_0} + ... + z^{e_{n-1}}` are the sums
//! `z^{k e_0} + ... + z^{k e_{n-1}}` for `k` coprime to the order of `z`.  With
//! a table of the powers of `z`, the conjugate for `k` is the sum of the table
//! entries at the positions `k e_i` modulo the order.  This module computes
//! those positions and runs the test over all conjugates; summing the table
//! entries and comparing the squared modulus with a cutoff is the caller's
//! part, passed in as a function of the positions.

use vstd::prelude::*;
use crate::divisibility::{gcd_u32, greatest_common_divisor};

verus! {

/// The sum of the powers of a primitive `level`-th root of unity given by
/// `exponents`.
pub struct CyclotomicInteger<'a> {
    pub exponents: &'a Vec<u32>,
    pub level: u32,
}

/// `k` indexes a Galois automorphism for the `level`-th roots of unity: it lies
/// in `[1, level)` and is coprime to `level`.
pub open spec fn is_unit(k: u32, level: u32) -> bool {
    1 <= k < level && greatest_common_divisor(k as nat, level as nat) == 1
}

/// The position in the table of the `k`-th conjugate of `z^j`.
pub open spec fn residue(k: u32, j: u32, level: u32) -> int {
    (k * j) % (level as int)
}

/// The table positions of the terms of the `k`-th conjugate.
pub open spec fn conjugate_residues(exponents: Seq<u32>, level: u32, k: u32) -> Seq<usize> {
    Seq::new(exponents.len(), |i: int| residue(k, exponents[i], level) as usize)
}

/// Every entry of `positions` is below `level`.
pub open spec fn positions_within(positions: Seq<usize>, level: u32) -> bool {
    forall|i: int| 0 <= i < positions.len() ==> positions[i] < level
}

/// `b` is a possible answer of `f` on the table positions `positions`.
pub open spec fn answers<F: Fn(&Vec<usize>) -> bool>(f: F, positions: Seq<usize>, b: bool) -> bool {
    exists|v: Vec<usize>| #[trigger] f.ensures((&v,), b) && v@ == positions
}

/// `f` may be called on any positions in a table of `level` entries.
pub open spec fn accepts<F: Fn(&Vec<usize>) -> bool>(f: F, level: u32) -> bool {
    forall|v: &Vec<usize>| positions_within(v@, level) ==> #[trigger] f.requires((v,))
}

/// What a run of the castle test that ended with `below` has learnt from
/// `reaches_cutoff`: if `below` holds, every conjugate was answered `false`;
/// otherwise some conjugate was answered `true`, after all conjugates of
/// smaller index had been answered `false`.
pub open spec fn castle_verdict<F: Fn(&Vec<usize>) -> bool>(
    exponents: Seq<u32>,
    level: u32,
    reaches_cutoff: F,
    below: bool,
) -> bool {
    if below {
        all_below_before(exponents, level, reaches_cutoff, level)
    } else {
        exists|k: u32| #[trigger]
            is_unit(k, level) && answers(
                reaches_cutoff,
                conjugate_residues(exponents, level, k),
                true,
            ) && all_below_before(exponents, level, reaches_cutoff, k)
    }
}

/// Every conjugate of index below `bound` was answered `false`.
pub open spec fn all_below_before<F: Fn(&Vec<usize>) -> bool>(
    exponents: Seq<u32>,
    level: u32,
    reaches_cutoff: F,
    bound: u32,
) -> bool {
    forall|k: u32|
        k < bound && #[trigger] is_unit(k, level) ==> answers(
            reaches_cutoff,
            conjugate_residues(exponents, level, k),
            false,
        )
}

/// `f` has at most one possible answer on any table positions.
pub open spec fn single_valued<F: Fn(&Vec<usize>) -> bool>(f: F) -> bool {
    forall|v: Vec<usize>, w: Vec<usize>|
        #![trigger f.ensures((&v,), true), f.ensures((&w,), false)]
        v@ == w@ ==> !(f.ensures((&v,), true) && f.ensures((&w,), false))
}

/// The castle test is monotone in the cutoff.  Let `lower` and `higher` compare
/// conjugates with two cutoffs, such that `lower` cannot deny on positions on
/// which `higher` may affirm.  If a run with `lower` finds the castle strictly
/// below its cutoff, every run with `higher` does so too.
pub proof fn lemma_castle_monotone<F1: Fn(&Vec<usize>) -> bool, F2: Fn(&Vec<usize>) -> bool>(
    exponents: Seq<u32>,
    level: u32,
    lower: F1,
    higher: F2,
    below: bool,
)
    requires
        forall|positions: Seq<usize>| #[trigger]
            answers(higher, positions, true) ==> !answers(lower, positions, false),
        castle_verdict(exponents, level, lower, true),
        castle_verdict(exponents, level, higher, below),
    ensures
        below,
{
    if !below {
        let k = choose|k: u32| #[trigger]
            is_unit(k, level) && answers(higher, conjugate_residues(exponents, level, k), true);
        assert(answers(lower, conjugate_residues(exponents, level, k), false));
    }
}

/// With a single-valued comparison, the castle test has one possible result.
pub proof fn lemma_castle_verdict_unique<F: Fn(&Vec<usize>) -> bool>(
    exponents: Seq<u32>,
    level: u32,
    reaches_cutoff: F,
)
    requires
        single_valued(reaches_cutoff),
    ensures
        !(castle_verdict(exponents, level, reaches_cutoff, true) && castle_verdict(
            exponents,
            level,
            reaches_cutoff,
            false,
        )),
{
    if castle_verdict(exponents, level, reaches_cutoff, true) && castle_verdict(
        exponents,
        level,
        reaches_cutoff,
        false,
    ) {
        let k = choose|k: u32| #[trigger]
            is_unit(k, level) && answers(
                reaches_cutoff,
                conjugate_residues(exponents, level, k),
                true,
            );
        let positions = conjugate_residues(exponents, level, k);
        assert(answers(reaches_cutoff, positions, false));
        let v = choose|v: Vec<usize>| #[trigger]
            reaches_cutoff.ensures((&v,), true) && v@ == positions;
        let w = choose|w: Vec<usize>| #[trigger]
            reaches_cutoff.ensures((&w,), false) && w@ == positions;
        assert(reaches_cutoff.ensures((&v,), true) && reaches_cutoff.ensures((&w,), false));
    }
}

/// A product of two `u32` values fits in a `u64`.
proof fn lemma_product_fits(k: u32, j: u32)
    ensures
        k * j <= u64::MAX,
{
    assert(k * j <= 0xffff_ffff * 0xffff_ffff) by (nonlinear_arith)
        requires
            0 <= k <= 0xffff_ffff,
            0 <= j <= 0xffff_ffff,
    ;
}

impl<'a> CyclotomicInteger<'a> {
    /// Writes the table positions of the terms of the `k`-th conjugate into
    /// `positions`, replacing what it held.
    pub fn conjugate_residues(&self, k: u32, positions: &mut Vec<usize>)
        requires
            self.level > 0,
        ensures
            final(positions)@ == conjugate_residues(self.exponents@, self.level, k),
            positions_within(final(positions)@, self.level),
    {
        positions.clear();
        let n = self.exponents.len();
        for i in 0..n
            invariant
                self.level > 0,
                n == self.exponents.len(),
                positions@.len() == i,
                forall|t: int|
                    0 <= t < i ==> positions@[t] == residue(
                        k,
                        #[trigger] self.exponents@[t],
                        self.level,
                    ) as usize,
                forall|t: int| 0 <= t < i ==> #[trigger] positions@[t] < self.level,
        {
            let j = self.exponents[i];
            proof {
                lemma_product_fits(k, j);
            }
            let r: u64 = ((k as u64) * (j as u64)) % (self.level as u64);
            positions.push(r as usize);
        }
        assert(positions@ =~= conjugate_residues(self.exponents@, self.level, k));
    }

    /// Tests whether no conjugate reaches the cutoff, that is, whether the
    /// castle is strictly below it.  The conjugates are visited in increasing
    /// order of `k`, and the test stops at the first one for which
    /// `reaches_cutoff` answers `true`.
    pub fn castle_strictly_less<F: Fn(&Vec<usize>) -> bool>(&self, reaches_cutoff: &F) -> (below:
        bool)
        requires
            accepts(*reaches_cutoff, self.level),
        ensures
            castle_verdict(self.exponents@, self.level, *reaches_cutoff, below),
    {
        if self.level == 0 {
            return true;
        }
        let mut positions: Vec<usize> = Vec::new();
        for k in 1..self.level
            invariant
                self.level > 0,
                accepts(*reaches_cutoff, self.level),
                all_below_before(self.exponents@, self.level, *reaches_cutoff, k),
        {
            if gcd_u32(k, self.level) == 1 {
                self.conjugate_residues(k, &mut positions);
                let reached = reaches_cutoff(&positions);
                assert(answers(
                    *reaches_cutoff,
                    conjugate_residues(self.exponents@, self.level, k),
                    reached,
                ));
                if reached {
                    assert(is_unit(k, self.level));
                    return false;
                }
            }
        }
        true
    }
}

} // verus!
