//! The modulus of a search and the divisor constants derived from it.

use vstd::prelude::*;

verus! {

/// The even modulus `level` of one search together with `level / 2` and, where
/// 3, 5 or 7 divides the modulus, the corresponding quotient.  A quotient of 0
/// records that the prime does not divide the modulus.
#[derive(Clone, Copy, Debug, PartialEq, Eq, Structural)]
pub struct LevelConstants {
    pub level: u32,
    pub half: u32,
    pub third: u32,
    pub fifth: u32,
    pub seventh: u32,
}

/// `n / p` when `p` divides `n`, and 0 otherwise.
pub open spec fn quotient_or_zero(n: u32, p: u32) -> u32 {
    if n % p == 0 {
        n / p
    } else {
        0
    }
}

/// The modulus used for logical level `n`: `n` itself when even, `2 n` when odd.
pub open spec fn modulus_of(n: u32) -> int {
    if n % 2 == 0 {
        n as int
    } else {
        2 * n
    }
}

/// The constants for logical level `n`.
pub open spec fn constants_of(n: u32) -> LevelConstants {
    let level = modulus_of(n) as u32;
    LevelConstants {
        level,
        half: level / 2,
        third: quotient_or_zero(level, 3),
        fifth: quotient_or_zero(level, 5),
        seventh: quotient_or_zero(level, 7),
    }
}

impl LevelConstants {
    /// The modulus is positive and even and the other fields are derived from it.
    pub open spec fn wf(self) -> bool {
        &&& self.level > 0
        &&& self.level % 2 == 0
        &&& self.half == self.level / 2
        &&& self.third == quotient_or_zero(self.level, 3)
        &&& self.fifth == quotient_or_zero(self.level, 5)
        &&& self.seventh == quotient_or_zero(self.level, 7)
    }

    /// The constants for logical level `n`.
    pub fn new(n: u32) -> (c: LevelConstants)
        requires
            n >= 1,
            modulus_of(n) <= u32::MAX,
        ensures
            c == constants_of(n),
            c.wf(),
            c.level == modulus_of(n),
    {
        let level: u32 = if n % 2 == 0 { n } else { 2 * n };
        LevelConstants {
            level,
            half: level / 2,
            third: if level % 3 == 0 { level / 3 } else { 0 },
            fifth: if level % 5 == 0 { level / 5 } else { 0 },
            seventh: if level % 7 == 0 { level / 7 } else { 0 },
        }
    }
}

} // verus!
