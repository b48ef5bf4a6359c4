//! Divisors and greatest common divisors of machine integers.

use vstd::prelude::*;

verus! {

/// `d` is a positive integer dividing both `a` and `b`.
pub open spec fn common_divisor(d: nat, a: nat, b: nat) -> bool {
    d > 0 && a % d == 0 && b % d == 0
}

/// `g` is the greatest common divisor of `a` and `b`.  The greatest common
/// divisor of 0 and 0 is 0 by convention.
pub open spec fn is_gcd(a: nat, b: nat, g: nat) -> bool {
    if a == 0 && b == 0 {
        g == 0
    } else {
        &&& common_divisor(g, a, b)
        &&& forall|d: nat| #[trigger] common_divisor(d, a, b) ==> d <= g
    }
}

/// The greatest common divisor of `a` and `b`.
pub open spec fn greatest_common_divisor(a: nat, b: nat) -> nat {
    choose|g: nat| is_gcd(a, b, g)
}

/// `d` divides `n` and lies strictly between 0 and `n`.
pub open spec fn is_proper_divisor(d: u32, n: u32) -> bool {
    1 <= d < n && n % d == 0
}

/// Every entry of `s` is smaller than the entries after it.
pub open spec fn strictly_increasing(s: Seq<u32>) -> bool {
    forall|i: int, j: int| 0 <= i < j < s.len() ==> s[i] < s[j]
}

/// A number has at most one greatest common divisor with another.
pub proof fn lemma_gcd_unique(a: nat, b: nat, g: nat)
    requires
        is_gcd(a, b, g),
    ensures
        greatest_common_divisor(a, b) == g,
{
    let h = greatest_common_divisor(a, b);
    assert(is_gcd(a, b, h));
    if !(a == 0 && b == 0) {
        assert(common_divisor(g, a, b));
        assert(common_divisor(h, a, b));
    }
}

/// `gcd::euclid_u32` runs the Euclidean algorithm on two `u32` values.  Its
/// result is taken to be their greatest common divisor, with 0 for the pair
/// (0, 0).
pub assume_specification[ gcd::euclid_u32 ](a: u32, b: u32) -> (g: u32)
    ensures
        is_gcd(a as nat, b as nat, g as nat),
;

/// The greatest common divisor of two machine integers.
pub fn gcd_u32(a: u32, b: u32) -> (g: u32)
    ensures
        g == greatest_common_divisor(a as nat, b as nat),
{
    let g = gcd::euclid_u32(a, b);
    proof {
        lemma_gcd_unique(a as nat, b as nat, g as nat);
    }
    g
}

/// The proper divisors of `n`, in increasing order.
pub fn proper_divisors(n: u32) -> (ds: Vec<u32>)
    ensures
        strictly_increasing(ds@),
        forall|d: u32| ds@.contains(d) <==> is_proper_divisor(d, n),
{
    let mut ds: Vec<u32> = Vec::new();
    let mut d: u32 = 1;
    while d < n
        invariant
            1 <= d,
            d <= n || n == 0,
            strictly_increasing(ds@),
            forall|i: int| 0 <= i < ds.len() ==> ds[i] < d,
            forall|e: u32| ds@.contains(e) <==> is_proper_divisor(e, n) && e < d,
        decreases n - d,
    {
        if n % d == 0 {
            let ghost before = ds@;
            ds.push(d);
            assert(ds@[before.len() as int] == d);
            assert forall|e: u32| ds@.contains(e) <==> is_proper_divisor(e, n) && e < d + 1 by {
                if ds@.contains(e) {
                    let i = choose|i: int| 0 <= i < ds@.len() && ds@[i] == e;
                    if i < before.len() {
                        assert(before[i] == e);
                        assert(before.contains(e));
                    }
                }
                if is_proper_divisor(e, n) && e < d + 1 {
                    if e < d {
                        assert(before.contains(e));
                        let i = choose|i: int| 0 <= i < before.len() && before[i] == e;
                        assert(ds@[i] == e);
                    }
                }
            }
        }
        d = d + 1;
    }
    ds
}

} // verus!
