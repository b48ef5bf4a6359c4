use cyclotomic_search::divisibility::{gcd_u32, proper_divisors};

#[test]
fn gcd_of_known_pairs() {
    assert_eq!(gcd_u32(2024, 748), 44);
    assert_eq!(gcd_u32(748, 2024), 44);
    assert_eq!(gcd_u32(10, 20), 10);
    assert_eq!(gcd_u32(35, 12), 1);
    assert_eq!(gcd_u32(3392079986, 2080089626), 2);
}

#[test]
fn gcd_with_zero() {
    assert_eq!(gcd_u32(0, 0), 0);
    assert_eq!(gcd_u32(10, 0), 10);
    assert_eq!(gcd_u32(0, 10), 10);
}

#[test]
fn gcd_divides_both_and_is_greatest() {
    for a in 0u32..40 {
        for b in 1u32..40 {
            let g = gcd_u32(a, b);
            assert!(g > 0);
            assert_eq!(a % g, 0);
            assert_eq!(b % g, 0);
            for d in (g + 1)..=b {
                assert!(a % d != 0 || b % d != 0);
            }
        }
    }
}

#[test]
fn proper_divisors_of_twelve() {
    assert_eq!(proper_divisors(12), vec![1, 2, 3, 4, 6]);
}

#[test]
fn proper_divisors_of_a_prime() {
    assert_eq!(proper_divisors(7), vec![1]);
}

#[test]
fn proper_divisors_of_small_numbers() {
    assert_eq!(proper_divisors(0), Vec::<u32>::new());
    assert_eq!(proper_divisors(1), Vec::<u32>::new());
    assert_eq!(proper_divisors(2), vec![1]);
}

#[test]
fn proper_divisors_of_the_largest_modulus_in_use() {
    let ds = proper_divisors(60060);
    assert_eq!(ds.len(), 95);
    assert_eq!(ds[0], 1);
    assert_eq!(ds[94], 30030);
    for d in &ds {
        assert_eq!(60060 % d, 0);
    }
}
