use std::cell::RefCell;

use cyclotomic_search::cyclotomic::CyclotomicInteger;

fn sin_cos_table(n: u32) -> Vec<(f64, f64)> {
    let angle0 = std::f64::consts::TAU / (n as f64);
    (0..n).map(|j| (angle0 * (j as f64)).sin_cos()).collect()
}

fn squared_modulus(table: &Vec<(f64, f64)>, positions: &Vec<usize>) -> f64 {
    let mut sin_sum = 0_f64;
    let mut cos_sum = 0_f64;
    for i in positions {
        let (sin, cos) = table[*i];
        sin_sum += sin;
        cos_sum += cos;
    }
    sin_sum.powi(2) + cos_sum.powi(2)
}

fn castle_strictly_less(x: &CyclotomicInteger, table: &Vec<(f64, f64)>, cutoff: f64) -> bool {
    x.castle_strictly_less(&|positions: &Vec<usize>| squared_modulus(table, positions) >= cutoff)
}

fn residues(exponents: &Vec<u32>, level: u32, k: u32) -> Vec<usize> {
    let mut positions = vec![99, 98, 97];
    CyclotomicInteger { exponents, level }.conjugate_residues(k, &mut positions);
    positions
}

#[test]
fn test_castle() {
    let sin_cos_table_fn = sin_cos_table;

    let sin_cos_table = sin_cos_table_fn(7);
    let l = vec![0, 1, 3, 5];
    let ex1 = CyclotomicInteger { exponents: &l, level: 7 };
    let sage_res1 = 5.04891733952231_f64;
    assert!(castle_strictly_less(&ex1, &sin_cos_table, sage_res1 + 0.000001));
    assert!(!castle_strictly_less(&ex1, &sin_cos_table, 5_f64));

    let sin_cos_table = sin_cos_table_fn(31);
    let l = vec![0, 1, 3, 8, 12, 18];
    let ex2 = CyclotomicInteger { exponents: &l, level: 31 };
    assert!(castle_strictly_less(&ex2, &sin_cos_table, 5.000001_f64));

    let sin_cos_table = sin_cos_table_fn(70);
    let l = vec![0, 1, 11, 42, 51];
    let ex3 = CyclotomicInteger { exponents: &l, level: 70 };
    assert!(castle_strictly_less(&ex3, &sin_cos_table, 3.000001_f64));
    assert!(!castle_strictly_less(&ex3, &sin_cos_table, 2.999999_f64));
}

#[test]
fn known_castle_for_modulus_seven() {
    let table = sin_cos_table(7);
    let l = vec![0, 1, 3, 5];
    let x = CyclotomicInteger { exponents: &l, level: 7 };
    assert!(castle_strictly_less(&x, &table, 5.04891733952232));
    assert!(!castle_strictly_less(&x, &table, 5.0));
}

#[test]
fn castle_of_the_imaginary_unit() {
    let table = sin_cos_table(4);
    let l = vec![1];
    let x = CyclotomicInteger { exponents: &l, level: 4 };
    assert!(castle_strictly_less(&x, &table, 1.000001));
    assert!(!castle_strictly_less(&x, &table, 0.999999));
    let l = vec![0, 1];
    let x = CyclotomicInteger { exponents: &l, level: 4 };
    assert!(castle_strictly_less(&x, &table, 2.000001));
    assert!(!castle_strictly_less(&x, &table, 1.999999));
}

#[test]
fn castle_is_monotone_in_the_cutoff() {
    let cases: Vec<(u32, Vec<u32>)> = vec![
        (7, vec![0, 1, 3, 5]),
        (31, vec![0, 1, 3, 8, 12, 18]),
        (70, vec![0, 1, 11, 42, 51]),
        (14, vec![0, 1, 4, 6]),
    ];
    for (level, l) in &cases {
        let table = sin_cos_table(*level);
        let x = CyclotomicInteger { exponents: l, level: *level };
        let mut seen_below = false;
        for step in 0..80 {
            let cutoff = 0.1 * (step as f64);
            let below = castle_strictly_less(&x, &table, cutoff);
            assert!(below || !seen_below);
            seen_below = seen_below || below;
        }
        assert!(seen_below);
    }
}

#[test]
fn residues_of_a_conjugate() {
    assert_eq!(residues(&vec![0, 1, 3, 5], 7, 1), vec![0, 1, 3, 5]);
    assert_eq!(residues(&vec![0, 1, 3, 5], 7, 3), vec![0, 3, 2, 1]);
    assert_eq!(residues(&vec![0, 1, 11, 42, 51], 70, 69), vec![0, 69, 59, 28, 19]);
}

#[test]
fn residues_replace_what_the_buffer_held() {
    assert_eq!(residues(&vec![], 7, 3), Vec::<usize>::new());
    assert_eq!(residues(&vec![5], 7, 3), vec![1]);
}

#[test]
fn residues_mirror_under_the_opposite_conjugate() {
    let l = vec![0, 1, 11, 42, 51];
    for k in 1..70u32 {
        let here = residues(&l, 70, k);
        let there = residues(&l, 70, 70 - k);
        for i in 0..l.len() {
            assert_eq!(there[i], (70 - here[i]) % 70);
        }
    }
}

#[test]
fn residues_of_large_products_do_not_wrap() {
    let level = 4294967295u32;
    let k = 4294967294u32;
    assert_eq!(residues(&vec![4294967294, 2, 0], level, k), vec![1, 4294967293, 0]);
    assert_eq!(residues(&vec![65536, 65537], 4294967291, 65536), vec![5, 65541]);
}

#[test]
fn castle_test_visits_units_in_order_and_stops_at_the_first_violation() {
    let seen: RefCell<Vec<usize>> = RefCell::new(Vec::new());
    let l = vec![1];
    let x = CyclotomicInteger { exponents: &l, level: 12 };
    let below = x.castle_strictly_less(&|positions: &Vec<usize>| {
        seen.borrow_mut().push(positions[0]);
        positions[0] == 7
    });
    assert!(!below);
    assert_eq!(*seen.borrow(), vec![1, 5, 7]);
}

#[test]
fn castle_test_asks_about_every_unit_when_none_reaches_the_cutoff() {
    let seen: RefCell<Vec<usize>> = RefCell::new(Vec::new());
    let l = vec![1];
    let x = CyclotomicInteger { exponents: &l, level: 12 };
    let below = x.castle_strictly_less(&|positions: &Vec<usize>| {
        seen.borrow_mut().push(positions[0]);
        false
    });
    assert!(below);
    assert_eq!(*seen.borrow(), vec![1, 5, 7, 11]);
}

#[test]
fn castle_test_without_conjugates_holds() {
    let l = vec![0, 0, 0];
    let x = CyclotomicInteger { exponents: &l, level: 1 };
    assert!(x.castle_strictly_less(&|_positions: &Vec<usize>| panic!("no conjugate to ask about")));
    let x = CyclotomicInteger { exponents: &l, level: 0 };
    assert!(x.castle_strictly_less(&|_positions: &Vec<usize>| panic!("no conjugate to ask about")));
}
