use cyclotomic_search::constants::LevelConstants;
use cyclotomic_search::rules::{discard_given_castle, is_redundant, is_settled};

#[test]
fn conjugation_redundancy_discards() {
    let c = LevelConstants::new(420);
    assert!(is_redundant(&vec![0, 1, 300, 300], &c));
    assert!(is_redundant(&vec![0, 1, 281], &c));
}

#[test]
fn conjugation_redundancy_needs_a_strict_excess() {
    // 5 + 10 equals 14 + 1, while 5 + 11 exceeds it
    let c = LevelConstants::new(14);
    assert!(!is_redundant(&vec![0, 1, 5, 10], &c));
    assert!(is_redundant(&vec![0, 1, 5, 11], &c));
}

#[test]
fn sign_pair_discards() {
    let c = LevelConstants::new(420);
    assert!(is_redundant(&vec![0, 1, 210], &c));
    assert!(is_redundant(&vec![0, 1, 6], &LevelConstants::new(12)));
    assert!(is_redundant(&vec![0, 4, 1, 5], &LevelConstants::new(10)));
}

#[test]
fn cube_root_pair_discards() {
    let c = LevelConstants::new(420);
    assert!(is_redundant(&vec![0, 1, 141], &c));
    // a gap of one third and a gap of two thirds of the modulus 12
    assert!(is_redundant(&vec![0, 5, 0, 4], &LevelConstants::new(12)));
    assert!(is_redundant(&vec![0, 5, 0, 8], &LevelConstants::new(12)));
    assert!(!is_redundant(&vec![0, 5, 0, 7], &LevelConstants::new(12)));
}

#[test]
fn fifth_root_chain_discards() {
    let c = LevelConstants::new(420);
    assert!(is_redundant(&vec![0, 1, 84, 168], &c));
    assert!(is_redundant(&vec![0, 1, 85, 169], &c));
    assert!(is_redundant(&vec![0, 2, 86, 170], &c));
}

#[test]
fn fifth_root_chain_needs_three_terms() {
    let c = LevelConstants::new(420);
    assert!(!is_redundant(&vec![0, 1, 85, 170], &c));
    assert!(!is_redundant(&vec![0, 1, 84, 85], &c));
}

#[test]
fn chain_needs_rising_exponents() {
    // 84, 0, 84: the middle term lies below the first
    let c = LevelConstants::new(420);
    assert!(!is_redundant(&vec![0, 84, 0, 84], &c));
    assert!(is_redundant(&vec![0, 84, 0, 168], &c));
}

#[test]
fn plain_tuples_are_not_redundant() {
    assert!(!is_redundant(&vec![0, 1, 2], &LevelConstants::new(420)));
    assert!(!is_redundant(&vec![0, 1, 2], &LevelConstants::new(12)));
    assert!(!is_redundant(&vec![0, 2, 4], &LevelConstants::new(7)));
    assert!(!is_redundant(&vec![0, 1, 11, 42, 51], &LevelConstants::new(35)));
}

#[test]
fn three_term_exclusion_discards() {
    let c = LevelConstants::new(420);
    // l[2] == N2 - l[1]
    assert!(is_settled(&vec![0, 1, 209], &c));
    // l[2] == N2 + 2 l[1]
    assert!(is_settled(&vec![0, 10, 230], &c));
    // 2 l[2] mod NN == N2 + l[1]
    assert!(is_settled(&vec![0, 2, 106], &c));
    assert!(is_settled(&vec![0, 2, 316], &c));
}

#[test]
fn three_term_exclusion_is_for_three_terms_only() {
    let c = LevelConstants::new(420);
    assert!(!is_settled(&vec![0, 1, 209, 209], &c));
    assert!(!is_settled(&vec![0, 1, 106], &c));
    assert!(!is_settled(&vec![0, 3, 6], &c));
}

#[test]
fn three_term_exclusion_with_second_entry_above_half() {
    // N2 - l[1] would be negative: the first form cannot apply
    let c = LevelConstants::new(12);
    assert!(!is_settled(&vec![0, 7, 0], &c));
    assert!(!is_settled(&vec![0, 7, 11], &c));
}

#[test]
fn four_term_exclusion_discards() {
    let c = LevelConstants::new(420);
    assert!(is_settled(&vec![0, 84, 10, 178], &c));
    assert!(is_settled(&vec![0, 84, 100, 268], &c));
    assert!(is_settled(&vec![0, 84, 0, 168], &c));
    assert!(is_settled(&vec![0, 2, 3, 7], &LevelConstants::new(10)));
}

#[test]
fn four_term_exclusion_needs_unequal_gaps() {
    let c = LevelConstants::new(420);
    assert!(!is_settled(&vec![0, 84, 1, 85], &c));
    assert!(!is_settled(&vec![0, 84, 0, 84], &c));
}

#[test]
fn four_term_exclusion_spares_gaps_that_add_up_to_the_modulus() {
    // l[1] - l[0] = 4, l[3] - l[2] = 6, and 4 + 6 is the modulus 10
    let c = LevelConstants::new(10);
    assert!(!is_settled(&vec![0, 4, 1, 7], &c));
    assert!(is_settled(&vec![0, 4, 1, 9], &c));
}

#[test]
fn four_term_exclusion_needs_a_fifth_of_the_modulus() {
    let c = LevelConstants::new(14);
    assert!(!is_settled(&vec![0, 1, 4, 6], &c));
}

#[test]
fn seventh_root_chain_discards() {
    let c = LevelConstants::new(420);
    assert!(is_settled(&vec![0, 60, 120, 180], &c));
    assert!(is_settled(&vec![0, 1, 61, 121, 181], &c));
    assert!(is_settled(&vec![0, 2, 4, 6], &LevelConstants::new(14)));
}

#[test]
fn seventh_root_chain_needs_four_terms() {
    let c = LevelConstants::new(420);
    assert!(!is_settled(&vec![0, 60, 120], &c));
    assert!(!is_settled(&vec![0, 1, 60, 120, 181], &c));
}

#[test]
fn verdict_follows_the_castle_when_no_rule_applies() {
    let c = LevelConstants::new(14);
    let l = vec![0, 1, 4, 6];
    assert!(!discard_given_castle(&l, &c, true));
    assert!(discard_given_castle(&l, &c, false));
}

#[test]
fn verdict_of_a_redundant_tuple_ignores_the_castle() {
    let c = LevelConstants::new(12);
    let l = vec![0, 1, 6];
    assert!(discard_given_castle(&l, &c, true));
    assert!(discard_given_castle(&l, &c, false));
}

#[test]
fn verdict_of_a_settled_tuple_ignores_the_castle() {
    let c = LevelConstants::new(420);
    let l = vec![0, 60, 120, 180];
    assert!(discard_given_castle(&l, &c, true));
    assert!(discard_given_castle(&l, &c, false));
}

#[test]
fn rules_do_not_overflow_on_large_exponents() {
    let c = LevelConstants::new(4294967294);
    let l = vec![4294967295, 4294967295, 4294967295, 4294967295];
    assert!(is_redundant(&l, &c));
    assert!(!is_settled(&l, &c));
    let m = vec![0, 4294967295, 0];
    assert!(!is_redundant(&m, &c));
    assert!(!is_settled(&m, &c));
}

#[test]
fn the_verdict_is_the_same_on_every_run() {
    let c = LevelConstants::new(420);
    let l = vec![0, 84, 10, 178];
    let first = discard_given_castle(&l, &c, true);
    let second = discard_given_castle(&l.clone(), &c, true);
    assert_eq!(first, second);
    assert!(first);
}
