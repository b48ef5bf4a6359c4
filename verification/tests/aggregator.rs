use cyclotomic_search::aggregator::{aggregate, exponents_less, output_precedes, Output};

fn record(level: u32, exponents: Vec<u32>) -> Output {
    Output { level, exponents }
}

#[test]
fn tuples_compare_at_the_first_difference() {
    assert!(exponents_less(&vec![0, 1, 2], &vec![0, 1, 3]));
    assert!(!exponents_less(&vec![0, 1, 3], &vec![0, 1, 2]));
    assert!(exponents_less(&vec![0, 1, 9, 9], &vec![0, 2, 0, 0]));
    assert!(!exponents_less(&vec![0, 2, 0, 0], &vec![0, 1, 9, 9]));
}

#[test]
fn a_tuple_comes_before_its_extensions() {
    assert!(exponents_less(&vec![0, 1, 12], &vec![0, 1, 12, 14]));
    assert!(!exponents_less(&vec![0, 1, 12, 14], &vec![0, 1, 12]));
    assert!(exponents_less(&vec![], &vec![0]));
    assert!(!exponents_less(&vec![0], &vec![]));
}

#[test]
fn a_longer_tuple_may_come_first() {
    assert!(exponents_less(&vec![0, 1, 3, 4], &vec![0, 1, 5]));
    assert!(!exponents_less(&vec![0, 1, 5], &vec![0, 1, 3, 4]));
}

#[test]
fn a_tuple_does_not_come_before_itself() {
    assert!(!exponents_less(&vec![0, 1, 2], &vec![0, 1, 2]));
    assert!(!exponents_less(&vec![], &vec![]));
}

#[test]
fn records_compare_by_modulus_first() {
    assert!(output_precedes(&record(14, vec![0, 9, 9]), &record(30, vec![0, 1, 2])));
    assert!(!output_precedes(&record(30, vec![0, 1, 2]), &record(14, vec![0, 9, 9])));
    assert!(output_precedes(&record(30, vec![0, 1, 2]), &record(30, vec![0, 1, 2, 0])));
    assert!(!output_precedes(&record(30, vec![0, 1, 2]), &record(30, vec![0, 1, 2])));
}

#[test]
fn aggregate_sorts_records() {
    let input = vec![
        record(30, vec![0, 1, 12, 14]),
        record(30, vec![0, 1, 8, 19]),
        record(14, vec![0, 2, 8]),
        record(30, vec![0, 1, 12]),
        record(30, vec![0, 1, 2, 13]),
        record(14, vec![0, 1, 4, 6]),
    ];
    let expected = vec![
        record(14, vec![0, 1, 4, 6]),
        record(14, vec![0, 2, 8]),
        record(30, vec![0, 1, 2, 13]),
        record(30, vec![0, 1, 8, 19]),
        record(30, vec![0, 1, 12]),
        record(30, vec![0, 1, 12, 14]),
    ];
    assert_eq!(aggregate(input), expected);
}

#[test]
fn aggregate_keeps_repeated_records() {
    let input = vec![record(4, vec![0, 1, 0]), record(4, vec![0, 0, 0]), record(4, vec![0, 1, 0])];
    let expected =
        vec![record(4, vec![0, 0, 0]), record(4, vec![0, 1, 0]), record(4, vec![0, 1, 0])];
    assert_eq!(aggregate(input), expected);
}

#[test]
fn aggregate_of_nothing_is_nothing() {
    assert_eq!(aggregate(Vec::new()), Vec::<Output>::new());
    assert_eq!(aggregate(vec![record(2, vec![])]), vec![record(2, vec![])]);
}

#[test]
fn aggregate_does_not_depend_on_the_order_of_arrival() {
    let tuples: Vec<Vec<u32>> = vec![
        vec![0, 2, 4, 8, 14],
        vec![0, 2, 4, 10],
        vec![0, 2, 4, 12, 18],
        vec![0, 2, 4, 16],
        vec![0, 2, 6, 10],
        vec![0, 2, 6, 14],
        vec![0, 2, 6, 16],
        vec![0, 2, 8, 12],
    ];
    let sorted: Vec<Output> = tuples.iter().map(|t| record(22, t.clone())).collect();
    let n = tuples.len();
    for shift in 0..n {
        for stride in [1usize, 3, 5, 7] {
            let arrival: Vec<Output> =
                (0..n).map(|i| record(22, tuples[(shift + stride * i) % n].clone())).collect();
            assert_eq!(aggregate(arrival), sorted);
        }
    }
}

#[test]
fn aggregate_sorts_a_long_descending_run() {
    let input: Vec<Output> = (0..500u32).rev().map(|i| record(8, vec![0, i / 7, i % 7])).collect();
    let output = aggregate(input);
    assert_eq!(output.len(), 500);
    for i in 1..output.len() {
        assert!(!output_precedes(&output[i], &output[i - 1]));
    }
}
