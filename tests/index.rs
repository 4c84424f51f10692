use ::vectime::{
    compress, consistent, decompress, increment, penalty, picksplit, union, vectime,
    STRATEGY_NUMBER_CONCURRENT, STRATEGY_NUMBER_EQUAL, STRATEGY_NUMBER_GREATER,
    STRATEGY_NUMBER_LESS,
};

fn clock(a: i64, b: i64, c: i64) -> vectime {
    let ts = vectime::default();
    let ts = increment(ts, "A".to_string(), a);
    let ts = increment(ts, "B".to_string(), b);
    increment(ts, "C".to_string(), c)
}

#[test]
fn consistent_follows_strategy() {
    let q = clock(1, 2, 3);
    assert!(consistent(Some(clock(1, 2, 3)), clock(1, 2, 3), STRATEGY_NUMBER_EQUAL));
    assert!(!consistent(Some(clock(1, 2, 3)), q, STRATEGY_NUMBER_GREATER));
    assert!(consistent(Some(clock(2, 2, 3)), clock(1, 2, 3), STRATEGY_NUMBER_GREATER));
    assert!(consistent(Some(clock(0, 2, 3)), clock(1, 2, 3), STRATEGY_NUMBER_LESS));
    assert!(consistent(Some(clock(3, 2, 1)), clock(1, 2, 3), STRATEGY_NUMBER_CONCURRENT));
    assert!(!consistent(Some(clock(3, 2, 1)), clock(1, 2, 3), STRATEGY_NUMBER_EQUAL));
}

#[test]
fn consistent_without_entry_is_false() {
    assert!(!consistent(None, clock(1, 2, 3), STRATEGY_NUMBER_EQUAL));
    assert!(!consistent(None, vectime::default(), STRATEGY_NUMBER_CONCURRENT));
}

#[test]
fn union_is_least_upper_bound() {
    let u = union(vec![clock(1, 0, 3), clock(0, 5, 1), clock(2, 0, 0)]);
    assert_eq!(u, clock(2, 5, 3));
    assert_eq!(union(vec![]), vectime::default());
}

#[test]
fn union_of_one_is_that_clock() {
    let u = union(vec![clock(4, 0, 1)]);
    assert_eq!(u.to_entries(), vec![("A".to_string(), 4), ("C".to_string(), 1)]);
}

#[test]
fn penalty_by_relation() {
    assert_eq!(penalty(&clock(1, 2, 3), &clock(1, 2, 3)), 0);
    assert_eq!(penalty(&clock(1, 2, 3), &clock(3, 2, 1)), 1);
    assert_eq!(penalty(&clock(1, 2, 3), &clock(1, 2, 0)), 2);
    assert_eq!(penalty(&clock(1, 2, 0), &clock(1, 2, 3)), 3);
}

#[test]
fn compress_and_decompress_are_identity() {
    assert_eq!(decompress(compress(clock(1, 2, 3))), clock(1, 2, 3));
}

fn sides(entries: &Vec<vectime>) -> (Vec<usize>, Vec<usize>) {
    let split = picksplit(entries);
    (split.left, split.right)
}

fn check_split(entries: &Vec<vectime>, min: usize) {
    let (left, right) = sides(entries);
    assert_eq!(left.len() + right.len(), entries.len());
    assert!(left.len() >= min && right.len() >= min);
    let mut seen = vec![false; entries.len()];
    for i in left.iter().chain(right.iter()) {
        assert!(!seen[*i]);
        seen[*i] = true;
    }
    assert!(seen.iter().all(|s| *s));
}

#[test]
fn split_of_two_puts_one_each_side() {
    let entries = vec![clock(1, 0, 0), clock(0, 1, 0)];
    check_split(&entries, 1);
}

#[test]
fn split_keeps_minimum_fill() {
    let mut entries = Vec::new();
    for i in 0..10 {
        entries.push(clock(i, 0, 0));
    }
    check_split(&entries, 3);
    let (left, right) = sides(&entries);
    assert_eq!(left, sides(&entries).0);
    assert_eq!(right, sides(&entries).1);
}

#[test]
fn split_follows_penalties() {
    let entries = vec![
        clock(5, 0, 0),
        clock(0, 5, 0),
        clock(6, 0, 0),
        clock(0, 6, 0),
        clock(7, 0, 0),
        clock(0, 7, 0),
    ];
    check_split(&entries, 1);
    let (left, right) = sides(&entries);
    assert_eq!(left, vec![0, 3, 4]);
    assert_eq!(right, vec![1, 2, 5]);
}

#[test]
fn split_of_equal_entries() {
    let entries = vec![clock(1, 1, 1), clock(1, 1, 1), clock(1, 1, 1)];
    check_split(&entries, 1);
}

#[test]
fn split_seeds_on_most_disagreeing_concurrent_pair() {
    let single = |k: &str, v: i64| increment(vectime::default(), k.to_string(), v);
    let entries = vec![single("A", 1), single("B", 1), clock(1, 1, 5), single("D", 3)];
    check_split(&entries, 2);
    let (left, right) = sides(&entries);
    assert_eq!(left, vec![2, 1]);
    assert_eq!(right, vec![3, 0]);
}

#[test]
fn disagreement_counts_differing_identifiers() {
    assert_eq!(clock(1, 2, 3).disagreements(&clock(3, 2, 1)), 2);
    assert_eq!(clock(1, 2, 3).disagreements(&clock(1, 2, 3)), 0);
    assert_eq!(clock(1, 0, 3).disagreements(&clock(0, 2, 0)), 3);
    let zero = vectime::from_entries(vec![("A".to_string(), 0)]).unwrap();
    assert_eq!(zero.disagreements(&vectime::default()), 0);
}

#[test]
fn split_sides_keep_three_tenths() {
    let mut entries = Vec::new();
    for i in 0..4 {
        entries.push(clock(i + 1, 0, 0));
    }
    check_split(&entries, 2);
    let mut entries = Vec::new();
    for i in 0..7 {
        entries.push(clock(0, i + 1, 0));
    }
    check_split(&entries, 3);
}

#[test]
fn split_returns_side_summaries() {
    let entries = vec![clock(5, 0, 0), clock(0, 5, 0), clock(6, 0, 1), clock(0, 6, 2)];
    let split = picksplit(&entries);
    assert_eq!(split.left, vec![0, 1]);
    assert_eq!(split.right, vec![3, 2]);
    assert_eq!(split.left_union, clock(5, 5, 0));
    assert_eq!(split.right_union, clock(6, 6, 2));
}
