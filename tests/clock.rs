use std::cmp::Ordering;
use ::vectime::{
    compare_keys, contained, contains, increment, intersects, max, same, try_valueof, valueat, valueof,
    vectime,
};

fn vtime(a: i64, b: i64, c: i64) -> vectime {
    let ts = vectime::default();
    let ts = increment(ts, "A".to_string(), a);
    let ts = increment(ts, "B".to_string(), b);
    let ts = increment(ts, "C".to_string(), c);
    ts
}

#[test]
fn vtime_partial_cmp() {
    let cases = vec![
        (vtime(0, 0, 0), vtime(0, 0, 0), Some(Ordering::Equal)),
        (vtime(1, 2, 3), vtime(1, 2, 3), Some(Ordering::Equal)),
        (vtime(1, 2, 3), vtime(1, 2, 0), Some(Ordering::Greater)),
        (vtime(1, 3, 3), vtime(1, 2, 3), Some(Ordering::Greater)),
        (vtime(1, 0, 0), vtime(1, 2, 0), Some(Ordering::Less)),
        (vtime(1, 2, 2), vtime(1, 2, 3), Some(Ordering::Less)),
        (vtime(1, 2, 3), vtime(3, 2, 1), None),
        (vtime(1, 0, 1), vtime(1, 1, 0), None),
    ];

    for (left, right, expected) in cases {
        assert_eq!(left.partial_cmp(&right), expected);
    }
}

#[test]
fn vtime_max() {
    fn assert_max(left: vectime, right: vectime, expected: vectime) {
        assert_eq!(max(left, right), expected);
    }

    assert_max(vtime(0, 0, 0), vtime(0, 0, 0), vtime(0, 0, 0));
    assert_max(vtime(2, 2, 3), vtime(1, 2, 0), vtime(2, 2, 3));
    assert_max(vtime(1, 3, 3), vtime(1, 2, 4), vtime(1, 3, 4));
    assert_max(vtime(1, 0, 1), vtime(1, 1, 0), vtime(1, 1, 1));
}

#[test]
fn equal_clocks_are_same() {
    let a = vtime(1, 2, 3);
    let b = vtime(1, 2, 3);
    assert_eq!(a.compare(&b), Some(Ordering::Equal));
    assert!(same(a, b));
}

#[test]
fn later_clock_contains_earlier() {
    let a = vtime(1, 2, 3);
    let b = vtime(1, 2, 0);
    assert_eq!(a.compare(&b), Some(Ordering::Greater));
    assert!(contains(vtime(1, 2, 3), vtime(1, 2, 0)));
    assert!(contained(b, a));
}

#[test]
fn crossed_clocks_are_concurrent() {
    let a = vtime(1, 2, 3);
    let b = vtime(3, 2, 1);
    assert_eq!(a.compare(&b), None);
    assert!(intersects(a, b));
    assert!(!same(vtime(1, 2, 3), vtime(3, 2, 1)));
    assert!(!contains(vtime(1, 2, 3), vtime(3, 2, 1)));
    assert!(!contained(vtime(1, 2, 3), vtime(3, 2, 1)));
}

#[test]
fn merge_takes_pointwise_maximum() {
    let m = max(vtime(2, 2, 3), vtime(1, 2, 0));
    assert_eq!(m, vtime(2, 2, 3));
    assert_eq!(valueat(max(vtime(2, 0, 3), vtime(1, 5, 0)), "B".to_string()), 5);
}

#[test]
fn zero_increment_leaves_clock_unchanged() {
    let r = increment(vectime::default(), "A".to_string(), 0);
    assert_eq!(r, vectime::default());
    assert!(r.to_entries().is_empty());
    let r = increment(vtime(1, 2, 3), "B".to_string(), -4);
    assert_eq!(valueat(r, "B".to_string()), 2);
}

#[test]
fn increment_adds_delta() {
    let r = increment(vtime(1, 2, 3), "B".to_string(), 5);
    assert_eq!(valueat(r, "B".to_string()), 7);
    let r = increment(vtime(1, 2, 3), "D".to_string(), 4);
    assert_eq!(valueof(r), 10);
}

#[test]
fn totals_and_counters() {
    assert_eq!(valueof(vtime(1, 1, 1)), 3);
    assert_eq!(valueat(vtime(1, 1, 1), "B".to_string()), 1);
    assert_eq!(valueat(vtime(1, 0, 0), "Z".to_string()), 0);
    assert_eq!(valueof(vectime::default()), 0);
}

#[test]
fn merge_laws_on_values() {
    let a = vtime(1, 0, 4);
    let b = vtime(0, 3, 2);
    let c = vtime(5, 1, 0);
    assert_eq!(max(vtime(1, 0, 4), vtime(1, 0, 4)), a);
    assert_eq!(max(vtime(1, 0, 4), vtime(0, 3, 2)), max(vtime(0, 3, 2), vtime(1, 0, 4)));
    assert_eq!(
        max(max(vtime(1, 0, 4), vtime(0, 3, 2)), vtime(5, 1, 0)),
        max(vtime(1, 0, 4), max(b, c))
    );
}

#[test]
fn merge_total_is_at_least_either() {
    let m = max(vtime(1, 0, 4), vtime(0, 3, 2));
    assert_eq!(valueof(m), 8);
    assert!(8 >= valueof(vtime(1, 0, 4)).max(valueof(vtime(0, 3, 2))));
}

#[test]
fn compare_is_reflexive_and_antisymmetric() {
    let a = vtime(2, 0, 7);
    assert_eq!(a.compare(&vtime(2, 0, 7)), Some(Ordering::Equal));
    let b = vtime(2, 1, 7);
    assert_eq!(b.compare(&a), Some(Ordering::Greater));
    assert_eq!(a.compare(&b), Some(Ordering::Less));
}

#[test]
fn absent_key_compares_as_zero() {
    let a = vtime(0, 0, 0);
    let b = increment(vectime::default(), "Q".to_string(), 1);
    assert_eq!(a.compare(&b), Some(Ordering::Less));
    let z = vectime::from_entries(vec![("A".to_string(), 0)]).unwrap();
    assert_eq!(z.compare(&vectime::default()), Some(Ordering::Equal));
}

#[test]
fn entries_round_trip() {
    let a = vtime(4, 0, 9);
    let stored = a.to_entries();
    assert_eq!(stored, vec![("A".to_string(), 4), ("C".to_string(), 9)]);
    let back = vectime::from_entries(stored).unwrap();
    assert_eq!(back, vtime(4, 0, 9));
}

#[test]
fn malformed_entries_are_rejected() {
    assert!(vectime::from_entries(vec![("B".to_string(), 1), ("A".to_string(), 1)]).is_none());
    assert!(vectime::from_entries(vec![("A".to_string(), 1), ("A".to_string(), 2)]).is_none());
    assert!(vectime::from_entries(vec![("A".to_string(), -1)]).is_none());
    assert!(vectime::from_entries(vec![]).is_some());
}

#[test]
fn keys_order_bytewise() {
    assert_eq!(compare_keys("A", "B"), Ordering::Less);
    assert_eq!(compare_keys("AB", "A"), Ordering::Greater);
    assert_eq!(compare_keys("Z", "a"), Ordering::Less);
    assert_eq!(compare_keys("é", "z"), Ordering::Greater);
    assert_eq!(compare_keys("", ""), Ordering::Equal);
}

#[test]
fn largest_counter_sums() {
    let a = increment(vectime::default(), "A".to_string(), i64::MAX);
    assert_eq!(valueof(a), i64::MAX);
}

#[test]
fn checked_total() {
    assert_eq!(try_valueof(vtime(1, 2, 3)), Some(6));
    let big = increment(vectime::default(), "A".to_string(), i64::MAX);
    let big = increment(big, "B".to_string(), 1);
    assert_eq!(try_valueof(big), None);
}
