use librespot::range::Range;
use librespot::range_set::RangeSet;

fn test_set1() -> RangeSet {
    RangeSet::from(vec![Range::from(0..10), Range::from(20..30)])
}

fn test_set2() -> RangeSet {
    RangeSet::from(vec![Range::from(0..20), Range::from(20..30)])
}

fn test_set3() -> RangeSet {
    RangeSet::from(vec![Range::from(0..10), Range::from(10..20), Range::from(20..30)])
}

fn test_set4() -> RangeSet {
    RangeSet::from(vec![Range::from(20..30)])
}

fn is_sorted(rs: &RangeSet) -> bool {
    let mut ranges = rs.iter();
    let first = *ranges.next().unwrap();
    ranges
        .fold((true, first), |(is_sorted, prev), &r| (is_sorted && prev.start() <= r.start(), r))
        .0
}

#[test]
fn test_is_empty() {
    let empty_set: RangeSet = RangeSet::from(Vec::new());
    assert!(empty_set.is_empty());
}

#[test]
fn test_len() {
    assert_eq!(test_set1().len(), 20);
    assert_eq!(test_set2().len(), 30);
    assert_eq!(test_set3().len(), 30);
}

#[test]
fn test_contains() {
    assert!(test_set1().contains(0));
    assert!(test_set1().contains(5));
    assert!(!test_set1().contains(10));

    assert!(test_set2().contains(0));
    assert!(test_set2().contains(20));
    assert!(!test_set2().contains(30));

    assert!(test_set3().contains(0));
    assert!(test_set3().contains(5));
    assert!(test_set3().contains(10));
}

#[test]
fn contained_length_from_value() {
    assert_eq!(test_set1().contained_length_from_value(0), 10);
    assert_eq!(test_set1().contained_length_from_value(10), 0);
    assert_eq!(test_set1().contained_length_from_value(20), 10);
}

#[test]
fn test_contains_range_set() {
    assert!(test_set1().contains_range_set(&test_set1()));
    assert!(!test_set1().contains_range_set(&test_set2()));
    assert!(!test_set1().contains_range_set(&test_set3()));

    assert!(test_set2().contains_range_set(&test_set1()));
    assert!(test_set2().contains_range_set(&test_set2()));
    assert!(test_set2().contains_range_set(&test_set3()));

    assert!(test_set3().contains_range_set(&test_set1()));
    assert!(test_set3().contains_range_set(&test_set2()));
    assert!(test_set3().contains_range_set(&test_set3()));
}

#[test]
fn test_add() {
    let mut test1 = test_set1();
    let to_add: Range = Range::from(0..10);
    test1 += to_add;
    assert_eq!(test_set1(), test1);
    let to_add: Range = Range::from(10..20);
    test1 += to_add;
    assert_eq!(test_set2(), test1);
    let to_add: Range = Range::from(5..15);
    test1 += to_add;
    assert_eq!(test_set2(), test1);

    assert!(is_sorted(&test1));
}

#[test]
fn test_sub() {
    let mut test1 = test_set1();
    let to_sub: Range = Range::from(0..10);
    test1 -= to_sub;
    assert_eq!(test_set4(), test1);

    let mut test3 = test_set3();
    let to_sub: Range = Range::from(10..20);
    test3 -= to_sub;
    assert_eq!(test_set1(), test3);

    let mut test4: RangeSet = RangeSet::from(vec![Range::from(0..221184)]);
    let to_sub: Range = Range::from(0..69632);
    test4 -= to_sub;
    let res: RangeSet = RangeSet::from(vec![Range::from(69632..221184)]);
    assert_eq!(res, test4);
}
