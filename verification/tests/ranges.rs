use librespot::range::Range;
use librespot::range_set::RangeSet;

fn bounds(set: &RangeSet) -> Vec<(usize, usize)> {
    set.iter().map(|r| (r.start(), r.end())).collect()
}

fn set_of(ranges: &[(usize, usize)]) -> RangeSet {
    RangeSet::from(ranges.iter().map(|&(s, e)| Range::from(s..e)).collect())
}

#[test]
fn range_accessors() {
    let r = Range::new(5, 10);
    assert_eq!(r.start(), 5);
    assert_eq!(r.end(), 15);
    assert_eq!(r.len(), 10);
    assert!(!r.is_empty());
    assert!(r.contains(5));
    assert!(r.contains(14));
    assert!(!r.contains(15));
    assert!(!r.contains(4));
}

#[test]
fn range_clear_and_set_len() {
    let mut r = Range::from(3..9);
    r.set_len(2);
    assert_eq!((r.start(), r.end()), (3, 5));
    r.clear();
    assert_eq!((r.start(), r.end()), (3, 3));
    assert!(r.is_empty());
    assert_eq!(r.len(), 0);
    assert!(!r.contains(3));
}

#[test]
fn add_keeps_canonical_form() {
    let mut set = RangeSet::new();
    set.add_range(Range::from(20..30));
    set.add_range(Range::from(0..5));
    set.add_range(Range::from(40..50));
    assert_eq!(bounds(&set), vec![(0, 5), (20, 30), (40, 50)]);
    // a range that touches two neighbours merges them
    set.add_range(Range::from(30..40));
    assert_eq!(bounds(&set), vec![(0, 5), (20, 50)]);
    // a range reaching over several ranges swallows them
    set.add_range(Range::from(3..60));
    assert_eq!(bounds(&set), vec![(0, 60)]);
    // an empty range changes nothing
    set.add_range(Range::new(100, 0));
    assert_eq!(bounds(&set), vec![(0, 60)]);
    assert_eq!(set.len(), 60);
}

#[test]
fn subtract_cuts_and_splits() {
    let mut set = set_of(&[(0, 10), (20, 30), (40, 50)]);
    // a hole in the middle of one range
    set.subtract_range(Range::from(22..25));
    assert_eq!(bounds(&set), vec![(0, 10), (20, 22), (25, 30), (40, 50)]);
    // cutting the end of one range and the start of another
    set.subtract_range(Range::from(5..45));
    assert_eq!(bounds(&set), vec![(0, 5), (45, 50)]);
    // removing what is not there changes nothing
    set.subtract_range(Range::from(10..40));
    assert_eq!(bounds(&set), vec![(0, 5), (45, 50)]);
    set.subtract_range(Range::new(2, 0));
    assert_eq!(bounds(&set), vec![(0, 5), (45, 50)]);
    set.subtract_range(Range::from(0..100));
    assert!(set.is_empty());
}

#[test]
fn set_operations() {
    let a = set_of(&[(0, 10), (20, 30)]);
    let b = set_of(&[(5, 25), (28, 40)]);
    assert_eq!(bounds(&a.intersection(&b)), vec![(5, 10), (20, 25), (28, 30)]);
    assert_eq!(bounds(&a.union(&b)), vec![(0, 40)]);
    assert_eq!(bounds(&a.difference(&b)), vec![(0, 5), (25, 28)]);
    assert_eq!(bounds(&b.difference(&a)), vec![(10, 20), (30, 40)]);
    let mut c = a.clone();
    c += &b;
    assert_eq!(c, a.union(&b));
    let mut d = a.clone();
    d -= &b;
    assert_eq!(d, a.difference(&b));
    assert!(a.intersection(&RangeSet::new()).is_empty());
}

#[test]
fn from_unordered_overlapping_ranges() {
    let set = set_of(&[(50, 60), (0, 10), (5, 15), (15, 20), (30, 31)]);
    assert_eq!(bounds(&set), vec![(0, 20), (30, 31), (50, 60)]);
    assert_eq!(set.get(1), Range::from(30..31));
    assert_eq!(set.clone().into_ranges(), vec![Range::from(0..20), Range::from(30..31), Range::from(50..60)]);
    assert_eq!(set.len(), 31);
}

#[test]
fn contained_length_is_run_from_value() {
    let set = set_of(&[(0, 10), (20, 30)]);
    assert_eq!(set.contained_length_from_value(3), 7);
    assert_eq!(set.contained_length_from_value(9), 1);
    assert_eq!(set.contained_length_from_value(15), 0);
    assert_eq!(set.contained_length_from_value(30), 0);
    // a value lies in the set exactly when its run is not empty
    for v in 0..40 {
        assert_eq!(set.contains(v), set.contained_length_from_value(v) > 0);
    }
}

#[test]
fn canonical_form_does_not_depend_on_order() {
    let one = set_of(&[(0, 10), (10, 20), (30, 40)]);
    let two = set_of(&[(30, 35), (35, 40), (0, 20)]);
    assert_eq!(one, two);
}

#[test]
fn subtract_then_add_restores() {
    let before = set_of(&[(0, 10), (20, 30)]);
    let r = Range::from(22..28);
    let mut set = before.clone();
    set -= r;
    set += r;
    assert_eq!(set, before);
}

#[test]
fn add_then_subtract_restores() {
    let before = set_of(&[(0, 10), (20, 30)]);
    let r = Range::from(12..18);
    let mut set = before.clone();
    set += r;
    set -= r;
    assert_eq!(set, before);
}

#[test]
fn add_covered_range_changes_nothing() {
    let before = set_of(&[(0, 10), (20, 30)]);
    let mut set = before.clone();
    set.add_range(Range::from(21..29));
    assert_eq!(set, before);
}

#[test]
fn containment_of_sets() {
    let big = set_of(&[(0, 100)]);
    let small = set_of(&[(10, 20), (50, 60)]);
    assert!(big.contains_range_set(&small));
    assert!(!small.contains_range_set(&big));
    assert!(small.contains_range_set(&RangeSet::new()));
    assert!(RangeSet::new().contains_range_set(&RangeSet::new()));
}

#[test]
fn text_of_ranges() {
    assert_eq!(Range::from(0..10).describe(), "[0, 9]");
    assert_eq!(Range::from(20..21).describe(), "[20, 20]");
    assert_eq!(set_of(&[(0, 10), (20, 30)]).describe(), "([0, 9][20, 29])");
    assert_eq!(RangeSet::new().describe(), "()");
}

#[test]
fn default_set_is_empty() {
    let set = RangeSet::default();
    assert!(set.is_empty());
    assert_eq!(set.len(), 0);
    assert_eq!(set, RangeSet::new());
}
