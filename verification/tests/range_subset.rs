use transcript_verify::range::{RangeSet, Subset};

#[test]
fn test_range_subset_of_range() {
    let a = 10..20;

    // empty
    assert!(!a.is_subset(&(0..0)));
    // rightward
    assert!(!a.is_subset(&(20..30)));
    // rightward aligned
    assert!(!a.is_subset(&(19..25)));
    // leftward
    assert!(!a.is_subset(&(0..10)));
    // leftward aligned
    assert!(!a.is_subset(&(5..11)));
    // rightward subset
    assert!(!a.is_subset(&(15..20)));
    // leftward subset
    assert!(!a.is_subset(&(10..15)));
    // superset
    assert!(a.is_subset(&(5..25)));
    // equal
    assert!(a.is_subset(&(10..20)));
}

#[test]
fn test_range_subset_of_rangeset() {
    let a = 10..20;

    let empty = RangeSet::default();

    // empty set is subset of any range
    assert!(empty.is_subset(&a));
    // non-empty range is not subset of empty set
    assert!(!a.is_subset(&empty));

    assert!(a.is_subset(&RangeSet::from(vec![0..20])));
    assert!(a.is_subset(&RangeSet::from(vec![10..20])));
    assert!(!a.is_subset(&RangeSet::from(vec![0..10])));
    assert!(!a.is_subset(&RangeSet::from(vec![20..30])));
    assert!(!a.is_subset(&RangeSet::from(vec![0..10, 20..30])));
}

#[test]
fn test_rangeset_subset_of_range() {
    let a = RangeSet::from(vec![10..20, 30..40]);

    assert!(!a.is_subset(&(0..0)));
    assert!(!a.is_subset(&(0..10)));
    assert!(!a.is_subset(&(0..15)));
    assert!(!a.is_subset(&(0..20)));
    assert!(!a.is_subset(&(20..30)));
    assert!(!a.is_subset(&(20..40)));
    assert!(!a.is_subset(&(20..50)));
    assert!(!a.is_subset(&(30..40)));
    assert!(!a.is_subset(&(11..40)));
    assert!(!a.is_subset(&(10..39)));

    assert!(a.is_subset(&(10..40)));
}

#[test]
fn test_rangeset_subset_of_rangeset() {
    let empty = RangeSet::default();

    // empty set is subset of itself
    assert!(empty.is_subset(&empty));
    // empty set is subset of non-empty set
    assert!(empty.is_subset(&RangeSet::from(vec![10..20])));
    // non-empty set is not subset of empty set
    assert!(!RangeSet::from(vec![10..20]).is_subset(&empty));

    let a = RangeSet::from(vec![10..20, 30..40]);

    // equal
    assert!(a.is_subset(&a));

    assert!(a.is_subset(&RangeSet::from(vec![0..20, 30..50])));
    assert!(a.is_subset(&RangeSet::from(vec![10..20, 30..40, 40..50])));
    assert!(!a.is_subset(&RangeSet::from(vec![10..20])));
    assert!(!a.is_subset(&RangeSet::from(vec![30..40])));
    assert!(!a.is_subset(&RangeSet::from(vec![0..20, 30..39])));
    assert!(!a.is_subset(&RangeSet::from(vec![10..19, 30..40])));
    assert!(!a.is_subset(&RangeSet::from(vec![0..10, 30..40])));
}
