use std::ops::Range;

use transcript_verify::range::{RangeDisjoint, RangeSet, RangeSubset, RangeSuperset};

fn values_of(set: &RangeSet) -> Vec<usize> {
    let mut it = set.iter();
    let mut values = Vec::new();
    while let Some(v) = it.next() {
        values.push(v);
    }
    values
}

fn ranges_of(set: &RangeSet) -> Vec<Range<usize>> {
    let mut it = set.iter_ranges();
    let mut out = Vec::new();
    while let Some(r) = it.next() {
        out.push(r);
    }
    out
}

fn ranges_reversed(set: &RangeSet) -> Vec<Range<usize>> {
    let mut it = set.iter_ranges();
    let mut out = Vec::new();
    while let Some(r) = it.next_back() {
        out.push(r);
    }
    out
}

#[test]
fn mod_test_range_disjoint() {
    let a = 10..20;

    // rightward
    assert!(a.is_disjoint(&(20..30)));
    // rightward aligned
    assert!(!a.is_disjoint(&(19..25)));
    // leftward
    assert!(a.is_disjoint(&(0..10)));
    // leftward aligned
    assert!(!a.is_disjoint(&(5..11)));
    // rightward subset
    assert!(!a.is_disjoint(&(15..25)));
    // leftward subset
    assert!(!a.is_disjoint(&(5..15)));
    // superset
    assert!(!a.is_disjoint(&(5..25)));
    // equal
    assert!(!a.is_disjoint(&(10..20)));
}

#[test]
fn mod_test_range_superset() {
    let a = 10..20;

    // rightward
    assert!(!a.is_superset(&(20..30)));
    // rightward aligned
    assert!(!a.is_superset(&(19..25)));
    // leftward
    assert!(!a.is_superset(&(0..10)));
    // leftward aligned
    assert!(!a.is_superset(&(5..11)));
    // rightward subset
    assert!(a.is_superset(&(15..20)));
    // leftward subset
    assert!(a.is_superset(&(10..15)));
    // superset
    assert!(!a.is_superset(&(5..25)));
    // equal
    assert!(a.is_superset(&(10..20)));
}

#[test]
fn mod_test_range_subset() {
    let a = 10..20;

    // rightward
    assert!(!a.is_subset(&(20..30)));
    // rightward aligned
    assert!(!a.is_subset(&(19..25)));
    // leftward
    assert!(!a.is_subset(&(0..10)));
    // leftward aligned
    assert!(!a.is_subset(&(5..11)));
    // rightward subset
    assert!(!a.is_subset(&(15..20)));
    // leftward subset
    assert!(!a.is_subset(&(10..15)));
    // superset
    assert!(a.is_subset(&(5..25)));
    // equal
    assert!(a.is_subset(&(10..20)));
}

#[test]
fn mod_test_range_set_iter() {
    let a = RangeSet::from([(10..20), (30..40), (50..60)]);

    let values = values_of(&a);
    let expected_values = (10..20).chain(30..40).chain(50..60).collect::<Vec<_>>();
    assert_eq!(values, expected_values);
}

#[test]
fn test_range_iter() {
    let a = RangeSet::from([(10..20), (30..40), (50..60)]);

    let values = ranges_of(&a);
    let expected_values = vec![10..20, 30..40, 50..60];

    assert_eq!(values, expected_values);

    let reversed_values = ranges_reversed(&a);
    let expected_reversed_values = vec![50..60, 30..40, 10..20];

    assert_eq!(reversed_values, expected_reversed_values);

    let mut iter = a.iter_ranges();
    assert_eq!(iter.len(), 3);
    _ = iter.next();
    assert_eq!(iter.len(), 2);
}

#[test]
fn test_range_set_shift_left() {
    let mut a = RangeSet::from([(1..5), (6..10)]);
    a.shift_left(&1);

    assert_eq!(a, RangeSet::from([(0..4), (5..9)]));
}

#[test]
fn test_range_set_shift_right() {
    let mut a = RangeSet::from([(0..4), (5..9)]);
    a.shift_right(&1);

    assert_eq!(a, RangeSet::from([(1..5), (6..10)]));
}

#[test]
fn test_range_set_max() {
    assert!(RangeSet::default().max().is_none());
    assert_eq!(RangeSet::from([0..1]).max(), Some(0));
    assert_eq!(RangeSet::from([0..2]).max(), Some(1));
    assert_eq!(RangeSet::from([(0..5), (6..10)]).max(), Some(9));
}
