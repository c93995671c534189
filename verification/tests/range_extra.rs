use std::ops::Range;

use transcript_verify::range::{
    Cover, IndexRanges, Intersection, RangeDifference, RangeIntersects, RangeSet, RangeUnion,
    SymmetricDifference, SymmetricDifferenceMut,
};
use transcript_verify::{RangeError, invert_range};

fn values_of(set: &RangeSet) -> Vec<usize> {
    let mut it = set.iter();
    let mut values = Vec::new();
    while let Some(v) = it.next() {
        values.push(v);
    }
    values
}

#[test]
fn range_set_new_merges_overlapping_and_adjacent() {
    let set = RangeSet::new(&[5..10, 0..3, 3..4, 8..12, 20..20, 30..25]);
    assert_eq!(set, RangeSet::from([0..4, 5..12]));
    assert_eq!(set.into_inner(), vec![0..4, 5..12]);
}

#[test]
fn range_set_len_contains_and_bounds() {
    let set = RangeSet::from([0..5, 6..10]);
    assert_eq!(set.len(), 9);
    assert!(!set.is_empty());
    assert!(set.contains(&0));
    assert!(set.contains(&9));
    assert!(!set.contains(&5));
    assert!(!set.contains(&10));
    assert_eq!(set.min(), Some(0));
    assert_eq!(set.end(), Some(10));
    assert_eq!(set.max(), Some(9));

    let empty = RangeSet::default();
    assert_eq!(empty.len(), 0);
    assert!(empty.is_empty());
    assert_eq!(empty.min(), None);
    assert_eq!(empty.end(), None);
    assert_eq!(empty.max(), None);
}

#[test]
fn range_set_split_off_cases() {
    let cases: Vec<(RangeSet, usize)> = vec![
        (RangeSet::from([0..1]), 0),
        (RangeSet::from([0..5]), 1),
        (RangeSet::from([0..5, 6..10]), 4),
        (RangeSet::from([0..5, 6..10]), 6),
        (RangeSet::from([0..5, 6..10]), 9),
    ];
    for (set, at) in cases {
        let mut a = set.clone();
        let b = a.split_off(&at);
        assert_eq!(a.len() + b.len(), set.len());
        let mut joined = values_of(&a);
        joined.extend(values_of(&b));
        assert_eq!(joined, values_of(&set));
        assert!(values_of(&a).iter().all(|v| *v < at));
        assert!(values_of(&b).iter().all(|v| *v >= at));
    }
    let mut a = RangeSet::from([0..5, 6..10]);
    let b = a.split_off(&7);
    assert_eq!(a, RangeSet::from([0..5, 6..7]));
    assert_eq!(b, RangeSet::from([7..10]));
}

#[test]
fn range_set_shift_round_trip() {
    let original = RangeSet::from([3..5, 8..9]);
    let mut a = original.clone();
    a.shift_left(&3);
    assert_eq!(a, RangeSet::from([0..2, 5..6]));
    a.shift_right(&3);
    assert_eq!(a, original);
}

#[test]
fn range_set_symmetric_difference() {
    let a = RangeSet::from([0..10, 20..30]);
    let b = RangeSet::from([5..25]);
    let x = a.symmetric_difference(&b);
    assert_eq!(x, RangeSet::from([0..5, 10..20, 25..30]));
    assert_eq!(x.symmetric_difference(&b), a);

    let mut c = a.clone();
    c.symmetric_difference_mut(&(5..25));
    assert_eq!(c, x);
    assert_eq!(a.clone() ^ (5..25), x);
    assert_eq!(a.clone() ^ &b, x);
    let mut d = a.clone();
    d ^= &b;
    d ^= 5..25;
    assert_eq!(d, a);
}

#[test]
fn range_set_union_commutes_and_difference_removes() {
    let a = RangeSet::from([0..3, 10..12]);
    let b = RangeSet::from([2..11]);
    assert_eq!(a.union(&b), b.union(&a));
    assert_eq!(a.union(&b), RangeSet::from([0..12]));
    let d = a.union(&b).difference(&b);
    assert_eq!(d, RangeSet::from([0..2, 11..12]));
    assert_eq!(d.intersection(&b), RangeSet::default());
}

#[test]
fn range_intersects() {
    let a = 10..20;
    assert!(a.intersects(&(19..25)));
    assert!(!a.intersects(&(20..25)));
    assert!(a.intersects(&RangeSet::from([0..5, 15..16])));
    assert!(!a.intersects(&RangeSet::from([0..10, 20..30])));
}

#[test]
fn range_set_equals_single_range() {
    let set = RangeSet::from([3..7]);
    assert!(set == (3..7));
    assert!((3..7) == set);
    assert!(RangeSet::from([3..7, 8..9]) != (3..7));
}

#[test]
fn range_set_conversions() {
    let set = RangeSet::from(vec![4..6, 0..2]);
    let ranges: Vec<Range<usize>> = set.clone().into();
    assert_eq!(ranges, vec![0..2, 4..6]);
    let slice: &[Range<usize>] = &[0..2, 1..3];
    assert_eq!(RangeSet::from(slice), RangeSet::from(0..3));
    assert_eq!(RangeSet::from(5..5), RangeSet::default());
}

#[test]
fn index_ranges_multibyte_str() {
    let data = "aé€b";
    let index = RangeSet::from([0..1, 3..6]);
    assert_eq!(data.index_ranges(&index), "a€");
}

#[test]
fn invert_range_errors_by_kind() {
    assert_eq!(invert_range(&(5..5), &[]), Err(RangeError::Invalid));
    assert_eq!(invert_range(&(0..10), &[3..3]), Err(RangeError::Invalid));
    assert_eq!(invert_range(&(0..10), &[3..11]), Err(RangeError::OutOfBounds));
    assert_eq!(invert_range(&(2..10), &[0..3]), Err(RangeError::OutOfBounds));
    assert_eq!(invert_range(&(0..10), &[2..5, 4..6]), Err(RangeError::Overlapping));
    // the first range with a problem decides, checked in order
    assert_eq!(invert_range(&(0..10), &[2..5, 4..6, 7..7]), Err(RangeError::Overlapping));
    assert_eq!(invert_range(&(0..10), &[7..7, 2..5, 4..6]), Err(RangeError::Invalid));
    assert_eq!(RangeError::Invalid.message(), "Found zero or negative range");
    assert_eq!(RangeError::OutOfBounds.message(), "Found out of bounds range");
    assert_eq!(RangeError::Overlapping.message(), "Found overlapping ranges");
}

#[test]
fn invert_range_unsorted_input() {
    let out = invert_range(&(0..10), &[5..6, 1..2]).unwrap();
    assert_eq!(out, vec![0..1, 6..10, 2..5]);
    assert_eq!(invert_range(&(0..10), &[]).unwrap(), vec![0..10]);
    assert_eq!(invert_range(&(0..10), &[0..10]).unwrap(), Vec::<Range<usize>>::new());
}

#[test]
fn cover_ties_go_to_the_first_candidate() {
    let query = RangeSet::from(1..7);
    let others = [RangeSet::from(1..4), RangeSet::from(4..7), RangeSet::from(1..4)];
    // two sets are needed; among the pairs that cover, the first in
    // position order is taken
    assert_eq!(query.find_cover(&others), Some(vec![0, 1]));
    let others = [RangeSet::from(4..7), RangeSet::from(1..4)];
    assert_eq!(query.find_cover(&others), Some(vec![0, 1]));
}

#[test]
fn cover_picks_sets_adding_one_value() {
    let query = RangeSet::from(1..4);
    let others = [RangeSet::from(1..3), RangeSet::from(3..4)];
    assert_eq!(query.find_cover(&others), Some(vec![0, 1]));
    let others = [RangeSet::from(1..3), RangeSet::from(2..4)];
    assert_eq!(query.find_cover(&others), Some(vec![0, 1]));
    let query = RangeSet::from(1..2);
    let others = [RangeSet::from(1..2)];
    assert_eq!(query.find_cover(&others), Some(vec![0]));
    // a value no subset holds: no cover exists
    let query = RangeSet::from(1..4);
    let others = [RangeSet::from(1..3), RangeSet::from(2..5)];
    assert_eq!(query.find_cover(&others), None);
}

#[test]
fn cover_takes_the_fewest_sets() {
    // the widest set first would need all three; two suffice
    let query = RangeSet::from(0..12);
    let others = [RangeSet::from(0..6), RangeSet::from(6..12), RangeSet::from(2..10)];
    assert_eq!(query.find_cover(&others), Some(vec![0, 1]));
    let sets = query.cover(&others).unwrap();
    assert_eq!(sets, vec![&others[0], &others[1]]);
    // an empty query needs no set at all
    let empty = RangeSet::default();
    assert_eq!(empty.find_cover(&others), Some(vec![]));
}
