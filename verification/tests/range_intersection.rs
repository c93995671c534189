use transcript_verify::range::{Intersection, RangeSet};

#[test]
fn test_range_intersection_range() {
    assert!((0..0).intersection(&(0..0)).is_none());
    assert!((0..1).intersection(&(0..0)).is_none());
    assert!((0..0).intersection(&(0..1)).is_none());
    assert_eq!((0..1).intersection(&(0..1)), Some(0..1));
    assert_eq!((0..2).intersection(&(0..1)), Some(0..1));
    assert_eq!((0..1).intersection(&(0..2)), Some(0..1));
    assert_eq!((0..2).intersection(&(0..2)), Some(0..2));
    assert_eq!((0..2).intersection(&(1..2)), Some(1..2));
    assert_eq!((1..2).intersection(&(0..2)), Some(1..2));
}

#[test]
fn test_range_intersection_set() {
    let set = RangeSet::from(vec![0..1, 2..3, 4..5]);

    assert_eq!(set.intersection(&(0..0)), RangeSet::default());
    assert_eq!(set.intersection(&(0..1)), RangeSet::from(vec![0..1]));
    assert_eq!(set.intersection(&(0..2)), RangeSet::from(vec![0..1]));
    assert_eq!(set.intersection(&(0..3)), RangeSet::from(vec![0..1, 2..3]));
    assert_eq!(set.intersection(&(0..4)), RangeSet::from(vec![0..1, 2..3]));
    assert_eq!(set.intersection(&(1..3)), RangeSet::from(vec![2..3]));
    assert_eq!(
        set.intersection(&(0..6)),
        RangeSet::from(vec![0..1, 2..3, 4..5])
    );
    assert_eq!(
        set.intersection(&(0..6)),
        RangeSet::from(vec![0..1, 2..3, 4..5])
    );
}

#[test]
fn test_set_intersection_set() {
    let set = RangeSet::from(vec![0..1, 2..3, 5..6]);

    assert_eq!(set.intersection(&RangeSet::default()), RangeSet::default());
    assert_eq!(
        set.intersection(&RangeSet::from(vec![1..2])),
        RangeSet::default()
    );
    assert_eq!(
        set.intersection(&RangeSet::from(vec![3..5])),
        RangeSet::default()
    );
    assert_eq!(
        set.intersection(&RangeSet::from(vec![7..8])),
        RangeSet::default()
    );
    assert_eq!(
        set.intersection(&RangeSet::from(vec![0..1])),
        RangeSet::from(vec![0..1])
    );
    assert_eq!(
        set.intersection(&RangeSet::from(vec![0..2])),
        RangeSet::from(vec![0..1])
    );
    assert_eq!(
        set.intersection(&RangeSet::from(vec![0..3])),
        RangeSet::from(vec![0..1, 2..3])
    );
    assert_eq!(set.intersection(&RangeSet::from(vec![0..6])), set);
    assert_eq!(
        set.intersection(&RangeSet::from(vec![1..6])),
        RangeSet::from(vec![2..3, 5..6])
    );
    assert_eq!(
        set.intersection(&RangeSet::from(vec![2..3, 5..6])),
        RangeSet::from(vec![2..3, 5..6])
    );
}
