use transcript_verify::range::{IndexRanges, RangeSet};

#[test]
fn test_index_ranges_slice() {
    let data = &[1, 2, 3, 4, 5, 6, 7, 8, 9];
    let index = RangeSet::from([(0..3), (5..8)]);

    assert_eq!(data.index_ranges(&index), vec![1, 2, 3, 6, 7, 8]);
}

#[test]
fn test_index_empty_ranges_slice() {
    let data = &[1, 2, 3, 4, 5, 6, 7, 8, 9];
    let index = RangeSet::from([]);

    assert_eq!(data.index_ranges(&index), vec![]);
}

#[test]
fn test_index_ranges_str() {
    let data = "123456789";
    let index = RangeSet::from([(0..3), (5..8)]);

    assert_eq!(data.index_ranges(&index), "123678");
}

#[test]
fn test_index_empty_ranges_str() {
    let data = "123456789";
    let index = RangeSet::from([]);

    assert_eq!(data.index_ranges(&index), "");
}
