use std::ops::Range;

use transcript_verify::invert_range;

#[test]
fn test_invert_ranges_errors() {
    let empty_range = Range { start: 0, end: 0 };
    let invalid_range = Range { start: 2, end: 1 };
    let out_of_bounds = Range { start: 4, end: 11 };

    let ranges = vec![empty_range, invalid_range, out_of_bounds];

    for range in ranges {
        assert!(invert_range(
            &Range {
                start: 0_usize,
                end: 10
            },
            &[range]
        )
        .is_err());
    }
}

#[test]
fn test_invert_ranges_overlapping() {
    let overlapping1 = vec![Range { start: 2, end: 5 }, Range { start: 4, end: 7 }];
    let overlapping2 = vec![Range { start: 2, end: 5 }, Range { start: 1, end: 4 }];
    let overlapping3 = vec![Range { start: 2, end: 5 }, Range { start: 3, end: 4 }];
    let overlapping4 = vec![Range { start: 2, end: 5 }, Range { start: 2, end: 5 }];

    // this should not be an error
    let ok1 = vec![Range { start: 2, end: 5 }, Range { start: 5, end: 8 }];
    let ok2 = vec![Range { start: 2, end: 5 }, Range { start: 7, end: 10 }];

    let overlap = vec![overlapping1, overlapping2, overlapping3, overlapping4];
    let ok = vec![ok1, ok2];

    for range in overlap {
        assert!(invert_range(
            &Range {
                start: 1_usize,
                end: 10
            },
            &range,
        )
        .is_err());
    }

    for range in ok {
        assert!(invert_range(
            &Range {
                start: 1_usize,
                end: 10
            },
            &range
        )
        .is_ok());
    }
}

#[test]
fn test_invert_ranges() {
    let ranges = &[
        Range { start: 1, end: 5 },
        Range { start: 5, end: 10 },
        Range { start: 12, end: 16 },
        Range { start: 18, end: 20 },
    ];

    let expected = vec![Range { start: 10, end: 12 }, Range { start: 16, end: 18 }];

    assert_eq!(
        invert_range(
            &Range {
                start: 1_usize,
                end: 20
            },
            ranges,
        )
        .unwrap(),
        expected
    );
}
