use transcript_verify::range::{RangeDifference, RangeSet};

#[test]
fn difference_test_range_difference() {
    let a = 10..20;

    // rightward subset
    // [-----)
    //     [-----)
    assert_eq!(a.difference(&(15..25)), RangeSet::from([(10..15)]));

    // rightward aligned
    // [-----)
    //       [-----)
    assert_eq!(a.difference(&(20..25)), RangeSet::from([(10..20)]));

    // rightward aligned inclusive
    // [-----)
    //      [-----)
    assert_eq!(a.difference(&(19..25)), RangeSet::from([(10..19)]));

    // rightward disjoint
    // [-----)
    //           [-----)
    assert_eq!(a.difference(&(25..30)), RangeSet::from([(10..20)]));

    // leftward subset
    //    [-----)
    // [-----)
    assert_eq!(a.difference(&(5..15)), RangeSet::from([(15..20)]));

    // leftward aligned
    //       [-----)
    // [-----)
    assert_eq!(a.difference(&(5..10)), RangeSet::from([(10..20)]));

    // leftward aligned inclusive
    //      [-----)
    // [-----)
    assert_eq!(a.difference(&(5..11)), RangeSet::from([(11..20)]));

    // leftward disjoint
    //           [-----)
    // [-----)
    assert_eq!(a.difference(&(0..5)), RangeSet::from([(10..20)]));

    // superset
    assert_eq!(a.difference(&(5..25)), RangeSet::default());

    // subset
    assert_eq!(
        a.difference(&(14..16)),
        RangeSet::from([(10..14), (16..20)])
    );

    // equal
    assert_eq!(a.difference(&(10..20)), RangeSet::default());
}

#[test]
fn difference_test_range_diff_set() {
    let a = 10..20;

    // rightward subset
    // [-----)
    //     [-----)
    let b = RangeSet::from([(15..25)]);
    assert_eq!(a.difference(&b), RangeSet::from([(10..15)]));

    // leftward subset
    //    [-----)
    // [-----)
    let b = RangeSet::from([(5..15)]);
    assert_eq!(a.difference(&b), RangeSet::from([(15..20)]));

    // subset
    // [-----)
    //   [--)
    let b = RangeSet::from([(12..15)]);
    assert_eq!(a.difference(&b), RangeSet::from([(10..12), (15..20)]));

    // 2 subsets
    // [-------)
    //  [-)[-)
    let b = RangeSet::from([(11..13), (15..18)]);
    assert_eq!(
        a.difference(&b),
        RangeSet::from([(10..11), (13..15), (18..20)])
    );

    // 3 subsets
    // [---------)
    //  [-)[-)[-)
    let b = RangeSet::from([(11..12), (13..15), (17..19)]);
    assert_eq!(
        a.difference(&b),
        RangeSet::from([(10..11), (12..13), (15..17), (19..20)])
    );
}

#[test]
fn difference_test_set_diff_range() {
    let a = RangeSet::from([(10..20), (30..40), (50..60)]);

    // rightward subset
    // [-----) [-----) [-----)
    //     [-----)
    assert_eq!(
        a.difference(&(15..35)),
        RangeSet::from([(10..15), (35..40), (50..60)])
    );

    // leftward subset
    //    [-----) [-----) [-----)
    // [-----)
    assert_eq!(
        a.difference(&(5..15)),
        RangeSet::from([(15..20), (30..40), (50..60)])
    );

    // subset
    // [-----) [-----) [-----)
    //   [--)
    assert_eq!(
        a.difference(&(12..15)),
        RangeSet::from([(10..12), (15..20), (30..40), (50..60)])
    );

    // subset 2
    // [-----) [-----) [-----)
    //          [--)
    assert_eq!(
        a.difference(&(35..38)),
        RangeSet::from([(10..20), (30..35), (38..40), (50..60)])
    );

    // superset of 1
    //   [-----) [-----) [-----)
    // [--------)
    assert_eq!(a.difference(&(5..25)), RangeSet::from([(30..40), (50..60)]));

    // superset of 2
    //   [-----) [-----) [-----)
    // [----------------)
    assert_eq!(a.difference(&(5..45)), RangeSet::from([(50..60)]));

    // superset
    //   [-----) [-----) [-----)
    // [------------------------)
    assert_eq!(a.difference(&(5..65)), RangeSet::default());

    // leftwards disjoint
    //           [-----) [-----) [-----)
    // [-----)
    assert_eq!(a.difference(&(0..5)), a);

    // rightwards disjoint
    // [-----) [-----) [-----)
    //                           [-----)
    assert_eq!(a.difference(&(65..70)), a);

    // disjoint
    // [-----)        [-----) [-----)
    //         [-----)
    assert_eq!(
        a.difference(&(25..28)),
        RangeSet::from([(10..20), (30..40), (50..60)])
    );

    // empty
    assert_eq!(a.difference(&(0..0)), a);
}
