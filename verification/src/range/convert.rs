//! Conversions between range sets and ranges, and equality with a range.
use vstd::prelude::*;

use std::ops::Range;

use super::{RangeSet, range_set, ranges_set};

verus! {

// Each `from` below states its result over the views in its own `ensures`;
// the generic conversion contract is not claimed.
impl vstd::std_specs::convert::FromSpecImpl<Vec<Range<usize>>> for RangeSet {
    open spec fn obeys_from_spec() -> bool {
        false
    }

    open spec fn from_spec(v: Vec<Range<usize>>) -> RangeSet {
        vstd::pervasive::arbitrary()
    }
}

impl From<Vec<Range<usize>>> for RangeSet {
    fn from(ranges: Vec<Range<usize>>) -> (r: RangeSet)
        ensures
            r@ == ranges_set(ranges@),
            r.wf(),
    {
        RangeSet::new(ranges.as_slice())
    }
}

impl vstd::std_specs::convert::FromSpecImpl<RangeSet> for Vec<Range<usize>> {
    open spec fn obeys_from_spec() -> bool {
        false
    }

    open spec fn from_spec(v: RangeSet) -> Vec<Range<usize>> {
        vstd::pervasive::arbitrary()
    }
}

impl From<RangeSet> for Vec<Range<usize>> {
    fn from(ranges: RangeSet) -> (r: Vec<Range<usize>>)
        ensures
            r@ == ranges.ranges_view(),
    {
        ranges.into_inner()
    }
}

impl vstd::std_specs::convert::FromSpecImpl<Range<usize>> for RangeSet {
    open spec fn obeys_from_spec() -> bool {
        false
    }

    open spec fn from_spec(v: Range<usize>) -> RangeSet {
        vstd::pervasive::arbitrary()
    }
}

impl From<Range<usize>> for RangeSet {
    fn from(range: Range<usize>) -> (r: RangeSet)
        ensures
            r@ == range_set(range),
            r.wf(),
            range.start < range.end ==> r.ranges_view() == seq![range],
            range.start >= range.end ==> r.ranges_view().len() == 0,
    {
        RangeSet::from_range(&range)
    }
}

impl<const N: usize> vstd::std_specs::convert::FromSpecImpl<[Range<usize>; N]> for RangeSet {
    open spec fn obeys_from_spec() -> bool {
        false
    }

    open spec fn from_spec(v: [Range<usize>; N]) -> RangeSet {
        vstd::pervasive::arbitrary()
    }
}

impl<const N: usize> From<[Range<usize>; N]> for RangeSet {
    fn from(ranges: [Range<usize>; N]) -> (r: RangeSet)
        ensures
            r@ == ranges_set(ranges@),
            r.wf(),
    {
        RangeSet::new(ranges.as_slice())
    }
}

impl<'a> vstd::std_specs::convert::FromSpecImpl<&'a [Range<usize>]> for RangeSet {
    open spec fn obeys_from_spec() -> bool {
        false
    }

    open spec fn from_spec(v: &'a [Range<usize>]) -> RangeSet {
        vstd::pervasive::arbitrary()
    }
}

impl<'a> From<&'a [Range<usize>]> for RangeSet {
    fn from(ranges: &'a [Range<usize>]) -> (r: RangeSet)
        ensures
            r@ == ranges_set(ranges@),
            r.wf(),
    {
        RangeSet::new(ranges)
    }
}

impl PartialEq<Range<usize>> for RangeSet {
    fn eq(&self, other: &Range<usize>) -> (r: bool) {
        self.ranges.len() == 1 && self.ranges[0].start == other.start && self.ranges[0].end
            == other.end
    }
}

impl vstd::std_specs::cmp::PartialEqSpecImpl<Range<usize>> for RangeSet {
    open spec fn obeys_eq_spec() -> bool {
        true
    }

    open spec fn eq_spec(&self, other: &Range<usize>) -> bool {
        self.ranges_view().len() == 1 && self.ranges_view()[0] == *other
    }
}

impl PartialEq<RangeSet> for Range<usize> {
    fn eq(&self, other: &RangeSet) -> (r: bool) {
        other.eq(self)
    }
}

impl vstd::std_specs::cmp::PartialEqSpecImpl<RangeSet> for Range<usize> {
    open spec fn obeys_eq_spec() -> bool {
        true
    }

    open spec fn eq_spec(&self, other: &RangeSet) -> bool {
        other.ranges_view().len() == 1 && other.ranges_view()[0] == *self
    }
}

} // verus!
