//! Small range sets over bytes, as generated for fuzzing the range-set
//! operations.
use vstd::prelude::*;

use std::ops::Range;

use crate::range::{RangeSet, ranges_set, ranges_wf};

verus! {

/// A set given by at most a few ranges of bytes.
#[derive(Debug)]
pub struct SmallSet {
    /// The ranges of the set.
    pub ranges: Vec<Range<u8>>,
}

/// The byte ranges as ranges of `usize`.
pub open spec fn widen(rs: Seq<Range<u8>>) -> Seq<Range<usize>> {
    rs.map_values(|r: Range<u8>| Range { start: r.start as usize, end: r.end as usize })
}

// `from` states its result over the views in its own `ensures`; the generic
// conversion contract is not claimed.
impl vstd::std_specs::convert::FromSpecImpl<SmallSet> for RangeSet {
    open spec fn obeys_from_spec() -> bool {
        false
    }

    open spec fn from_spec(v: SmallSet) -> RangeSet {
        vstd::pervasive::arbitrary()
    }
}

impl From<SmallSet> for RangeSet {
    fn from(s: SmallSet) -> (r: RangeSet)
        ensures
            r@ == ranges_set(widen(s.ranges@)),
            r.wf(),
    {
        let mut wide: Vec<Range<usize>> = Vec::new();
        let mut k: usize = 0;
        while k < s.ranges.len()
            invariant
                0 <= k <= s.ranges@.len(),
                wide@ == widen(s.ranges@).subrange(0, k as int),
            decreases s.ranges@.len() - k,
        {
            wide.push((s.ranges[k].start as usize)..(s.ranges[k].end as usize));
            proof {
                assert(wide@ =~= widen(s.ranges@).subrange(0, k + 1));
            }
            k += 1;
        }
        proof {
            assert(wide@ =~= widen(s.ranges@));
        }
        RangeSet::new(wide.as_slice())
    }
}

/// Asserts that the ranges of the given set are sorted, non-adjacent,
/// non-intersecting, and non-empty; every set keeps them so.
pub fn assert_invariants(set: RangeSet)
    ensures
        ranges_wf(set.ranges_view()),
{
    let ranges = set.into_inner();
    assert(ranges_wf(ranges@));
}

} // verus!
