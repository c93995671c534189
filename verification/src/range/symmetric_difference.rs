//! Set symmetric difference.
use vstd::prelude::*;

use std::ops::Range;

use super::{DifferenceMut, Intersection, RangeSet, UnionMut, range_set};

verus! {

/// In-place set symmetric difference.
pub trait SymmetricDifferenceMut<Rhs> {
    /// Replaces `self` with the set symmetric difference of `self` and `other`.
    fn symmetric_difference_mut(&mut self, other: &Rhs);
}

/// Set symmetric difference.
pub trait SymmetricDifference<Rhs> {
    type Output;

    /// Returns the set symmetric difference of `self` and `other`.
    fn symmetric_difference(&self, other: &Rhs) -> Self::Output;
}

/// The values in exactly one of `a` and `b`.
pub open spec fn sym_diff(a: Set<int>, b: Set<int>) -> Set<int> {
    a.union(b).difference(a.intersect(b))
}

impl SymmetricDifferenceMut<Range<usize>> for RangeSet {
    fn symmetric_difference_mut(&mut self, other: &Range<usize>)
        ensures
            final(self)@ == sym_diff(old(self)@, range_set(*other)),
            final(self).wf(),
    {
        let intersection = self.intersection(other);
        self.union_mut(other);
        self.difference_mut(&intersection);
    }
}

impl SymmetricDifferenceMut<RangeSet> for RangeSet {
    fn symmetric_difference_mut(&mut self, other: &RangeSet)
        ensures
            final(self)@ == sym_diff(old(self)@, other@),
            final(self).wf(),
    {
        let intersection = self.intersection(other);
        self.union_mut(other);
        self.difference_mut(&intersection);
    }
}

impl SymmetricDifference<Range<usize>> for RangeSet {
    type Output = RangeSet;

    fn symmetric_difference(&self, other: &Range<usize>) -> (r: RangeSet)
        ensures
            r@ == sym_diff(self@, range_set(*other)),
            r.wf(),
    {
        let mut output = self.clone();
        output.symmetric_difference_mut(other);
        output
    }
}

impl SymmetricDifference<RangeSet> for RangeSet {
    type Output = RangeSet;

    fn symmetric_difference(&self, other: &RangeSet) -> (r: RangeSet)
        ensures
            r@ == sym_diff(self@, other@),
            r.wf(),
    {
        let mut output = self.clone();
        output.symmetric_difference_mut(other);
        output
    }
}

// The result of `^` is stated by the `ensures` of each `bitxor` below, over
// the views; the generic operator contract is not claimed.
impl vstd::std_specs::ops::BitXorSpecImpl<Range<usize>> for RangeSet {
    open spec fn obeys_bitxor_spec() -> bool {
        false
    }

    open spec fn bitxor_req(self, rhs: Range<usize>) -> bool {
        true
    }

    open spec fn bitxor_spec(self, rhs: Range<usize>) -> RangeSet {
        vstd::pervasive::arbitrary()
    }
}

impl<'a> vstd::std_specs::ops::BitXorSpecImpl<&'a RangeSet> for RangeSet {
    open spec fn obeys_bitxor_spec() -> bool {
        false
    }

    open spec fn bitxor_req(self, rhs: &'a RangeSet) -> bool {
        true
    }

    open spec fn bitxor_spec(self, rhs: &'a RangeSet) -> RangeSet {
        vstd::pervasive::arbitrary()
    }
}

impl std::ops::BitXor<Range<usize>> for RangeSet {
    type Output = RangeSet;

    fn bitxor(self, rhs: Range<usize>) -> (r: RangeSet)
        ensures
            r@ == sym_diff(self@, range_set(rhs)),
            r.wf(),
    {
        let mut out = self;
        out.symmetric_difference_mut(&rhs);
        out
    }
}

impl<'a> std::ops::BitXor<&'a RangeSet> for RangeSet {
    type Output = RangeSet;

    fn bitxor(self, rhs: &'a RangeSet) -> (r: RangeSet)
        ensures
            r@ == sym_diff(self@, rhs@),
            r.wf(),
    {
        let mut out = self;
        out.symmetric_difference_mut(rhs);
        out
    }
}

impl std::ops::BitXorAssign<Range<usize>> for RangeSet {
    fn bitxor_assign(&mut self, rhs: Range<usize>)
        ensures
            final(self)@ == sym_diff(old(self)@, range_set(rhs)),
            final(self).wf(),
    {
        self.symmetric_difference_mut(&rhs);
    }
}

impl std::ops::BitXorAssign<&RangeSet> for RangeSet {
    fn bitxor_assign(&mut self, rhs: &RangeSet)
        ensures
            final(self)@ == sym_diff(old(self)@, rhs@),
            final(self).wf(),
    {
        self.symmetric_difference_mut(rhs);
    }
}

} // verus!
