//! Set union.
use vstd::prelude::*;

use std::ops::Range;

use super::compare::range_disjoint;
use super::{
    RangeDisjoint, RangeSet, RangeSuperset, RangeUnion, UnionMut, copy_ranges, lemma_hull,
    lemma_range_empty, lemma_ranges_empty, lemma_ranges_full, lemma_ranges_prefix,
    lemma_ranges_remove, lemma_ranges_single, lemma_wf_insert, lemma_wf_push, lemma_wf_remove,
    lemma_ranges_insert, range_set, ranges_set, ranges_wf,
};

verus! {

/// The smallest range holding both `a` and `b`.
pub open spec fn hull(a: Range<usize>, b: Range<usize>) -> Range<usize> {
    Range {
        start: if a.start < b.start { a.start } else { b.start },
        end: if a.end > b.end { a.end } else { b.end },
    }
}

impl RangeSet {
    /// The set holding the values of one range.
    pub fn from_range(range: &Range<usize>) -> (r: RangeSet)
        ensures
            r@ == range_set(*range),
            r.wf(),
            range.start < range.end ==> r.ranges_view() == seq![*range],
            range.start >= range.end ==> r.ranges_view().len() == 0,
    {
        if range.start >= range.end {
            proof {
                lemma_range_empty(*range);
                lemma_ranges_empty();
            }
            return RangeSet { ranges: Vec::new() };
        }
        let mut ranges: Vec<Range<usize>> = Vec::new();
        ranges.push(range.start..range.end);
        proof {
            assert(ranges@ =~= seq![*range]);
            lemma_ranges_single(*range);
        }
        RangeSet { ranges }
    }

    /// Returns a new `RangeSet` holding the union of the given ranges.
    pub fn new(ranges: &[Range<usize>]) -> (r: RangeSet)
        ensures
            r@ == ranges_set(ranges@),
            r.wf(),
    {
        let mut set = RangeSet::default();
        let n = ranges.len();
        let mut k: usize = 0;
        proof {
            lemma_ranges_full(ranges@);
        }
        while k < n
            invariant
                n == ranges@.len(),
                0 <= k <= n,
                set@ == ranges_set(ranges@.subrange(0, k as int)),
            decreases n - k,
        {
            proof {
                lemma_ranges_prefix(ranges@, k as int);
            }
            set = set.union(&ranges[k]);
            k += 1;
        }
        proof {
            lemma_ranges_full(ranges@);
            use_type_invariant(&set);
        }
        set
    }
}

impl RangeUnion<Range<usize>> for Range<usize> {
    type Output = RangeSet;

    fn union(&self, other: &Range<usize>) -> (r: RangeSet)
        ensures
            r@ == range_set(*self).union(range_set(*other)),
            r.wf(),
    {
        if (self.start == other.start && self.end == other.end) || self.is_superset(other) {
            proof {
                if other.start >= other.end {
                    lemma_range_empty(*other);
                }
                assert(range_set(*self).union(range_set(*other)) =~= range_set(*self));
            }
            return RangeSet::from_range(self);
        }
        if other.is_superset(self) {
            proof {
                if self.start >= self.end {
                    lemma_range_empty(*self);
                }
                assert(range_set(*self).union(range_set(*other)) =~= range_set(*other));
            }
            return RangeSet::from_range(other);
        }
        if self.is_disjoint(other) {
            let mut pair: Vec<Range<usize>> = Vec::new();
            if self.start < other.start {
                pair.push(self.start..self.end);
                pair.push(other.start..other.end);
            } else {
                pair.push(other.start..other.end);
                pair.push(self.start..self.end);
            }
            proof {
                let p = pair@;
                assert(p.subrange(0, 0).push(p[0]) =~= p.subrange(0, 1));
                lemma_ranges_prefix(p, 0);
                lemma_ranges_prefix(p, 1);
                lemma_ranges_full(p);
                assert(range_set(*self).union(range_set(*other)) =~= range_set(*other).union(
                    range_set(*self),
                ));
            }
            return RangeSet::new(pair.as_slice());
        }
        let start = if self.start < other.start { self.start } else { other.start };
        let end = if self.end > other.end { self.end } else { other.end };
        proof {
            lemma_hull(*self, *other);
        }
        RangeSet::from_range(&(start..end))
    }
}

impl RangeUnion<RangeSet> for Range<usize> {
    type Output = RangeSet;

    fn union(&self, other: &RangeSet) -> (r: RangeSet)
        ensures
            r@ == range_set(*self).union(other@),
            r.wf(),
    {
        proof {
            use_type_invariant(other);
        }
        if self.start >= self.end {
            proof {
                lemma_range_empty(*self);
                assert(range_set(*self).union(other@) =~= other@);
            }
            return other.clone();
        }
        let ghost goal = range_set(*self).union(other@);
        let mut ranges = copy_ranges(&other.ranges);
        let mut i: usize = 0;
        let mut new_range = self.start..self.end;
        proof {
            assert(ranges_set(ranges@).union(range_set(new_range)) =~= goal);
        }
        while i < ranges.len()
            invariant
                ranges_wf(ranges@),
                0 <= i <= ranges@.len(),
                new_range.start < new_range.end,
                forall|j: int| 0 <= j < i ==> (#[trigger] ranges@[j]).end < new_range.start,
                ranges_set(ranges@).union(range_set(new_range)) == goal,
                goal == range_set(*self).union(other@),
            decreases ranges@.len() - i,
        {
            if new_range.end < ranges[i].start {
                proof {
                    lemma_wf_insert(ranges@, i as int, new_range);
                    lemma_ranges_insert(ranges@, i as int, new_range);
                }
                ranges.insert(i, new_range);
                return RangeSet { ranges };
            } else if new_range.start <= ranges[i].end {
                let ghost old_ranges = ranges@;
                let start = if ranges[i].start < new_range.start { ranges[i].start } else { new_range.start };
                let end = if ranges[i].end > new_range.end { ranges[i].end } else { new_range.end };
                proof {
                    lemma_ranges_remove(old_ranges, i as int);
                    lemma_hull(new_range, old_ranges[i as int]);
                    lemma_wf_remove(old_ranges, i as int);
                    assert forall|j: int| 0 <= j < i implies (#[trigger] old_ranges[j]).end < start by {
                        assert(old_ranges[j].end < old_ranges[i as int].start);
                    }
                    assert(ranges_set(old_ranges.remove(i as int)).union(range_set(start..end)) =~= goal);
                }
                new_range = start..end;
                ranges.remove(i);
                proof {
                    assert forall|j: int| 0 <= j < i implies (#[trigger] ranges@[j]).end < new_range.start by {
                        assert(ranges@[j] == old_ranges[j]);
                    }
                }
            } else {
                i += 1;
            }
        }
        proof {
            lemma_wf_push(ranges@, new_range);
        }
        ranges.push(new_range);
        RangeSet { ranges }
    }
}

impl RangeUnion<Range<usize>> for RangeSet {
    type Output = RangeSet;

    fn union(&self, other: &Range<usize>) -> (r: RangeSet)
        ensures
            r@ == self@.union(range_set(*other)),
            r.wf(),
    {
        let r = other.union(self);
        proof {
            assert(r@ =~= self@.union(range_set(*other)));
        }
        r
    }
}

impl RangeUnion<RangeSet> for RangeSet {
    type Output = RangeSet;

    fn union(&self, other: &RangeSet) -> (r: RangeSet)
        ensures
            r@ == self@.union(other@),
            r.wf(),
    {
        let mut union = self.clone();
        let rs = &other.ranges;
        let n = rs.len();
        let mut k: usize = 0;
        proof {
            lemma_ranges_full(rs@);
            assert(union@ =~= self@.union(ranges_set(rs@.subrange(0, 0))));
        }
        while k < n
            invariant
                n == rs@.len(),
                rs@ == other.ranges_view(),
                0 <= k <= n,
                union@ == self@.union(ranges_set(rs@.subrange(0, k as int))),
            decreases n - k,
        {
            proof {
                lemma_ranges_prefix(rs@, k as int);
            }
            union = union.union(&rs[k]);
            proof {
                assert(union@ =~= self@.union(ranges_set(rs@.subrange(0, k + 1))));
            }
            k += 1;
        }
        proof {
            lemma_ranges_full(rs@);
            use_type_invariant(&union);
        }
        union
    }
}

impl UnionMut<Range<usize>> for RangeSet {
    fn union_mut(&mut self, other: &Range<usize>)
        ensures
            final(self)@ == old(self)@.union(range_set(*other)),
            final(self).wf(),
    {
        *self = self.union(other);
    }
}

impl UnionMut<RangeSet> for RangeSet {
    fn union_mut(&mut self, other: &RangeSet)
        ensures
            final(self)@ == old(self)@.union(other@),
            final(self).wf(),
    {
        *self = self.union(other);
    }
}

} // verus!
