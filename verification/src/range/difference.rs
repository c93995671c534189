//! Set difference.
use vstd::prelude::*;

use std::ops::Range;

use super::compare::range_subset;
use super::{
    DifferenceMut, RangeDifference, RangeDisjoint, RangeSet, RangeSubset, RangeSuperset,
    RangeUnion, copy_ranges, in_range, lemma_range_empty, lemma_ranges_empty, lemma_ranges_full,
    lemma_ranges_prefix, lemma_ranges_update, lemma_wf_insert, lemma_wf_remove, lemma_wf_shrink,
    lemma_ranges_insert, lemma_ranges_remove, range_set, ranges_set, ranges_wf,
};

verus! {

/// No value of `r` lies in `o`.
pub open spec fn avoids(r: Range<usize>, o: Range<usize>) -> bool {
    range_set(r).disjoint(range_set(o))
}

impl RangeDifference<Range<usize>> for Range<usize> {
    type Output = RangeSet;

    fn difference(&self, other: &Range<usize>) -> (r: RangeSet)
        ensures
            r@ == range_set(*self).difference(range_set(*other)),
            r.wf(),
    {
        if self.start >= self.end {
            proof {
                lemma_range_empty(*self);
                assert(range_set(*self).difference(range_set(*other)) =~= Set::<int>::empty());
            }
            return RangeSet::default();
        } else if other.start >= other.end {
            proof {
                lemma_range_empty(*other);
                assert(range_set(*self).difference(range_set(*other)) =~= range_set(*self));
            }
            return RangeSet::from_range(self);
        }
        if other.is_superset(self) {
            proof {
                assert(range_set(*self).difference(range_set(*other)) =~= Set::<int>::empty());
            }
            return RangeSet::default();
        }
        if self.is_disjoint(other) {
            proof {
                assert(range_set(*self).difference(range_set(*other)) =~= range_set(*self));
            }
            return RangeSet::from_range(self);
        }
        let mut ranges: Vec<Range<usize>> = Vec::new();
        if self.start < other.start {
            ranges.push(self.start..other.start);
        }
        if self.end > other.end {
            ranges.push(other.end..self.end);
        }
        proof {
            let left = Range { start: self.start, end: other.start };
            let right = Range { start: other.end, end: self.end };
            let goal = range_set(*self).difference(range_set(*other));
            if self.start < other.start && self.end > other.end {
                assert(ranges@ =~= seq![left, right]);
                assert forall|x: int| #[trigger] goal.contains(x) == ranges_set(ranges@).contains(x) by {
                    if in_range(left, x) {
                        assert(in_range(ranges@[0], x));
                    }
                    if in_range(right, x) {
                        assert(in_range(ranges@[1], x));
                    }
                }
            } else if self.start < other.start {
                assert(ranges@ =~= seq![left]);
                assert forall|x: int| #[trigger] goal.contains(x) == ranges_set(ranges@).contains(x) by {
                    if in_range(left, x) {
                        assert(in_range(ranges@[0], x));
                    }
                }
            } else {
                assert(ranges@ =~= seq![right]);
                assert forall|x: int| #[trigger] goal.contains(x) == ranges_set(ranges@).contains(x) by {
                    if in_range(right, x) {
                        assert(in_range(ranges@[0], x));
                    }
                }
            }
            assert(goal =~= ranges_set(ranges@));
        }
        RangeSet { ranges }
    }
}

impl RangeDifference<RangeSet> for Range<usize> {
    type Output = RangeSet;

    fn difference(&self, other: &RangeSet) -> (r: RangeSet)
        ensures
            r@ == range_set(*self).difference(other@),
            r.wf(),
    {
        if self.start >= self.end {
            proof {
                lemma_range_empty(*self);
                assert(range_set(*self).difference(other@) =~= Set::<int>::empty());
            }
            return RangeSet::default();
        }
        let mut diff = RangeSet::from_range(self);
        let rs = &other.ranges;
        let n = rs.len();
        let mut k: usize = 0;
        proof {
            lemma_ranges_full(rs@);
            assert(diff@ =~= range_set(*self).difference(ranges_set(rs@.subrange(0, 0))));
        }
        while k < n
            invariant
                n == rs@.len(),
                rs@ == other.ranges_view(),
                0 <= k <= n,
                diff@ == range_set(*self).difference(ranges_set(rs@.subrange(0, k as int))),
            decreases n - k,
        {
            proof {
                lemma_ranges_prefix(rs@, k as int);
            }
            diff = diff.difference(&rs[k]);
            proof {
                assert(diff@ =~= range_set(*self).difference(ranges_set(rs@.subrange(0, k + 1))));
            }
            k += 1;
        }
        proof {
            lemma_ranges_full(rs@);
            use_type_invariant(&diff);
        }
        diff
    }
}

impl RangeDifference<Range<usize>> for RangeSet {
    type Output = RangeSet;

    fn difference(&self, other: &Range<usize>) -> (r: RangeSet)
        ensures
            r@ == self@.difference(range_set(*other)),
            r.wf(),
    {
        proof {
            use_type_invariant(self);
        }
        if other.start >= other.end {
            proof {
                lemma_range_empty(*other);
                assert(self@.difference(range_set(*other)) =~= self@);
            }
            return self.clone();
        }
        let ghost cut = range_set(*other);
        let ghost goal = self@.difference(cut);
        let mut i: usize = 0;
        let mut ranges = copy_ranges(&self.ranges);
        while i < ranges.len() && ranges[i].start < other.end
            invariant
                other.start < other.end,
                cut == range_set(*other),
                goal == self@.difference(cut),
                ranges_wf(ranges@),
                0 <= i <= ranges@.len(),
                ranges_set(ranges@).difference(cut) == goal,
                forall|j: int| 0 <= j < i ==> #[trigger] avoids(ranges@[j], *other),
            decreases ranges@.len() - i + (if i < ranges@.len() && ranges@[i as int].start
                < other.end { 1int } else { 0int }),
        {
            let ghost old_ranges = ranges@;
            let ghost cur = ranges@[i as int];
            proof {
                lemma_ranges_update(old_ranges, i as int, cur);
            }
            if ranges[i].end <= other.start {
                i += 1;
            } else if other.is_superset(&ranges[i]) {
                proof {
                    lemma_wf_remove(old_ranges, i as int);
                    lemma_ranges_remove(old_ranges, i as int);
                    assert(ranges_set(old_ranges.remove(i as int)).difference(cut) =~= goal);
                }
                ranges.remove(i);
                proof {
                    assert forall|j: int| 0 <= j < i implies #[trigger] avoids(ranges@[j], *other) by {
                        assert(ranges@[j] == old_ranges[j]);
                    }
                }
            } else if other.is_subset(&ranges[i]) {
                if ranges[i].start == other.start {
                    let piece = other.end..ranges[i].end;
                    proof {
                        lemma_wf_shrink(old_ranges, i as int, piece);
                        lemma_ranges_update(old_ranges, i as int, piece);
                        assert(range_set(cur).difference(cut) =~= range_set(piece));
                        assert(ranges_set(old_ranges.update(i as int, piece)).difference(cut) =~= goal);
                    }
                    ranges.set(i, piece);
                } else if ranges[i].end == other.end {
                    let piece = ranges[i].start..other.start;
                    proof {
                        lemma_wf_shrink(old_ranges, i as int, piece);
                        lemma_ranges_update(old_ranges, i as int, piece);
                        assert(range_set(cur).difference(cut) =~= range_set(piece));
                        assert(ranges_set(old_ranges.update(i as int, piece)).difference(cut) =~= goal);
                    }
                    ranges.set(i, piece);
                } else {
                    let left = ranges[i].start..other.start;
                    let right = other.end..ranges[i].end;
                    proof {
                        lemma_wf_shrink(old_ranges, i as int, left);
                        lemma_ranges_update(old_ranges, i as int, left);
                        let mid = old_ranges.update(i as int, left);
                        lemma_wf_insert(mid, i + 1, right);
                        lemma_ranges_insert(mid, i + 1, right);
                        assert(range_set(cur).difference(cut) =~= range_set(left).union(range_set(right)));
                        assert(ranges_set(mid.insert(i + 1, right)).difference(cut) =~= goal);
                    }
                    ranges.set(i, left);
                    ranges.insert(i + 1, right);
                }
                i += 1;
            } else {
                let mut piece = ranges[i].start..ranges[i].end;
                if piece.start < other.start {
                    piece = piece.start..other.start;
                }
                if piece.end > other.end {
                    piece = other.end..piece.end;
                }
                proof {
                    lemma_wf_shrink(old_ranges, i as int, piece);
                    lemma_ranges_update(old_ranges, i as int, piece);
                    assert(range_set(cur).difference(cut) =~= range_set(piece));
                    assert(ranges_set(old_ranges.update(i as int, piece)).difference(cut) =~= goal);
                }
                ranges.set(i, piece);
                i += 1;
            }
        }
        proof {
            assert forall|j: int| 0 <= j < ranges@.len() implies #[trigger] avoids(ranges@[j], *other) by {
                if j >= i {
                    if j > i {
                        assert(ranges@[i as int].end < ranges@[j].start);
                    }
                }
            }
            assert forall|x: int| ranges_set(ranges@).contains(x) implies !cut.contains(x) by {
                let j = choose|j: int| 0 <= j < ranges@.len() && #[trigger] in_range(ranges@[j], x);
                assert(avoids(ranges@[j], *other));
                assert(range_set(ranges@[j]).contains(x));
            }
            assert(ranges_set(ranges@) =~= goal);
        }
        RangeSet { ranges }
    }
}

impl RangeDifference<RangeSet> for RangeSet {
    type Output = RangeSet;

    fn difference(&self, other: &RangeSet) -> (r: RangeSet)
        ensures
            r@ == self@.difference(other@),
            r.wf(),
    {
        let mut set = RangeSet::default();
        let rs = &self.ranges;
        let n = rs.len();
        let mut k: usize = 0;
        proof {
            lemma_ranges_full(rs@);
            assert(set@ =~= ranges_set(rs@.subrange(0, 0)).difference(other@));
        }
        while k < n
            invariant
                n == rs@.len(),
                rs@ == self.ranges_view(),
                0 <= k <= n,
                set@ == ranges_set(rs@.subrange(0, k as int)).difference(other@),
            decreases n - k,
        {
            proof {
                lemma_ranges_prefix(rs@, k as int);
            }
            let piece = rs[k].difference(other);
            set = set.union(&piece);
            proof {
                assert(set@ =~= ranges_set(rs@.subrange(0, k + 1)).difference(other@));
            }
            k += 1;
        }
        proof {
            lemma_ranges_full(rs@);
            use_type_invariant(&set);
        }
        set
    }
}

impl DifferenceMut<Range<usize>> for RangeSet {
    fn difference_mut(&mut self, other: &Range<usize>)
        ensures
            final(self)@ == old(self)@.difference(range_set(*other)),
            final(self).wf(),
    {
        *self = self.difference(other);
    }
}

impl DifferenceMut<RangeSet> for RangeSet {
    fn difference_mut(&mut self, other: &RangeSet)
        ensures
            final(self)@ == old(self)@.difference(other@),
            final(self).wf(),
    {
        *self = self.difference(other);
    }
}

} // verus!
