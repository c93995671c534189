//! Comparisons of ranges and range sets by their bounds.
use vstd::prelude::*;

use std::ops::Range;

use super::{
    RangeDisjoint, RangeIntersects, RangeSet, RangeSubset, RangeSuperset, in_range, in_ranges,
    lemma_gap, lemma_in_ranges, range_set, ranges_set,
};

verus! {

/// `a` ends before `b` starts or starts after `b` ends.
pub open spec fn range_disjoint(a: Range<usize>, b: Range<usize>) -> bool {
    a.start >= b.end || a.end <= b.start
}

/// `a` starts before and ends after `b`.
pub open spec fn range_superset(a: Range<usize>, b: Range<usize>) -> bool {
    a.start <= b.start && a.end >= b.end
}

/// `a` starts after and ends before `b`.
pub open spec fn range_subset(a: Range<usize>, b: Range<usize>) -> bool {
    a.start >= b.start && a.end <= b.end
}

/// `a` starts before `b` ends and ends after `b` starts.
pub open spec fn range_intersects(a: Range<usize>, b: Range<usize>) -> bool {
    a.start < b.end && a.end > b.start
}

/// For non-empty ranges the bound test is the set test.
pub proof fn lemma_range_disjoint(a: Range<usize>, b: Range<usize>)
    requires
        a.start < a.end,
        b.start < b.end,
    ensures
        range_disjoint(a, b) == range_set(a).disjoint(range_set(b)),
        range_intersects(a, b) == !range_disjoint(a, b),
{
    if !range_disjoint(a, b) {
        let x: int = if a.start < b.start { b.start as int } else { a.start as int };
        assert(range_set(a).contains(x) && range_set(b).contains(x));
    }
}

/// For a non-empty `b` the bound test is the set test.
pub proof fn lemma_range_superset(a: Range<usize>, b: Range<usize>)
    requires
        b.start < b.end,
    ensures
        range_superset(a, b) == range_set(b).subset_of(range_set(a)),
{
    if range_set(b).subset_of(range_set(a)) {
        assert(range_set(b).contains(b.start as int));
        assert(range_set(b).contains(b.end - 1));
    }
}

/// A non-empty range lies within the union of canonical ranges exactly when
/// it lies within one of them.
pub proof fn lemma_range_within(a: Range<usize>, rs: Seq<Range<usize>>)
    requires
        super::ranges_wf(rs),
        a.start < a.end,
    ensures
        range_set(a).subset_of(ranges_set(rs)) <==> exists|j: int|
            0 <= j < rs.len() && #[trigger] range_subset(a, rs[j]),
{
    if range_set(a).subset_of(ranges_set(rs)) {
        assert(range_set(a).contains(a.start as int));
        let j = choose|j: int| 0 <= j < rs.len() && #[trigger] in_range(rs[j], a.start as int);
        if rs[j].end < a.end {
            assert(range_set(a).contains(rs[j].end as int));
            lemma_gap(rs, j, rs[j].end as int);
        }
        assert(range_subset(a, rs[j]));
    }
    if exists|j: int| 0 <= j < rs.len() && #[trigger] range_subset(a, rs[j]) {
        let j = choose|j: int| 0 <= j < rs.len() && #[trigger] range_subset(a, rs[j]);
        assert forall|x: int| range_set(a).contains(x) implies ranges_set(rs).contains(x) by {
            lemma_in_ranges(rs, j, x);
        }
    }
}

impl RangeDisjoint<Range<usize>> for Range<usize> {
    fn is_disjoint(&self, other: &Range<usize>) -> (r: bool)
        ensures
            r == range_disjoint(*self, *other),
            (self.start < self.end && other.start < other.end) ==> (r == range_set(*self).disjoint(
                range_set(*other),
            )),
    {
        proof {
            if self.start < self.end && other.start < other.end {
                lemma_range_disjoint(*self, *other);
            }
        }
        self.start >= other.end || self.end <= other.start
    }
}

impl RangeDisjoint<RangeSet> for Range<usize> {
    fn is_disjoint(&self, other: &RangeSet) -> (r: bool)
        ensures
            r == (forall|j: int|
                0 <= j < other.ranges_view().len() ==> #[trigger] range_disjoint(
                    *self,
                    other.ranges_view()[j],
                )),
            self.start < self.end ==> (r == range_set(*self).disjoint(other@)),
    {
        proof {
            use_type_invariant(other);
        }
        let rs = &other.ranges;
        let n = rs.len();
        let mut k: usize = 0;
        while k < n
            invariant
                n == rs@.len(),
                rs@ == other.ranges_view(),
                super::ranges_wf(rs@),
                0 <= k <= n,
                forall|j: int| 0 <= j < k ==> #[trigger] range_disjoint(*self, rs@[j]),
            decreases n - k,
        {
            if !self.is_disjoint(&rs[k]) {
                proof {
                    if self.start < self.end {
                        lemma_range_disjoint(*self, rs@[k as int]);
                        let x: int = if self.start < rs@[k as int].start {
                            rs@[k as int].start as int
                        } else {
                            self.start as int
                        };
                        lemma_in_ranges(rs@, k as int, x);
                        assert(range_set(*self).contains(x));
                    }
                }
                return false;
            }
            k += 1;
        }
        proof {
            if self.start < self.end {
                assert forall|x: int| range_set(*self).contains(x) implies !other@.contains(x) by {
                    if in_ranges(rs@, x) {
                        let j = choose|j: int| 0 <= j < rs@.len() && #[trigger] in_range(rs@[j], x);
                        assert(range_disjoint(*self, rs@[j]));
                    }
                }
            }
        }
        true
    }
}

impl RangeDisjoint<RangeSet> for RangeSet {
    fn is_disjoint(&self, other: &RangeSet) -> (r: bool)
        ensures
            r == self@.disjoint(other@),
    {
        proof {
            use_type_invariant(self);
        }
        let rs = &self.ranges;
        let n = rs.len();
        let mut k: usize = 0;
        while k < n
            invariant
                n == rs@.len(),
                rs@ == self.ranges_view(),
                super::ranges_wf(rs@),
                0 <= k <= n,
                forall|j: int| 0 <= j < k ==> #[trigger] range_set(rs@[j]).disjoint(other@),
            decreases n - k,
        {
            if !rs[k].is_disjoint(other) {
                proof {
                    assert(rs@[k as int].start < rs@[k as int].end);
                    let x = choose|x: int| range_set(rs@[k as int]).contains(x) && other@.contains(x);
                    lemma_in_ranges(rs@, k as int, x);
                }
                return false;
            }
            k += 1;
        }
        proof {
            assert forall|x: int| self@.contains(x) implies !other@.contains(x) by {
                let j = choose|j: int| 0 <= j < rs@.len() && #[trigger] in_range(rs@[j], x);
                assert(range_set(rs@[j]).disjoint(other@));
                assert(range_set(rs@[j]).contains(x));
            }
        }
        true
    }
}

impl RangeDisjoint<Range<usize>> for RangeSet {
    fn is_disjoint(&self, other: &Range<usize>) -> (r: bool)
        ensures
            r == (forall|j: int|
                0 <= j < self.ranges_view().len() ==> #[trigger] range_disjoint(
                    *other,
                    self.ranges_view()[j],
                )),
            other.start < other.end ==> (r == range_set(*other).disjoint(self@)),
    {
        other.is_disjoint(self)
    }
}

impl RangeSuperset<Range<usize>> for Range<usize> {
    fn is_superset(&self, other: &Range<usize>) -> (r: bool)
        ensures
            r == range_superset(*self, *other),
            other.start < other.end ==> (r == range_set(*other).subset_of(range_set(*self))),
    {
        proof {
            if other.start < other.end {
                lemma_range_superset(*self, *other);
            }
        }
        self.start <= other.start && self.end >= other.end
    }
}

impl RangeSuperset<RangeSet> for Range<usize> {
    fn is_superset(&self, other: &RangeSet) -> (r: bool)
        ensures
            r == other@.subset_of(range_set(*self)),
    {
        proof {
            use_type_invariant(other);
        }
        let rs = &other.ranges;
        let n = rs.len();
        let mut k: usize = 0;
        while k < n
            invariant
                n == rs@.len(),
                rs@ == other.ranges_view(),
                super::ranges_wf(rs@),
                0 <= k <= n,
                forall|j: int| 0 <= j < k ==> #[trigger] range_superset(*self, rs@[j]),
            decreases n - k,
        {
            if !self.is_superset(&rs[k]) {
                proof {
                    assert(rs@[k as int].start < rs@[k as int].end);
                    let x = choose|x: int| range_set(rs@[k as int]).contains(x) && !range_set(*self).contains(x);
                    lemma_in_ranges(rs@, k as int, x);
                }
                return false;
            }
            k += 1;
        }
        proof {
            assert forall|x: int| other@.contains(x) implies range_set(*self).contains(x) by {
                let j = choose|j: int| 0 <= j < rs@.len() && #[trigger] in_range(rs@[j], x);
                assert(range_superset(*self, rs@[j]));
            }
        }
        true
    }
}

impl RangeSubset<Range<usize>> for Range<usize> {
    fn is_subset(&self, other: &Range<usize>) -> (r: bool)
        ensures
            r == range_subset(*self, *other),
            self.start < self.end ==> (r == range_set(*self).subset_of(range_set(*other))),
    {
        proof {
            if self.start < self.end {
                lemma_range_superset(*other, *self);
            }
        }
        self.start >= other.start && self.end <= other.end
    }
}

impl RangeSubset<RangeSet> for Range<usize> {
    fn is_subset(&self, other: &RangeSet) -> (r: bool)
        ensures
            r == (exists|j: int|
                0 <= j < other.ranges_view().len() && #[trigger] range_subset(
                    *self,
                    other.ranges_view()[j],
                )),
            self.start < self.end ==> (r == range_set(*self).subset_of(other@)),
    {
        proof {
            use_type_invariant(other);
            if self.start < self.end {
                lemma_range_within(*self, other.ranges_view());
            }
        }
        let rs = &other.ranges;
        let n = rs.len();
        let mut k: usize = 0;
        while k < n
            invariant
                n == rs@.len(),
                rs@ == other.ranges_view(),
                0 <= k <= n,
                forall|j: int| 0 <= j < k ==> !#[trigger] range_subset(*self, rs@[j]),
            decreases n - k,
        {
            if self.is_subset(&rs[k]) {
                return true;
            }
            k += 1;
        }
        false
    }
}

impl RangeIntersects<Range<usize>> for Range<usize> {
    fn intersects(&self, other: &Range<usize>) -> (r: bool)
        ensures
            r == range_intersects(*self, *other),
            (self.start < self.end && other.start < other.end) ==> (r == !range_set(*self).disjoint(
                range_set(*other),
            )),
    {
        proof {
            if self.start < self.end && other.start < other.end {
                lemma_range_disjoint(*self, *other);
            }
        }
        self.start < other.end && self.end > other.start
    }
}

impl RangeIntersects<RangeSet> for Range<usize> {
    fn intersects(&self, other: &RangeSet) -> (r: bool)
        ensures
            r == (exists|j: int|
                0 <= j < other.ranges_view().len() && #[trigger] range_intersects(
                    *self,
                    other.ranges_view()[j],
                )),
            self.start < self.end ==> (r == !range_set(*self).disjoint(other@)),
    {
        proof {
            use_type_invariant(other);
        }
        let rs = &other.ranges;
        let n = rs.len();
        let mut k: usize = 0;
        while k < n
            invariant
                n == rs@.len(),
                rs@ == other.ranges_view(),
                super::ranges_wf(rs@),
                0 <= k <= n,
                forall|j: int| 0 <= j < k ==> !#[trigger] range_intersects(*self, rs@[j]),
            decreases n - k,
        {
            if self.intersects(&rs[k]) {
                proof {
                    if self.start < self.end {
                        lemma_range_disjoint(*self, rs@[k as int]);
                        let x = choose|x: int| range_set(*self).contains(x) && range_set(rs@[k as int]).contains(x);
                        lemma_in_ranges(rs@, k as int, x);
                    }
                }
                return true;
            }
            k += 1;
        }
        proof {
            if self.start < self.end {
                assert forall|x: int| range_set(*self).contains(x) implies !other@.contains(x) by {
                    if in_ranges(rs@, x) {
                        let j = choose|j: int| 0 <= j < rs@.len() && #[trigger] in_range(rs@[j], x);
                        assert(!range_intersects(*self, rs@[j]));
                    }
                }
            }
        }
        false
    }
}

} // verus!
