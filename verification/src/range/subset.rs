//! Subset tests by the values held.
use vstd::prelude::*;

use std::ops::Range;

use super::compare::{lemma_range_superset, lemma_range_within, range_subset};
use super::{RangeSet, Subset, in_range, lemma_gap, lemma_in_ranges, range_set, ranges_set, ranges_wf};

verus! {

impl Subset<Range<usize>> for Range<usize> {
    fn is_subset(&self, other: &Range<usize>) -> (r: bool)
        ensures
            r == range_subset(*self, *other),
            self.start < self.end ==> (r == range_set(*self).subset_of(range_set(*other))),
    {
        proof {
            if self.start < self.end {
                lemma_range_superset(*other, *self);
            }
        }
        self.start >= other.start && self.end <= other.end
    }
}

impl Subset<RangeSet> for Range<usize> {
    fn is_subset(&self, other: &RangeSet) -> (r: bool)
        ensures
            r == range_set(*self).subset_of(other@),
    {
        proof {
            use_type_invariant(other);
        }
        if self.start >= self.end {
            return true;
        } else if other.ranges.len() == 0 {
            proof {
                assert(range_set(*self).contains(self.start as int));
            }
            return false;
        }
        proof {
            lemma_range_within(*self, other.ranges@);
        }
        let rs = &other.ranges;
        let n = rs.len();
        let mut k: usize = 0;
        while k < n
            invariant
                n == rs@.len(),
                rs@ == other.ranges_view(),
                ranges_wf(rs@),
                self.start < self.end,
                0 <= k <= n,
                forall|j: int| 0 <= j < k ==> self.start >= (#[trigger] rs@[j]).end,
                range_set(*self).subset_of(ranges_set(rs@)) <==> exists|j: int|
                    0 <= j < rs@.len() && #[trigger] range_subset(*self, rs@[j]),
            decreases n - k,
        {
            if self.start >= rs[k].end {
                k += 1;
                continue;
            } else {
                let r = Subset::is_subset(self, &rs[k]);
                proof {
                    if !r {
                        assert forall|j: int| 0 <= j < rs@.len() implies !#[trigger] range_subset(*self, rs@[j]) by {
                            if j > k {
                                assert(rs@[k as int].end < rs@[j].start);
                            }
                        }
                    }
                }
                return r;
            }
        }
        proof {
            assert forall|j: int| 0 <= j < rs@.len() implies !#[trigger] range_subset(*self, rs@[j]) by {
                assert(self.start >= rs@[j].end);
            }
        }
        false
    }
}

impl Subset<Range<usize>> for RangeSet {
    fn is_subset(&self, other: &Range<usize>) -> (r: bool)
        ensures
            r == self@.subset_of(range_set(*other)),
    {
        let (start, end) = match (self.min(), self.end()) {
            (Some(start), Some(end)) => (start, end),
            _ => {
                return true;
            },
        };
        start >= other.start && end <= other.end
    }
}

impl Subset<RangeSet> for RangeSet {
    fn is_subset(&self, other: &RangeSet) -> (r: bool)
        ensures
            r == self@.subset_of(other@),
    {
        proof {
            use_type_invariant(self);
            use_type_invariant(other);
        }
        let a = &self.ranges;
        let b = &other.ranges;
        if a.len() == 0 {
            return true;
        } else if b.len() == 0 {
            proof {
                lemma_in_ranges(a@, 0, a@[0].start as int);
            }
            return false;
        }
        let mut i: usize = 0;
        let mut j: usize = 0;
        while i < a.len() && j < b.len()
            invariant
                a@ == self.ranges_view(),
                b@ == other.ranges_view(),
                ranges_wf(a@),
                ranges_wf(b@),
                0 <= i <= a@.len(),
                0 <= j <= b@.len(),
                ranges_set(a@.subrange(0, i as int)).subset_of(other@),
                i < a@.len() ==> forall|k: int| 0 <= k < j ==> (#[trigger] b@[k]).end <= a@[i as int].start,
            decreases a@.len() - i + b@.len() - j,
        {
            let ghost ai = a@[i as int];
            let ghost bj = b@[j as int];
            if a[i].start >= b[j].end {
                j += 1;
            } else if Subset::is_subset(&a[i], &b[j]) {
                proof {
                    super::lemma_ranges_prefix(a@, i as int);
                    assert forall|x: int| range_set(ai).contains(x) implies other@.contains(x) by {
                        lemma_in_ranges(b@, j as int, x);
                    }
                    if i + 1 < a@.len() {
                        assert(ai.end < a@[i + 1].start);
                    }
                }
                i += 1;
            } else {
                proof {
                    let x: int = if ai.start < bj.start { ai.start as int } else { bj.end as int };
                    assert(range_set(ai).contains(x));
                    lemma_in_ranges(a@, i as int, x);
                    if ai.start < bj.start {
                        if j > 0 {
                            assert(b@[j - 1].end <= ai.start);
                        }
                        lemma_gap(b@, j as int - 1, x);
                    } else {
                        lemma_gap(b@, j as int, x);
                    }
                }
                return false;
            }
        }
        proof {
            if i < a@.len() {
                let x = a@[i as int].start as int;
                lemma_in_ranges(a@, i as int, x);
                lemma_gap(b@, b@.len() - 1, x);
            } else {
                assert(a@.subrange(0, i as int) =~= a@);
            }
        }
        i == a.len()
    }
}

} // verus!
