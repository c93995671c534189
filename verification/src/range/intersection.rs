//! Set intersection.
use vstd::prelude::*;

use std::ops::Range;

use super::{
    Intersection, RangeSet, in_range, lemma_gap, lemma_in_ranges, lemma_ranges_empty,
    lemma_ranges_full, lemma_ranges_prefix, lemma_wf_push, range_set, ranges_set, ranges_wf,
};

verus! {

/// The values of `s` below `t`.
pub open spec fn clip(s: Set<int>, t: int) -> Set<int> {
    Set::new(|x: int| s.contains(x) && x < t)
}

/// How far a simultaneous walk over `a` and `b` has come: values below it
/// are done.
pub open spec fn frontier(a: Seq<Range<usize>>, b: Seq<Range<usize>>, i: int, j: int) -> int {
    if i < a.len() && j < b.len() {
        if a[i].start < b[j].start {
            b[j].start as int
        } else {
            a[i].start as int
        }
    } else {
        usize::MAX + 1
    }
}

/// The common part of two ranges, if they have one.
pub open spec fn range_meet(a: Range<usize>, b: Range<usize>) -> Option<Range<usize>> {
    let start = if a.start < b.start { b.start } else { a.start };
    let end = if a.end < b.end { a.end } else { b.end };
    if start < end {
        Some(Range { start, end })
    } else {
        None
    }
}

/// The common part of two ranges holds exactly their common values.
pub proof fn lemma_range_meet(a: Range<usize>, b: Range<usize>)
    ensures
        range_meet(a, b) is None ==> range_set(a).intersect(range_set(b)) == Set::<int>::empty(),
        range_meet(a, b) matches Some(m) ==> (range_set(m) == range_set(a).intersect(range_set(b))
            && m.start < m.end),
{
    assert(range_set(a).intersect(range_set(b)) =~= match range_meet(a, b) {
        Some(m) => range_set(m),
        None => Set::<int>::empty(),
    });
}

impl Intersection<Range<usize>> for Range<usize> {
    type Output = Option<Range<usize>>;

    fn intersection(&self, other: &Range<usize>) -> (r: Option<Range<usize>>)
        ensures
            r == range_meet(*self, *other),
            r is None ==> range_set(*self).disjoint(range_set(*other)),
            r matches Some(m) ==> (range_set(m) == range_set(*self).intersect(range_set(*other))
                && m.start < m.end),
    {
        proof {
            lemma_range_meet(*self, *other);
            if range_meet(*self, *other) is None {
                assert forall|x: int| range_set(*self).contains(x) implies !range_set(*other).contains(x) by {
                    assert(!range_set(*self).intersect(range_set(*other)).contains(x));
                }
            }
        }
        let start = if self.start < other.start { other.start } else { self.start };
        let end = if self.end < other.end { self.end } else { other.end };
        if start < end {
            Some(start..end)
        } else {
            None
        }
    }
}

impl Intersection<RangeSet> for Range<usize> {
    type Output = RangeSet;

    fn intersection(&self, other: &RangeSet) -> (r: RangeSet)
        ensures
            r@ == range_set(*self).intersect(other@),
            r.wf(),
    {
        proof {
            use_type_invariant(other);
        }
        let rs = &other.ranges;
        let n = rs.len();
        let mut out: Vec<Range<usize>> = Vec::new();
        let mut k: usize = 0;
        proof {
            lemma_ranges_full(rs@);
            lemma_ranges_empty();
            assert(ranges_set(out@) =~= range_set(*self).intersect(ranges_set(rs@.subrange(0, 0))));
        }
        while k < n
            invariant
                n == rs@.len(),
                rs@ == other.ranges_view(),
                ranges_wf(rs@),
                0 <= k <= n,
                ranges_wf(out@),
                ranges_set(out@) == range_set(*self).intersect(ranges_set(rs@.subrange(0, k as int))),
                out@.len() > 0 ==> k > 0 && out@.last().end <= rs@[k - 1].end,
            ensures
                k < n ==> self.end <= rs@[k as int].start,
            decreases n - k,
        {
            if self.end <= rs[k].start {
                break;
            }
            proof {
                lemma_ranges_prefix(rs@, k as int);
            }
            match self.intersection(&rs[k]) {
                Some(piece) => {
                    proof {
                        if out@.len() > 0 {
                            assert(rs@[k - 1].end < rs@[k as int].start);
                        }
                        lemma_wf_push(out@, piece);
                    }
                    out.push(piece);
                },
                None => {},
            }
            proof {
                assert(ranges_set(out@) =~= range_set(*self).intersect(
                    ranges_set(rs@.subrange(0, k + 1)),
                ));
            }
            k += 1;
        }
        proof {
            assert forall|x: int| #[trigger] range_set(*self).intersect(other@).contains(x)
                == ranges_set(out@).contains(x) by {
                if range_set(*self).contains(x) && other@.contains(x) {
                    let j = choose|j: int| 0 <= j < rs@.len() && #[trigger] in_range(rs@[j], x);
                    if j >= k {
                        if j > k {
                            assert(rs@[k as int].end < rs@[j].start);
                        }
                        assert(false);
                    }
                    lemma_in_ranges(rs@.subrange(0, k as int), j, x);
                }
                if ranges_set(out@).contains(x) {
                    let j = choose|j: int| 0 <= j < k && #[trigger] in_range(rs@.subrange(0, k as int)[j], x);
                    lemma_in_ranges(rs@, j, x);
                }
            }
            assert(ranges_set(out@) =~= range_set(*self).intersect(other@));
        }
        RangeSet { ranges: out }
    }
}

impl Intersection<Range<usize>> for RangeSet {
    type Output = RangeSet;

    fn intersection(&self, other: &Range<usize>) -> (r: RangeSet)
        ensures
            r@ == self@.intersect(range_set(*other)),
            r.wf(),
    {
        let r = other.intersection(self);
        proof {
            assert(r@ =~= self@.intersect(range_set(*other)));
        }
        r
    }
}

impl Intersection<RangeSet> for RangeSet {
    type Output = RangeSet;

    fn intersection(&self, other: &RangeSet) -> (r: RangeSet)
        ensures
            r@ == self@.intersect(other@),
            r.wf(),
    {
        proof {
            use_type_invariant(self);
            use_type_invariant(other);
        }
        let a = &self.ranges;
        let b = &other.ranges;
        let ghost both = self@.intersect(other@);
        let mut out: Vec<Range<usize>> = Vec::new();
        let mut i: usize = 0;
        let mut j: usize = 0;
        proof {
            lemma_ranges_empty();
            assert forall|x: int| #[trigger] clip(both, frontier(a@, b@, 0, 0)).contains(x)
                implies false by {
                if a@.len() > 0 && b@.len() > 0 {
                    if a@[0].start <= b@[0].start {
                        lemma_gap(b@, -1, x);
                    } else {
                        lemma_gap(a@, -1, x);
                    }
                } else if a@.len() == 0 {
                    assert(!self@.contains(x));
                } else {
                    assert(!other@.contains(x));
                }
            }
            assert(ranges_set(out@) =~= clip(both, frontier(a@, b@, 0, 0)));
        }
        while i < a.len() && j < b.len()
            invariant
                a@ == self.ranges_view(),
                b@ == other.ranges_view(),
                ranges_wf(a@),
                ranges_wf(b@),
                both == self@.intersect(other@),
                0 <= i <= a@.len(),
                0 <= j <= b@.len(),
                ranges_wf(out@),
                ranges_set(out@) == clip(both, frontier(a@, b@, i as int, j as int)),
                out@.len() > 0 && i < a@.len() && j < b@.len() ==> out@.last().end < frontier(
                    a@,
                    b@,
                    i as int,
                    j as int,
                ),
            decreases a@.len() - i + b@.len() - j,
        {
            let ghost lim = frontier(a@, b@, i as int, j as int);
            let ghost ai = a@[i as int];
            let ghost bj = b@[j as int];
            if a[i].end <= b[j].start {
                proof {
                    assert forall|x: int| #[trigger] clip(both, frontier(a@, b@, i + 1, j as int)).contains(x)
                        == clip(both, lim).contains(x) by {
                        if both.contains(x) && lim <= x && x < frontier(a@, b@, i + 1, j as int) {
                            lemma_gap(a@, i as int, x);
                        }
                    }
                    assert(clip(both, frontier(a@, b@, i + 1, j as int)) =~= clip(both, lim));
                }
                i += 1;
            } else if b[j].end <= a[i].start {
                proof {
                    assert forall|x: int| #[trigger] clip(both, frontier(a@, b@, i as int, j + 1)).contains(x)
                        == clip(both, lim).contains(x) by {
                        if both.contains(x) && lim <= x && x < frontier(a@, b@, i as int, j + 1) {
                            lemma_gap(b@, j as int, x);
                        }
                    }
                    assert(clip(both, frontier(a@, b@, i as int, j + 1)) =~= clip(both, lim));
                }
                j += 1;
            } else {
                match a[i].intersection(&b[j]) {
                    Some(piece) => {
                        let ghost old_out = out@;
                        proof {
                            lemma_wf_push(out@, piece);
                        }
                        out.push(piece);
                        let ni: usize = if a[i].end <= b[j].end { i + 1 } else { i };
                        let nj: usize = if b[j].end <= a[i].end { j + 1 } else { j };
                        proof {
                            let nl = frontier(a@, b@, ni as int, nj as int);
                            assert(ai.start < ai.end && bj.start < bj.end);
                            if ni > i && (ni as int) < a@.len() {
                                assert(ai.end < a@[ni as int].start);
                            }
                            if nj > j && (nj as int) < b@.len() {
                                assert(bj.end < b@[nj as int].start);
                            }
                            assert(piece.end < nl);
                            assert forall|x: int| #[trigger] clip(both, nl).contains(x)
                                == ranges_set(out@).contains(x) by {
                                if both.contains(x) && x < nl {
                                    if x >= lim {
                                        if x >= ai.end {
                                            if ni > i {
                                                lemma_gap(a@, i as int, x);
                                            } else {
                                                lemma_gap(b@, j as int, x);
                                            }
                                        }
                                        if x >= bj.end {
                                            if nj > j {
                                                lemma_gap(b@, j as int, x);
                                            } else {
                                                lemma_gap(a@, i as int, x);
                                            }
                                        }
                                        assert(in_range(out@[out@.len() - 1], x));
                                    } else {
                                        assert(clip(both, lim).contains(x));
                                        assert(ranges_set(old_out).contains(x));
                                    }
                                }
                                if ranges_set(out@).contains(x) {
                                    if ranges_set(old_out).contains(x) {
                                        assert(clip(both, lim).contains(x));
                                    } else {
                                        assert(range_set(piece).contains(x));
                                        lemma_in_ranges(a@, i as int, x);
                                        lemma_in_ranges(b@, j as int, x);
                                    }
                                }
                            }
                            assert(ranges_set(out@) =~= clip(both, nl));
                        }
                        i = ni;
                        j = nj;
                    },
                    None => {
                        proof {
                            assert(false);
                        }
                    },
                }
            }
        }
        proof {
            assert(ranges_set(out@) =~= both);
        }
        RangeSet { ranges: out }
    }
}

} // verus!
