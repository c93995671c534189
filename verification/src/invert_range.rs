//! The complement of ranges within a range.
use vstd::prelude::*;

use std::ops::Range;

use crate::range::{in_range, range_set, ranges_set, ranges_wf};

verus! {

/// Errors that can occur during range manipulation.
#[derive(Debug, Clone, Copy, PartialEq, Eq, Structural)]
pub enum RangeError {
    /// Found zero or negative range.
    Invalid,
    /// Found out of bounds range.
    OutOfBounds,
    /// Found overlapping ranges.
    Overlapping,
}

impl RangeError {
    /// The error's message.
    pub fn message(&self) -> (r: String)
        ensures
            r@ == (match self {
                RangeError::Invalid => "Found zero or negative range"@,
                RangeError::OutOfBounds => "Found out of bounds range"@,
                RangeError::Overlapping => "Found overlapping ranges"@,
            }),
    {
        match self {
            RangeError::Invalid => "Found zero or negative range".to_owned(),
            RangeError::OutOfBounds => "Found out of bounds range".to_owned(),
            RangeError::Overlapping => "Found overlapping ranges".to_owned(),
        }
    }
}

/// `r` reaches outside `outer`.
pub open spec fn out_of_bounds(outer: Range<usize>, r: Range<usize>) -> bool {
    r.start >= outer.end || r.end > outer.end || r.start < outer.start || r.end <= outer.start
}

/// Ranges `a` and `b` share a value.
pub open spec fn overlap(a: Range<usize>, b: Range<usize>) -> bool {
    a.start < b.end && a.end > b.start
}

/// What is wrong with the range at `k`, checked in order: empty or
/// reversed, reaching outside `outer`, overlapping another one.
pub open spec fn range_problem(outer: Range<usize>, rs: Seq<Range<usize>>, k: int) -> Option<RangeError> {
    let r = rs[k];
    if r.start >= r.end {
        Some(RangeError::Invalid)
    } else if out_of_bounds(outer, r) {
        Some(RangeError::OutOfBounds)
    } else if exists|l: int| 0 <= l < rs.len() && l != k && #[trigger] overlap(rs[l], r) {
        Some(RangeError::Overlapping)
    } else {
        None
    }
}

/// The problem of the first range, from `k` on, that has one.
pub open spec fn first_problem(outer: Range<usize>, rs: Seq<Range<usize>>, k: int) -> Option<RangeError>
    decreases rs.len() - k,
{
    if k < 0 || k >= rs.len() {
        None
    } else {
        match range_problem(outer, rs, k) {
            Some(e) => Some(e),
            None => first_problem(outer, rs, k + 1),
        }
    }
}

/// The error `invert_range` reports, if any.
pub open spec fn invert_error(outer: Range<usize>, rs: Seq<Range<usize>>) -> Option<RangeError> {
    if outer.start >= outer.end {
        Some(RangeError::Invalid)
    } else {
        first_problem(outer, rs, 0)
    }
}

/// Non-empty ranges of `ps` neither overlap nor touch.
pub open spec fn separated(ps: Seq<Range<usize>>) -> bool {
    forall|i: int, j: int|
        0 <= i < ps.len() && 0 <= j < ps.len() && i != j && ps[i].start < ps[i].end && ps[j].start
            < ps[j].end ==> #[trigger] ps[i].end < #[trigger] ps[j].start || ps[j].end < ps[i].start
}

/// The ranges start in increasing order.
pub open spec fn starts_ascending(rs: Seq<Range<usize>>) -> bool {
    forall|i: int, j: int| 0 <= i < j < rs.len() ==> (#[trigger] rs[i]).start < (#[trigger] rs[j]).start
}

/// The ranges follow one another: each ends where or before the next
/// starts.
pub open spec fn in_order(ps: Seq<Range<usize>>) -> bool {
    forall|i: int, j: int| 0 <= i < j < ps.len() ==> (#[trigger] ps[i]).end <= (#[trigger] ps[j]).start
}

/// Range `r` lies within piece `p`.
pub open spec fn holds(p: Range<usize>, r: Range<usize>) -> bool {
    r.start >= p.start && r.end <= p.end
}

/// The first piece of `ps`, from `j` on, that holds `r` (`ps.len()` if
/// none does).
pub open spec fn holder_from(ps: Seq<Range<usize>>, r: Range<usize>, j: int) -> int
    decreases ps.len() - j,
{
    if j < 0 || j >= ps.len() {
        ps.len() as int
    } else if holds(ps[j], r) {
        j
    } else {
        holder_from(ps, r, j + 1)
    }
}

/// Cutting `r` out of the first piece that holds it: that piece keeps the
/// part before `r`, and the part after `r` is appended.
pub open spec fn cut(ps: Seq<Range<usize>>, r: Range<usize>) -> Seq<Range<usize>> {
    let j = holder_from(ps, r, 0);
    if j < ps.len() {
        ps.update(j, Range { start: ps[j].start, end: r.start }).push(
            Range { start: r.end, end: ps[j].end },
        )
    } else {
        ps
    }
}

/// The pieces of `outer` after cutting out the first `k` ranges in turn.
pub open spec fn pieces(outer: Range<usize>, rs: Seq<Range<usize>>, k: int) -> Seq<Range<usize>>
    decreases k,
{
    if k <= 0 {
        seq![outer]
    } else {
        cut(pieces(outer, rs, k - 1), rs[k - 1])
    }
}

/// The non-empty pieces of `ps`, in order.
pub open spec fn nonempty_pieces(ps: Seq<Range<usize>>) -> Seq<Range<usize>>
    decreases ps.len(),
{
    if ps.len() == 0 {
        ps
    } else if ps.last().start != ps.last().end {
        nonempty_pieces(ps.drop_last()).push(ps.last())
    } else {
        nonempty_pieces(ps.drop_last())
    }
}

/// The result of the inversion: the non-empty pieces, in order.
pub open spec fn inverted(outer: Range<usize>, rs: Seq<Range<usize>>) -> Seq<Range<usize>> {
    nonempty_pieces(pieces(outer, rs, rs.len() as int))
}

/// When no range has a problem, `first_problem` finds none from any point.
proof fn lemma_no_problem(outer: Range<usize>, rs: Seq<Range<usize>>, k: int)
    requires
        0 <= k <= rs.len(),
        first_problem(outer, rs, k) is None,
    ensures
        forall|j: int| k <= j < rs.len() ==> #[trigger] range_problem(outer, rs, j) is None,
    decreases rs.len() - k,
{
    if k < rs.len() {
        lemma_no_problem(outer, rs, k + 1);
    }
}

/// Inverts a range depending on a set of ranges, i.e. returns the
/// complement of `ranges_to_remove` within `original_range`.
///
/// Every range in `ranges_to_remove` must be contained in `original_range`;
/// the ranges must not overlap and cannot be empty or negative.
pub fn invert_range(original_range: &Range<usize>, ranges_to_remove: &[Range<usize>]) -> (r: Result<
    Vec<Range<usize>>,
    RangeError,
>)
    ensures
        r is Err <==> invert_error(*original_range, ranges_to_remove@) is Some,
        r matches Err(e) ==> invert_error(*original_range, ranges_to_remove@) == Some(e),
        r matches Ok(v) ==> {
            &&& v@ == inverted(*original_range, ranges_to_remove@)
            &&& forall|i: int| 0 <= i < v@.len() ==> (#[trigger] v@[i]).start < v@[i].end
            &&& separated(v@)
            &&& ranges_set(v@) == range_set(*original_range).difference(ranges_set(ranges_to_remove@))
            &&& starts_ascending(ranges_to_remove@) ==> ranges_wf(v@)
        },
{
    let ghost outer = *original_range;
    let ghost rs = ranges_to_remove@;
    if original_range.start >= original_range.end {
        return Err(RangeError::Invalid);
    }
    let n = ranges_to_remove.len();
    let mut k: usize = 0;
    while k < n
        invariant
            n == rs.len(),
            rs == ranges_to_remove@,
            outer == *original_range,
            outer.start < outer.end,
            0 <= k <= n,
            first_problem(outer, rs, 0) == first_problem(outer, rs, k as int),
        decreases n - k,
    {
        let range = &ranges_to_remove[k];
        if range.start >= range.end {
            return Err(RangeError::Invalid);
        }
        if range.start >= original_range.end || range.end > original_range.end || range.start
            < original_range.start || range.end <= original_range.start {
            return Err(RangeError::OutOfBounds);
        }
        let mut l: usize = 0;
        while l < n
            invariant
                n == rs.len(),
                rs == ranges_to_remove@,
                0 <= k < n,
                *range == rs[k as int],
                outer == *original_range,
                outer.start < outer.end,
                first_problem(outer, rs, 0) == first_problem(outer, rs, k as int),
                rs[k as int].start < rs[k as int].end,
                !out_of_bounds(outer, rs[k as int]),
                0 <= l <= n,
                forall|m: int| 0 <= m < l ==> !(m != k && #[trigger] overlap(rs[m], rs[k as int])),
            decreases n - l,
        {
            let other = &ranges_to_remove[l];
            if k != l && other.start < range.end && other.end > range.start {
                proof {
                    assert(overlap(rs[l as int], rs[k as int]));
                }
                return Err(RangeError::Overlapping);
            }
            l += 1;
        }
        proof {
            assert(range_problem(outer, rs, k as int) is None);
        }
        k += 1;
    }
    proof {
        assert(first_problem(outer, rs, n as int) is None);
        lemma_no_problem(outer, rs, 0);
    }
    let mut inverted: Vec<Range<usize>> = Vec::new();
    inverted.push(original_range.start..original_range.end);
    let mut k: usize = 0;
    proof {
        assert(rs.subrange(0, 0) =~= Seq::<Range<usize>>::empty());
        crate::range::lemma_ranges_empty();
        crate::range::lemma_ranges_single(outer);
        assert(inverted@ =~= seq![outer]);
        assert(ranges_set(inverted@) =~= range_set(outer).difference(ranges_set(rs.subrange(0, 0))));
    }
    while k < n
        invariant
            n == rs.len(),
            rs == ranges_to_remove@,
            outer == *original_range,
            forall|j: int| 0 <= j < rs.len() ==> #[trigger] range_problem(outer, rs, j) is None,
            0 <= k <= n,
            separated(inverted@),
            forall|a: int| 0 <= a < inverted@.len() ==> (#[trigger] inverted@[a]).start <= inverted@[a].end,
            ranges_set(inverted@) == range_set(outer).difference(ranges_set(rs.subrange(0, k as int))),
            inverted@.len() == k + 1,
            inverted@ == pieces(outer, rs, k as int),
            starts_ascending(rs) ==> in_order(inverted@) && inverted@.last().start == (if k == 0 {
                outer.start
            } else {
                rs[k - 1].end
            }) && inverted@.last().end == outer.end,
        decreases n - k,
    {
        let range = &ranges_to_remove[k];
        let ghost r = rs[k as int];
        let ghost ps = inverted@;
        proof {
            assert(range_problem(outer, rs, k as int) is None);
            crate::range::lemma_ranges_prefix(rs, k as int);
            // the range lies in what is left
            assert forall|x: int| range_set(r).contains(x) implies ranges_set(ps).contains(x) by {
                assert(range_set(outer).contains(x));
                if ranges_set(rs.subrange(0, k as int)).contains(x) {
                    let m = choose|m: int| 0 <= m < k && #[trigger] in_range(rs.subrange(0, k as int)[m], x);
                    assert(in_range(rs[m], x));
                    assert(overlap(rs[m], r));
                    assert(range_problem(outer, rs, k as int) is None);
                }
            }
        }
        let ghost x0 = r.start as int;
        let ghost j0: int = choose|j: int| 0 <= j < ps.len() && #[trigger] in_range(ps[j], x0);
        proof {
            assert(range_set(r).contains(x0));
            assert(ranges_set(ps).contains(x0));
            assert(0 <= j0 < ps.len() && in_range(ps[j0], x0));
            if ps[j0].end < r.end {
                let y = ps[j0].end as int;
                assert(range_set(r).contains(y));
                let m = choose|m: int| 0 <= m < ps.len() && #[trigger] in_range(ps[m], y);
                assert(ps[m].end < ps[j0].start || ps[j0].end < ps[m].start);
            }
        }
        let mut j: usize = 0;
        while !(range.start >= inverted[j].start && range.end <= inverted[j].end)
            invariant
                inverted@ == ps,
                *range == r,
                0 <= j <= j0,
                0 <= j0 < ps.len(),
                j0 < inverted.len(),
                r.start >= ps[j0].start && r.end <= ps[j0].end,
                holder_from(ps, r, 0) == holder_from(ps, r, j as int),
            decreases j0 - j,
        {
            j += 1;
        }
        let piece = inverted[j].start..inverted[j].end;
        let original_end = piece.end;
        inverted.set(j, piece.start..range.start);
        inverted.push(range.end..original_end);
        proof {
            let ps2 = inverted@;
            let left = Range { start: piece.start, end: r.start };
            let right = Range { start: r.end, end: original_end };
            assert(ps2 == ps.update(j as int, left).push(right));
            assert(holder_from(ps, r, 0) == j);
            assert(ps2 == pieces(outer, rs, k + 1));
            // separation
            assert forall|a: int, b: int|
                0 <= a < ps2.len() && 0 <= b < ps2.len() && a != b && ps2[a].start < ps2[a].end
                    && ps2[b].start < ps2[b].end implies #[trigger] ps2[a].end < #[trigger] ps2[b].start
                || ps2[b].end < ps2[a].start by {
                if a != j && a < ps.len() && b != j && b < ps.len() {
                    assert(ps2[a] == ps[a] && ps2[b] == ps[b]);
                } else if (a == j || a == ps.len()) && (b == j || b == ps.len()) {
                } else {
                    let o = if a == j || a == ps.len() { b } else { a };
                    assert(ps2[o] == ps[o]);
                    assert(ps[o].end < ps[j as int].start || ps[j as int].end < ps[o].start);
                }
            }
            // values
            assert forall|x: int| #[trigger] ranges_set(ps2).contains(x) == (ranges_set(ps).contains(x)
                && !range_set(r).contains(x)) by {
                if ranges_set(ps2).contains(x) {
                    let m = choose|m: int| 0 <= m < ps2.len() && #[trigger] in_range(ps2[m], x);
                    if m == j || m == ps.len() {
                        crate::range::lemma_in_ranges(ps, j as int, x);
                    } else {
                        assert(ps2[m] == ps[m]);
                        crate::range::lemma_in_ranges(ps, m, x);
                        if range_set(r).contains(x) {
                            assert(ps[m].end < ps[j as int].start || ps[j as int].end < ps[m].start);
                        }
                    }
                }
                if ranges_set(ps).contains(x) && !range_set(r).contains(x) {
                    let m = choose|m: int| 0 <= m < ps.len() && #[trigger] in_range(ps[m], x);
                    if m == j {
                        if x < r.start {
                            crate::range::lemma_in_ranges(ps2, j as int, x);
                        } else {
                            crate::range::lemma_in_ranges(ps2, ps.len() as int, x);
                        }
                    } else {
                        assert(ps2[m] == ps[m]);
                        crate::range::lemma_in_ranges(ps2, m, x);
                    }
                }
            }
            assert(ranges_set(ps2) =~= range_set(outer).difference(ranges_set(rs.subrange(0, k + 1))));
            // order, for ascending input
            if starts_ascending(rs) {
                let last = ps.len() - 1;
                if k > 0 {
                    assert(rs[k - 1].start < r.start);
                    assert(!overlap(rs[k - 1], r));
                }
                if j != last {
                    assert(ps[j as int].end <= ps[last].start);
                    assert(false);
                }
                assert forall|a: int, b: int| 0 <= a < b < ps2.len() implies (#[trigger] ps2[a]).end
                    <= (#[trigger] ps2[b]).start by {
                    if b < ps.len() - 1 {
                        assert(ps2[a] == ps[a] && ps2[b] == ps[b]);
                    } else if b == ps.len() - 1 {
                        assert(ps2[a] == ps[a]);
                        assert(ps[a].end <= ps[last].start);
                    } else if a < ps.len() - 1 {
                        assert(ps2[a] == ps[a]);
                        assert(ps[a].end <= ps[last].start);
                    }
                }
            }
        }
        k += 1;
    }
    let mut out: Vec<Range<usize>> = Vec::new();
    let mut i: usize = 0;
    let ghost ps = inverted@;
    let ghost mut src: Seq<int> = Seq::empty();
    proof {
        assert(rs.subrange(0, n as int) =~= rs);
        assert(ps.subrange(0, 0) =~= Seq::<Range<usize>>::empty());
        assert(out@ =~= nonempty_pieces(ps.subrange(0, 0)));
        crate::range::lemma_ranges_empty();
    }
    while i < inverted.len()
        invariant
            inverted@ == ps,
            separated(ps),
            forall|a: int| 0 <= a < ps.len() ==> (#[trigger] ps[a]).start <= ps[a].end,
            0 <= i <= ps.len(),
            src.len() == out@.len(),
            forall|a: int| 0 <= a < out@.len() ==> 0 <= #[trigger] src[a] < i && out@[a] == ps[src[a]],
            forall|a: int, b: int| 0 <= a < b < src.len() ==> #[trigger] src[a] < #[trigger] src[b],
            forall|a: int| 0 <= a < out@.len() ==> (#[trigger] out@[a]).start < out@[a].end,
            ranges_set(out@) == ranges_set(ps.subrange(0, i as int)),
            out@ == nonempty_pieces(ps.subrange(0, i as int)),
        decreases ps.len() - i,
    {
        proof {
            crate::range::lemma_ranges_prefix(ps, i as int);
            assert(ps.subrange(0, i + 1).drop_last() =~= ps.subrange(0, i as int));
            assert(ps.subrange(0, i + 1).last() == ps[i as int]);
        }
        if inverted[i].start != inverted[i].end {
            let ghost before = out@;
            out.push(inverted[i].start..inverted[i].end);
            proof {
                src = src.push(i as int);
                assert(out@ == before.push(ps[i as int]));
                crate::range::lemma_ranges_insert(before, before.len() as int, ps[i as int]);
                assert(before.insert(before.len() as int, ps[i as int]) =~= out@);
                assert(ranges_set(out@) =~= ranges_set(ps.subrange(0, i + 1)));
            }
        } else {
            proof {
                crate::range::lemma_range_empty(ps[i as int]);
                assert(ranges_set(out@) =~= ranges_set(ps.subrange(0, i + 1)));
            }
        }
        i += 1;
    }
    proof {
        assert(ps.subrange(0, ps.len() as int) =~= ps);
        assert forall|a: int, b: int|
            0 <= a < out@.len() && 0 <= b < out@.len() && a != b && out@[a].start < out@[a].end
                && out@[b].start < out@[b].end implies #[trigger] out@[a].end < #[trigger] out@[b].start
            || out@[b].end < out@[a].start by {
            assert(src[a] != src[b]);
            assert(out@[a] == ps[src[a]] && out@[b] == ps[src[b]]);
        }
        if starts_ascending(rs) {
            assert forall|a: int, b: int| 0 <= a < b < out@.len() implies (#[trigger] out@[a]).end
                < (#[trigger] out@[b]).start by {
                assert(src[a] < src[b]);
                assert(out@[a] == ps[src[a]] && out@[b] == ps[src[b]]);
                assert(ps[src[a]].end <= ps[src[b]].start);
                assert(ps[src[a]].end < ps[src[b]].start || ps[src[b]].end < ps[src[a]].start);
            }
        }
    }
    Ok(out)
}

} // verus!
