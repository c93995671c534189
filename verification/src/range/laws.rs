//! What holds of range sets across operations.
use vstd::prelude::*;

use std::ops::Range;

use super::symmetric_difference::sym_diff;
use super::{
    RangeSet, all_values, in_range, lemma_gap, lemma_in_ranges, range_values, ranges_set,
    ranges_wf, total_len,
};

verus! {

/// The values of `s` moved down by `off`.
pub open spec fn shifted_left(s: Set<int>, off: int) -> Set<int> {
    Set::new(|x: int| s.contains(x + off))
}

/// The values of `s` moved up by `off`.
pub open spec fn shifted_right(s: Set<int>, off: int) -> Set<int> {
    Set::new(|x: int| x >= off && s.contains(x - off))
}

/// Canonical ranges holding the same values are the same ranges.
proof fn lemma_canonical(a: Seq<Range<usize>>, b: Seq<Range<usize>>)
    requires
        ranges_wf(a),
        ranges_wf(b),
        ranges_set(a) == ranges_set(b),
    ensures
        a == b,
    decreases a.len(),
{
    if a.len() == 0 || b.len() == 0 {
        if a.len() > 0 {
            lemma_in_ranges(a, 0, a[0].start as int);
            assert(!ranges_set(b).contains(a[0].start as int));
        }
        if b.len() > 0 {
            lemma_in_ranges(b, 0, b[0].start as int);
            assert(!ranges_set(a).contains(b[0].start as int));
        }
        assert(a =~= b);
    } else {
        let (a0, b0) = (a[0], b[0]);
        // same start
        lemma_in_ranges(a, 0, a0.start as int);
        lemma_in_ranges(b, 0, b0.start as int);
        if a0.start < b0.start {
            lemma_gap(b, -1, a0.start as int);
        }
        if b0.start < a0.start {
            lemma_gap(a, -1, b0.start as int);
        }
        // same end
        if a0.end < b0.end {
            lemma_in_ranges(b, 0, a0.end as int);
            lemma_gap(a, 0, a0.end as int);
        }
        if b0.end < a0.end {
            lemma_in_ranges(a, 0, b0.end as int);
            lemma_gap(b, 0, b0.end as int);
        }
        assert(a0 == b0);
        let (ar, br) = (a.drop_first(), b.drop_first());
        super::lemma_wf_remove(a, 0);
        super::lemma_wf_remove(b, 0);
        assert(a.remove(0) =~= ar);
        assert(b.remove(0) =~= br);
        assert forall|x: int| #[trigger] ranges_set(ar).contains(x) == ranges_set(br).contains(x) by {
            if ranges_set(ar).contains(x) {
                let j = choose|j: int| 0 <= j < ar.len() && #[trigger] in_range(ar[j], x);
                lemma_in_ranges(a, j + 1, x);
                assert(a0.end < a[j + 1].start);
                let k = choose|k: int| 0 <= k < b.len() && #[trigger] in_range(b[k], x);
                if k > 0 {
                    lemma_in_ranges(br, k - 1, x);
                }
            }
            if ranges_set(br).contains(x) {
                let j = choose|j: int| 0 <= j < br.len() && #[trigger] in_range(br[j], x);
                lemma_in_ranges(b, j + 1, x);
                assert(b0.end < b[j + 1].start);
                let k = choose|k: int| 0 <= k < a.len() && #[trigger] in_range(a[k], x);
                if k > 0 {
                    lemma_in_ranges(ar, k - 1, x);
                }
            }
        }
        assert(ranges_set(ar) =~= ranges_set(br));
        lemma_canonical(ar, br);
        assert(a =~= seq![a0] + ar);
        assert(b =~= seq![b0] + br);
    }
}

/// A set's values determine its ranges: two range sets holding the same
/// values hold them in the same ranges, so they compare equal.
pub proof fn law_view_determines_ranges(a: &RangeSet, b: &RangeSet)
    requires
        a.wf(),
        b.wf(),
        a@ == b@,
    ensures
        a.ranges_view() == b.ranges_view(),
{
    lemma_canonical(a.ranges_view(), b.ranges_view());
}

/// Iterating a set yields each of its values once, in increasing order, as
/// many as the set holds.
pub proof fn law_iter_yields_set_in_order(s: &RangeSet)
    requires
        s.wf(),
    ensures
        forall|x: int| #[trigger] all_values(s.ranges_view()).contains(x) <==> s@.contains(x),
        forall|i: int, j: int|
            0 <= i < j < all_values(s.ranges_view()).len() ==> #[trigger] all_values(
                s.ranges_view(),
            )[i] < #[trigger] all_values(s.ranges_view())[j],
        all_values(s.ranges_view()).len() == s@.len(),
{
    lemma_values(s.ranges_view());
    super::lemma_ranges_len(s.ranges_view());
}

/// The values of canonical ranges, range after range, are exactly the values
/// they hold, strictly increasing, each range's values below the next's.
proof fn lemma_values(rs: Seq<Range<usize>>)
    requires
        ranges_wf(rs),
    ensures
        forall|x: int| #[trigger] all_values(rs).contains(x) <==> ranges_set(rs).contains(x),
        forall|i: int, j: int|
            0 <= i < j < all_values(rs).len() ==> #[trigger] all_values(rs)[i] < #[trigger] all_values(
                rs,
            )[j],
        all_values(rs).len() == total_len(rs),
        forall|i: int| 0 <= i < all_values(rs).len() ==> rs.len() > 0 && rs[0].start <= #[trigger] all_values(rs)[i],
    decreases rs.len(),
{
    if rs.len() == 0 {
        super::lemma_ranges_empty();
        assert(rs =~= Seq::<Range<usize>>::empty());
    } else {
        let r = rs[0];
        let rest = rs.drop_first();
        super::lemma_wf_remove(rs, 0);
        assert(rs.remove(0) =~= rest);
        lemma_values(rest);
        let v = all_values(rs);
        let head = range_values(r);
        let tail = all_values(rest);
        assert(v == head + tail);
        assert forall|x: int| #[trigger] v.contains(x) <==> ranges_set(rs).contains(x) by {
            if v.contains(x) {
                let i = choose|i: int| 0 <= i < v.len() && v[i] == x;
                if i < head.len() {
                    lemma_in_ranges(rs, 0, x);
                } else {
                    assert(tail[i - head.len()] == x);
                    assert(tail.contains(x));
                    let j = choose|j: int| 0 <= j < rest.len() && #[trigger] in_range(rest[j], x);
                    lemma_in_ranges(rs, j + 1, x);
                }
            }
            if ranges_set(rs).contains(x) {
                let j = choose|j: int| 0 <= j < rs.len() && #[trigger] in_range(rs[j], x);
                if j == 0 {
                    assert(v[x - r.start] == x);
                } else {
                    lemma_in_ranges(rest, j - 1, x);
                    assert(tail.contains(x));
                    let i = choose|i: int| 0 <= i < tail.len() && tail[i] == x;
                    assert(v[head.len() + i] == x);
                }
            }
        }
        assert forall|i: int, j: int| 0 <= i < j < v.len() implies #[trigger] v[i] < #[trigger] v[j] by {
            if j >= head.len() && i < head.len() {
                assert(tail[j - head.len()] == v[j]);
                assert(r.end < rs[1].start);
            } else if i >= head.len() {
                assert(tail[i - head.len()] == v[i]);
                assert(tail[j - head.len()] == v[j]);
            }
        }
        assert forall|i: int| 0 <= i < v.len() implies rs.len() > 0 && rs[0].start <= #[trigger] v[i] by {
            if i >= head.len() {
                assert(tail[i - head.len()] == v[i]);
                assert(r.end < rs[1].start);
            }
        }
        assert(total_len(rs) == total_len(rest) + (r.end - r.start)) by {
            lemma_total_len_first(rs);
        }
    }
}

/// The total length splits off the first range as well as the last.
proof fn lemma_total_len_first(rs: Seq<Range<usize>>)
    requires
        rs.len() > 0,
    ensures
        total_len(rs) == (rs[0].end - rs[0].start) + total_len(rs.drop_first()),
    decreases rs.len(),
{
    if rs.len() > 1 {
        lemma_total_len_first(rs.drop_last());
        assert(rs.drop_last().drop_first() =~= rs.drop_first().drop_last());
        assert(rs.drop_last()[0] == rs[0]);
        assert(rs.drop_first().last() == rs.last());
    } else {
        assert(rs.drop_first() =~= Seq::<Range<usize>>::empty());
        assert(rs.drop_last() =~= Seq::<Range<usize>>::empty());
    }
}

/// Shifting a set left and then right by the same offset gives it back.
pub proof fn law_shift_roundtrip(s: Set<int>, off: int)
    requires
        off >= 0,
        forall|x: int| #[trigger] s.contains(x) ==> off <= x,
    ensures
        shifted_right(shifted_left(s, off), off) == s,
        shifted_left(shifted_right(s, off), off) == s,
{
    assert(shifted_right(shifted_left(s, off), off) =~= s);
    assert(shifted_left(shifted_right(s, off), off) =~= s);
}

/// Taking the symmetric difference with the same set twice gives the first
/// set back.
pub proof fn law_xor_twice_restores(a: Set<int>, b: Set<int>)
    ensures
        sym_diff(sym_diff(a, b), b) == a,
        sym_diff(a, b) == a.difference(b).union(b.difference(a)),
{
    assert(sym_diff(sym_diff(a, b), b) =~= a);
    assert(sym_diff(a, b) =~= a.difference(b).union(b.difference(a)));
}

} // verus!
