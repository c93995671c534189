//! Sets of `usize` values represented by ranges.
//!
//! A [`RangeSet`] keeps its ranges sorted, non-adjacent, non-intersecting
//! and non-empty; every constructor establishes this and every operation
//! keeps it. Its view is the set of values it holds.
use vstd::prelude::*;

use std::ops::Range;

use vstd::set_lib::{lemma_int_range, lemma_set_disjoint_lens, set_int_range};

mod compare;
mod convert;
pub mod cover;
mod difference;
mod index;
mod intersection;
mod iter;
mod laws;
mod subset;
mod symmetric_difference;
mod union;

pub use cover::Cover;
pub use index::IndexRanges;
pub use laws::{
    law_iter_yields_set_in_order, law_shift_roundtrip, law_view_determines_ranges,
    law_xor_twice_restores, shifted_left, shifted_right,
};
pub use iter::{RangeIter, RangeSetIter, all_values, range_values};
pub use symmetric_difference::{SymmetricDifference, SymmetricDifferenceMut};

verus! {

// === the mathematical model ===

/// `x` lies in the half-open range `r`.
pub open spec fn in_range(r: Range<usize>, x: int) -> bool {
    r.start <= x < r.end
}

/// The values of one range.
pub open spec fn range_set(r: Range<usize>) -> Set<int> {
    Set::new(|x: int| in_range(r, x))
}

/// `x` lies in one of the ranges.
pub open spec fn in_ranges(rs: Seq<Range<usize>>, x: int) -> bool {
    exists|j: int| 0 <= j < rs.len() && #[trigger] in_range(rs[j], x)
}

/// The values of a sequence of ranges.
pub open spec fn ranges_set(rs: Seq<Range<usize>>) -> Set<int> {
    Set::new(|x: int| in_ranges(rs, x))
}

/// The ranges are non-empty, sorted, non-adjacent and non-intersecting:
/// each ends strictly before the next one starts.
pub open spec fn ranges_wf(rs: Seq<Range<usize>>) -> bool {
    &&& forall|i: int| 0 <= i < rs.len() ==> (#[trigger] rs[i]).start < rs[i].end
    &&& forall|i: int, j: int| 0 <= i < j < rs.len() ==> (#[trigger] rs[i]).end < (#[trigger] rs[j]).start
}

/// The sum of the ranges' lengths.
pub open spec fn total_len(rs: Seq<Range<usize>>) -> int
    decreases rs.len(),
{
    if rs.len() == 0 {
        0
    } else {
        total_len(rs.drop_last()) + (rs.last().end - rs.last().start)
    }
}

/// A set of values represented using ranges.
#[derive(Debug, Hash, PartialEq, Eq)]
pub struct RangeSet {
    ranges: Vec<Range<usize>>,
}

impl RangeSet {
    /// The ranges of the set.
    pub closed spec fn ranges_view(&self) -> Seq<Range<usize>> {
        self.ranges@
    }

    /// The representation invariant.
    pub open spec fn wf(&self) -> bool {
        ranges_wf(self.ranges_view())
    }

    /// Every value of the type keeps its ranges canonical.
    #[verifier::type_invariant]
    closed spec fn canonical(&self) -> bool {
        ranges_wf(self.ranges@)
    }
}

impl View for RangeSet {
    type V = Set<int>;

    /// The set of values held.
    open spec fn view(&self) -> Set<int> {
        ranges_set(self.ranges_view())
    }
}

// === lemmas on the model ===

/// Removing a range removes exactly its values from the union.
pub proof fn lemma_ranges_remove(rs: Seq<Range<usize>>, i: int)
    requires
        0 <= i < rs.len(),
    ensures
        ranges_set(rs) == ranges_set(rs.remove(i)).union(range_set(rs[i])),
{
    rs.remove_ensures(i);
    let rm = rs.remove(i);
    assert forall|x: int| #[trigger] ranges_set(rs).contains(x) == ranges_set(rm).union(range_set(rs[i])).contains(x) by {
        if in_ranges(rs, x) {
            let j = choose|j: int| 0 <= j < rs.len() && #[trigger] in_range(rs[j], x);
            if j < i {
                assert(in_range(rm[j], x));
            } else if j > i {
                assert(in_range(rm[j - 1], x));
            }
        }
        if in_ranges(rm, x) {
            let j = choose|j: int| 0 <= j < rm.len() && #[trigger] in_range(rm[j], x);
            if j < i {
                assert(in_range(rs[j], x));
            } else {
                assert(in_range(rs[j + 1], x));
            }
        }
        if in_range(rs[i], x) {
            assert(in_range(rs[i], x));
        }
    }
    assert(ranges_set(rs) =~= ranges_set(rm).union(range_set(rs[i])));
}

/// Inserting a range adds exactly its values to the union.
pub proof fn lemma_ranges_insert(rs: Seq<Range<usize>>, i: int, r: Range<usize>)
    requires
        0 <= i <= rs.len(),
    ensures
        ranges_set(rs.insert(i, r)) == ranges_set(rs).union(range_set(r)),
{
    rs.insert_ensures(i, r);
    let ins = rs.insert(i, r);
    assert forall|x: int| #[trigger] ranges_set(ins).contains(x) == ranges_set(rs).union(range_set(r)).contains(x) by {
        if in_ranges(ins, x) {
            let j = choose|j: int| 0 <= j < ins.len() && #[trigger] in_range(ins[j], x);
            if j < i {
                assert(in_range(rs[j], x));
            } else if j > i {
                assert(in_range(rs[j - 1], x));
            }
        }
        if in_ranges(rs, x) {
            let j = choose|j: int| 0 <= j < rs.len() && #[trigger] in_range(rs[j], x);
            if j < i {
                assert(in_range(ins[j], x));
            } else {
                assert(in_range(ins[j + 1], x));
            }
        }
        if in_range(r, x) {
            assert(in_range(ins[i], x));
        }
    }
    assert(ranges_set(ins) =~= ranges_set(rs).union(range_set(r)));
}

/// Removing a range keeps the representation invariant.
pub proof fn lemma_wf_remove(rs: Seq<Range<usize>>, i: int)
    requires
        0 <= i < rs.len(),
        ranges_wf(rs),
    ensures
        ranges_wf(rs.remove(i)),
{
    rs.remove_ensures(i);
    let rm = rs.remove(i);
    assert forall|a: int, b: int| 0 <= a < b < rm.len() implies (#[trigger] rm[a]).end < (#[trigger] rm[b]).start by {
        let a0 = if a < i { a } else { a + 1 };
        let b0 = if b < i { b } else { b + 1 };
        assert(rm[a] == rs[a0]);
        assert(rm[b] == rs[b0]);
    }
    assert forall|a: int| 0 <= a < rm.len() implies (#[trigger] rm[a]).start < rm[a].end by {
        let a0 = if a < i { a } else { a + 1 };
        assert(rm[a] == rs[a0]);
    }
}

/// Two overlapping or adjacent ranges together hold exactly their hull.
pub proof fn lemma_hull(a: Range<usize>, b: Range<usize>)
    requires
        a.start <= b.end,
        b.start <= a.end,
    ensures
        range_set(a).union(range_set(b)) == range_set(
            Range { start: if a.start < b.start { a.start } else { b.start }, end: if a.end > b.end { a.end } else { b.end } },
        ),
{
    let h = Range { start: if a.start < b.start { a.start } else { b.start }, end: if a.end > b.end { a.end } else { b.end } };
    assert(range_set(a).union(range_set(b)) =~= range_set(h));
}

/// The values of a single range held in a one-element sequence.
pub proof fn lemma_ranges_single(r: Range<usize>)
    ensures
        ranges_set(seq![r]) == range_set(r),
{
    assert forall|x: int| #[trigger] ranges_set(seq![r]).contains(x) == range_set(r).contains(x) by {
        if in_range(r, x) {
            assert(in_range(seq![r][0], x));
        }
    }
    assert(ranges_set(seq![r]) =~= range_set(r));
}

/// No ranges hold no values.
pub proof fn lemma_ranges_empty()
    ensures
        ranges_set(Seq::<Range<usize>>::empty()) == Set::<int>::empty(),
{
    assert(ranges_set(Seq::<Range<usize>>::empty()) =~= Set::<int>::empty());
}

/// An empty (or reversed) range holds no values.
pub proof fn lemma_range_empty(r: Range<usize>)
    requires
        r.start >= r.end,
    ensures
        range_set(r) == Set::<int>::empty(),
{
    assert(range_set(r) =~= Set::<int>::empty());
}

/// Inserting a range between its neighbours keeps the representation
/// invariant.
pub proof fn lemma_wf_insert(rs: Seq<Range<usize>>, i: int, r: Range<usize>)
    requires
        ranges_wf(rs),
        0 <= i <= rs.len(),
        r.start < r.end,
        i > 0 ==> rs[i - 1].end < r.start,
        i < rs.len() ==> r.end < rs[i].start,
    ensures
        ranges_wf(rs.insert(i, r)),
{
    rs.insert_ensures(i, r);
    let ins = rs.insert(i, r);
    assert forall|a: int| 0 <= a < ins.len() implies (#[trigger] ins[a]).start < ins[a].end by {
        if a < i {
            assert(ins[a] == rs[a]);
        } else if a > i {
            assert(ins[a] == rs[a - 1]);
        }
    }
    assert forall|a: int, b: int| 0 <= a < b < ins.len() implies (#[trigger] ins[a]).end < (#[trigger] ins[b]).start by {
        if b < i {
            assert(ins[a] == rs[a] && ins[b] == rs[b]);
        } else if b == i {
            assert(ins[a] == rs[a]);
            assert(rs[i - 1].start < rs[i - 1].end);
            if a < i - 1 {
                assert(rs[a].end < rs[i - 1].start);
            }
        } else if a > i {
            assert(ins[a] == rs[a - 1] && ins[b] == rs[b - 1]);
        } else if a == i {
            assert(ins[b] == rs[b - 1]);
            assert(rs[i].start < rs[i].end);
            if b - 1 > i {
                assert(rs[i].end < rs[b - 1].start);
            }
        } else {
            assert(ins[a] == rs[a] && ins[b] == rs[b - 1]);
        }
    }
}

/// Appending a range after the last one keeps the representation invariant.
pub proof fn lemma_wf_push(rs: Seq<Range<usize>>, r: Range<usize>)
    requires
        ranges_wf(rs),
        r.start < r.end,
        rs.len() > 0 ==> rs.last().end < r.start,
    ensures
        ranges_wf(rs.push(r)),
        ranges_set(rs.push(r)) == ranges_set(rs).union(range_set(r)),
{
    assert(rs.push(r) =~= rs.insert(rs.len() as int, r));
    lemma_wf_insert(rs, rs.len() as int, r);
    lemma_ranges_insert(rs, rs.len() as int, r);
}

/// A prefix one longer adds the values of the next range.
pub proof fn lemma_ranges_prefix(rs: Seq<Range<usize>>, k: int)
    requires
        0 <= k < rs.len(),
    ensures
        ranges_set(rs.subrange(0, k + 1)) == ranges_set(rs.subrange(0, k)).union(range_set(rs[k])),
{
    assert(rs.subrange(0, k + 1) =~= rs.subrange(0, k).insert(k, rs[k]));
    lemma_ranges_insert(rs.subrange(0, k), k, rs[k]);
}

/// The whole sequence is its longest prefix.
pub proof fn lemma_ranges_full(rs: Seq<Range<usize>>)
    ensures
        ranges_set(rs.subrange(0, rs.len() as int)) == ranges_set(rs),
        ranges_set(rs.subrange(0, 0)) == Set::<int>::empty(),
{
    assert(rs.subrange(0, rs.len() as int) =~= rs);
    assert(rs.subrange(0, 0) =~= Seq::<Range<usize>>::empty());
    lemma_ranges_empty();
}

/// Replacing a range swaps its values for the new one's.
pub proof fn lemma_ranges_update(rs: Seq<Range<usize>>, i: int, r: Range<usize>)
    requires
        0 <= i < rs.len(),
    ensures
        ranges_set(rs.update(i, r)) == ranges_set(rs.remove(i)).union(range_set(r)),
        ranges_set(rs) == ranges_set(rs.remove(i)).union(range_set(rs[i])),
{
    assert(rs.update(i, r) =~= rs.remove(i).insert(i, r));
    lemma_ranges_insert(rs.remove(i), i, r);
    lemma_ranges_remove(rs, i);
}

/// A value strictly between the ranges at `j` and `j + 1` (or before the
/// first, for `j == -1`, or after the last) lies in none of them.
pub proof fn lemma_gap(rs: Seq<Range<usize>>, j: int, x: int)
    requires
        ranges_wf(rs),
        -1 <= j < rs.len(),
        j >= 0 ==> rs[j].end <= x,
        j + 1 < rs.len() ==> x < rs[j + 1].start,
    ensures
        !ranges_set(rs).contains(x),
{
    if in_ranges(rs, x) {
        let k = choose|k: int| 0 <= k < rs.len() && #[trigger] in_range(rs[k], x);
        if k <= j {
            assert(rs[k].start < rs[k].end);
            if k < j {
                assert(rs[k].end < rs[j].start);
            }
        } else {
            assert(rs[j + 1].start < rs[j + 1].end);
            if k > j + 1 {
                assert(rs[j + 1].end < rs[k].start);
            }
        }
    }
}

/// A value in one of the ranges is in their union.
pub proof fn lemma_in_ranges(rs: Seq<Range<usize>>, j: int, x: int)
    requires
        0 <= j < rs.len(),
        in_range(rs[j], x),
    ensures
        ranges_set(rs).contains(x),
{
}

/// Shrinking a range within its bounds keeps the representation invariant.
pub proof fn lemma_wf_shrink(rs: Seq<Range<usize>>, i: int, r: Range<usize>)
    requires
        ranges_wf(rs),
        0 <= i < rs.len(),
        rs[i].start <= r.start,
        r.start < r.end,
        r.end <= rs[i].end,
    ensures
        ranges_wf(rs.update(i, r)),
{
    let up = rs.update(i, r);
    assert forall|a: int, b: int| 0 <= a < b < up.len() implies (#[trigger] up[a]).end < (#[trigger] up[b]).start by {
        assert(rs[a].end < rs[b].start);
    }
}

/// Canonical ranges hold finitely many values, as many as their lengths add
/// up to, none of them at or beyond the end of the last range.
pub proof fn lemma_ranges_len(rs: Seq<Range<usize>>)
    requires
        ranges_wf(rs),
    ensures
        ranges_set(rs).finite(),
        ranges_set(rs).len() == total_len(rs),
        rs.len() > 0 ==> total_len(rs) <= rs.last().end - rs[0].start,
        rs.len() == 0 ==> total_len(rs) == 0,
    decreases rs.len(),
{
    if rs.len() == 0 {
        lemma_ranges_empty();
        assert(rs =~= Seq::<Range<usize>>::empty());
    } else {
        let init = rs.drop_last();
        let last = rs.last();
        assert(rs.remove(rs.len() - 1) =~= init);
        lemma_ranges_remove(rs, rs.len() - 1);
        lemma_wf_remove(rs, rs.len() - 1);
        lemma_ranges_len(init);
        assert(range_set(last) =~= set_int_range(last.start as int, last.end as int));
        lemma_int_range(last.start as int, last.end as int);
        assert forall|x: int| ranges_set(init).contains(x) implies !range_set(last).contains(x) by {
            let k = choose|k: int| 0 <= k < init.len() && #[trigger] in_range(init[k], x);
            assert(rs[k].end < rs[rs.len() - 1].start);
        }
        assert(ranges_set(init).disjoint(range_set(last)));
        assert(ranges_set(rs) == ranges_set(init).union(range_set(last)));
        assert(range_set(last).finite());
        lemma_set_disjoint_lens(ranges_set(init), range_set(last));
        assert(ranges_set(init) + range_set(last) == ranges_set(init).union(range_set(last)));
        if init.len() > 0 {
            assert(init[0] == rs[0]);
            assert(rs[init.len() - 1].end < last.start);
        }
    }
}

/// Any prefix of canonical ranges is canonical.
pub proof fn lemma_wf_prefix(rs: Seq<Range<usize>>, k: int)
    requires
        ranges_wf(rs),
        0 <= k <= rs.len(),
    ensures
        ranges_wf(rs.subrange(0, k)),
{
    let p = rs.subrange(0, k);
    assert forall|a: int, b: int| 0 <= a < b < p.len() implies (#[trigger] p[a]).end < (#[trigger] p[b]).start by {
        assert(rs[a].end < rs[b].start);
    }
}

/// Copies a sequence of ranges.
pub fn copy_ranges(v: &Vec<Range<usize>>) -> (r: Vec<Range<usize>>)
    ensures
        r@ == v@,
{
    let mut r: Vec<Range<usize>> = Vec::new();
    let mut i: usize = 0;
    while i < v.len()
        invariant
            0 <= i <= v@.len(),
            r@ == v@.subrange(0, i as int),
        decreases v@.len() - i,
    {
        r.push(v[i].start..v[i].end);
        proof {
            assert(v@.subrange(0, i + 1) =~= v@.subrange(0, i as int).push(v@[i as int]));
        }
        i += 1;
    }
    assert(v@.subrange(0, v@.len() as int) =~= v@);
    r
}

impl Clone for RangeSet {
    fn clone(&self) -> (r: Self)
        ensures
            r.ranges_view() == self.ranges_view(),
            r@ == self@,
    {
        proof {
            use_type_invariant(self);
        }
        RangeSet { ranges: copy_ranges(&self.ranges) }
    }
}

impl Default for RangeSet {
    fn default() -> (r: Self)
        ensures
            r.ranges_view() == Seq::<Range<usize>>::empty(),
            r.wf(),
            r@ == Set::<int>::empty(),
    {
        proof {
            lemma_ranges_empty();
        }
        RangeSet { ranges: Vec::new() }
    }
}

impl RangeSet {
    /// Returns the ranges of the set.
    pub fn into_inner(self) -> (r: Vec<Range<usize>>)
        ensures
            r@ == self.ranges_view(),
            ranges_wf(r@),
            ranges_set(r@) == self@,
    {
        proof {
            use_type_invariant(&self);
        }
        self.ranges
    }

    /// Returns `true` if the set contains the given value.
    pub fn contains(&self, value: &usize) -> (r: bool)
        ensures
            r == self@.contains(*value as int),
    {
        let rs = &self.ranges;
        let n = rs.len();
        let mut k: usize = 0;
        while k < n
            invariant
                n == rs@.len(),
                rs@ == self.ranges_view(),
                0 <= k <= n,
                forall|j: int| 0 <= j < k ==> !#[trigger] in_range(rs@[j], *value as int),
            decreases n - k,
        {
            if rs[k].start <= *value && *value < rs[k].end {
                proof {
                    lemma_in_ranges(rs@, k as int, *value as int);
                }
                return true;
            }
            k += 1;
        }
        false
    }

    /// Returns the minimum value in the set, or `None` if the set is empty.
    pub fn min(&self) -> (r: Option<usize>)
        ensures
            r is None <==> self@ == Set::<int>::empty(),
            r matches Some(m) ==> self@.contains(m as int) && forall|x: int| #[trigger] self@.contains(x) ==> m <= x,
    {
        proof {
            use_type_invariant(self);
            self.lemma_bounds();
        }
        if self.ranges.len() == 0 {
            None
        } else {
            Some(self.ranges[0].start)
        }
    }

    /// Returns the end of the right-most range in the set, or `None` if the
    /// set is empty. This bound is exclusive.
    pub fn end(&self) -> (r: Option<usize>)
        ensures
            r is None <==> self@ == Set::<int>::empty(),
            r matches Some(e) ==> self@.contains(e - 1) && forall|x: int| #[trigger] self@.contains(x) ==> x < e,
    {
        proof {
            use_type_invariant(self);
            self.lemma_bounds();
        }
        if self.ranges.len() == 0 {
            None
        } else {
            Some(self.ranges[self.ranges.len() - 1].end)
        }
    }

    /// Returns the maximum value in the set, or `None` if the set is empty.
    pub fn max(&self) -> (r: Option<usize>)
        ensures
            r is None <==> self@ == Set::<int>::empty(),
            r matches Some(m) ==> self@.contains(m as int) && forall|x: int| #[trigger] self@.contains(x) ==> x <= m,
    {
        proof {
            use_type_invariant(self);
            self.lemma_bounds();
        }
        if self.ranges.len() == 0 {
            None
        } else {
            Some(self.ranges[self.ranges.len() - 1].end - <usize as Identity<usize>>::IDENTITY)
        }
    }

    /// The first range starts at the least value and the last one ends just
    /// past the greatest.
    proof fn lemma_bounds(&self)
        requires
            self.wf(),
        ensures
            self.ranges_view().len() == 0 <==> self@ == Set::<int>::empty(),
            self.ranges_view().len() > 0 ==> {
                let rs = self.ranges_view();
                &&& self@.contains(rs[0].start as int)
                &&& self@.contains(rs.last().end - 1)
                &&& forall|x: int| #[trigger] self@.contains(x) ==> rs[0].start <= x < rs.last().end
            },
    {
        let rs = self.ranges_view();
        if rs.len() == 0 {
            lemma_ranges_empty();
            assert(rs =~= Seq::<Range<usize>>::empty());
        } else {
            lemma_in_ranges(rs, 0, rs[0].start as int);
            lemma_in_ranges(rs, rs.len() - 1, rs.last().end - 1);
            assert forall|x: int| #[trigger] self@.contains(x) implies rs[0].start <= x < rs.last().end by {
                let k = choose|k: int| 0 <= k < rs.len() && #[trigger] in_range(rs[k], x);
                if k > 0 {
                    assert(rs[0].end < rs[k].start);
                }
                if k < rs.len() - 1 {
                    assert(rs[k].end < rs[rs.len() - 1].start);
                }
            }
            assert(!Set::<int>::empty().contains(rs[0].start as int));
        }
    }

    /// Returns the number of values in the set.
    #[must_use]
    pub fn len(&self) -> (r: usize)
        ensures
            self@.finite(),
            r == self@.len(),
    {
        proof {
            use_type_invariant(self);
            lemma_ranges_len(self.ranges@);
        }
        let rs = &self.ranges;
        let n = rs.len();
        let mut total: usize = 0;
        let mut k: usize = 0;
        while k < n
            invariant
                n == rs@.len(),
                rs@ == self.ranges_view(),
                ranges_wf(rs@),
                0 <= k <= n,
                total == total_len(rs@.subrange(0, k as int)),
            decreases n - k,
        {
            proof {
                let pre = rs@.subrange(0, k as int);
                let next = rs@.subrange(0, k + 1);
                assert(next.drop_last() =~= pre);
                lemma_wf_prefix(rs@, k + 1);
                lemma_ranges_len(next);
                assert(next[0] == rs@[0] && next.last() == rs@[k as int]);
            }
            total = total + (rs[k].end - rs[k].start);
            k += 1;
        }
        proof {
            assert(rs@.subrange(0, n as int) =~= rs@);
        }
        total
    }

    /// Returns `true` if the set is empty.
    #[must_use]
    pub fn is_empty(&self) -> (r: bool)
        ensures
            r == (self@ == Set::<int>::empty()),
    {
        let n = self.len();
        proof {
            if n == 0 {
                assert(self@ =~= Set::<int>::empty());
            } else {
                assert(self@ != Set::<int>::empty());
            }
        }
        n == 0
    }

    /// Splits the set into two at the provided value.
    ///
    /// Returns a new set containing all the existing elements `>= at`. After
    /// the call, the original set is left containing the elements `< at`.
    pub fn split_off(&mut self, at: &usize) -> (r: RangeSet)
        requires
            old(self)@.contains(*at as int),
        ensures
            final(self)@ == Set::new(|x: int| old(self)@.contains(x) && x < *at),
            r@ == Set::new(|x: int| old(self)@.contains(x) && x >= *at),
            final(self).wf(),
            r.wf(),
    {
        proof {
            use_type_invariant(&*self);
        }
        let ghost whole = self@;
        let mut left = copy_ranges(&self.ranges);
        let n = left.len();
        let ghost rs = left@;
        let mut idx: usize = 0;
        while !(left[idx].start <= *at && *at < left[idx].end)
            invariant
                n == left@.len(),
                left@ == rs,
                ranges_wf(rs),
                ranges_set(rs).contains(*at as int),
                0 <= idx < n,
                forall|j: int| 0 <= j < idx ==> !#[trigger] in_range(rs[j], *at as int),
            decreases n - idx,
        {
            idx += 1;
            proof {
                if idx == n {
                    let j = choose|j: int| 0 <= j < rs.len() && #[trigger] in_range(rs[j], *at as int);
                    assert(false);
                }
            }
        }
        let mut right = left.split_off(idx);
        let first = right[0].start..right[0].end;
        if *at > first.start {
            left.push(first.start..*at);
            right.set(0, *at..first.end);
        }
        proof {
            let lo = left@;
            let hi = right@;
            assert forall|a: int, b: int| 0 <= a < b < lo.len() implies (#[trigger] lo[a]).end < (#[trigger] lo[b]).start by {
                if b < idx {
                    assert(lo[a] == rs[a] && lo[b] == rs[b]);
                } else {
                    assert(lo[a] == rs[a]);
                    assert(rs[a].end < rs[idx as int].start);
                }
            }
            assert forall|a: int| 0 <= a < lo.len() implies (#[trigger] lo[a]).start < lo[a].end by {
                if a < idx {
                    assert(lo[a] == rs[a]);
                }
            }
            assert forall|a: int, b: int| 0 <= a < b < hi.len() implies (#[trigger] hi[a]).end < (#[trigger] hi[b]).start by {
                assert(hi[b] == rs[b + idx]);
                if a > 0 {
                    assert(hi[a] == rs[a + idx]);
                }
                assert(rs[a + idx].end < rs[b + idx].start);
            }
            assert forall|a: int| 0 <= a < hi.len() implies (#[trigger] hi[a]).start < hi[a].end by {
                if a > 0 {
                    assert(hi[a] == rs[a + idx]);
                }
            }
            assert forall|x: int| #[trigger] ranges_set(lo).contains(x) == (whole.contains(x) && x < *at) by {
                if ranges_set(lo).contains(x) {
                    let j = choose|j: int| 0 <= j < lo.len() && #[trigger] in_range(lo[j], x);
                    if j < idx {
                        assert(lo[j] == rs[j]);
                        lemma_in_ranges(rs, j, x);
                        assert(rs[j].end < rs[idx as int].start);
                    } else {
                        lemma_in_ranges(rs, idx as int, x);
                    }
                }
                if whole.contains(x) && x < *at {
                    let j = choose|j: int| 0 <= j < rs.len() && #[trigger] in_range(rs[j], x);
                    if j < idx {
                        assert(lo[j] == rs[j]);
                        lemma_in_ranges(lo, j, x);
                    } else if j == idx {
                        lemma_in_ranges(lo, idx as int, x);
                    } else {
                        assert(rs[idx as int].end < rs[j].start);
                    }
                }
            }
            assert forall|x: int| #[trigger] ranges_set(hi).contains(x) == (whole.contains(x) && x >= *at) by {
                if ranges_set(hi).contains(x) {
                    let j = choose|j: int| 0 <= j < hi.len() && #[trigger] in_range(hi[j], x);
                    lemma_in_ranges(rs, j + idx, x);
                    if j > 0 {
                        assert(hi[j] == rs[j + idx]);
                        assert(rs[idx as int].end < rs[j + idx].start);
                    }
                }
                if whole.contains(x) && x >= *at {
                    let j = choose|j: int| 0 <= j < rs.len() && #[trigger] in_range(rs[j], x);
                    if j < idx {
                        assert(rs[j].end < rs[idx as int].start);
                    } else if j == idx {
                        lemma_in_ranges(hi, 0, x);
                    } else {
                        assert(hi[j - idx] == rs[j]);
                        lemma_in_ranges(hi, j - idx, x);
                    }
                }
            }
            assert(ranges_set(lo) =~= Set::new(|x: int| whole.contains(x) && x < *at));
            assert(ranges_set(hi) =~= Set::new(|x: int| whole.contains(x) && x >= *at));
        }
        *self = RangeSet { ranges: left };
        RangeSet { ranges: right }
    }

    /// Shifts every range in the set to the left by the provided offset.
    pub fn shift_left(&mut self, offset: &usize)
        requires
            forall|x: int| #[trigger] old(self)@.contains(x) ==> *offset <= x,
        ensures
            final(self)@ == shifted_left(old(self)@, *offset as int),
            final(self).wf(),
    {
        proof {
            use_type_invariant(&*self);
        }
        let ghost whole = self@;
        let rs = &self.ranges;
        let n = rs.len();
        let mut out: Vec<Range<usize>> = Vec::new();
        let mut k: usize = 0;
        while k < n
            invariant
                n == rs@.len(),
                ranges_wf(rs@),
                whole == ranges_set(rs@),
                forall|x: int| #[trigger] whole.contains(x) ==> *offset <= x,
                0 <= k <= n,
                out@.len() == k,
                forall|j: int| 0 <= j < k ==> (#[trigger] out@[j]).start + *offset == rs@[j].start
                    && out@[j].end + *offset == rs@[j].end,
            decreases n - k,
        {
            proof {
                lemma_in_ranges(rs@, k as int, rs@[k as int].start as int);
            }
            out.push((rs[k].start - *offset)..(rs[k].end - *offset));
            k += 1;
        }
        proof {
            let o = out@;
            assert forall|a: int, b: int| 0 <= a < b < o.len() implies (#[trigger] o[a]).end < (#[trigger] o[b]).start by {
                assert(rs@[a].end < rs@[b].start);
            }
            assert forall|a: int| 0 <= a < o.len() implies (#[trigger] o[a]).start < o[a].end by {
                assert(rs@[a].start < rs@[a].end);
            }
            assert forall|x: int| #[trigger] ranges_set(o).contains(x) == whole.contains(x + *offset) by {
                if ranges_set(o).contains(x) {
                    let j = choose|j: int| 0 <= j < o.len() && #[trigger] in_range(o[j], x);
                    lemma_in_ranges(rs@, j, x + *offset);
                }
                if whole.contains(x + *offset) {
                    let j = choose|j: int| 0 <= j < rs@.len() && #[trigger] in_range(rs@[j], x + *offset);
                    lemma_in_ranges(o, j, x);
                }
            }
            assert(ranges_set(o) =~= Set::new(|x: int| whole.contains(x + *offset)));
        }
        *self = RangeSet { ranges: out };
    }

    /// Shifts every range in the set to the right by the provided offset.
    pub fn shift_right(&mut self, offset: &usize)
        requires
            forall|x: int| #[trigger] old(self)@.contains(x) ==> x + *offset < usize::MAX,
        ensures
            final(self)@ == shifted_right(old(self)@, *offset as int),
            final(self).wf(),
    {
        proof {
            use_type_invariant(&*self);
        }
        let ghost whole = self@;
        let rs = &self.ranges;
        let n = rs.len();
        let mut out: Vec<Range<usize>> = Vec::new();
        let mut k: usize = 0;
        while k < n
            invariant
                n == rs@.len(),
                ranges_wf(rs@),
                whole == ranges_set(rs@),
                forall|x: int| #[trigger] whole.contains(x) ==> x + *offset < usize::MAX,
                0 <= k <= n,
                out@.len() == k,
                forall|j: int| 0 <= j < k ==> (#[trigger] out@[j]).start == rs@[j].start + *offset
                    && out@[j].end == rs@[j].end + *offset,
            decreases n - k,
        {
            proof {
                lemma_in_ranges(rs@, k as int, rs@[k as int].end - 1);
            }
            out.push((rs[k].start + *offset)..(rs[k].end + *offset));
            k += 1;
        }
        proof {
            let o = out@;
            assert forall|a: int, b: int| 0 <= a < b < o.len() implies (#[trigger] o[a]).end < (#[trigger] o[b]).start by {
                assert(rs@[a].end < rs@[b].start);
            }
            assert forall|a: int| 0 <= a < o.len() implies (#[trigger] o[a]).start < o[a].end by {
                assert(rs@[a].start < rs@[a].end);
            }
            assert forall|x: int| #[trigger] ranges_set(o).contains(x) == (x >= *offset && whole.contains(x - *offset)) by {
                if ranges_set(o).contains(x) {
                    let j = choose|j: int| 0 <= j < o.len() && #[trigger] in_range(o[j], x);
                    lemma_in_ranges(rs@, j, x - *offset);
                }
                if x >= *offset && whole.contains(x - *offset) {
                    let j = choose|j: int| 0 <= j < rs@.len() && #[trigger] in_range(rs@[j], x - *offset);
                    lemma_in_ranges(o, j, x);
                }
            }
            assert(ranges_set(o) =~= Set::new(|x: int| x >= *offset && whole.contains(x - *offset)));
        }
        *self = RangeSet { ranges: out };
    }
}

// === operations ===

/// Intersection test.
pub trait RangeIntersects<Rhs> {
    /// Returns `true` if the range intersects with `other`.
    fn intersects(&self, other: &Rhs) -> bool;
}

/// Disjointness test.
pub trait RangeDisjoint<Rhs> {
    /// Returns `true` if the range is disjoint with `other`.
    #[must_use]
    fn is_disjoint(&self, other: &Rhs) -> bool;
}

/// Superset test.
pub trait RangeSuperset<Rhs> {
    /// Returns `true` if `self` is a superset of `other`.
    #[must_use]
    fn is_superset(&self, other: &Rhs) -> bool;
}

/// Subset test by the bounds of the ranges.
pub trait RangeSubset<Rhs> {
    /// Returns `true` if `self` is a subset of `other`.
    #[must_use]
    fn is_subset(&self, other: &Rhs) -> bool;
}

/// Set difference.
pub trait RangeDifference<Rhs> {
    type Output;

    /// Returns the set difference of `self` and `other`.
    #[must_use]
    fn difference(&self, other: &Rhs) -> Self::Output;
}

/// Set union.
pub trait RangeUnion<Rhs> {
    type Output;

    /// Returns the set union of `self` and `other`.
    #[must_use]
    fn union(&self, other: &Rhs) -> Self::Output;
}

/// In-place set union.
pub trait UnionMut<Rhs> {
    /// Replaces `self` with the set union of `self` and `other`.
    fn union_mut(&mut self, other: &Rhs);
}

/// In-place set difference.
pub trait DifferenceMut<Rhs> {
    /// Replaces `self` with the set difference of `self` and `other`.
    fn difference_mut(&mut self, other: &Rhs);
}

/// Set intersection.
pub trait Intersection<Rhs> {
    type Output;

    /// Returns the set intersection of `self` and `other`.
    #[must_use]
    fn intersection(&self, other: &Rhs) -> Self::Output;
}

/// Subset test by the values held.
pub trait Subset<Rhs> {
    /// Returns `true` if `self` is a subset of `other`.
    #[must_use]
    fn is_subset(&self, other: &Rhs) -> bool;
}

/// A type with an identity value.
pub trait Identity<T> {
    /// The identity value for the type `T`.
    const IDENTITY: T;
}

impl Identity<usize> for usize {
    const IDENTITY: usize = 1;
}

} // verus!
