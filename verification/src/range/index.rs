//! Indexing a collection by a range set.
use vstd::prelude::*;

use std::ops::Range;

use vstd::utf8::{
    is_char_boundary, length_of_first_scalar, pop_first_scalar, valid_utf8, valid_utf8_concat,
    valid_utf8_split,
};

use vstd::string::StringSliceAdditionalSpecFns;

use super::{RangeSet, all_values, range_values, ranges_wf};
use crate::utf8::str_from_utf8;

verus! {

/// A trait implemented for collections which can be indexed by a range set.
pub trait IndexRanges {
    /// The output type of the indexing operation.
    type Output;

    /// The range set selects only positions that this collection can be
    /// cut at.
    spec fn indexable_by(&self, index: &RangeSet) -> bool;

    /// Indexes the collection by the given range set, range after range.
    fn index_ranges(&self, index: &RangeSet) -> Self::Output
        requires
            self.indexable_by(index),
    ;
}

/// The elements of `s` at the positions `idx`, in that order.
pub open spec fn pick<T>(s: Seq<T>, idx: Seq<int>) -> Seq<T> {
    Seq::new(idx.len(), |k: int| s[idx[k]])
}

/// The values of a range are its start and then the values of the rest.
proof fn lemma_range_values_step(r: Range<usize>)
    requires
        r.start < r.end,
    ensures
        range_values(r) == seq![r.start as int] + range_values(Range { start: (r.start + 1) as usize, end: r.end }),
{
    assert(range_values(r) =~= seq![r.start as int] + range_values(
        Range { start: (r.start + 1) as usize, end: r.end },
    ));
}

/// The values of the ranges from `k` on are those of range `k` and then
/// those from `k + 1` on.
proof fn lemma_all_values_step(rs: Seq<Range<usize>>, k: int)
    requires
        0 <= k < rs.len(),
    ensures
        all_values(rs.subrange(k, rs.len() as int)) == range_values(rs[k]) + all_values(
            rs.subrange(k + 1, rs.len() as int),
        ),
{
    let sub = rs.subrange(k, rs.len() as int);
    assert(sub.drop_first() =~= rs.subrange(k + 1, rs.len() as int));
}

impl<T: Clone> IndexRanges for [T] {
    type Output = Vec<T>;

    open spec fn indexable_by(&self, index: &RangeSet) -> bool {
        forall|x: int| #[trigger] index@.contains(x) ==> x < self@.len()
    }

    fn index_ranges(&self, index: &RangeSet) -> (r: Vec<T>)
        ensures
            r@.len() == all_values(index.ranges_view()).len(),
            forall|k: int| 0 <= k < r@.len() ==> cloned::<T>(
                self@[all_values(index.ranges_view())[k]],
                #[trigger] r@[k],
            ),
    {
        proof {
            use_type_invariant(index);
        }
        let rs = &index.ranges;
        let n = rs.len();
        let ghost total = all_values(rs@);
        let mut out: Vec<T> = Vec::new();
        let mut k: usize = 0;
        proof {
            assert(rs@.subrange(0, n as int) =~= rs@);
        }
        while k < n
            invariant
                n == rs@.len(),
                rs@ == index.ranges_view(),
                ranges_wf(rs@),
                forall|x: int| #[trigger] index@.contains(x) ==> x < self@.len(),
                total == all_values(rs@),
                0 <= k <= n,
                total == Seq::new(out@.len() as nat, |q: int| total[q]) + all_values(
                    rs@.subrange(k as int, n as int),
                ),
                out@.len() <= total.len(),
                forall|q: int| 0 <= q < out@.len() ==> cloned::<T>(self@[total[q]], #[trigger] out@[q]),
            decreases n - k,
        {
            proof {
                lemma_all_values_step(rs@, k as int);
            }
            let start = rs[k].start;
            let end = rs[k].end;
            let mut i: usize = start;
            while i < end
                invariant
                    start <= i <= end,
                    start == rs@[k as int].start,
                    end == rs@[k as int].end,
                    0 <= k < n,
                    n == rs@.len(),
                    rs@ == index.ranges_view(),
                    ranges_wf(rs@),
                    forall|x: int| #[trigger] index@.contains(x) ==> x < self@.len(),
                    total == Seq::new(out@.len() as nat, |q: int| total[q]) + range_values(
                        Range { start: i, end },
                    ) + all_values(rs@.subrange(k + 1, n as int)),
                    out@.len() <= total.len(),
                    forall|q: int| 0 <= q < out@.len() ==> cloned::<T>(self@[total[q]], #[trigger] out@[q]),
                decreases end - i,
            {
                proof {
                    super::lemma_in_ranges(rs@, k as int, i as int);
                    assert(index@.contains(i as int));
                    lemma_range_values_step(Range { start: i, end });
                    let m = out@.len();
                    let pre = Seq::new(m as nat, |q: int| total[q]);
                    let rest = range_values(Range { start: (i + 1) as usize, end }) + all_values(
                        rs@.subrange(k + 1, n as int),
                    );
                    assert(total =~= pre + seq![i as int] + rest);
                    assert(total[m as int] == i as int);
                    assert(Seq::new((m + 1) as nat, |q: int| total[q]) =~= pre + seq![i as int]);
                }
                out.push(self[i].clone());
                i += 1;
            }
            proof {
                assert(range_values(Range { start: i, end }) =~= Seq::<int>::empty());
            }
            k += 1;
        }
        proof {
            assert(rs@.subrange(n as int, n as int) =~= Seq::<Range<usize>>::empty());
        }
        out
    }
}

/// Cutting valid UTF-8 at two character boundaries leaves a character
/// boundary in the rest.
proof fn lemma_boundary_suffix(bytes: Seq<u8>, s: int, e: int)
    requires
        valid_utf8(bytes),
        is_char_boundary(bytes, s),
        is_char_boundary(bytes, e),
        s <= e,
    ensures
        valid_utf8(bytes.subrange(s, bytes.len() as int)),
        is_char_boundary(bytes.subrange(s, bytes.len() as int), e - s),
    decreases s,
{
    reveal_with_fuel(is_char_boundary, 2);
    if s == 0 {
        assert(bytes.subrange(0, bytes.len() as int) =~= bytes);
    } else {
        let l = length_of_first_scalar(bytes);
        let pop = pop_first_scalar(bytes);
        assert(s >= l);
        assert(e >= l);
        assert(is_char_boundary(pop, s - l));
        assert(is_char_boundary(pop, e - l));
        lemma_boundary_suffix(pop, s - l, e - l);
        assert(pop.subrange(s - l, pop.len() as int) =~= bytes.subrange(s, bytes.len() as int));
    }
}

/// The bytes between two character boundaries of valid UTF-8 are valid
/// UTF-8.
proof fn lemma_valid_piece(bytes: Seq<u8>, s: int, e: int)
    requires
        valid_utf8(bytes),
        is_char_boundary(bytes, s),
        is_char_boundary(bytes, e),
        0 <= s <= e <= bytes.len(),
    ensures
        valid_utf8(bytes.subrange(s, e)),
{
    lemma_boundary_suffix(bytes, s, e);
    let t = bytes.subrange(s, bytes.len() as int);
    valid_utf8_split(t, e - s);
    assert(t.subrange(0, e - s) =~= bytes.subrange(s, e));
}

impl IndexRanges for str {
    type Output = String;

    open spec fn indexable_by(&self, index: &RangeSet) -> bool {
        forall|j: int|
            0 <= j < index.ranges_view().len() ==> {
                let r = #[trigger] index.ranges_view()[j];
                &&& r.end <= self.spec_bytes().len()
                &&& is_char_boundary(self.spec_bytes(), r.start as int)
                &&& is_char_boundary(self.spec_bytes(), r.end as int)
            }
    }

    fn index_ranges(&self, index: &RangeSet) -> (r: String)
        ensures
            vstd::utf8::encode_utf8(r@) == pick(self.spec_bytes(), all_values(index.ranges_view())),
    {
        proof {
            use_type_invariant(index);
        }
        let bytes = self.as_bytes();
        let rs = &index.ranges;
        let n = rs.len();
        let ghost total = all_values(rs@);
        let ghost src = self.spec_bytes();
        let mut out: Vec<u8> = Vec::new();
        let mut k: usize = 0;
        proof {
            assert(rs@.subrange(0, n as int) =~= rs@);
            vstd::utf8::encode_utf8_valid_utf8(self@);
            assert(valid_utf8(out@));
        }
        while k < n
            invariant
                n == rs@.len(),
                rs@ == index.ranges_view(),
                bytes@ == src,
                src == self.spec_bytes(),
                valid_utf8(src),
                ranges_wf(rs@),
                self.indexable_by(index),
                total == all_values(rs@),
                0 <= k <= n,
                total == Seq::new(out@.len() as nat, |q: int| total[q]) + all_values(
                    rs@.subrange(k as int, n as int),
                ),
                out@ == pick(src, Seq::new(out@.len() as nat, |q: int| total[q])),
                valid_utf8(out@),
            decreases n - k,
        {
            proof {
                lemma_all_values_step(rs@, k as int);
            }
            let start = rs[k].start;
            let end = rs[k].end;
            let ghost before = out@;
            proof {
                assert(index.ranges_view()[k as int] == rs@[k as int]);
                lemma_valid_piece(src, start as int, end as int);
            }
            let mut i: usize = start;
            while i < end
                invariant
                    start <= i <= end,
                    end <= src.len(),
                    0 <= k < n,
                    n == rs@.len(),
                    bytes@ == src,
                    total == Seq::new(out@.len() as nat, |q: int| total[q]) + range_values(
                        Range { start: i, end },
                    ) + all_values(rs@.subrange(k + 1, n as int)),
                    out@ == pick(src, Seq::new(out@.len() as nat, |q: int| total[q])),
                    out@ == before + src.subrange(start as int, i as int),
                decreases end - i,
            {
                proof {
                    lemma_range_values_step(Range { start: i, end });
                    let m = out@.len();
                    let pre = Seq::new(m as nat, |q: int| total[q]);
                    let rest = range_values(Range { start: (i + 1) as usize, end }) + all_values(
                        rs@.subrange(k + 1, n as int),
                    );
                    assert(total =~= pre + seq![i as int] + rest);
                    assert(total[m as int] == i as int);
                    assert(Seq::new((m + 1) as nat, |q: int| total[q]) =~= pre + seq![i as int]);
                }
                out.push(bytes[i]);
                proof {
                    assert(out@ =~= pick(src, Seq::new(out@.len() as nat, |q: int| total[q])));
                    assert(out@ =~= before + src.subrange(start as int, i + 1));
                }
                i += 1;
            }
            proof {
                assert(range_values(Range { start: i, end }) =~= Seq::<int>::empty());
                valid_utf8_concat(before, src.subrange(start as int, end as int));
            }
            k += 1;
        }
        proof {
            assert(rs@.subrange(n as int, n as int) =~= Seq::<Range<usize>>::empty());
            assert(Seq::new(out@.len() as nat, |q: int| total[q]) =~= total);
        }
        match str_from_utf8(out.as_slice()) {
            Some(s) => {
                let r = s.to_owned();
                proof {
                    vstd::utf8::decode_utf8_encode_utf8(s.spec_bytes());
                }
                r
            },
            None => {
                proof {
                    assert(false);
                }
                String::new()
            },
        }
    }
}

} // verus!
