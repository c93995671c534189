//! Iteration over the values and the ranges of a set.
use vstd::prelude::*;

use std::ops::Range;

use super::{RangeSet, ranges_wf};

verus! {

/// The values of a range, in increasing order.
pub open spec fn range_values(r: Range<usize>) -> Seq<int> {
    Seq::new(if r.start < r.end { (r.end - r.start) as nat } else { 0 }, |k: int| r.start + k)
}

/// The values of a sequence of ranges, range after range.
pub open spec fn all_values(rs: Seq<Range<usize>>) -> Seq<int>
    decreases rs.len(),
{
    if rs.len() == 0 {
        Seq::empty()
    } else {
        range_values(rs[0]) + all_values(rs.drop_first())
    }
}

/// An iterator over the values in a `RangeSet`.
pub struct RangeSetIter<'a> {
    ranges: &'a Vec<Range<usize>>,
    next_range: usize,
    current: Option<Range<usize>>,
}

impl<'a> RangeSetIter<'a> {
    /// The values not yet returned, in the order they come.
    pub closed spec fn remaining(&self) -> Seq<int> {
        let rest = all_values(self.ranges@.subrange(self.next_range as int, self.ranges@.len() as int));
        match self.current {
            Some(c) => range_values(c) + rest,
            None => rest,
        }
    }

    #[verifier::type_invariant]
    closed spec fn position_valid(&self) -> bool {
        self.next_range <= self.ranges@.len()
    }

    /// Returns the next value, or `None` once all have been returned.
    pub fn next(&mut self) -> (r: Option<usize>)
        ensures
            old(self).remaining().len() == 0 ==> r is None && final(self).remaining()
                == old(self).remaining(),
            old(self).remaining().len() > 0 ==> r == Some(old(self).remaining()[0] as usize)
                && final(self).remaining() == old(self).remaining().drop_first(),
    {
        proof {
            use_type_invariant(&*self);
        }
        loop
            invariant
                self.next_range <= self.ranges@.len(),
                self.remaining() == old(self).remaining(),
                self.ranges == old(self).ranges,
            decreases (if self.current is Some { 1int } else { 0int }) + 2 * (self.ranges@.len()
                - self.next_range),
        {
            let ghost rest = all_values(
                self.ranges@.subrange(self.next_range as int, self.ranges@.len() as int),
            );
            let state = match &self.current {
                Some(c) => Some((c.start, c.end)),
                None => None,
            };
            match state {
                Some((cs, ce)) => {
                    let ghost cur = Range { start: cs, end: ce };
                    if cs < ce {
                        let value = cs;
                        let tail = (cs + 1)..ce;
                        self.current = Some(tail);
                        proof {
                            assert(range_values(cur) =~= seq![value as int] + range_values(tail));
                            assert((seq![value as int] + range_values(tail) + rest).drop_first()
                                =~= range_values(tail) + rest);
                        }
                        return Some(value);
                    } else {
                        self.current = None;
                        proof {
                            assert(range_values(cur) + rest =~= rest);
                        }
                    }
                },
                None => {
                    if self.next_range < self.ranges.len() {
                        let r = self.ranges[self.next_range].start..self.ranges[self.next_range].end;
                        proof {
                            let n = self.ranges@.len() as int;
                            let k = self.next_range as int;
                            let sub = self.ranges@.subrange(k, n);
                            assert(sub.drop_first() =~= self.ranges@.subrange(k + 1, n));
                            assert(sub[0] == r);
                        }
                        self.current = Some(r);
                        self.next_range = self.next_range + 1;
                    } else {
                        proof {
                            assert(self.ranges@.subrange(
                                self.next_range as int,
                                self.ranges@.len() as int,
                            ) =~= Seq::<Range<usize>>::empty());
                        }
                        return None;
                    }
                },
            }
        }
    }
}

/// An iterator over the ranges in a `RangeSet`.
pub struct RangeIter<'a> {
    ranges: &'a Vec<Range<usize>>,
    front: usize,
    back: usize,
}

impl<'a> RangeIter<'a> {
    /// The ranges not yet returned, front to back.
    pub closed spec fn remaining(&self) -> Seq<Range<usize>> {
        self.ranges@.subrange(self.front as int, self.back as int)
    }

    #[verifier::type_invariant]
    closed spec fn bounds_valid(&self) -> bool {
        self.front <= self.back <= self.ranges@.len()
    }

    /// Returns the next range from the front.
    pub fn next(&mut self) -> (r: Option<Range<usize>>)
        ensures
            old(self).remaining().len() == 0 ==> r is None && final(self).remaining()
                == old(self).remaining(),
            old(self).remaining().len() > 0 ==> r == Some(old(self).remaining()[0])
                && final(self).remaining() == old(self).remaining().drop_first(),
    {
        proof {
            use_type_invariant(&*self);
        }
        if self.front < self.back {
            let r = self.ranges[self.front].start..self.ranges[self.front].end;
            self.front = self.front + 1;
            proof {
                assert(self.remaining() =~= old(self).remaining().drop_first());
            }
            Some(r)
        } else {
            None
        }
    }

    /// Returns the next range from the back.
    pub fn next_back(&mut self) -> (r: Option<Range<usize>>)
        ensures
            old(self).remaining().len() == 0 ==> r is None && final(self).remaining()
                == old(self).remaining(),
            old(self).remaining().len() > 0 ==> r == Some(old(self).remaining().last())
                && final(self).remaining() == old(self).remaining().drop_last(),
    {
        proof {
            use_type_invariant(&*self);
        }
        if self.front < self.back {
            self.back = self.back - 1;
            let r = self.ranges[self.back].start..self.ranges[self.back].end;
            proof {
                assert(self.remaining() =~= old(self).remaining().drop_last());
            }
            Some(r)
        } else {
            None
        }
    }

    /// Returns the number of ranges not yet returned.
    pub fn len(&self) -> (r: usize)
        ensures
            r == self.remaining().len(),
    {
        proof {
            use_type_invariant(self);
        }
        self.back - self.front
    }
}

impl RangeSet {
    /// Returns an iterator over the values in the set.
    pub fn iter(&self) -> (r: RangeSetIter<'_>)
        ensures
            r.remaining() == all_values(self.ranges_view()),
    {
        let r = RangeSetIter { ranges: &self.ranges, next_range: 0, current: None };
        proof {
            assert(self.ranges@.subrange(0, self.ranges@.len() as int) =~= self.ranges@);
        }
        r
    }

    /// Returns an iterator over the ranges in the set.
    pub fn iter_ranges(&self) -> (r: RangeIter<'_>)
        ensures
            r.remaining() == self.ranges_view(),
    {
        let r = RangeIter { ranges: &self.ranges, front: 0, back: self.ranges.len() };
        proof {
            assert(self.ranges@.subrange(0, self.ranges@.len() as int) =~= self.ranges@);
        }
        r
    }
}

} // verus!
