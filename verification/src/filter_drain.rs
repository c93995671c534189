//! Removing the elements of a vector that a predicate selects, one at a
//! time, keeping the others in order.
use vstd::prelude::*;

verus! {

/// Extension trait that removes, lazily, the elements of a collection that a
/// predicate selects.
pub trait FilterDrain<'a, T, F> {
    /// The items removed.
    type Item;
    /// The iterator returned.
    type Iter;

    /// Returns an iterator that removes and yields, in order, each element
    /// for which `pred` returns `true`.
    fn filter_drain(&'a mut self, pred: F) -> Self::Iter;
}

/// An iterator which uses a closure to determine if an element should be
/// removed.
pub struct FilterDrainIter<'a, T, F> {
    vec: &'a mut Vec<T>,
    /// The position in `vec` of the next element to inspect.
    idx: usize,
    pred: F,
}

impl<'a, T, F> FilterDrainIter<'a, T, F> {
    /// The elements not yet inspected.
    pub closed spec fn unvisited(&self) -> Seq<T> {
        self.vec@.subrange(self.idx as int, self.vec@.len() as int)
    }

    /// The elements inspected and kept.
    pub closed spec fn kept(&self) -> Seq<T> {
        self.vec@.subrange(0, self.idx as int)
    }

    /// The predicate.
    pub closed spec fn predicate(&self) -> F {
        self.pred
    }

    /// The inspection position lies within the vector.
    pub closed spec fn wf(&self) -> bool {
        self.idx <= self.vec@.len()
    }
}

impl<'a, T, F: Fn(&T) -> bool> FilterDrainIter<'a, T, F> {
    /// Returns the next element the predicate selects, removing it; the
    /// elements passed over stay, in order.
    pub fn next(&mut self) -> (r: Option<T>)
        requires
            old(self).wf(),
            forall|x: &T| call_requires(old(self).predicate(), (x,)),
        ensures
            final(self).wf(),
            final(self).predicate() == old(self).predicate(),
            final(self).kept().len() >= old(self).kept().len(),
            final(self).kept().subrange(0, old(self).kept().len() as int) == old(self).kept(),
            ({
                let skipped = final(self).kept().subrange(
                    old(self).kept().len() as int,
                    final(self).kept().len() as int,
                );
                &&& forall|i: int|
                    0 <= i < skipped.len() ==> call_ensures(
                        old(self).predicate(),
                        (&skipped[i],),
                        false,
                    )
                &&& match r {
                    Some(x) => {
                        &&& old(self).unvisited() == skipped + seq![x] + final(self).unvisited()
                        &&& call_ensures(old(self).predicate(), (&x,), true)
                    },
                    None => {
                        &&& old(self).unvisited() == skipped
                        &&& final(self).unvisited().len() == 0
                    },
                }
            }),
    {
        let ghost start = self.idx as int;
        let ghost original = self.vec@;
        while self.idx < self.vec.len()
            invariant
                start <= self.idx <= self.vec@.len(),
                start <= original.len(),
                self.pred == old(self).pred,
                old(self).vec@ == original,
                old(self).idx == start,
                forall|x: &T| call_requires(old(self).predicate(), (x,)),
                self.vec@.subrange(0, start) == original.subrange(0, start),
                self.vec@.subrange(start, self.vec@.len() as int) == original.subrange(
                    start,
                    original.len() as int,
                ),
                forall|i: int|
                    start <= i < self.idx ==> call_ensures(old(self).predicate(), (&self.vec@[i],), false),
            decreases self.vec@.len() - self.idx,
        {
            let ghost before = self.vec@;
            let item = self.vec.remove(self.idx);
            assert(call_requires(old(self).predicate(), (&item,)));
            assert(call_requires(self.pred, (&item,)));
            let drained = (self.pred)(&item);
            if drained {
                proof {
                    let i = self.idx as int;
                    assert(self.vec@.subrange(0, start) =~= before.subrange(0, start));
                    assert(self.vec@.subrange(0, i) =~= before.subrange(0, i));
                    assert(before.subrange(start, before.len() as int) =~= before.subrange(start, i)
                        + seq![item] + self.vec@.subrange(i, self.vec@.len() as int));
                }
                return Some(item);
            }
            self.vec.insert(self.idx, item);
            proof {
                assert(self.vec@ =~= before);
            }
            self.idx = self.idx + 1;
        }
        proof {
            let v = self.vec@;
            assert(v.subrange(start, v.len() as int) =~= v.subrange(start, self.idx as int));
        }
        None
    }

    /// Bounds on the number of elements still to come: none at least, at
    /// most the number not yet inspected.
    pub fn size_hint(&self) -> (r: (usize, Option<usize>))
        requires
            self.wf(),
        ensures
            r == (0usize, Some(self.unvisited().len() as usize)),
    {
        (0, Some(self.vec.len() - self.idx))
    }
}

impl<'a, T: 'a, F: Fn(&T) -> bool + 'a> FilterDrain<'a, T, F> for Vec<T> {
    type Item = T;
    type Iter = FilterDrainIter<'a, T, F>;

    fn filter_drain(&'a mut self, pred: F) -> (r: FilterDrainIter<'a, T, F>)
        ensures
            r.wf(),
            r.unvisited() == old(self)@,
            r.kept() == Seq::<T>::empty(),
            r.predicate() == pred,
    {
        FilterDrainIter { vec: self, idx: 0, pred }
    }
}

} // verus!
