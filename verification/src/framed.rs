//! A multiplexer paired with the codec that frames its streams.
use vstd::prelude::*;

verus! {

/// A framed multiplexer.
#[derive(Debug)]
pub struct FramedMux<M, C> {
    mux: M,
    codec: C,
}

impl<M, C> FramedMux<M, C> {
    /// The multiplexer held.
    pub closed spec fn mux_view(&self) -> M {
        self.mux
    }

    /// The codec held.
    pub closed spec fn codec_view(&self) -> C {
        self.codec
    }

    /// Creates a new `FramedMux`.
    pub fn new(mux: M, codec: C) -> (r: Self)
        ensures
            r.mux_view() == mux,
            r.codec_view() == codec,
    {
        FramedMux { mux, codec }
    }

    /// Returns a reference to the mux.
    pub fn mux(&self) -> (r: &M)
        ensures
            *r == self.mux_view(),
    {
        &self.mux
    }

    /// Returns a mutable reference to the mux.
    pub fn mux_mut(&mut self) -> (r: &mut M)
        ensures
            *r == old(self).mux_view(),
            final(self).mux_view() == *final(r),
            final(self).codec_view() == old(self).codec_view(),
    {
        &mut self.mux
    }

    /// Returns a reference to the codec.
    pub fn codec(&self) -> (r: &C)
        ensures
            *r == self.codec_view(),
    {
        &self.codec
    }

    /// Returns a mutable reference to the codec.
    pub fn codec_mut(&mut self) -> (r: &mut C)
        ensures
            *r == old(self).codec_view(),
            final(self).codec_view() == *final(r),
            final(self).mux_view() == old(self).mux_view(),
    {
        &mut self.codec
    }

    /// Splits the `FramedMux` into its parts.
    pub fn into_parts(self) -> (r: (M, C))
        ensures
            r == (self.mux_view(), self.codec_view()),
    {
        (self.mux, self.codec)
    }
}

impl<M: Clone, C: Clone> Clone for FramedMux<M, C> {
    fn clone(&self) -> (r: Self)
        ensures
            cloned::<M>(self.mux_view(), r.mux_view()),
            cloned::<C>(self.codec_view(), r.codec_view()),
    {
        FramedMux { mux: self.mux.clone(), codec: self.codec.clone() }
    }
}

} // verus!
