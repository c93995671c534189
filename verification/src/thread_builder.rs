//! Configuration of a thread to be spawned.
use vstd::prelude::*;

verus! {

/// Builder for a thread.
pub struct Builder {
    name: Option<String>,
}

impl Builder {
    /// The name the thread will get, if any.
    pub closed spec fn name_view(&self) -> Option<Seq<char>> {
        match self.name {
            Some(n) => Some(n@),
            None => None,
        }
    }

    /// Creates a new thread builder.
    pub fn new() -> (r: Self)
        ensures
            r.name_view() is None,
    {
        Builder { name: None }
    }

    /// Names the thread-to-be.
    pub fn name(self, name: String) -> (r: Self)
        ensures
            r.name_view() == Some(name@),
    {
        let mut b = self;
        b.name = Some(name);
        b
    }
}

} // verus!
