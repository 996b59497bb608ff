//! The buffers a split workspace hands out to its views.
use vstd::prelude::*;

verus! {

pub type BufferId = usize;

/// A buffer known by its id.
#[derive(Debug, Clone, Copy, PartialEq, Eq)]
pub struct Buffer {
    pub id: BufferId,
}

impl Buffer {
    /// The buffer with id `id`.
    pub fn new(id: BufferId) -> (b: Self)
        ensures
            b.id == id,
    {
        Self { id }
    }

    /// Closes the buffer; it holds nothing that needs releasing.
    pub fn quit(&mut self)
        ensures
            *final(self) == *old(self),
    {
    }
}

} // verus!
