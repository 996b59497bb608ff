//! The text of a buffer kept by a workspace registry.
use crate::editor_core::rope_text::{rope_chars, rope_clone, rope_new};
use ropey::Rope;
use vstd::prelude::*;

verus! {

pub type BufferId = usize;

/// A buffer: the text it holds.
#[derive(Debug)]
pub struct Buffer {
    text: Rope,
}

impl Buffer {
    /// The chars the buffer holds.
    pub closed spec fn chars(&self) -> Seq<char> {
        rope_chars(self.text)
    }
}

impl Default for Buffer {
    /// An empty buffer.
    fn default() -> (b: Self)
        ensures
            b.chars() == Seq::<char>::empty(),
    {
        Buffer { text: rope_new() }
    }
}

impl Clone for Buffer {
    /// A buffer holding the same text.
    fn clone(&self) -> (b: Self)
        ensures
            b.chars() == self.chars(),
    {
        Buffer { text: rope_clone(&self.text) }
    }
}

} // verus!
