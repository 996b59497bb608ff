//! A text buffer shown in the workspace's views.
use crate::editor_core::rope_text::{rope_chars, rope_new, rope_to_string};
use ropey::Rope;
use vstd::prelude::*;

verus! {

pub type BufferId = usize;

/// The text of one open document and the position of its cursor.
#[derive(Debug)]
pub struct Buffer {
    contents: Rope,
    cursor: usize,
}

impl Buffer {
    /// The chars the buffer holds.
    pub closed spec fn text(&self) -> Seq<char> {
        rope_chars(self.contents)
    }

    /// The cursor's char index.
    pub closed spec fn cursor_pos(&self) -> usize {
        self.cursor
    }

    /// An empty buffer with the cursor at the start.
    pub fn new() -> (b: Self)
        ensures
            b.text() == Seq::<char>::empty(),
            b.cursor_pos() == 0,
    {
        Self { contents: rope_new(), cursor: 0 }
    }

    /// The whole text of the buffer.
    pub fn get_text(&self) -> (s: String)
        ensures
            s@ == self.text(),
    {
        rope_to_string(&self.contents)
    }
}

} // verus!
