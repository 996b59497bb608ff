use vstd::prelude::*;

verus! {

/// Whether keys move around the document or type into it.
#[derive(Debug, Clone, Copy, PartialEq, Eq)]
pub enum UserMode {
    Normal,
    Insert,
}

impl Default for UserMode {
    /// Normal mode.
    fn default() -> (m: Self)
        ensures
            m == UserMode::Normal,
    {
        Self::Normal
    }
}

} // verus!
