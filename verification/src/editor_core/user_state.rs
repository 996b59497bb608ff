//! The state of the user's interaction with the editor.
use vstd::prelude::*;

verus! {

/// The modes a user can be in.
#[derive(Debug, Clone, Copy, PartialEq, Eq)]
pub enum UserMode {
    Normal,
    Insert,
    Cmdline,
}

/// What the user is doing: for now, the mode they are in.
#[derive(Debug, Clone, Copy, PartialEq, Eq)]
pub struct UserState {
    mode: UserMode,
}

} // verus!
