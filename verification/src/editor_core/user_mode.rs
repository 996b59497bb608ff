use vstd::prelude::*;

verus! {

/// The editing mode the user is in; key bindings are set per mode.
#[derive(Debug, Clone, Copy, Eq, PartialEq, Hash)]
pub enum UserMode {
    Normal,
    Visual,
    Insert,
    Command,
    Terminal,
}

impl UserMode {
    /// Whether two modes are the same.
    pub fn same_as(&self, other: &UserMode) -> (b: bool)
        ensures
            b == (*self == *other),
    {
        match (self, other) {
            (UserMode::Normal, UserMode::Normal) => true,
            (UserMode::Visual, UserMode::Visual) => true,
            (UserMode::Insert, UserMode::Insert) => true,
            (UserMode::Command, UserMode::Command) => true,
            (UserMode::Terminal, UserMode::Terminal) => true,
            _ => false,
        }
    }
}

} // verus!
