use vstd::prelude::*;

verus! {

/// A mouse button pressed.
#[derive(Debug, Clone, Copy)]
pub struct MousePress {
    button: MouseButton,
}

#[derive(Debug, Clone, Copy)]
pub enum MouseButton {
    LMB,
    RMB,
    MMB,
}

} // verus!
