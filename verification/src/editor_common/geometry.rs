use vstd::prelude::*;

verus! {

/// The size of the drawable window, in pixels.
#[derive(Debug, Clone, Copy, PartialEq, Eq)]
pub struct Viewport {
    pub width: u32,
    pub height: u32,
}

} // verus!
