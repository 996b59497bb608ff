use vstd::prelude::*;

verus! {

/// The size of the window the document is shown in, in pixels.
#[derive(Debug, Clone, Copy)]
pub struct Viewport {
    pub width: u32,
    pub height: u32,
}

} // verus!
