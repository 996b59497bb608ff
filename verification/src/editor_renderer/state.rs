//! The size of the surface the renderer draws on, and how a new window size
//! changes it.
use crate::editor_common::geometry::Viewport;
use vstd::prelude::*;

verus! {

/// The width and height the drawing surface is configured with, in pixels.
#[derive(Debug, Clone, Copy, PartialEq, Eq)]
pub struct SurfaceSize {
    pub width: u32,
    pub height: u32,
}

/// Takes the new window size into the surface configuration, unless one side
/// of it is zero (a minimized window), which leaves the configuration as it
/// was. Returns whether the surface must be configured anew.
pub fn resize(config: &mut SurfaceSize, width: u32, height: u32) -> (reconfigure: bool)
    ensures
        reconfigure == (width != 0 && height != 0),
        reconfigure ==> *final(config) == (SurfaceSize { width, height }),
        !reconfigure ==> *final(config) == *old(config),
{
    if width == 0 || height == 0 {
        return false;
    }
    config.width = width;
    config.height = height;
    true
}

/// `resize` to the size of a viewport.
pub fn set_viewport(config: &mut SurfaceSize, viewport: Viewport) -> (reconfigure: bool)
    ensures
        reconfigure == (viewport.width != 0 && viewport.height != 0),
        reconfigure ==> *final(config) == (SurfaceSize {
            width: viewport.width,
            height: viewport.height,
        }),
        !reconfigure ==> *final(config) == *old(config),
{
    resize(config, viewport.width, viewport.height)
}

} // verus!
