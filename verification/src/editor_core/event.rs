use crate::editor_common::geometry::Viewport;
use crate::editor_core::input_event::InputEvent;
use crate::editor_core::keybinds::Timestamp;
use vstd::prelude::*;

verus! {

/// Something that happened, to which the editor's systems react.
#[derive(Debug, Clone)]
pub enum EditorEvent {
    // global
    Resized(Viewport),
    RedrawRequested,
    Input(InputEvent),
    Update(Timestamp),
}

} // verus!
