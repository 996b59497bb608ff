//! Core logic of a modal text editor: input modifiers and key bindings,
//! split-view workspaces, text buffers and glyph atlas packing.

pub mod doc_core;
pub mod editor_common;
pub mod editor_core;
pub mod editor_renderer;
