use crate::editor_common::geometry::Viewport;
use crate::editor_core::split_tree::SplitMode;
use vstd::prelude::*;

verus! {

/// A request addressed to a workspace.
#[non_exhaustive]
#[derive(Debug, Clone, Copy)]
pub enum WorkspaceCommand {
    OpenBuffer { viewport: Viewport },
    SplitBuffer { mode: SplitMode },
    QuitBuffer,
}

/// What a workspace reports after handling a command.
#[non_exhaustive]
#[derive(Debug, Clone, Copy, PartialEq, Eq)]
pub enum WorkspaceEvent {
    BufferOpened,
    BufferQuit,
}

} // verus!
