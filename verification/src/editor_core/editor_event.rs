use crate::editor_core::user_mode::UserMode;
use crate::editor_core::workspace_event::WorkspaceCommand;
use vstd::prelude::*;

verus! {

/// A request to the editor core.
#[non_exhaustive]
#[derive(Debug, Clone, Copy)]
pub enum EditorCommand {
    ChangeUserMode { to: UserMode },
    Workspace(WorkspaceCommand),
}

/// What the editor core reports.
#[non_exhaustive]
#[derive(Debug, Clone, Copy)]
pub enum EditorEvent {
    UserModeChanged,
}

} // verus!
