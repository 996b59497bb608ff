use vstd::prelude::*;

verus! {

/// An action that a key binding can trigger.
#[derive(Debug, Clone, Copy, PartialEq, Eq)]
pub enum EditorCommand {
    // global
    Quit,
    Undo,
    Redo,
    // workspaces
    OpenWorkspace,
    QuitWorkspace,
    // modes
    EnterNormalMode,
    EnterInsertMode,
    EnterCmdlineMode,
    EnterTerminalMode,
    // buffers
    MoveFocus,
    OpenBuffer,
    SplitBuffer,
    WriteBuffer,
    QuitBuffer,
    // buffer ops
    MoveCursor,
    Insert,
    Delete,
    DeleteSelection,
}

} // verus!
