//! All workspaces of the editor, the buffers they share, the user's mode and
//! the size of the window.
use crate::editor_common::geometry::Viewport;
use crate::editor_core::user_mode::UserMode;
use crate::editor_core::workspace::buffer_registry::BufferRegistry;
use crate::editor_core::workspace::{Workspace, WorkspaceId};
use std::collections::HashMap;
use vstd::prelude::*;

verus! {

/// The workspaces by id, the buffers they share, the mode the user is in and
/// the viewport they are laid out on.
pub struct WorkspaceRegistry<G> {
    user_mode: UserMode,
    viewport: Viewport,
    workspaces: HashMap<WorkspaceId, Workspace<G>>,
    buffers: BufferRegistry,
}

impl<G> WorkspaceRegistry<G> {
    pub closed spec fn mode(&self) -> UserMode {
        self.user_mode
    }

    pub closed spec fn viewport_spec(&self) -> Viewport {
        self.viewport
    }

    /// The ids of the workspaces.
    pub closed spec fn workspace_ids(&self) -> Set<WorkspaceId> {
        self.workspaces@.dom()
    }

    /// The ids of the shared buffers.
    pub closed spec fn buffer_ids(&self) -> Set<usize> {
        self.buffers.ids()
    }

    /// A registry in normal mode, over an empty viewport, with no workspace
    /// and no buffer.
    pub fn new() -> (r: Self)
        ensures
            r.mode() == UserMode::Normal,
            r.viewport_spec() == (Viewport { width: 0, height: 0 }),
            r.workspace_ids() == Set::<WorkspaceId>::empty(),
            r.buffer_ids() == Set::<usize>::empty(),
    {
        let r = Self {
            user_mode: UserMode::Normal,
            viewport: Viewport { width: 0, height: 0 },
            workspaces: HashMap::new(),
            buffers: BufferRegistry::default(),
        };
        proof {
            assert(r.workspace_ids() =~= Set::<WorkspaceId>::empty());
        }
        r
    }
}

} // verus!
