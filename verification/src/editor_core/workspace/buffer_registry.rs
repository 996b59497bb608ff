//! The buffers of a workspace registry, by id.
use crate::editor_core::workspace::buffer::{Buffer, BufferId};
use std::collections::HashMap;
use vstd::prelude::*;

verus! {

/// The open buffers, by id.
#[derive(Debug)]
pub struct BufferRegistry {
    buffers: HashMap<BufferId, Buffer>,
}

impl BufferRegistry {
    /// The ids of the open buffers.
    pub closed spec fn ids(&self) -> Set<BufferId> {
        self.buffers@.dom()
    }
}

impl Default for BufferRegistry {
    /// A registry with no buffer.
    fn default() -> (r: Self)
        ensures
            r.ids() == Set::<BufferId>::empty(),
    {
        let r = BufferRegistry { buffers: HashMap::new() };
        proof {
            assert(r.ids() =~= Set::<BufferId>::empty());
        }
        r
    }
}

} // verus!
