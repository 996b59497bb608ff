//! A workspace: the tree of split views over the open buffers, its nodes kept
//! in a map from node ids. Areas are of any type `G`; the caller supplies how
//! a viewport becomes an area (`whole`) and how an area is halved (`split`).
use crate::editor_common::geometry::Viewport;
use crate::editor_core::buffer::{Buffer, BufferId};
use crate::editor_core::split_tree::{
    NodeId, SplitMode, Link, Slot, kid0, kid1, reach, leftmost, laid_out, tree_wf, down_ok,
    lift_children, grow_leaf, is_root, lemma_tree_down_ok, lemma_collapse, lemma_grow_leaf,
    lemma_single_leaf, lemma_empty_tree, lemma_leaf_root_alone, lemma_leftmost,
    lemma_laid_out_leaf, lemma_laid_out_fork, lemma_laid_out_frame, lemma_reach_rank,
    lemma_reach_trans, lemma_reach_child, lemma_down_ok_sub, lemma_children_disjoint, node_ok, lemma_reach_up_contra, lemma_laid_out_links_frame,
};
use crate::editor_core::workspace_event::{WorkspaceCommand, WorkspaceEvent};
use std::collections::HashMap;
use vstd::std_specs::iter::IteratorSpec;
use vstd::prelude::*;

pub mod buffer;
pub mod buffer_registry;
pub mod workspace_registry;

verus! {

broadcast use vstd::std_specs::hash::group_hash_axioms;

pub type WorkspaceId = usize;

/// Why a workspace refused a command.
#[non_exhaustive]
#[derive(Debug)]
pub enum WorkspaceError {
    /// The tree has no root (it is empty).
    NullRoot,
    /// No view is active.
    NullActive,
    /// No node has the given id.
    InvalidNodeId,
    /// No buffer has the given id.
    InvalidBufferId,
    /// The active node is a split, not a view on a buffer.
    InvalidCaller,
    /// The tree's links contradict each other.
    InvalidTree(String),
}

/// One node of the tree: a split or a view on a buffer.
#[derive(Debug, Clone, Copy)]
pub struct Node<G> {
    pub parent_id: Option<NodeId>,
    pub ty: NodeType<G>,
}

#[derive(Debug, Clone, Copy)]
pub enum NodeType<G> {
    Split { area: G, mode: SplitMode, first_id: NodeId, second_id: NodeId },
    Buffer { buffer_id: BufferId, surface: G, cursor: usize, v_scroll: u32, h_scroll: u32 },
}

pub open spec fn node_link<G>(n: Node<G>) -> Link {
    Link {
        parent: n.parent_id,
        children: match n.ty {
            NodeType::Split { first_id, second_id, .. } => Some((first_id, second_id)),
            NodeType::Buffer { .. } => None,
        },
    }
}

pub open spec fn node_slot<G>(n: Node<G>) -> Slot<G> {
    match n.ty {
        NodeType::Split { mode, .. } => Slot::Fork(mode),
        NodeType::Buffer { surface, .. } => Slot::Leaf(surface),
    }
}

/// The area a node covers: a split's area, or a view's surface.
pub open spec fn area_of<G>(n: Node<G>) -> G {
    match n.ty {
        NodeType::Split { area, .. } => area,
        NodeType::Buffer { surface, .. } => surface,
    }
}

/// `n` with its surface set to `g`, if it is a view; a split is kept as is.
pub open spec fn with_surface<G>(n: Node<G>, g: G) -> Node<G> {
    match n.ty {
        NodeType::Split { .. } => n,
        NodeType::Buffer { buffer_id, cursor, v_scroll, h_scroll, .. } => Node {
            parent_id: n.parent_id,
            ty: NodeType::Buffer { buffer_id, surface: g, cursor, v_scroll, h_scroll },
        },
    }
}

/// A new root view on `buffer_id` over `surface`, with cursor and scrolling at zero.
pub open spec fn root_view<G>(buffer_id: BufferId, surface: G) -> Node<G> {
    Node {
        parent_id: None,
        ty: NodeType::Buffer { buffer_id, surface, cursor: 0, v_scroll: 0, h_scroll: 0 },
    }
}

/// What a workspace holds, as mathematical values. `rank`, `floor` and `ceil`
/// order the nodes so that walks down the tree end.
pub struct WorkspaceView<G> {
    pub nodes: Map<NodeId, Node<G>>,
    pub active: Option<NodeId>,
    pub next_node: NodeId,
    pub texts: Map<BufferId, Seq<char>>,
    pub cursors: Map<BufferId, usize>,
    pub next_buffer: BufferId,
    pub rank: Map<NodeId, int>,
    pub floor: int,
    pub ceil: int,
}

impl<G> WorkspaceView<G> {
    pub open spec fn links(self) -> Map<NodeId, Link> {
        Map::new(|k: NodeId| self.nodes.contains_key(k), |k: NodeId| node_link(self.nodes[k]))
    }

    pub open spec fn slots(self) -> Map<NodeId, Slot<G>> {
        Map::new(|k: NodeId| self.nodes.contains_key(k), |k: NodeId| node_slot(self.nodes[k]))
    }

    pub open spec fn area(self, id: NodeId) -> G {
        area_of(self.nodes[id])
    }

    /// `x` is `y` or lies below it.
    pub open spec fn in_subtree(self, x: NodeId, y: NodeId) -> bool {
        reach(self.links(), self.rank, self.floor, x, y)
    }

    /// The view reached from `y` by always taking the first child.
    pub open spec fn leftmost_leaf(self, y: NodeId) -> NodeId {
        leftmost(self.links(), self.rank, self.floor, y)
    }

    /// Starting from `area` at `y`, every split below `y` gave its children
    /// the halves that `split` made of its area, and every view below `y`
    /// holds the area it was given.
    pub open spec fn laid_out_from<F: Fn(G, SplitMode) -> (G, G)>(
        self,
        y: NodeId,
        area: G,
        split: F,
    ) -> bool {
        exists|areas: Map<NodeId, G>|
            #[trigger] laid_out(self.links(), self.rank, self.floor, self.slots(), split, y, areas)
                && areas.contains_key(y) && areas[y] == area
    }

    /// The tree is well formed, ids are fresh below the counters, the active
    /// node is a view and every view shows an existing buffer.
    pub open spec fn wf(self) -> bool {
        &&& tree_wf(self.links(), self.rank, self.floor, self.ceil)
        &&& forall|id: NodeId| #[trigger] self.nodes.contains_key(id) ==> id < self.next_node
        &&& forall|id: BufferId| #[trigger] self.texts.contains_key(id) ==> id < self.next_buffer
        &&& match self.active {
            None => self.nodes.dom().len() == 0,
            Some(a) => self.nodes.contains_key(a) && self.nodes[a].ty is Buffer,
        }
        &&& forall|id: NodeId|
            #[trigger] self.nodes.contains_key(id) && self.nodes[id].ty is Buffer
                ==> self.texts.contains_key(self.nodes[id].ty->buffer_id)
    }

    /// `cmds` draws each view exactly once, in the order `order`: its area
    /// and the text of the buffer it shows.
    pub open spec fn rendered(self, order: Seq<NodeId>, cmds: Seq<(G, String)>) -> bool {
        &&& order.no_duplicates()
        &&& order.len() == cmds.len()
        &&& forall|i: int|
            0 <= i < order.len() ==> {
                &&& self.nodes.contains_key(#[trigger] order[i])
                &&& self.nodes[order[i]].ty is Buffer
                &&& cmds[i].0 == self.area(order[i])
                &&& cmds[i].1@ == self.texts[self.nodes[order[i]].ty->buffer_id]
            }
        &&& forall|id: NodeId| #[trigger]
            self.nodes.contains_key(id) && self.nodes[id].ty is Buffer ==> order.contains(id)
    }

    /// `new` is `self` after its active view was split in `mode`: the view
    /// becomes a split over its former surface, with two views on the same
    /// buffer under fresh ids, over the halves that `split` made; the second
    /// one becomes active.
    pub open spec fn split_step<F: Fn(G, SplitMode) -> (G, G)>(
        self,
        new: Self,
        mode: SplitMode,
        split: F,
    ) -> bool {
        let a = self.active->0;
        let n1 = self.next_node;
        let n2 = (self.next_node + 1) as NodeId;
        let leaf = self.nodes[a];
        &&& self.active is Some
        &&& leaf.ty matches NodeType::Buffer { buffer_id, surface, cursor, v_scroll, h_scroll }
        &&& new.nodes == self.nodes.insert(
            a,
            Node {
                parent_id: leaf.parent_id,
                ty: NodeType::Split { area: surface, mode, first_id: n1, second_id: n2 },
            },
        ).insert(
            n1,
            Node {
                parent_id: Some(a),
                ty: NodeType::Buffer {
                    buffer_id,
                    surface: new.area(n1),
                    cursor,
                    v_scroll,
                    h_scroll,
                },
            },
        ).insert(
            n2,
            Node {
                parent_id: Some(a),
                ty: NodeType::Buffer {
                    buffer_id,
                    surface: new.area(n2),
                    cursor,
                    v_scroll,
                    h_scroll,
                },
            },
        )
        &&& call_ensures(split, (surface, mode), (new.area(n1), new.area(n2)))
        &&& new.active == Some(n2)
        &&& new.next_node == self.next_node + 2
        &&& new.texts == self.texts
        &&& new.cursors == self.cursors
        &&& new.next_buffer == self.next_buffer
    }

    /// `new` is `self` after a first view was opened on a new empty buffer,
    /// over the area that `whole` made of `viewport`.
    pub open spec fn open_step<W: Fn(Viewport) -> G>(
        self,
        new: Self,
        viewport: Viewport,
        whole: W,
    ) -> bool {
        let id = self.next_node;
        &&& new.nodes == map![id => root_view(self.next_buffer, new.area(id))]
        &&& call_ensures(whole, (viewport,), new.area(id))
        &&& new.active == Some(id)
        &&& new.next_node == self.next_node + 1
        &&& new.texts == self.texts.insert(self.next_buffer, Seq::<char>::empty())
        &&& new.cursors == self.cursors.insert(self.next_buffer, 0usize)
        &&& new.next_buffer == self.next_buffer + 1
    }

    /// The nodes once the fork `p` has taken over the node type of its child
    /// `sib`, whose children (if any) now name `p` as their parent.
    pub open spec fn relinked(self, p: NodeId, sib: NodeId) -> Map<NodeId, Node<G>> {
        let n1 = self.nodes.insert(
            p,
            Node { parent_id: self.nodes[p].parent_id, ty: self.nodes[sib].ty },
        );
        match self.nodes[sib].ty {
            NodeType::Split { first_id, second_id, .. } => n1.insert(
                first_id,
                Node { parent_id: Some(p), ty: self.nodes[first_id].ty },
            ).insert(second_id, Node { parent_id: Some(p), ty: self.nodes[second_id].ty }),
            NodeType::Buffer { .. } => n1,
        }
    }

    /// The sibling of the active view.
    pub open spec fn active_sibling(self) -> NodeId {
        let a = self.active->0;
        let p = self.nodes[a].parent_id->0;
        if kid0(node_link(self.nodes[p])) == a {
            kid1(node_link(self.nodes[p]))
        } else {
            kid0(node_link(self.nodes[p]))
        }
    }

    /// `new` is `self` after its active view was closed. A root view leaves
    /// an empty tree. Otherwise its parent split takes the place of the
    /// sibling (the sibling's node type and children), the views below it
    /// are laid out again from the parent's area, and the first view below
    /// the parent becomes active.
    pub open spec fn quit_step<F: Fn(G, SplitMode) -> (G, G)>(
        self,
        new: Self,
        split: F,
    ) -> bool {
        let a = self.active->0;
        &&& self.active is Some
        &&& new.next_node == self.next_node
        &&& new.texts == self.texts
        &&& new.cursors == self.cursors
        &&& new.next_buffer == self.next_buffer
        &&& match self.nodes[a].parent_id {
            None => {
                &&& new.nodes == self.nodes.remove(a)
                &&& new.active is None
            },
            Some(p) => {
                let sib = self.active_sibling();
                let relinked = self.relinked(p, sib);
                &&& new.nodes.dom() == relinked.dom().remove(a).remove(sib)
                &&& forall|x: NodeId| #[trigger]
                    new.nodes.contains_key(x) ==> new.nodes[x] == with_surface(
                        relinked[x],
                        area_of(new.nodes[x]),
                    )
                &&& forall|x: NodeId|
                    #[trigger] new.nodes.contains_key(x) && !new.in_subtree(x, p)
                        ==> new.nodes[x] == relinked[x]
                &&& new.laid_out_from(p, self.area(p), split)
                &&& new.active == Some(new.leftmost_leaf(p))
            },
        }
    }
}

/// A workspace: a tree whose splits divide the screen between views on
/// buffers, the open buffers, and the active view.
pub struct Workspace<G> {
    nodes: HashMap<NodeId, Node<G>>,
    active_id: Option<NodeId>,
    next_node_id: NodeId,
    buffers: HashMap<BufferId, Buffer>,
    next_buff_id: BufferId,
    rank: Ghost<Map<NodeId, int>>,
    floor: Ghost<int>,
    ceil: Ghost<int>,
}

impl<G> View for Workspace<G> {
    type V = WorkspaceView<G>;

    closed spec fn view(&self) -> WorkspaceView<G> {
        WorkspaceView {
            nodes: self.nodes@,
            active: self.active_id,
            next_node: self.next_node_id,
            texts: Map::new(
                |k: BufferId| self.buffers@.contains_key(k),
                |k: BufferId| self.buffers@[k].text(),
            ),
            cursors: Map::new(
                |k: BufferId| self.buffers@.contains_key(k),
                |k: BufferId| self.buffers@[k].cursor_pos(),
            ),
            next_buffer: self.next_buff_id,
            rank: self.rank@,
            floor: self.floor@,
            ceil: self.ceil@,
        }
    }
}

impl<G: Copy> Workspace<G> {
    fn get_node(&self, id: NodeId) -> (r: Result<&Node<G>, WorkspaceError>)
        ensures
            match r {
                Ok(n) => self@.nodes.contains_key(id) && *n == self@.nodes[id],
                Err(e) => !self@.nodes.contains_key(id) && e is InvalidNodeId,
            },
    {
        match self.nodes.get(&id) {
            Some(node) => Ok(node),
            None => Err(WorkspaceError::InvalidNodeId),
        }
    }

    fn get_buffer(&self, id: BufferId) -> (r: Result<&Buffer, WorkspaceError>)
        ensures
            match r {
                Ok(b) => self@.texts.contains_key(id) && b.text() == self@.texts[id],
                Err(e) => !self@.texts.contains_key(id) && e is InvalidBufferId,
            },
    {
        match self.buffers.get(&id) {
            Some(buffer) => Ok(buffer),
            None => Err(WorkspaceError::InvalidBufferId),
        }
    }

    /// Sets the node type of node `id`.
    fn set_node_type(&mut self, id: NodeId, ty: NodeType<G>) -> (r: Result<(), WorkspaceError>)
        ensures
            match r {
                Ok(_) => old(self)@.nodes.contains_key(id) && final(self)@ == WorkspaceView {
                    nodes: old(self)@.nodes.insert(
                        id,
                        Node { parent_id: old(self)@.nodes[id].parent_id, ty },
                    ),
                    ..old(self)@
                },
                Err(e) => !old(self)@.nodes.contains_key(id) && e is InvalidNodeId
                    && final(self)@ == old(self)@,
            },
    {
        match self.nodes.get(&id) {
            Some(node) => {
                let parent_id = node.parent_id;
                self.nodes.insert(id, Node { parent_id, ty });
                Ok(())
            },
            None => Err(WorkspaceError::InvalidNodeId),
        }
    }

    /// Sets the parent of node `id`.
    fn set_node_parent(&mut self, id: NodeId, parent_id: Option<NodeId>) -> (r: Result<
        (),
        WorkspaceError,
    >)
        ensures
            match r {
                Ok(_) => old(self)@.nodes.contains_key(id) && final(self)@ == WorkspaceView {
                    nodes: old(self)@.nodes.insert(
                        id,
                        Node { parent_id, ty: old(self)@.nodes[id].ty },
                    ),
                    ..old(self)@
                },
                Err(e) => !old(self)@.nodes.contains_key(id) && e is InvalidNodeId
                    && final(self)@ == old(self)@,
            },
    {
        match self.nodes.get(&id) {
            Some(node) => {
                let ty = node.ty;
                self.nodes.insert(id, Node { parent_id, ty });
                Ok(())
            },
            None => Err(WorkspaceError::InvalidNodeId),
        }
    }

    /// Opens a first view, on a new empty buffer, over the whole viewport.
    fn add_buffer<W: Fn(Viewport) -> G>(&mut self, viewport: Viewport, whole: &W) -> (r: Result<
        WorkspaceEvent,
        WorkspaceError,
    >)
        requires
            old(self)@.wf(),
            old(self)@.active is None,
            old(self)@.next_node < usize::MAX,
            old(self)@.next_buffer < usize::MAX,
            whole.requires((viewport,)),
        ensures
            r matches Ok(WorkspaceEvent::BufferOpened),
            old(self)@.open_step(final(self)@, viewport, *whole),
            final(self)@.wf(),
    {
        proof {
            self.nodes@.dom().lemma_len0_is_empty();
        }
        // create a new buffer node occupying the given rect
        let buffer_id = self.next_buff_id;
        self.next_buff_id += 1;
        let buffer = Buffer::new();
        let node_id = self.next_node_id;
        self.next_node_id += 1;
        let surface = whole(viewport);
        let node = Node {
            parent_id: None,
            ty: NodeType::Buffer { buffer_id, surface, cursor: 0, v_scroll: 0, h_scroll: 0 },
        };
        self.active_id = Some(node_id);
        self.buffers.insert(buffer_id, buffer);
        self.nodes.insert(node_id, node);
        proof {
            self.rank@ = map![node_id => 0int];
            self.floor@ = 0int;
            self.ceil@ = 0int;
            assert(self.nodes@ =~= map![node_id => root_view(buffer_id, surface)]);
            assert(self@.links() =~= map![node_id => Link { parent: None, children: None }]);
            lemma_single_leaf(self.rank@, 0, 0, node_id);
            assert(self@.texts =~= old(self)@.texts.insert(buffer_id, Seq::<char>::empty()));
            assert(self@.cursors =~= old(self)@.cursors.insert(buffer_id, 0usize));
            assert(self@.nodes.dom() =~= set![node_id]);
        }
        Ok(WorkspaceEvent::BufferOpened)
    }

    /// Splits the active view in `mode`; the second half becomes active.
    fn split_active<F: Fn(G, SplitMode) -> (G, G)>(&mut self, mode: SplitMode, split: &F) -> (r:
        Result<WorkspaceEvent, WorkspaceError>)
        requires
            old(self)@.wf(),
            old(self)@.next_node + 2 <= usize::MAX,
            forall|g: G, m: SplitMode| split.requires((g, m)),
        ensures
            final(self)@.wf(),
            match old(self)@.active {
                None => r matches Err(WorkspaceError::NullActive) && final(self)@ == old(self)@,
                Some(_) => r matches Ok(WorkspaceEvent::BufferOpened) && old(self)@.split_step(
                    final(self)@,
                    mode,
                    *split,
                ),
            },
    {
        let (active, active_id) = match self.active_id {
            Some(id) => (*self.get_node(id)?, id),
            None => return Err(WorkspaceError::NullActive),
        };
        let (buffer_id, surface, cursor, v_scroll, h_scroll) = match active.ty {
            NodeType::Buffer { buffer_id, surface, cursor, v_scroll, h_scroll } => (
                buffer_id,
                surface,
                cursor,
                v_scroll,
                h_scroll,
            ),
            NodeType::Split { .. } => return Err(WorkspaceError::InvalidCaller),
        };
        let ghost old_links = self@.links();
        // promote active node to a split node
        let first_id = self.next_node_id;
        self.next_node_id += 1;
        let second_id = self.next_node_id;
        self.next_node_id += 1;
        self.set_node_type(
            active_id,
            NodeType::Split { mode, first_id, second_id, area: surface },
        )?;
        // create children from the splitted surface
        let (first_surface, second_surface) = split(surface, mode);
        let first_child = Node {
            parent_id: Some(active_id),
            ty: NodeType::Buffer {
                buffer_id,
                surface: first_surface,
                cursor,
                v_scroll,
                h_scroll,
            },
        };
        let second_child = Node {
            parent_id: Some(active_id),
            ty: NodeType::Buffer {
                buffer_id,
                surface: second_surface,
                cursor,
                v_scroll,
                h_scroll,
            },
        };
        self.active_id = Some(second_id);
        self.nodes.insert(first_id, first_child);
        self.nodes.insert(second_id, second_child);
        proof {
            let r = old(self)@.rank;
            let lower = r[active_id] - 1;
            let new_floor = if lower < old(self)@.floor {
                lower
            } else {
                old(self)@.floor
            };
            assert(!old_links.contains_key(first_id));
            assert(!old_links.contains_key(second_id));
            assert(old_links.contains_key(active_id));
            lemma_grow_leaf(
                old_links,
                r,
                old(self)@.floor,
                old(self)@.ceil,
                active_id,
                first_id,
                second_id,
            );
            self.rank@ = r.insert(first_id, lower).insert(second_id, lower);
            self.floor@ = new_floor;
            assert(self@.links() =~= grow_leaf(old_links, active_id, first_id, second_id));
            assert(self@.texts =~= old(self)@.texts);
            assert(self@.cursors =~= old(self)@.cursors);
        }
        Ok(WorkspaceEvent::BufferOpened)
    }

    /// Lays out again the subtree of `id` from `free_area`: every split below
    /// hands the halves of its area to its children and every view takes the
    /// area it is handed. Split nodes keep the area they recorded.
    fn restore_geometry_recursive<F: Fn(G, SplitMode) -> (G, G)>(
        &mut self,
        id: NodeId,
        free_area: G,
        split: &F,
    ) -> (r: Result<Ghost<Map<NodeId, G>>, WorkspaceError>)
        requires
            down_ok(old(self)@.links(), old(self)@.rank, old(self)@.floor, id),
            forall|g: G, m: SplitMode| split.requires((g, m)),
        ensures
            r matches Ok(areas) && laid_out(
                final(self)@.links(),
                final(self)@.rank,
                final(self)@.floor,
                final(self)@.slots(),
                *split,
                id,
                areas@,
            ) && areas@.contains_key(id) && areas@[id] == free_area,
            final(self)@.nodes.dom() == old(self)@.nodes.dom(),
            forall|x: NodeId| #[trigger]
                old(self)@.nodes.contains_key(x) ==> final(self)@.nodes[x] == with_surface(
                    old(self)@.nodes[x],
                    area_of(final(self)@.nodes[x]),
                ),
            forall|x: NodeId|
                old(self)@.nodes.contains_key(x) && !reach(
                    old(self)@.links(),
                    old(self)@.rank,
                    old(self)@.floor,
                    x,
                    id,
                ) ==> #[trigger] final(self)@.nodes[x] == old(self)@.nodes[x],
            final(self)@.links() == old(self)@.links(),
            final(self)@ == (WorkspaceView { nodes: final(self)@.nodes, ..old(self)@ }),
        decreases old(self)@.rank[id] - old(self)@.floor,
    {
        let ghost links = self@.links();
        let ghost rank = self@.rank;
        let ghost floor = self@.floor;
        proof {
            assert(reach(links, rank, floor, id, id));
            assert(node_ok(links, rank, floor, id));
        }
        let node = *self.get_node(id)?;
        match node.ty {
            // split area and call recursively
            NodeType::Split { mode, first_id, second_id, .. } => {
                let (first_area, second_area) = split(free_area, mode);
                proof {
                    lemma_reach_child(links, rank, floor, id);
                    lemma_down_ok_sub(links, rank, floor, first_id, id);
                    lemma_down_ok_sub(links, rank, floor, second_id, id);
                }
                let ghost before = self@;
                let a1 = self.restore_geometry_recursive(first_id, first_area, split)?;
                let ghost middle = self@;
                let a2 = self.restore_geometry_recursive(second_id, second_area, split)?;
                proof {
                    let after = self@;
                    assert forall|x: NodeId|
                        #[trigger] reach(links, rank, floor, x, first_id) implies middle.slots().contains_key(x)
                        && after.slots().contains_key(x) && after.slots()[x] == middle.slots()[x] by {
                        lemma_children_disjoint(links, rank, floor, id, x);
                        lemma_reach_trans(links, rank, floor, x, first_id, id);
                        lemma_reach_rank(links, rank, floor, x, first_id);
                    }
                    lemma_laid_out_frame(
                        links,
                        rank,
                        floor,
                        middle.slots(),
                        after.slots(),
                        *split,
                        first_id,
                        a1@,
                    );
                    assert(!reach(links, rank, floor, id, first_id)) by {
                        if reach(links, rank, floor, id, first_id) {
                            lemma_reach_rank(links, rank, floor, id, first_id);
                        }
                    }
                    assert(!reach(links, rank, floor, id, second_id)) by {
                        if reach(links, rank, floor, id, second_id) {
                            lemma_reach_rank(links, rank, floor, id, second_id);
                        }
                    }
                    assert(after.slots()[id] == Slot::<G>::Fork(mode));
                    lemma_laid_out_fork(
                        links,
                        rank,
                        floor,
                        after.slots(),
                        *split,
                        id,
                        mode,
                        free_area,
                        a1@,
                        a2@,
                    );
                    assert forall|x: NodeId|
                        old(self)@.nodes.contains_key(x) && !reach(
                            links,
                            rank,
                            floor,
                            x,
                            id,
                        ) implies #[trigger] after.nodes[x] == old(self)@.nodes[x] by {
                        if reach(links, rank, floor, x, first_id) {
                            lemma_reach_trans(links, rank, floor, x, first_id, id);
                        }
                        if reach(links, rank, floor, x, second_id) {
                            lemma_reach_trans(links, rank, floor, x, second_id, id);
                        }
                    }
                }
                Ok(Ghost(a1@.union_prefer_right(a2@).insert(id, free_area)))
            },
            // consume directly if it is a buffer node
            NodeType::Buffer { buffer_id, cursor, v_scroll, h_scroll, .. } => {
                self.set_node_type(
                    id,
                    NodeType::Buffer { buffer_id, surface: free_area, cursor, v_scroll, h_scroll },
                )?;
                proof {
                    assert(self@.links() =~= links);
                    assert(self@.slots()[id] == Slot::<G>::Leaf(free_area));
                    lemma_laid_out_leaf(
                        links,
                        rank,
                        floor,
                        self@.slots(),
                        *split,
                        id,
                        free_area,
                    );
                    assert(map![id => free_area] =~= Map::<NodeId, G>::empty().insert(id, free_area));
                    assert forall|x: NodeId|
                        old(self)@.nodes.contains_key(x) && !reach(
                            links,
                            rank,
                            floor,
                            x,
                            id,
                        ) implies #[trigger] self@.nodes[x] == old(self)@.nodes[x] by {
                        assert(x != id);
                    }
                }
                Ok(Ghost(Map::<NodeId, G>::empty().insert(id, free_area)))
            },
        }
    }

    /// Makes active the first view below `id`, reached through first children.
    fn set_active_recursive(&mut self, id: NodeId) -> (r: Result<bool, WorkspaceError>)
        requires
            down_ok(old(self)@.links(), old(self)@.rank, old(self)@.floor, id),
        ensures
            r matches Ok(true),
            final(self)@ == (WorkspaceView {
                active: Some(old(self)@.leftmost_leaf(id)),
                ..old(self)@
            }),
        decreases old(self)@.rank[id] - old(self)@.floor,
    {
        let ghost links = self@.links();
        let ghost rank = self@.rank;
        let ghost floor = self@.floor;
        proof {
            assert(reach(links, rank, floor, id, id));
            assert(node_ok(links, rank, floor, id));
        }
        match self.get_node(id)?.ty {
            // call recursively
            NodeType::Split { first_id, second_id, .. } => {
                proof {
                    lemma_reach_child(links, rank, floor, id);
                    lemma_down_ok_sub(links, rank, floor, first_id, id);
                    lemma_down_ok_sub(links, rank, floor, second_id, id);
                }
                if self.set_active_recursive(first_id)? {
                    Ok(true)
                } else if self.set_active_recursive(second_id)? {
                    Ok(true)
                } else {
                    Err(WorkspaceError::InvalidTree("Split node has no buffer children".to_string()))
                }
            },
            // end at the first buffer
            NodeType::Buffer { .. } => {
                self.active_id = Some(id);
                return Ok(true);
            },
        }
    }

    /// Closes the active view. Its parent split takes over the sibling's
    /// place, the views below are laid out again from the parent's area, and
    /// the first view below the parent becomes active.
    fn quit_active<F: Fn(G, SplitMode) -> (G, G)>(&mut self, split: &F) -> (r: Result<
        WorkspaceEvent,
        WorkspaceError,
    >)
        requires
            old(self)@.wf(),
            forall|g: G, m: SplitMode| split.requires((g, m)),
        ensures
            final(self)@.wf(),
            match old(self)@.active {
                None => r matches Err(WorkspaceError::NullActive) && final(self)@ == old(self)@,
                Some(_) => r matches Ok(WorkspaceEvent::BufferQuit) && old(self)@.quit_step(
                    final(self)@,
                    *split,
                ),
            },
    {
        let ghost v0 = self@;
        let ghost l0 = self@.links();
        let ghost rank = self@.rank;
        let ghost floor = self@.floor;
        let ghost ceil = self@.ceil;
        let (active, active_id) = match self.active_id {
            Some(id) => (*self.get_node(id)?, id),
            None => return Err(WorkspaceError::NullActive),
        };
        // return error if calling from a split node
        if let NodeType::Split { .. } = active.ty {
            return Err(WorkspaceError::InvalidCaller);
        };
        proof {
            assert(l0.contains_key(active_id));
            assert(node_ok(l0, rank, floor, active_id));
        }
        // remove active from nodes if root
        let (parent, parent_id) = match active.parent_id {
            Some(id) => (*self.get_node(id)?, id),
            None => {
                proof {
                    assert(is_root(l0, active_id));
                    lemma_leaf_root_alone(l0, rank, floor, ceil, active_id);
                }
                self.nodes.remove(&active_id);
                self.active_id = None;
                proof {
                    assert(v0.nodes.dom() =~= l0.dom());
                    assert(self@.nodes.dom() =~= Set::<NodeId>::empty());
                    assert(self@.nodes.dom().len() == 0);
                    assert(self@.links() =~= Map::<NodeId, Link>::empty());
                    lemma_empty_tree(rank, floor, ceil);
                    assert(self@.texts =~= v0.texts);
                    assert(self@.cursors =~= v0.cursors);
                }
                return Ok(WorkspaceEvent::BufferQuit);
            },
        };
        proof {
            assert(l0.contains_key(parent_id));
            assert(node_ok(l0, rank, floor, parent_id));
        }
        let (area, sibling_id) = match parent.ty {
            NodeType::Split { area, first_id, second_id, .. } => {
                let id = if active_id == first_id {
                    second_id
                } else if active_id == second_id {
                    first_id
                } else {
                    return Err(
                        WorkspaceError::InvalidTree(
                            "Node references an incoherent parent".to_string(),
                        ),
                    );
                };
                (area, id)
            },
            NodeType::Buffer { .. } => {
                return Err(
                    WorkspaceError::InvalidTree("Buffer node has a buffer node parent".to_string()),
                );
            },
        };
        proof {
            assert(sibling_id == v0.active_sibling());
            lemma_collapse(l0, rank, floor, ceil, active_id, parent_id, sibling_id);
            assert(node_ok(l0, rank, floor, sibling_id));
        }
        // update siblings children's parent_id if any
        let sibling = *self.get_node(sibling_id)?;
        match sibling.ty {
            NodeType::Split { first_id, second_id, .. } => {
                self.set_node_parent(first_id, Some(parent_id))?;
                self.set_node_parent(second_id, Some(parent_id))?;
            },
            NodeType::Buffer { .. } => {},
        }
        // promote parent to whatever type sibling is
        self.set_node_type(parent_id, sibling.ty)?;
        let ghost l1 = lift_children(l0, parent_id, sibling_id);
        proof {
            assert(self@.nodes =~= v0.relinked(parent_id, sibling_id));
            assert(self@.links() =~= l1);
        }
        let ghost relinked = self@.nodes;
        let areas = self.restore_geometry_recursive(parent_id, area, split)?;
        let ghost restored = self@;
        // remove now stale nodes
        self.nodes.remove(&active_id);
        self.nodes.remove(&sibling_id);
        let ghost l2 = l1.remove(active_id).remove(sibling_id);
        proof {
            assert(self@.links() =~= l2);
            assert(l2.contains_key(parent_id));
            lemma_tree_down_ok(l2, rank, floor, ceil, parent_id);
        }
        self.set_active_recursive(parent_id)?;
        proof {
            let v = self@;
            // the subtree of the parent holds neither removed node
            assert forall|z: NodeId| #[trigger] reach(l1, rank, floor, z, parent_id) implies z
                != active_id && z != sibling_id by {
                if z == active_id || z == sibling_id {
                    lemma_reach_up_contra(l1, rank, floor, z, parent_id);
                }
            }
            assert forall|z: NodeId| #[trigger] reach(l1, rank, floor, z, parent_id) implies l1.contains_key(z)
                && l2.contains_key(z) && l2[z] == l1[z] && restored.slots().contains_key(z)
                && v.slots().contains_key(z) && v.slots()[z] == restored.slots()[z] by {
                assert(node_ok(l1, rank, floor, z));
            }
            lemma_laid_out_links_frame(
                l1,
                l2,
                rank,
                floor,
                restored.slots(),
                v.slots(),
                *split,
                parent_id,
                areas@,
            );
            assert(v.links() =~= l2);
            assert(v.rank == rank && v.floor == floor);
            lemma_leftmost(l2, rank, floor, parent_id);
            assert(laid_out(l2, rank, floor, v.slots(), *split, parent_id, areas@));
            assert(areas@[parent_id] == v0.area(parent_id));
            assert(v.laid_out_from(parent_id, v0.area(parent_id), *split));
            assert forall|x: NodeId| reach(l1, rank, floor, x, parent_id) == reach(
                l2,
                rank,
                floor,
                x,
                parent_id,
            ) by {
                crate::editor_core::split_tree::lemma_reach_frame(
                    l1,
                    l2,
                    rank,
                    floor,
                    x,
                    parent_id,
                );
            }
            assert(v.texts =~= v0.texts);
            assert(v.cursors =~= v0.cursors);
            assert forall|id: NodeId| #[trigger]
                v.nodes.contains_key(id) && v.nodes[id].ty is Buffer implies v.texts.contains_key(
                v.nodes[id].ty->buffer_id,
            ) by {
                assert(relinked.contains_key(id));
                if id == parent_id {
                    assert(v0.nodes.contains_key(sibling_id));
                } else {
                    assert(v0.nodes.contains_key(id));
                }
            }
        }
        Ok(WorkspaceEvent::BufferQuit)
    }

    /// A workspace with one view, on a new empty buffer, over the whole viewport.
    pub fn new<W: Fn(Viewport) -> G>(viewport: Viewport, whole: &W) -> (r: Result<
        Self,
        WorkspaceError,
    >)
        requires
            whole.requires((viewport,)),
        ensures
            r matches Ok(w) && w@.wf() && w@.nodes == map![0usize => root_view(0, w@.area(0))]
                && call_ensures(*whole, (viewport,), w@.area(0)) && w@.active == Some(0usize)
                && w@.next_node == 1 && w@.texts == map![0usize => Seq::<char>::empty()]
                && w@.cursors == map![0usize => 0usize]
                && w@.next_buffer == 1,
    {
        let mut new_self = Self {
            nodes: HashMap::new(),
            next_node_id: 0,
            buffers: HashMap::new(),
            next_buff_id: 0,
            active_id: None,
            rank: Ghost(Map::empty()),
            floor: Ghost(0),
            ceil: Ghost(0),
        };
        proof {
            assert(new_self@.links() =~= Map::<NodeId, Link>::empty());
            lemma_empty_tree(new_self@.rank, 0, 0);
            assert(new_self@.nodes.dom() =~= Set::<NodeId>::empty());
            assert(new_self@.texts =~= Map::<BufferId, Seq<char>>::empty());
            assert(new_self@.cursors =~= Map::<BufferId, usize>::empty());
        }
        let _event = new_self.add_buffer(viewport, whole)?;
        proof {
            assert(new_self@.texts =~= map![0usize => Seq::<char>::empty()]);
            assert(new_self@.cursors =~= map![0usize => 0usize]);
        }
        Ok(new_self)
    }

    /// Lays every view out again over `viewport`, starting from the root.
    pub fn adapt_to_viewport<W: Fn(Viewport) -> G, F: Fn(G, SplitMode) -> (G, G)>(
        &mut self,
        viewport: Viewport,
        whole: &W,
        split: &F,
    ) -> (r: Result<(), WorkspaceError>)
        requires
            old(self)@.wf(),
            whole.requires((viewport,)),
            forall|g: G, m: SplitMode| split.requires((g, m)),
        ensures
            final(self)@.wf(),
            match r {
                Err(e) => e is NullRoot && old(self)@.nodes.dom().len() == 0 && final(self)@
                    == old(self)@,
                Ok(_) => {
                    &&& old(self)@.nodes.dom().len() > 0
                    &&& final(self)@.nodes.dom() == old(self)@.nodes.dom()
                    &&& forall|x: NodeId| #[trigger]
                        final(self)@.nodes.contains_key(x) ==> final(self)@.nodes[x]
                            == with_surface(old(self)@.nodes[x], area_of(final(self)@.nodes[x]))
                    &&& forall|x: NodeId| #[trigger]
                        is_root(final(self)@.links(), x) ==> exists|g: G|
                            #![auto]
                            call_ensures(*whole, (viewport,), g) && final(self)@.laid_out_from(
                                x,
                                g,
                                *split,
                            )
                    &&& final(self)@ == (WorkspaceView {
                        nodes: final(self)@.nodes,
                        ..old(self)@
                    })
                },
            },
    {
        let ghost v0 = self@;
        let ghost entries = vstd::std_specs::hash::spec_hash_map_iter(&self.nodes).remaining();
        let mut root: Option<NodeId> = None;
        for (id, node) in it: self.nodes.iter()
            invariant
                v0 == self@,
                it.seq() == entries,
                entries == vstd::std_specs::hash::spec_hash_map_iter(&self.nodes).remaining(),
                root matches Some(r) ==> v0.nodes.contains_key(r) && v0.nodes[r].parent_id is None,
                root is None ==> forall|i: int|
                    0 <= i < it.index() ==> (#[trigger] entries[i]).1.parent_id is Some,
        {
            proof {
                let e = it.seq()[it.index()];
                assert(v0.nodes.contains_key(*e.0));
            }
            if root.is_none() && node.parent_id.is_none() {
                root = Some(*id);
            }
        }
        let root_id = match root {
            Some(id) => id,
            None => {
                proof {
                    assert(v0.links().dom() =~= v0.nodes.dom());
                    if v0.nodes.dom().len() > 0 {
                        let r = choose|r: NodeId| #[trigger] is_root(v0.links(), r);
                        assert(self.nodes@.contains_key(r));
                        assert(entries.contains((&r, &v0.nodes[r])));
                        let i = choose|i: int| 0 <= i < entries.len() && entries[i] == (&r, &v0.nodes[r]);
                        assert(entries[i].1.parent_id is Some);
                    }
                }
                return Err(WorkspaceError::NullRoot);  // possible if empty
            },
        };
        proof {
            assert(is_root(v0.links(), root_id));
            lemma_tree_down_ok(v0.links(), v0.rank, v0.floor, v0.ceil, root_id);
        }
        let area = whole(viewport);
        let areas = self.restore_geometry_recursive(root_id, area, split)?;
        proof {
            let v = self@;
            assert(v.laid_out_from(root_id, area, *split));
            assert forall|x: NodeId| #[trigger] is_root(v.links(), x) implies exists|g: G|
                #![auto]
                call_ensures(*whole, (viewport,), g) && v.laid_out_from(x, g, *split) by {
                assert(is_root(v0.links(), x));
            }
            assert(v.texts =~= v0.texts);
            assert(v.cursors =~= v0.cursors);
            assert forall|id: NodeId| #[trigger]
                v.nodes.contains_key(id) && v.nodes[id].ty is Buffer implies v.texts.contains_key(
                v.nodes[id].ty->buffer_id,
            ) by {
                assert(v0.nodes.contains_key(id));
            }
        }
        Ok(())
    }

    /// What to draw: for every view, its surface and the text of its buffer.
    /// The views come in the order in which the node map yields them.
    pub fn render(&self) -> (cmds: Vec<(G, String)>)
        requires
            self@.wf(),
        ensures
            exists|order: Seq<NodeId>| #[trigger] self@.rendered(order, cmds@),
    {
        let ghost v0 = self@;
        let ghost entries = vstd::std_specs::hash::spec_hash_map_iter(&self.nodes).remaining();
        let mut cmds: Vec<(G, String)> = Vec::new();
        let ghost mut order: Seq<NodeId> = Seq::empty();
        for (id, node) in it: self.nodes.iter()
            invariant
                v0 == self@,
                v0.wf(),
                it.seq() == entries,
                entries == vstd::std_specs::hash::spec_hash_map_iter(&self.nodes).remaining(),
                entries.no_duplicates(),
                cmds@.len() == order.len(),
                order.no_duplicates(),
                forall|i: int|
                    0 <= i < order.len() ==> {
                        &&& v0.nodes.contains_key(#[trigger] order[i])
                        &&& v0.nodes[order[i]].ty is Buffer
                        &&& cmds@[i].0 == v0.area(order[i])
                        &&& cmds@[i].1@ == v0.texts[v0.nodes[order[i]].ty->buffer_id]
                    },
                forall|j: int|
                    0 <= j < it.index() && (#[trigger] entries[j]).1.ty is Buffer ==> order.contains(
                        *entries[j].0,
                    ),
                forall|x: NodeId| #[trigger]
                    order.contains(x) ==> exists|j: int|
                        0 <= j < it.index() && *(#[trigger] entries[j]).0 == x,
        {
            let ghost k = it.index();
            let ghost order_before = order;
            proof {
                let e = entries[k];
                assert(v0.nodes.contains_key(*e.0) && v0.nodes[*e.0] == *e.1);
            }
            match node.ty {
                NodeType::Buffer { buffer_id, surface, .. } => {
                    match self.get_buffer(buffer_id) {
                        Ok(buffer) => {
                            let text = buffer.get_text();
                            proof {
                                assert(!order.contains(*id)) by {
                                    if order.contains(*id) {
                                        let j = choose|j: int|
                                            0 <= j < k && *(#[trigger] entries[j]).0 == *id;
                                        assert(v0.nodes.contains_key(*entries[j].0));
                                        assert(entries[j] == entries[k]);
                                    }
                                }
                                let ghost old_order = order;
                                order = order.push(*id);
                                assert forall|x: NodeId| #[trigger]
                                    order.contains(x) implies exists|j: int|
                                        0 <= j < k + 1 && *(#[trigger] entries[j]).0 == x by {
                                    if x != *id {
                                        let i = choose|i: int| 0 <= i < order.len() && order[i] == x;
                                        assert(old_order[i] == x);
                                        assert(old_order.contains(x));
                                        let j = choose|j: int|
                                            0 <= j < k && *(#[trigger] entries[j]).0 == x;
                                        assert(0 <= j < k + 1 && *entries[j].0 == x);
                                    } else {
                                        assert(*entries[k].0 == x);
                                    }
                                }
                            }
                            cmds.push((surface, text));
                        },
                        Err(_) => {
                            proof {
                                assert(v0.texts.contains_key(v0.nodes[*id].ty->buffer_id));
                            }
                        },
                    }
                },
                NodeType::Split { .. } => {},
            }
            proof {
                assert(order.len() >= order_before.len());
                assert(forall|i: int| 0 <= i < order_before.len() ==> order[i] == order_before[i]);
                assert forall|j: int|
                    0 <= j < k + 1 && (#[trigger] entries[j]).1.ty is Buffer implies order.contains(
                    *entries[j].0,
                ) by {
                    if j == k {
                        assert(v0.nodes[*entries[j].0].ty is Buffer);
                        assert(order.last() == *entries[j].0);
                    } else {
                        assert(order_before.contains(*entries[j].0));
                        let i = choose|i: int|
                            0 <= i < order_before.len() && order_before[i] == *entries[j].0;
                        assert(order[i] == *entries[j].0);
                    }
                }
            }
        }
        proof {
            assert forall|id: NodeId| #[trigger]
                v0.nodes.contains_key(id) && v0.nodes[id].ty is Buffer implies order.contains(id) by {
                assert(self.nodes@.contains_key(id));
                assert(entries.contains((&id, &v0.nodes[id])));
                let j = choose|j: int| 0 <= j < entries.len() && entries[j] == (&id, &v0.nodes[id]);
                assert(entries[j].1.ty is Buffer);
            }
            assert(v0.rendered(order, cmds@));
        }
        cmds
    }

    /// Carries out `cmd`. Opening a buffer splits the active view vertically,
    /// or opens a first view if there is none.
    pub fn handle_command<W: Fn(Viewport) -> G, F: Fn(G, SplitMode) -> (G, G)>(
        &mut self,
        cmd: WorkspaceCommand,
        whole: &W,
        split: &F,
    ) -> (r: Result<Option<WorkspaceEvent>, WorkspaceError>)
        requires
            old(self)@.wf(),
            old(self)@.next_node + 2 <= usize::MAX,
            old(self)@.next_buffer < usize::MAX,
            forall|v: Viewport| whole.requires((v,)),
            forall|g: G, m: SplitMode| split.requires((g, m)),
        ensures
            final(self)@.wf(),
            match cmd {
                WorkspaceCommand::OpenBuffer { viewport } => match old(self)@.active {
                    Some(_) => r matches Ok(Some(WorkspaceEvent::BufferOpened))
                        && old(self)@.split_step(final(self)@, SplitMode::Vertical, *split),
                    None => r matches Ok(Some(WorkspaceEvent::BufferOpened))
                        && old(self)@.open_step(final(self)@, viewport, *whole),
                },
                WorkspaceCommand::SplitBuffer { mode } => match old(self)@.active {
                    Some(_) => r matches Ok(Some(WorkspaceEvent::BufferOpened))
                        && old(self)@.split_step(final(self)@, mode, *split),
                    None => r matches Err(WorkspaceError::NullActive) && final(self)@ == old(
                        self,
                    )@,
                },
                WorkspaceCommand::QuitBuffer => match old(self)@.active {
                    Some(_) => r matches Ok(Some(WorkspaceEvent::BufferQuit))
                        && old(self)@.quit_step(final(self)@, *split),
                    None => r matches Err(WorkspaceError::NullActive) && final(self)@ == old(
                        self,
                    )@,
                },
            },
    {
        let event = match cmd {
            WorkspaceCommand::OpenBuffer { viewport } => match self.active_id {
                Some(_) => Some(self.split_active(SplitMode::Vertical, split)?),
                None => Some(self.add_buffer(viewport, whole)?),
            },
            WorkspaceCommand::SplitBuffer { mode } => Some(self.split_active(mode, split)?),
            WorkspaceCommand::QuitBuffer => Some(self.quit_active(split)?),
        };
        Ok(event)
    }
}


/// Closing the view that a split just opened gives back the tree as it was
/// before the split, with the same view active (only the id counter has
/// moved): `handle_command` with `SplitBuffer` and then `QuitBuffer` takes
/// these two steps.
pub proof fn lemma_quit_undoes_split<G, F: Fn(G, SplitMode) -> (G, G)>(
    v0: WorkspaceView<G>,
    v1: WorkspaceView<G>,
    v2: WorkspaceView<G>,
    mode: SplitMode,
    split: F,
)
    requires
        v0.wf(),
        v0.split_step(v1, mode, split),
        v1.quit_step(v2, split),
    ensures
        v2.nodes == v0.nodes,
        v2.active == v0.active,
        v2.texts == v0.texts,
        v2.cursors == v0.cursors,
{
    let a = v0.active->0;
    let n1 = v0.next_node;
    let n2 = (v0.next_node + 1) as NodeId;
    assert(v0.nodes.contains_key(a));
    assert(!v0.nodes.contains_key(n1));
    assert(!v0.nodes.contains_key(n2));
    assert(v1.nodes[n2].parent_id == Some(a));
    assert(v1.active_sibling() == n1);
    let relinked = v1.relinked(a, n1);
    assert(relinked.dom().remove(n2).remove(n1) =~= v0.nodes.dom());
    assert(v2.nodes.contains_key(a));
    // the former split is now a view, so nothing lies below it
    assert(v2.links()[a].children is None);
    assert forall|x: NodeId| v2.in_subtree(x, a) implies x == a by {
        reveal_with_fuel(reach, 2);
    }
    let areas = choose|areas: Map<NodeId, G>|
        #[trigger] laid_out(v2.links(), v2.rank, v2.floor, v2.slots(), split, a, areas)
            && areas.contains_key(a) && areas[a] == v1.area(a);
    assert(reach(v2.links(), v2.rank, v2.floor, a, a));
    assert(areas.contains_key(a));
    assert(v2.slots()[a] == node_slot(v2.nodes[a]));
    assert forall|x: NodeId| #[trigger] v2.nodes.contains_key(x) implies v2.nodes[x]
        == v0.nodes[x] by {
        if x != a {
            assert(!v2.in_subtree(x, a));
        }
    }
    assert(v2.nodes =~= v0.nodes);
    assert(v2.leftmost_leaf(a) == a);
}


/// Splitting the active view makes it a split in the asked direction over
/// its former area; its first child takes the first half that `split`
/// makes and its second child the second half, both show the split view's
/// buffer, and the second child becomes active.
pub proof fn lemma_split_activates_second_half<G, F: Fn(G, SplitMode) -> (G, G)>(
    v0: WorkspaceView<G>,
    v1: WorkspaceView<G>,
    mode: SplitMode,
    split: F,
)
    requires
        v0.wf(),
        v0.next_node + 2 <= usize::MAX,
        v0.split_step(v1, mode, split),
    ensures
        ({
            let a = v0.active->0;
            let l = node_link(v1.nodes[a]);
            &&& v1.nodes[a].ty matches NodeType::Split { mode: m, .. } && m == mode
            &&& l.children is Some
            &&& v1.active == Some(kid1(l))
            &&& kid0(l) != kid1(l)
            &&& v1.area(a) == v0.area(a)
            &&& call_ensures(split, (v0.area(a), mode), (v1.area(kid0(l)), v1.area(kid1(l))))
            &&& v1.nodes[kid0(l)].ty is Buffer && v1.nodes[kid1(l)].ty is Buffer
            &&& v1.nodes[kid0(l)].ty->Buffer_buffer_id == v0.nodes[a].ty->Buffer_buffer_id
            &&& v1.nodes[kid1(l)].ty->Buffer_buffer_id == v0.nodes[a].ty->Buffer_buffer_id
            &&& v1.nodes[kid0(l)].parent_id == Some(a) && v1.nodes[kid1(l)].parent_id == Some(a)
        }),
{
    let a = v0.active->0;
    assert(v0.nodes.contains_key(a));
    assert(a < v0.next_node);
}

} // verus!
