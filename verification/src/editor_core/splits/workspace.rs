//! A workspace whose split tree is kept in a vector of nodes, each carrying
//! its own id. Areas are of any type `G`; the caller supplies how a window
//! size becomes an area (`whole`) and how an area is halved (`split`).
use crate::editor_common::geometry::Viewport;
use crate::editor_core::split_tree::{
    NodeId, SplitMode, Link, Slot, kid0, kid1, reach, laid_out, tree_wf, down_ok, lift_children,
    grow_leaf, is_root, node_ok, lemma_collapse, lemma_grow_leaf,
    lemma_single_leaf, lemma_empty_tree, lemma_leaf_root_alone, lemma_laid_out_leaf,
    lemma_laid_out_fork, lemma_laid_out_frame, lemma_reach_rank, lemma_reach_trans,
    lemma_reach_child, lemma_down_ok_sub, lemma_children_disjoint, lemma_reach_up_contra,
    lemma_laid_out_links_frame, lemma_reach_frame,
};
use crate::editor_core::splits::buffer::{Buffer, BufferId};
use vstd::prelude::*;

verus! {

/// One node of the tree, with its id.
#[derive(Debug, Clone, Copy)]
pub struct Node<G> {
    pub id: NodeId,
    pub parent_id: Option<NodeId>,
    pub ty: NodeType<G>,
}

#[derive(Debug, Clone, Copy)]
pub enum NodeType<G> {
    Split { mode: SplitMode, first_id: NodeId, second_id: NodeId, area: G },
    View { buffer_id: BufferId, surface: G },
}

pub open spec fn node_link<G>(n: Node<G>) -> Link {
    Link {
        parent: n.parent_id,
        children: match n.ty {
            NodeType::Split { first_id, second_id, .. } => Some((first_id, second_id)),
            NodeType::View { .. } => None,
        },
    }
}

pub open spec fn node_slot<G>(n: Node<G>) -> Slot<G> {
    match n.ty {
        NodeType::Split { mode, .. } => Slot::Fork(mode),
        NodeType::View { surface, .. } => Slot::Leaf(surface),
    }
}

/// The area a node covers: a split's area, or a view's surface.
pub open spec fn area_of<G>(n: Node<G>) -> G {
    match n.ty {
        NodeType::Split { area, .. } => area,
        NodeType::View { surface, .. } => surface,
    }
}

/// `n` with its surface set to `g`, if it is a view; a split is kept as is.
pub open spec fn with_surface<G>(n: Node<G>, g: G) -> Node<G> {
    match n.ty {
        NodeType::Split { .. } => n,
        NodeType::View { buffer_id, .. } => Node {
            id: n.id,
            parent_id: n.parent_id,
            ty: NodeType::View { buffer_id, surface: g },
        },
    }
}

/// `s` after its element at `i` was replaced by its last one, and the last
/// one dropped.
pub open spec fn swap_removed<A>(s: Seq<A>, i: int) -> Seq<A> {
    s.update(i, s.last()).drop_last()
}

/// What a split workspace holds, as mathematical values: the ids of its
/// nodes in the order they are stored, the nodes by id, and the ids of its
/// buffers in the order they are stored. `rank`, `floor` and `ceil` order the
/// nodes so that walks down the tree end.
pub struct SplitsView<G> {
    pub order: Seq<NodeId>,
    pub nodes: Map<NodeId, Node<G>>,
    pub active: Option<NodeId>,
    pub next_node: NodeId,
    pub buffers: Seq<BufferId>,
    pub next_buffer: BufferId,
    pub rank: Map<NodeId, int>,
    pub floor: int,
    pub ceil: int,
}

impl<G> SplitsView<G> {
    pub open spec fn links(self) -> Map<NodeId, Link> {
        Map::new(|k: NodeId| self.nodes.contains_key(k), |k: NodeId| node_link(self.nodes[k]))
    }

    pub open spec fn slots(self) -> Map<NodeId, Slot<G>> {
        Map::new(|k: NodeId| self.nodes.contains_key(k), |k: NodeId| node_slot(self.nodes[k]))
    }

    pub open spec fn area(self, id: NodeId) -> G {
        area_of(self.nodes[id])
    }

    /// `x` is `y` or lies below it.
    pub open spec fn in_subtree(self, x: NodeId, y: NodeId) -> bool {
        reach(self.links(), self.rank, self.floor, x, y)
    }

    /// Starting from `area` at `y`, every split below `y` gave its children
    /// the halves that `split` made of its area, and every view below `y`
    /// holds the area it was given.
    pub open spec fn laid_out_from<F: Fn(G, SplitMode) -> (G, G)>(
        self,
        y: NodeId,
        area: G,
        split: F,
    ) -> bool {
        exists|areas: Map<NodeId, G>|
            #[trigger] laid_out(self.links(), self.rank, self.floor, self.slots(), split, y, areas)
                && areas.contains_key(y) && areas[y] == area
    }

    /// The stored ids are those of the nodes, each once, and every node is
    /// stored under its own id.
    pub open spec fn stored_ok(self) -> bool {
        &&& self.order.no_duplicates()
        &&& forall|k: NodeId|
            #![trigger self.nodes.contains_key(k)]
            #![trigger self.order.contains(k)]
            self.nodes.contains_key(k) <==> self.order.contains(k)
        &&& forall|k: NodeId| #[trigger] self.nodes.contains_key(k) ==> self.nodes[k].id == k
    }

    /// The nodes are well stored; the tree is well formed; ids are fresh
    /// below the counters; every view shows a stored buffer; and without an
    /// active node the workspace is empty.
    pub open spec fn wf(self) -> bool {
        &&& self.stored_ok()
        &&& tree_wf(self.links(), self.rank, self.floor, self.ceil)
        &&& forall|k: NodeId| #[trigger] self.nodes.contains_key(k) ==> k < self.next_node
        &&& self.buffers.no_duplicates()
        &&& forall|i: int| 0 <= i < self.buffers.len() ==> #[trigger] self.buffers[i] < self.next_buffer
        &&& forall|k: NodeId|
            #[trigger] self.nodes.contains_key(k) && self.nodes[k].ty is View
                ==> self.buffers.contains(self.nodes[k].ty->buffer_id)
        &&& self.active is None ==> self.order.len() == 0
    }

    /// `new` is `self` after its active view was split in `mode`: the view
    /// becomes a split over its former surface, and two views on the same
    /// buffer, over the halves that `split` made, are stored after all other
    /// nodes under fresh ids; the second one becomes active.
    pub open spec fn split_step<F: Fn(G, SplitMode) -> (G, G)>(
        self,
        new: Self,
        mode: SplitMode,
        split: F,
    ) -> bool {
        let a = self.active->0;
        let n1 = self.next_node;
        let n2 = (self.next_node + 1) as NodeId;
        let leaf = self.nodes[a];
        &&& self.active is Some
        &&& leaf.ty matches NodeType::View { buffer_id, surface }
        &&& new.order == self.order.push(n1).push(n2)
        &&& new.nodes == self.nodes.insert(
            a,
            Node {
                id: a,
                parent_id: leaf.parent_id,
                ty: NodeType::Split { mode, first_id: n1, second_id: n2, area: surface },
            },
        ).insert(
            n1,
            Node { id: n1, parent_id: Some(a), ty: NodeType::View { buffer_id, surface: new.area(n1) } },
        ).insert(
            n2,
            Node { id: n2, parent_id: Some(a), ty: NodeType::View { buffer_id, surface: new.area(n2) } },
        )
        &&& call_ensures(split, (surface, mode), (new.area(n1), new.area(n2)))
        &&& new.active == Some(n2)
        &&& new.next_node == self.next_node + 2
        &&& new.buffers == self.buffers
        &&& new.next_buffer == self.next_buffer
    }

    /// `new` is `self` after a root view was opened on a new buffer, over the
    /// area that `whole` made of `viewport`; both are stored last.
    pub open spec fn open_step<W: Fn(Viewport) -> G>(
        self,
        new: Self,
        viewport: Viewport,
        whole: W,
    ) -> bool {
        let id = self.next_node;
        &&& new.order == self.order.push(id)
        &&& new.nodes == self.nodes.insert(
            id,
            Node {
                id,
                parent_id: None,
                ty: NodeType::View { buffer_id: self.next_buffer, surface: new.area(id) },
            },
        )
        &&& call_ensures(whole, (viewport,), new.area(id))
        &&& new.active == Some(id)
        &&& new.next_node == self.next_node + 1
        &&& new.buffers == self.buffers.push(self.next_buffer)
        &&& new.next_buffer == self.next_buffer + 1
    }

    /// The nodes once the split `p` has taken over the node type of its child
    /// `sib`, whose children (if any) now name `p` as their parent.
    pub open spec fn relinked(self, p: NodeId, sib: NodeId) -> Map<NodeId, Node<G>> {
        let n1 = self.nodes.insert(
            p,
            Node { id: p, parent_id: self.nodes[p].parent_id, ty: self.nodes[sib].ty },
        );
        match self.nodes[sib].ty {
            NodeType::Split { first_id, second_id, .. } => n1.insert(
                first_id,
                Node { id: first_id, parent_id: Some(p), ty: self.nodes[first_id].ty },
            ).insert(
                second_id,
                Node { id: second_id, parent_id: Some(p), ty: self.nodes[second_id].ty },
            ),
            NodeType::View { .. } => n1,
        }
    }

    /// The sibling of the active node.
    pub open spec fn active_sibling(self) -> NodeId {
        let a = self.active->0;
        let p = self.nodes[a].parent_id->0;
        if kid0(node_link(self.nodes[p])) == a {
            kid1(node_link(self.nodes[p]))
        } else {
            kid0(node_link(self.nodes[p]))
        }
    }

    /// The active view and its sibling can be removed one after the other by
    /// moving the last stored node into the freed place: the sibling of an
    /// active view that has a parent is not stored last.
    pub open spec fn delete_safe(self) -> bool {
        self.active matches Some(a) && self.nodes[a].ty is View && self.nodes[a].parent_id is Some
            ==> self.order.last() != self.active_sibling()
    }

    /// `new` is `self` after its active view was deleted; the active id is
    /// kept as it was. A root view is removed with its buffer. Otherwise its
    /// parent split takes over the sibling's node type and children, the
    /// views below it are laid out again from its area, and the view and its
    /// sibling are removed, each replaced in storage by the node stored last.
    pub open spec fn delete_step<F: Fn(G, SplitMode) -> (G, G)>(
        self,
        new: Self,
        split: F,
    ) -> bool {
        let a = self.active->0;
        let ai = self.order.index_of(a);
        &&& self.active is Some
        &&& new.active == self.active
        &&& new.next_node == self.next_node
        &&& new.next_buffer == self.next_buffer
        &&& match self.nodes[a].parent_id {
            None => {
                &&& new.order == swap_removed(self.order, ai)
                &&& new.nodes == self.nodes.remove(a)
                &&& new.buffers == swap_removed(
                    self.buffers,
                    self.buffers.index_of(self.nodes[a].ty->buffer_id),
                )
            },
            Some(p) => {
                let sib = self.active_sibling();
                let relinked = self.relinked(p, sib);
                &&& new.order == swap_removed(
                    swap_removed(self.order, ai),
                    self.order.index_of(sib),
                )
                &&& new.buffers == self.buffers
                &&& new.nodes.dom() == relinked.dom().remove(a).remove(sib)
                &&& forall|x: NodeId| #[trigger]
                    new.nodes.contains_key(x) ==> new.nodes[x] == with_surface(
                        relinked[x],
                        area_of(new.nodes[x]),
                    )
                &&& forall|x: NodeId|
                    #[trigger] new.nodes.contains_key(x) && !new.in_subtree(x, p)
                        ==> new.nodes[x] == relinked[x]
                &&& new.laid_out_from(p, self.area(p), split)
            },
        }
    }

    /// The active node, if any, is stored.
    pub open spec fn active_stored(self) -> bool {
        self.active matches Some(a) ==> self.nodes.contains_key(a)
    }
}

/// A workspace: the nodes of the split tree, the buffers they show, and the
/// active node.
pub struct Workspace<G> {
    active_id: Option<NodeId>,
    nodes: Vec<Node<G>>,
    next_node_id: NodeId,
    buffers: Vec<Buffer>,
    next_buff_id: BufferId,
    rank: Ghost<Map<NodeId, int>>,
    floor: Ghost<int>,
    ceil: Ghost<int>,
}

/// The ids of `s`, in order.
spec fn ids<G>(s: Seq<Node<G>>) -> Seq<NodeId> {
    Seq::new(s.len(), |i: int| s[i].id)
}

/// The nodes of `s` by id.
spec fn node_map<G>(s: Seq<Node<G>>) -> Map<NodeId, Node<G>> {
    Map::new(|k: NodeId| ids(s).contains(k), |k: NodeId| s[ids(s).index_of(k)])
}

spec fn buffer_ids(s: Seq<Buffer>) -> Seq<BufferId> {
    Seq::new(s.len(), |i: int| s[i].id)
}

proof fn lemma_map_at<G>(s: Seq<Node<G>>, i: int)
    requires
        ids(s).no_duplicates(),
        0 <= i < s.len(),
    ensures
        node_map(s).contains_key(s[i].id),
        node_map(s)[s[i].id] == s[i],
{
    assert(ids(s)[i] == s[i].id);
    let j = ids(s).index_of(s[i].id);
    assert(0 <= j < s.len() && ids(s)[j] == s[i].id);
}

proof fn lemma_map_set<G>(s: Seq<Node<G>>, i: int, n: Node<G>)
    requires
        ids(s).no_duplicates(),
        0 <= i < s.len(),
        n.id == s[i].id,
    ensures
        ids(s.update(i, n)) == ids(s),
        node_map(s.update(i, n)) == node_map(s).insert(n.id, n),
{
    let t = s.update(i, n);
    assert(ids(t) =~= ids(s));
    assert forall|k: NodeId| #[trigger] node_map(t).contains_key(k) implies node_map(t)[k]
        == node_map(s).insert(n.id, n)[k] by {
        let j = ids(t).index_of(k);
        assert(0 <= j < t.len() && ids(t)[j] == k);
        lemma_map_at(t, j);
        if j != i {
            lemma_map_at(s, j);
            assert(ids(s)[j] == s[j].id && ids(s)[i] == s[i].id);
        }
    }
    assert(ids(s)[i] == n.id);
    assert(node_map(t) =~= node_map(s).insert(n.id, n));
}

proof fn lemma_map_push<G>(s: Seq<Node<G>>, n: Node<G>)
    requires
        ids(s).no_duplicates(),
        !ids(s).contains(n.id),
    ensures
        ids(s.push(n)) == ids(s).push(n.id),
        ids(s.push(n)).no_duplicates(),
        node_map(s.push(n)) == node_map(s).insert(n.id, n),
{
    let t = s.push(n);
    assert(ids(t) =~= ids(s).push(n.id));
    assert forall|a: int, b: int|
        0 <= a < ids(t).len() && 0 <= b < ids(t).len() && a != b implies ids(t)[a] != ids(t)[b] by {
        if a == s.len() {
            assert(ids(s)[b] == ids(t)[b]);
        }
        if b == s.len() {
            assert(ids(s)[a] == ids(t)[a]);
        }
    }
    assert forall|k: NodeId| #[trigger] node_map(t).contains_key(k) implies node_map(t)[k]
        == node_map(s).insert(n.id, n)[k] by {
        let j = ids(t).index_of(k);
        assert(0 <= j < t.len() && ids(t)[j] == k);
        lemma_map_at(t, j);
        if j != s.len() {
            lemma_map_at(s, j);
        }
    }
    assert forall|k: NodeId| #[trigger] node_map(t).contains_key(k) <==> node_map(s).insert(
        n.id,
        n,
    ).contains_key(k) by {
        if ids(s).contains(k) {
            let j = ids(s).index_of(k);
            assert(ids(t)[j] == k);
        }
        if ids(t).contains(k) && k != n.id {
            let j = ids(t).index_of(k);
            assert(j < s.len());
            assert(ids(s)[j] == k);
        }
        assert(ids(t)[s.len() as int] == n.id);
    }
    assert(node_map(t) =~= node_map(s).insert(n.id, n));
}

proof fn lemma_seq_swap_removed<A>(s: Seq<A>, i: int)
    requires
        s.no_duplicates(),
        0 <= i < s.len(),
    ensures
        swap_removed(s, i).no_duplicates(),
        forall|k: A| #[trigger] swap_removed(s, i).contains(k) <==> (s.contains(k) && k != s[i]),
{
    let t = swap_removed(s, i);
    let last = s.len() - 1;
    assert forall|a: int, b: int|
        0 <= a < t.len() && 0 <= b < t.len() && a != b implies t[a] != t[b] by {
        let sa = if a == i {
            last
        } else {
            a
        };
        let sb = if b == i {
            last
        } else {
            b
        };
        assert(t[a] == s[sa] && t[b] == s[sb]);
    }
    assert forall|k: A| #[trigger] t.contains(k) <==> (s.contains(k) && k != s[i]) by {
        if t.contains(k) {
            let a = choose|a: int| 0 <= a < t.len() && t[a] == k;
            let sa = if a == i {
                last
            } else {
                a
            };
            assert(t[a] == s[sa]);
            assert(sa != i);
        }
        if s.contains(k) && k != s[i] {
            let a = choose|a: int| 0 <= a < s.len() && s[a] == k;
            assert(a != i);
            if a == last {
                assert(t[i] == k);
            } else {
                assert(t[a] == k);
            }
        }
    }
}

proof fn lemma_map_swap_remove<G>(s: Seq<Node<G>>, i: int)
    requires
        ids(s).no_duplicates(),
        0 <= i < s.len(),
    ensures
        ids(swap_removed(s, i)) == swap_removed(ids(s), i),
        ids(swap_removed(s, i)).no_duplicates(),
        node_map(swap_removed(s, i)) == node_map(s).remove(s[i].id),
{
    let t = swap_removed(s, i);
    assert(ids(t) =~= swap_removed(ids(s), i));
    lemma_seq_swap_removed(ids(s), i);
    assert(ids(s)[i] == s[i].id);
    assert forall|k: NodeId| #[trigger] node_map(t).contains_key(k) implies node_map(t)[k]
        == node_map(s)[k] by {
        let j = ids(t).index_of(k);
        assert(0 <= j < t.len() && ids(t)[j] == k);
        lemma_map_at(t, j);
        let sj = if j == i {
            s.len() - 1
        } else {
            j
        };
        assert(t[j] == s[sj]);
        lemma_map_at(s, sj);
    }
    assert(node_map(t) =~= node_map(s).remove(s[i].id));
}

impl<G> View for Workspace<G> {
    type V = SplitsView<G>;

    closed spec fn view(&self) -> SplitsView<G> {
        SplitsView {
            order: ids(self.nodes@),
            nodes: node_map(self.nodes@),
            active: self.active_id,
            next_node: self.next_node_id,
            buffers: buffer_ids(self.buffers@),
            next_buffer: self.next_buff_id,
            rank: self.rank@,
            floor: self.floor@,
            ceil: self.ceil@,
        }
    }
}

impl<G: Copy> Workspace<G> {
    /// Where the node `id` is stored.
    fn get_node_index(&self, id: NodeId) -> (i: usize)
        requires
            self@.order.contains(id),
        ensures
            i < self@.order.len(),
            self@.order[i as int] == id,
    {
        let mut i: usize = 0;
        while i < self.nodes.len()
            invariant
                i <= self.nodes.len(),
                self@.order.contains(id),
                forall|j: int| 0 <= j < i ==> self@.order[j] != id,
            decreases self.nodes.len() - i,
        {
            if self.nodes[i].id == id {
                return i;
            }
            i = i + 1;
        }
        proof {
            let j = choose|j: int| 0 <= j < self@.order.len() && self@.order[j] == id;
            assert(self@.order[j] != id);
        }
        0
    }

    /// Where the buffer `id` is stored.
    fn get_buff_index(&self, id: BufferId) -> (i: usize)
        requires
            self@.buffers.contains(id),
        ensures
            i < self@.buffers.len(),
            self@.buffers[i as int] == id,
    {
        let mut i: usize = 0;
        while i < self.buffers.len()
            invariant
                i <= self.buffers.len(),
                self@.buffers.contains(id),
                forall|j: int| 0 <= j < i ==> self@.buffers[j] != id,
            decreases self.buffers.len() - i,
        {
            if self.buffers[i].id == id {
                return i;
            }
            i = i + 1;
        }
        proof {
            let j = choose|j: int| 0 <= j < self@.buffers.len() && self@.buffers[j] == id;
            assert(self@.buffers[j] != id);
        }
        0
    }

    /// The node stored at `i`.
    fn node_at(&self, i: usize) -> (n: Node<G>)
        requires
            self@.order.no_duplicates(),
            i < self@.order.len(),
        ensures
            n.id == self@.order[i as int],
            self@.nodes.contains_key(n.id),
            n == self@.nodes[n.id],
    {
        proof {
            lemma_map_at(self.nodes@, i as int);
        }
        self.nodes[i]
    }

    /// Stores `n`, whose id is new, after all other nodes.
    fn push_node(&mut self, n: Node<G>)
        requires
            old(self)@.order.no_duplicates(),
            !old(self)@.order.contains(n.id),
        ensures
            final(self)@ == (SplitsView {
                order: old(self)@.order.push(n.id),
                nodes: old(self)@.nodes.insert(n.id, n),
                ..old(self)@
            }),
            final(self)@.order.no_duplicates(),
    {
        proof {
            lemma_map_push(self.nodes@, n);
        }
        self.nodes.push(n);
    }

    /// Removes the node stored at `i`, moving the last node into its place.
    fn swap_remove_node(&mut self, i: usize)
        requires
            old(self)@.order.no_duplicates(),
            i < old(self)@.order.len(),
        ensures
            final(self)@ == (SplitsView {
                order: swap_removed(old(self)@.order, i as int),
                nodes: old(self)@.nodes.remove(old(self)@.order[i as int]),
                ..old(self)@
            }),
            final(self)@.order.no_duplicates(),
    {
        proof {
            lemma_map_swap_remove(self.nodes@, i as int);
        }
        let _removed = self.nodes.swap_remove(i);
    }

    /// Removes the buffer stored at `i`, moving the last buffer into its place.
    fn swap_remove_buffer(&mut self, i: usize)
        requires
            i < old(self)@.buffers.len(),
        ensures
            final(self)@ == (SplitsView {
                buffers: swap_removed(old(self)@.buffers, i as int),
                ..old(self)@
            }),
    {
        let ghost b0 = self.buffers@;
        let _removed = self.buffers.swap_remove(i);
        proof {
            assert(buffer_ids(self.buffers@) =~= swap_removed(buffer_ids(b0), i as int));
        }
    }

    /// Replaces the node stored at `i` by `n`, which has the same id.
    fn set_node(&mut self, i: usize, n: Node<G>)
        requires
            old(self)@.order.no_duplicates(),
            i < old(self)@.order.len(),
            n.id == old(self)@.order[i as int],
        ensures
            final(self)@ == (SplitsView {
                nodes: old(self)@.nodes.insert(n.id, n),
                ..old(self)@
            }),
    {
        proof {
            lemma_map_set(self.nodes@, i as int, n);
        }
        self.nodes.set(i, n);
    }
}


impl<G: Copy> Workspace<G> {
    /// A workspace with one view, on buffer 0, over the whole window.
    pub fn new<W: Fn(Viewport) -> G>(window_width: u32, window_height: u32, whole: &W) -> (w: Self)
        requires
            whole.requires((Viewport { width: window_width, height: window_height },)),
        ensures
            w@.wf(),
            w@.active_stored(),
            w@.order == seq![0usize],
            w@.nodes == map![0usize => Node {
                id: 0,
                parent_id: None,
                ty: NodeType::View { buffer_id: 0, surface: w@.area(0) },
            }],
            call_ensures(
                *whole,
                (Viewport { width: window_width, height: window_height },),
                w@.area(0),
            ),
            w@.active == Some(0usize),
            w@.next_node == 1,
            w@.buffers == seq![0usize],
            w@.next_buffer == 1,
    {
        // create default empty buffer
        let default_buffer = Buffer::new(0);
        // attach it to a node and focus
        let surface = whole(Viewport { width: window_width, height: window_height });
        let root_node = Node {
            id: 0,
            parent_id: None,
            ty: NodeType::View { buffer_id: default_buffer.id, surface },
        };
        // store
        let buffers = vec![default_buffer];
        let nodes = vec![root_node];
        let w = Self {
            nodes,
            next_node_id: 1,
            buffers,
            next_buff_id: 1,
            active_id: Some(0),
            rank: Ghost(Map::empty().insert(0usize, 0int)),
            floor: Ghost(0int),
            ceil: Ghost(0int),
        };
        proof {
            let v = w@;
            assert(v.order =~= seq![0usize]);
            lemma_map_at(w.nodes@, 0);
            assert(v.nodes.dom() =~= set![0usize]);
            assert(v.nodes =~= map![0usize => root_node]);
            assert(v.links() =~= map![0usize => Link { parent: None, children: None }]);
            lemma_single_leaf(v.rank, 0, 0, 0);
            assert(v.buffers =~= seq![0usize]);
            assert(v.buffers[0] == 0);
        }
        w
    }

    /// Splits the active view in `split_mode`; the second half becomes
    /// active. Nothing happens without an active node or when it is a split.
    pub fn split_active<F: Fn(G, SplitMode) -> (G, G)>(&mut self, split_mode: SplitMode, split: &F)
        requires
            old(self)@.wf(),
            old(self)@.active_stored(),
            old(self)@.next_node + 2 <= usize::MAX,
            forall|g: G, m: SplitMode| split.requires((g, m)),
        ensures
            final(self)@.wf(),
            final(self)@.active_stored(),
            match old(self)@.active {
                None => final(self)@ == old(self)@,
                Some(a) => if old(self)@.nodes[a].ty is Split {
                    final(self)@ == old(self)@
                } else {
                    old(self)@.split_step(final(self)@, split_mode, *split)
                },
            },
    {
        let active_id = match self.active_id {
            Some(id) => id,
            None => return ,  // no active node to split from
        };
        let active_index = self.get_node_index(active_id);
        let node = self.node_at(active_index);
        // fetch id and geometry if buffer node
        let (buffer_id, surface) = match node.ty {
            NodeType::View { buffer_id, surface } => (buffer_id, surface),
            NodeType::Split { .. } => return ,  // split must be called from a buffer
        };
        let ghost v0 = self@;
        let ghost old_links = self@.links();
        // promote active to split mode
        let first_id = self.next_node_id;
        self.next_node_id += 1;
        let second_id = self.next_node_id;
        self.next_node_id += 1;
        self.set_node(
            active_index,
            Node {
                id: active_id,
                parent_id: node.parent_id,
                ty: NodeType::Split { mode: split_mode, first_id, second_id, area: surface },
            },
        );
        // calculate new geometry
        let (first_surface, second_surface) = split(surface, split_mode);
        // create children, on the same buffer
        let first_child = Node {
            id: first_id,
            parent_id: Some(active_id),
            ty: NodeType::View { buffer_id, surface: first_surface },
        };
        proof {
            assert(!self@.order.contains(first_id));
        }
        self.push_node(first_child);
        let second_child = Node {
            id: second_id,
            parent_id: Some(active_id),
            ty: NodeType::View { buffer_id, surface: second_surface },
        };
        // the new view pops at right/bottom
        self.active_id = Some(second_id);
        proof {
            assert(!v0.order.contains(second_id));
            assert(!self@.order.contains(second_id)) by {
                if self@.order.contains(second_id) {
                    let j = choose|j: int| 0 <= j < self@.order.len() && self@.order[j] == second_id;
                    if j < v0.order.len() {
                        assert(v0.order[j] == second_id);
                    }
                }
            }
        }
        self.push_node(second_child);
        proof {
            let r = v0.rank;
            let lower = r[active_id] - 1;
            let new_floor = if lower < v0.floor {
                lower
            } else {
                v0.floor
            };
            assert(!old_links.contains_key(first_id));
            assert(!old_links.contains_key(second_id));
            lemma_grow_leaf(old_links, r, v0.floor, v0.ceil, active_id, first_id, second_id);
            self.rank@ = r.insert(first_id, lower).insert(second_id, lower);
            self.floor@ = new_floor;
            let v = self@;
            assert(v.links() =~= grow_leaf(old_links, active_id, first_id, second_id));
            assert forall|k: NodeId| #[trigger] v.nodes.contains_key(k) <==> v.order.contains(k) by {
                if v0.order.contains(k) {
                    let j = choose|j: int| 0 <= j < v0.order.len() && v0.order[j] == k;
                    assert(v.order[j] == k);
                }
                assert(v.order[v0.order.len() as int] == first_id);
                assert(v.order[v0.order.len() as int + 1] == second_id);
                if v.order.contains(k) && k != first_id && k != second_id {
                    let j = choose|j: int| 0 <= j < v.order.len() && v.order[j] == k;
                    assert(v0.order[j] == k);
                }
            }
        }
    }

    /// Opens a view on a new buffer: by splitting the active view vertically,
    /// or, without an active node, as the root of the empty workspace.
    pub fn add_buffer<W: Fn(Viewport) -> G, F: Fn(G, SplitMode) -> (G, G)>(
        &mut self,
        window_width: u32,
        window_height: u32,
        whole: &W,
        split: &F,
    )
        requires
            old(self)@.wf(),
            old(self)@.active_stored(),
            old(self)@.next_node + 2 <= usize::MAX,
            old(self)@.next_buffer < usize::MAX,
            whole.requires((Viewport { width: window_width, height: window_height },)),
            forall|g: G, m: SplitMode| split.requires((g, m)),
        ensures
            final(self)@.wf(),
            final(self)@.active_stored(),
            match old(self)@.active {
                None => old(self)@.open_step(
                    final(self)@,
                    Viewport { width: window_width, height: window_height },
                    *whole,
                ),
                Some(a) => if old(self)@.nodes[a].ty is Split {
                    final(self)@ == old(self)@
                } else {
                    old(self)@.split_step(final(self)@, SplitMode::Vertical, *split)
                },
            },
    {
        match self.active_id {
            Some(_) => {
                // by default the new split is vertical
                self.split_active(SplitMode::Vertical, split);
            },
            None => {
                let ghost v0 = self@;
                // create default buffer
                let default_buffer = Buffer::new(self.next_buff_id);
                self.next_buff_id += 1;
                // attach it to a node and focus
                let surface = whole(Viewport { width: window_width, height: window_height });
                let new_root_node = Node {
                    id: self.next_node_id,
                    parent_id: None,
                    ty: NodeType::View { buffer_id: default_buffer.id, surface },
                };
                self.next_node_id += 1;
                self.active_id = Some(new_root_node.id);
                self.buffers.push(default_buffer);
                proof {
                    assert(!self@.order.contains(new_root_node.id)) by {
                        assert(v0.order.len() == 0);
                    }
                }
                self.push_node(new_root_node);
                proof {
                    let v = self@;
                    let id = new_root_node.id;
                    assert(v.buffers =~= v0.buffers.push(default_buffer.id));
                    assert(v0.nodes.dom() =~= Set::<NodeId>::empty()) by {
                        assert forall|k: NodeId| !v0.nodes.contains_key(k) by {
                            if v0.nodes.contains_key(k) {
                                assert(v0.order.contains(k));
                            }
                        }
                    }
                    assert(v.nodes =~= map![id => new_root_node]);
                    self.rank@ = map![id => 0int];
                    self.floor@ = 0int;
                    self.ceil@ = 0int;
                    assert(self@.links() =~= map![id => Link { parent: None, children: None }]);
                    lemma_single_leaf(self@.rank, 0, 0, id);
                    assert forall|k: NodeId| #[trigger] v.nodes.contains_key(k) <==> v.order.contains(k) by {
                        assert(v.order[0] == id);
                    }
                    assert(v.buffers[v0.buffers.len() as int] == default_buffer.id);
                    assert forall|i: int| 0 <= i < v.buffers.len() implies #[trigger] v.buffers[i] < v.next_buffer by {
                        if i < v0.buffers.len() {
                            assert(v.buffers[i] == v0.buffers[i]);
                        }
                    }
                    assert(v.buffers.no_duplicates()) by {
                        assert forall|i: int, j: int| 0 <= i < v.buffers.len() && 0 <= j < v.buffers.len() && i != j implies v.buffers[i] != v.buffers[j] by {
                            if i < v0.buffers.len() {
                                assert(v0.buffers[i] < v0.next_buffer);
                            }
                            if j < v0.buffers.len() {
                                assert(v0.buffers[j] < v0.next_buffer);
                            }
                        }
                    }
                }
            },
        }
    }
}


impl<G: Copy> Workspace<G> {
    /// Lays out again the subtree of `id` from `free_area`: every split below
    /// hands the halves of its area to its children and every view takes the
    /// area it is handed. Splits keep the area they recorded.
    fn restore_geometry_recursive<F: Fn(G, SplitMode) -> (G, G)>(
        &mut self,
        id: NodeId,
        free_area: G,
        split: &F,
    ) -> (areas: Ghost<Map<NodeId, G>>)
        requires
            old(self)@.stored_ok(),
            down_ok(old(self)@.links(), old(self)@.rank, old(self)@.floor, id),
            forall|g: G, m: SplitMode| split.requires((g, m)),
        ensures
            laid_out(
                final(self)@.links(),
                final(self)@.rank,
                final(self)@.floor,
                final(self)@.slots(),
                *split,
                id,
                areas@,
            ),
            areas@.contains_key(id) && areas@[id] == free_area,
            final(self)@.nodes.dom() == old(self)@.nodes.dom(),
            forall|x: NodeId| #[trigger]
                old(self)@.nodes.contains_key(x) ==> final(self)@.nodes[x] == with_surface(
                    old(self)@.nodes[x],
                    area_of(final(self)@.nodes[x]),
                ),
            forall|x: NodeId|
                old(self)@.nodes.contains_key(x) && !reach(
                    old(self)@.links(),
                    old(self)@.rank,
                    old(self)@.floor,
                    x,
                    id,
                ) ==> #[trigger] final(self)@.nodes[x] == old(self)@.nodes[x],
            final(self)@.links() == old(self)@.links(),
            final(self)@ == (SplitsView { nodes: final(self)@.nodes, ..old(self)@ }),
            final(self)@.stored_ok(),
        decreases old(self)@.rank[id] - old(self)@.floor,
    {
        let ghost links = self@.links();
        let ghost rank = self@.rank;
        let ghost floor = self@.floor;
        proof {
            assert(reach(links, rank, floor, id, id));
            assert(node_ok(links, rank, floor, id));
            assert(self@.nodes.contains_key(id));
        }
        let index = self.get_node_index(id);
        let node = self.node_at(index);
        match node.ty {
            // split the area and call recursively on the children
            NodeType::Split { mode, first_id, second_id, .. } => {
                let (first_area, second_area) = split(free_area, mode);
                proof {
                    lemma_reach_child(links, rank, floor, id);
                    lemma_down_ok_sub(links, rank, floor, first_id, id);
                    lemma_down_ok_sub(links, rank, floor, second_id, id);
                }
                let a1 = self.restore_geometry_recursive(first_id, first_area, split);
                let ghost middle = self@;
                let a2 = self.restore_geometry_recursive(second_id, second_area, split);
                proof {
                    let after = self@;
                    assert forall|x: NodeId|
                        #[trigger] reach(links, rank, floor, x, first_id) implies middle.slots().contains_key(x)
                        && after.slots().contains_key(x) && after.slots()[x] == middle.slots()[x] by {
                        lemma_children_disjoint(links, rank, floor, id, x);
                        lemma_reach_trans(links, rank, floor, x, first_id, id);
                        lemma_reach_rank(links, rank, floor, x, first_id);
                    }
                    lemma_laid_out_frame(
                        links,
                        rank,
                        floor,
                        middle.slots(),
                        after.slots(),
                        *split,
                        first_id,
                        a1@,
                    );
                    assert(!reach(links, rank, floor, id, first_id)) by {
                        if reach(links, rank, floor, id, first_id) {
                            lemma_reach_rank(links, rank, floor, id, first_id);
                        }
                    }
                    assert(!reach(links, rank, floor, id, second_id)) by {
                        if reach(links, rank, floor, id, second_id) {
                            lemma_reach_rank(links, rank, floor, id, second_id);
                        }
                    }
                    assert(after.slots()[id] == Slot::<G>::Fork(mode));
                    lemma_laid_out_fork(
                        links,
                        rank,
                        floor,
                        after.slots(),
                        *split,
                        id,
                        mode,
                        free_area,
                        a1@,
                        a2@,
                    );
                    assert forall|x: NodeId|
                        old(self)@.nodes.contains_key(x) && !reach(
                            links,
                            rank,
                            floor,
                            x,
                            id,
                        ) implies #[trigger] after.nodes[x] == old(self)@.nodes[x] by {
                        if reach(links, rank, floor, x, first_id) {
                            lemma_reach_trans(links, rank, floor, x, first_id, id);
                        }
                        if reach(links, rank, floor, x, second_id) {
                            lemma_reach_trans(links, rank, floor, x, second_id, id);
                        }
                    }
                }
                Ghost(a1@.union_prefer_right(a2@).insert(id, free_area))
            },
            // a view directly takes the area
            NodeType::View { buffer_id, .. } => {
                self.set_node(
                    index,
                    Node {
                        id,
                        parent_id: node.parent_id,
                        ty: NodeType::View { buffer_id, surface: free_area },
                    },
                );
                proof {
                    assert(self@.links() =~= links);
                    assert(self@.slots()[id] == Slot::<G>::Leaf(free_area));
                    lemma_laid_out_leaf(links, rank, floor, self@.slots(), *split, id, free_area);
                    assert(map![id => free_area] =~= Map::<NodeId, G>::empty().insert(id, free_area));
                    assert forall|x: NodeId|
                        old(self)@.nodes.contains_key(x) && !reach(
                            links,
                            rank,
                            floor,
                            x,
                            id,
                        ) implies #[trigger] self@.nodes[x] == old(self)@.nodes[x] by {
                        assert(x != id);
                    }
                    assert(self@.nodes.dom() =~= old(self)@.nodes.dom());
                }
                Ghost(Map::<NodeId, G>::empty().insert(id, free_area))
            },
        }
    }
}


impl<G: Copy> Workspace<G> {
    /// Deletes the active view. A root view goes with its buffer. Otherwise
    /// its parent split takes over the place of the sibling and the views
    /// below it are laid out again from its area. The active id is left as
    /// it was. Nothing happens without an active node or when it is a split.
    #[verifier::spinoff_prover]
    #[verifier::rlimit(50)]
    pub fn delete_active<F: Fn(G, SplitMode) -> (G, G)>(&mut self, split: &F)
        requires
            old(self)@.wf(),
            old(self)@.active_stored(),
            old(self)@.delete_safe(),
            forall|g: G, m: SplitMode| split.requires((g, m)),
        ensures
            final(self)@.wf(),
            match old(self)@.active {
                None => final(self)@ == old(self)@,
                Some(a) => if old(self)@.nodes[a].ty is Split {
                    final(self)@ == old(self)@
                } else {
                    old(self)@.delete_step(final(self)@, *split)
                },
            },
    {
        let ghost v0 = self@;
        let ghost l0 = self@.links();
        let ghost rank = self@.rank;
        let ghost floor = self@.floor;
        let ghost ceil = self@.ceil;
        let active_id = match self.active_id {
            Some(id) => id,
            None => return ,  // no active node to delete
        };
        let active_index = self.get_node_index(active_id);
        let active = self.node_at(active_index);
        // fetch id if buffer node
        let buffer_id = match active.ty {
            NodeType::View { buffer_id, .. } => buffer_id,
            NodeType::Split { .. } => return ,  // delete must be called from a buffer
        };
        let buffer_index = self.get_buff_index(buffer_id);
        proof {
            assert(l0.contains_key(active_id));
            assert(node_ok(l0, rank, floor, active_id));
            assert(v0.order.index_of(active_id) == active_index as int) by {
                let j = v0.order.index_of(active_id);
                assert(0 <= j < v0.order.len() && v0.order[j] == active_id);
            }
        }
        // delete whole if root
        let parent_id = match active.parent_id {
            Some(id) => id,
            None => {
                proof {
                    assert(is_root(l0, active_id));
                    lemma_leaf_root_alone(l0, rank, floor, ceil, active_id);
                    assert(v0.buffers.index_of(buffer_id) == buffer_index as int) by {
                        let j = v0.buffers.index_of(buffer_id);
                        assert(0 <= j < v0.buffers.len() && v0.buffers[j] == buffer_id);
                    }
                }
                self.swap_remove_node(active_index);
                // no other node views the buffer
                self.swap_remove_buffer(buffer_index);
                proof {
                    let v = self@;
                    assert(v0.nodes.dom() =~= l0.dom());
                    assert(v.nodes.dom() =~= Set::<NodeId>::empty());
                    assert(v.links() =~= Map::<NodeId, Link>::empty());
                    lemma_empty_tree(rank, floor, ceil);
                    lemma_seq_swap_removed(v0.order, active_index as int);
                    lemma_seq_swap_removed(v0.buffers, buffer_index as int);
                    assert forall|i: int| 0 <= i < v.buffers.len() implies #[trigger] v.buffers[i]
                        < v.next_buffer by {
                        assert(v.buffers.contains(v.buffers[i]));
                        let j = choose|j: int| 0 <= j < v0.buffers.len() && v0.buffers[j] == v.buffers[i];
                        assert(v0.buffers[j] < v0.next_buffer);
                    }
                }
                return ;
            },
        };
        proof {
            assert(l0.contains_key(parent_id));
            assert(node_ok(l0, rank, floor, parent_id));
        }
        let parent_index = self.get_node_index(parent_id);
        let parent = self.node_at(parent_index);
        // fetch sibling id from parent (split node)
        let (sibling_id, parent_area) = match parent.ty {
            NodeType::Split { first_id, second_id, area, .. } => {
                let id = if active_id == first_id {
                    second_id
                } else if active_id == second_id {
                    first_id
                } else {
                    return ;  // buffer is pointing to another parent
                };
                (id, area)
            },
            NodeType::View { .. } => return ,  // parent of the buffer is a buffer
        };
        proof {
            assert(sibling_id == v0.active_sibling());
            lemma_collapse(l0, rank, floor, ceil, active_id, parent_id, sibling_id);
            assert(node_ok(l0, rank, floor, sibling_id));
        }
        let sibling_index = self.get_node_index(sibling_id);
        let sibling = self.node_at(sibling_index);
        proof {
            assert(v0.order.index_of(sibling_id) == sibling_index as int) by {
                let j = v0.order.index_of(sibling_id);
                assert(0 <= j < v0.order.len() && v0.order[j] == sibling_id);
            }
        }
        // promote parent to sibling type, preserving the parent node
        self.set_node(
            parent_index,
            Node { id: parent_id, parent_id: parent.parent_id, ty: sibling.ty },
        );
        // update sibling's children if any
        match sibling.ty {
            NodeType::Split { first_id, second_id, .. } => {
                proof {
                    assert(v0.nodes.contains_key(first_id) && v0.nodes.contains_key(second_id));
                }
                let first_index = self.get_node_index(first_id);
                let first = self.node_at(first_index);
                self.set_node(
                    first_index,
                    Node { id: first.id, parent_id: Some(parent_id), ty: first.ty },
                );
                let second_index = self.get_node_index(second_id);
                let second = self.node_at(second_index);
                self.set_node(
                    second_index,
                    Node { id: second.id, parent_id: Some(parent_id), ty: second.ty },
                );
            },
            NodeType::View { .. } => {},
        }
        let ghost l1 = lift_children(l0, parent_id, sibling_id);
        proof {
            assert(self@.nodes =~= v0.relinked(parent_id, sibling_id));
            assert(self@.links() =~= l1);
        }
        let ghost relinked = self@.nodes;
        // restore the geometry and clean stale nodes
        let areas = self.restore_geometry_recursive(parent_id, parent_area, split);
        let ghost restored = self@;
        proof {
            assert(restored.order[active_index as int] == active_id);
        }
        self.swap_remove_node(active_index);
        proof {
            let o1 = swap_removed(v0.order, active_index as int);
            assert(o1.len() == v0.order.len() - 1);
            assert(v0.order.last() != sibling_id);
            assert(sibling_index as int != v0.order.len() - 1) by {
                assert(v0.order[v0.order.len() - 1] == v0.order.last());
            }
            assert(self@.order[sibling_index as int] == sibling_id);
        }
        self.swap_remove_node(sibling_index);
        let ghost l2 = l1.remove(active_id).remove(sibling_id);
        proof {
            let v = self@;
            assert(v.links() =~= l2);
            assert(l2.contains_key(parent_id));
            // the subtree of the parent holds neither removed node
            assert forall|z: NodeId| #[trigger] reach(l1, rank, floor, z, parent_id) implies z
                != active_id && z != sibling_id by {
                if z == active_id || z == sibling_id {
                    lemma_reach_up_contra(l1, rank, floor, z, parent_id);
                }
            }
            assert forall|z: NodeId| #[trigger] reach(l1, rank, floor, z, parent_id) implies l1.contains_key(z)
                && l2.contains_key(z) && l2[z] == l1[z] && restored.slots().contains_key(z)
                && v.slots().contains_key(z) && v.slots()[z] == restored.slots()[z] by {
                assert(node_ok(l1, rank, floor, z));
            }
            lemma_laid_out_links_frame(
                l1,
                l2,
                rank,
                floor,
                restored.slots(),
                v.slots(),
                *split,
                parent_id,
                areas@,
            );
            assert(v0.area(parent_id) == parent_area);
            assert(v.rank == rank && v.floor == floor);
            assert(laid_out(v.links(), v.rank, v.floor, v.slots(), *split, parent_id, areas@));
            assert(v.laid_out_from(parent_id, v0.area(parent_id), *split));
            assert forall|x: NodeId| reach(l1, rank, floor, x, parent_id) == reach(
                l2,
                rank,
                floor,
                x,
                parent_id,
            ) by {
                lemma_reach_frame(l1, l2, rank, floor, x, parent_id);
            }
            // storage
            let o1 = swap_removed(v0.order, active_index as int);
            lemma_seq_swap_removed(v0.order, active_index as int);
            lemma_seq_swap_removed(o1, sibling_index as int);
            assert forall|k: NodeId| #[trigger] v.nodes.contains_key(k) implies v.nodes[k].id == k by {
                assert(relinked.contains_key(k));
                assert(v0.nodes.contains_key(k));
            }
            assert forall|k: NodeId| #[trigger] v.nodes.contains_key(k) implies k < v.next_node by {
                assert(v0.nodes.contains_key(k));
            }
            assert forall|id: NodeId| #[trigger]
                v.nodes.contains_key(id) && v.nodes[id].ty is View implies v.buffers.contains(
                v.nodes[id].ty->buffer_id,
            ) by {
                assert(relinked.contains_key(id));
                if id == parent_id {
                    assert(v0.nodes.contains_key(sibling_id));
                } else {
                    assert(v0.nodes.contains_key(id));
                }
            }
        }
    }
}


/// Deleting the view that a split just opened gives back the nodes, their
/// storage order and the buffers as they were before the split. (The active
/// id still names the deleted view.) Right after a split, the deletion is
/// always possible.
pub proof fn lemma_delete_undoes_split<G, F: Fn(G, SplitMode) -> (G, G)>(
    v0: SplitsView<G>,
    v1: SplitsView<G>,
    v2: SplitsView<G>,
    mode: SplitMode,
    split: F,
)
    requires
        v0.wf(),
        v0.active_stored(),
        v0.split_step(v1, mode, split),
        v1.delete_step(v2, split),
    ensures
        v1.delete_safe(),
        v2.order == v0.order,
        v2.nodes == v0.nodes,
        v2.buffers == v0.buffers,
{
    let a = v0.active->0;
    let n1 = v0.next_node;
    let n2 = (v0.next_node + 1) as NodeId;
    let len = v0.order.len() as int;
    assert(v0.nodes.contains_key(a));
    assert(!v0.nodes.contains_key(n1));
    assert(!v0.nodes.contains_key(n2));
    assert(v1.nodes[n2].parent_id == Some(a));
    assert(v1.active_sibling() == n1);
    assert(v1.order[len + 1] == n2 && v1.order[len] == n1);
    assert(v1.order.index_of(n2) == len + 1) by {
        let j = v1.order.index_of(n2);
        assert(v1.order.contains(n2)) by {
            assert(v1.order[len + 1] == n2);
        }
        assert(0 <= j < v1.order.len() && v1.order[j] == n2);
        if j < len {
            assert(v0.order[j] == n2);
            assert(v0.order.contains(n2));
        }
    }
    assert(v1.order.index_of(n1) == len) by {
        let j = v1.order.index_of(n1);
        assert(v1.order.contains(n1)) by {
            assert(v1.order[len] == n1);
        }
        assert(0 <= j < v1.order.len() && v1.order[j] == n1);
        if j < len {
            assert(v0.order[j] == n1);
            assert(v0.order.contains(n1));
        }
    }
    assert(v1.order.last() == n2);
    assert(swap_removed(swap_removed(v1.order, len + 1), len) =~= v0.order);
    let relinked = v1.relinked(a, n1);
    assert(relinked.dom().remove(n2).remove(n1) =~= v0.nodes.dom());
    assert(v2.nodes.contains_key(a));
    // the former split is now a view, so nothing lies below it
    assert(v2.links()[a].children is None);
    assert forall|x: NodeId| v2.in_subtree(x, a) implies x == a by {
        reveal_with_fuel(reach, 2);
    }
    let areas = choose|areas: Map<NodeId, G>|
        #[trigger] laid_out(v2.links(), v2.rank, v2.floor, v2.slots(), split, a, areas)
            && areas.contains_key(a) && areas[a] == v1.area(a);
    assert(reach(v2.links(), v2.rank, v2.floor, a, a));
    assert(areas.contains_key(a));
    assert(v2.slots()[a] == node_slot(v2.nodes[a]));
    assert forall|x: NodeId| #[trigger] v2.nodes.contains_key(x) implies v2.nodes[x]
        == v0.nodes[x] by {
        if x != a {
            assert(!v2.in_subtree(x, a));
        } else {
            assert(v0.nodes[a].id == a);
        }
    }
    assert(v2.nodes =~= v0.nodes);
}


/// Splitting the active view makes it a split in the asked direction over
/// its former area; its first child takes the first half that `split`
/// makes and its second child the second half, both show the split view's
/// buffer, and the second child becomes active.
pub proof fn lemma_split_activates_second_half<G, F: Fn(G, SplitMode) -> (G, G)>(
    v0: SplitsView<G>,
    v1: SplitsView<G>,
    mode: SplitMode,
    split: F,
)
    requires
        v0.wf(),
        v0.active_stored(),
        v0.next_node + 2 <= usize::MAX,
        v0.split_step(v1, mode, split),
    ensures
        ({
            let a = v0.active->0;
            let l = node_link(v1.nodes[a]);
            &&& v1.nodes[a].ty matches NodeType::Split { mode: m, .. } && m == mode
            &&& l.children is Some
            &&& v1.active == Some(kid1(l))
            &&& kid0(l) != kid1(l)
            &&& v1.area(a) == v0.area(a)
            &&& call_ensures(split, (v0.area(a), mode), (v1.area(kid0(l)), v1.area(kid1(l))))
            &&& v1.nodes[kid0(l)].ty is View && v1.nodes[kid1(l)].ty is View
            &&& v1.nodes[kid0(l)].ty->View_buffer_id == v0.nodes[a].ty->View_buffer_id
            &&& v1.nodes[kid1(l)].ty->View_buffer_id == v0.nodes[a].ty->View_buffer_id
            &&& v1.nodes[kid0(l)].parent_id == Some(a) && v1.nodes[kid1(l)].parent_id == Some(a)
        }),
{
    let a = v0.active->0;
    assert(v0.nodes.contains_key(a));
    assert(a < v0.next_node);
}

} // verus!
