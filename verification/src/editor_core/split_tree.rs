//! The shape of a split-view tree, independent of how its nodes are stored:
//! every node is either a leaf (a view on a buffer) or a fork that splits its
//! area between two children.
use vstd::prelude::*;

verus! {

pub type NodeId = usize;

/// The direction in which a fork divides its area.
#[derive(Debug, Clone, Copy, PartialEq, Eq)]
pub enum SplitMode {
    /// Side by side: left and right halves.
    Vertical,
    /// Stacked: top and bottom halves.
    Horizontal,
}

/// How one node is linked to its parent and to its children, if any.
pub struct Link {
    pub parent: Option<NodeId>,
    pub children: Option<(NodeId, NodeId)>,
}

/// The first child of a fork.
pub open spec fn kid0(l: Link) -> NodeId {
    match l.children {
        Some((f, _)) => f,
        None => 0,
    }
}

/// The second child of a fork.
pub open spec fn kid1(l: Link) -> NodeId {
    match l.children {
        Some((_, s)) => s,
        None => 0,
    }
}

/// `c` ranks strictly below `p` and not below `floor`: walks down a tree
/// that only take such steps end.
pub open spec fn ranked_below(rank: Map<NodeId, int>, floor: int, p: NodeId, c: NodeId) -> bool {
    rank.contains_key(c) && rank.contains_key(p) && floor <= rank[c] < rank[p]
}

/// `x` lies in the subtree rooted at `y` (`y` included).
pub open spec fn reach(
    links: Map<NodeId, Link>,
    rank: Map<NodeId, int>,
    floor: int,
    x: NodeId,
    y: NodeId,
) -> bool
    decreases rank[y] - floor,
{
    if x == y {
        true
    } else if links.contains_key(y) && links[y].children is Some {
        let f = kid0(links[y]);
        let s = kid1(links[y]);
        (ranked_below(rank, floor, y, f) && reach(links, rank, floor, x, f)) || (ranked_below(
            rank,
            floor,
            y,
            s,
        ) && reach(links, rank, floor, x, s))
    } else {
        false
    }
}

/// The node `x` is stored, ranked, and its children (if any) are two distinct
/// stored nodes, ranked below it, that name `x` as their parent.
pub open spec fn node_ok(
    links: Map<NodeId, Link>,
    rank: Map<NodeId, int>,
    floor: int,
    x: NodeId,
) -> bool {
    &&& links.contains_key(x)
    &&& rank.contains_key(x)
    &&& floor <= rank[x]
    &&& match links[x].children {
        Some((f, s)) => {
            &&& f != s
            &&& links.contains_key(f)
            &&& links.contains_key(s)
            &&& ranked_below(rank, floor, x, f)
            &&& ranked_below(rank, floor, x, s)
            &&& links[f].parent == Some(x)
            &&& links[s].parent == Some(x)
        },
        None => true,
    }
}

/// Every node of the subtree rooted at `y` is well linked.
pub open spec fn down_ok(
    links: Map<NodeId, Link>,
    rank: Map<NodeId, int>,
    floor: int,
    y: NodeId,
) -> bool {
    forall|x: NodeId| #[trigger] reach(links, rank, floor, x, y) ==> node_ok(links, rank, floor, x)
}

pub open spec fn is_root(links: Map<NodeId, Link>, x: NodeId) -> bool {
    links.contains_key(x) && links[x].parent is None
}

/// The parent of `x`, if any, is a stored fork that names `x` as a child.
pub open spec fn parent_ok(links: Map<NodeId, Link>, x: NodeId) -> bool {
    match links[x].parent {
        Some(p) => {
            &&& links.contains_key(p)
            &&& links[p].children is Some
            &&& (kid0(links[p]) == x || kid1(links[p]) == x)
        },
        None => true,
    }
}

/// A well-formed split tree: every node is well linked both ways, ranks lie
/// in `[floor, ceil]`, and a non-empty tree has exactly one root.
pub open spec fn tree_wf(
    links: Map<NodeId, Link>,
    rank: Map<NodeId, int>,
    floor: int,
    ceil: int,
) -> bool {
    &&& forall|x: NodeId| #[trigger]
        links.contains_key(x) ==> node_ok(links, rank, floor, x) && rank[x] <= ceil && parent_ok(
            links,
            x,
        )
    &&& forall|a: NodeId, b: NodeId|
        #![trigger is_root(links, a), is_root(links, b)]
        is_root(links, a) && is_root(links, b) ==> a == b
    &&& links.dom().len() > 0 ==> exists|r: NodeId| #[trigger] is_root(links, r)
    &&& links.dom().finite()
}

/// The first leaf met when walking down from `y` through first children.
pub open spec fn leftmost(
    links: Map<NodeId, Link>,
    rank: Map<NodeId, int>,
    floor: int,
    y: NodeId,
) -> NodeId
    decreases rank[y] - floor,
{
    if links.contains_key(y) && links[y].children is Some && ranked_below(
        rank,
        floor,
        y,
        kid0(links[y]),
    ) {
        leftmost(links, rank, floor, kid0(links[y]))
    } else {
        y
    }
}

/// What the layout needs to know of one node: a leaf's current area, or the
/// direction in which a fork splits.
pub enum Slot<G> {
    Leaf(G),
    Fork(SplitMode),
}

/// `areas` gives every node of the subtree of `y` an area such that each
/// fork's children got the two halves that `split` made of the fork's area,
/// and every leaf holds its own area.
pub open spec fn laid_out<G, F: Fn(G, SplitMode) -> (G, G)>(
    links: Map<NodeId, Link>,
    rank: Map<NodeId, int>,
    floor: int,
    slots: Map<NodeId, Slot<G>>,
    split: F,
    y: NodeId,
    areas: Map<NodeId, G>,
) -> bool {
    &&& forall|x: NodeId|
        #![trigger areas.contains_key(x)]
        #![trigger reach(links, rank, floor, x, y)]
        areas.contains_key(x) <==> reach(links, rank, floor, x, y)
    &&& forall|x: NodeId| #[trigger]
        areas.contains_key(x) ==> slot_placed(links, slots, split, areas, x)
}

pub open spec fn slot_placed<G, F: Fn(G, SplitMode) -> (G, G)>(
    links: Map<NodeId, Link>,
    slots: Map<NodeId, Slot<G>>,
    split: F,
    areas: Map<NodeId, G>,
    x: NodeId,
) -> bool {
    &&& slots.contains_key(x)
    &&& match slots[x] {
        Slot::Leaf(g) => g == areas[x],
        Slot::Fork(mode) => {
            &&& links[x].children is Some
            &&& call_ensures(
                split,
                (areas[x], mode),
                (areas[kid0(links[x])], areas[kid1(links[x])]),
            )
        },
    }
}

pub proof fn lemma_reach_rank(
    links: Map<NodeId, Link>,
    rank: Map<NodeId, int>,
    floor: int,
    x: NodeId,
    y: NodeId,
)
    requires
        reach(links, rank, floor, x, y),
        rank.contains_key(y),
        floor <= rank[y],
    ensures
        rank.contains_key(x),
        floor <= rank[x] <= rank[y],
        x != y ==> rank[x] < rank[y],
    decreases rank[y] - floor,
{
    if x != y {
        let f = kid0(links[y]);
        let s = kid1(links[y]);
        if ranked_below(rank, floor, y, f) && reach(links, rank, floor, x, f) {
            lemma_reach_rank(links, rank, floor, x, f);
        } else {
            lemma_reach_rank(links, rank, floor, x, s);
        }
    }
}

pub proof fn lemma_reach_trans(
    links: Map<NodeId, Link>,
    rank: Map<NodeId, int>,
    floor: int,
    x: NodeId,
    y: NodeId,
    z: NodeId,
)
    requires
        reach(links, rank, floor, x, y),
        reach(links, rank, floor, y, z),
    ensures
        reach(links, rank, floor, x, z),
    decreases rank[z] - floor,
{
    if y != z {
        let f = kid0(links[z]);
        let s = kid1(links[z]);
        if ranked_below(rank, floor, z, f) && reach(links, rank, floor, y, f) {
            lemma_reach_trans(links, rank, floor, x, y, f);
        } else {
            lemma_reach_trans(links, rank, floor, x, y, s);
        }
    }
}

/// A direct child lies in its parent's subtree.
pub proof fn lemma_reach_child(
    links: Map<NodeId, Link>,
    rank: Map<NodeId, int>,
    floor: int,
    y: NodeId,
)
    requires
        node_ok(links, rank, floor, y),
        links[y].children is Some,
    ensures
        reach(links, rank, floor, kid0(links[y]), y),
        reach(links, rank, floor, kid1(links[y]), y),
{
    let f = kid0(links[y]);
    let s = kid1(links[y]);
    assert(reach(links, rank, floor, f, f));
    assert(reach(links, rank, floor, s, s));
}

pub proof fn lemma_down_ok_sub(
    links: Map<NodeId, Link>,
    rank: Map<NodeId, int>,
    floor: int,
    y: NodeId,
    z: NodeId,
)
    requires
        down_ok(links, rank, floor, z),
        reach(links, rank, floor, y, z),
    ensures
        down_ok(links, rank, floor, y),
{
    assert forall|x: NodeId| #[trigger] reach(links, rank, floor, x, y) implies node_ok(
        links,
        rank,
        floor,
        x,
    ) by {
        lemma_reach_trans(links, rank, floor, x, y, z);
    }
}

/// Below `y`, every node other than `y` has a parent inside the subtree that
/// names it as a child.
pub proof fn lemma_reach_up(
    links: Map<NodeId, Link>,
    rank: Map<NodeId, int>,
    floor: int,
    x: NodeId,
    y: NodeId,
)
    requires
        down_ok(links, rank, floor, y),
        reach(links, rank, floor, x, y),
        x != y,
    ensures
        links[x].parent is Some,
        reach(links, rank, floor, links[x].parent->0, y),
        links.contains_key(links[x].parent->0),
        links[links[x].parent->0].children is Some,
        kid0(links[links[x].parent->0]) == x || kid1(links[links[x].parent->0])
            == x,
    decreases rank[y] - floor,
{
    assert(reach(links, rank, floor, y, y));
    assert(node_ok(links, rank, floor, y));
    let f = kid0(links[y]);
    let s = kid1(links[y]);
    lemma_reach_child(links, rank, floor, y);
    let c = if ranked_below(rank, floor, y, f) && reach(links, rank, floor, x, f) {
        f
    } else {
        s
    };
    assert(reach(links, rank, floor, x, c));
    if x != c {
        lemma_down_ok_sub(links, rank, floor, c, y);
        lemma_reach_up(links, rank, floor, x, c);
        lemma_reach_trans(links, rank, floor, links[x].parent->0, c, y);
    }
}

/// Two subtrees that share a node are nested.
pub proof fn lemma_reach_comparable(
    links: Map<NodeId, Link>,
    rank: Map<NodeId, int>,
    floor: int,
    x: NodeId,
    u: NodeId,
    v: NodeId,
    y: NodeId,
)
    requires
        down_ok(links, rank, floor, y),
        reach(links, rank, floor, u, y),
        reach(links, rank, floor, v, y),
        reach(links, rank, floor, x, u),
        reach(links, rank, floor, x, v),
    ensures
        reach(links, rank, floor, u, v) || reach(links, rank, floor, v, u),
    decreases rank[u] - rank[x],
{
    assert(node_ok(links, rank, floor, u));
    lemma_reach_rank(links, rank, floor, x, u);
    if x != u && x != v {
        lemma_down_ok_sub(links, rank, floor, u, y);
        lemma_down_ok_sub(links, rank, floor, v, y);
        lemma_reach_up(links, rank, floor, x, u);
        lemma_reach_up(links, rank, floor, x, v);
        let p = links[x].parent->0;
        lemma_reach_trans(links, rank, floor, x, u, y);
        assert(node_ok(links, rank, floor, p)) by {
            lemma_reach_trans(links, rank, floor, p, u, y);
        }
        assert(node_ok(links, rank, floor, u));
        lemma_reach_rank(links, rank, floor, p, u);
        lemma_reach_comparable(links, rank, floor, p, u, v, y);
    }
}

/// The subtrees of a fork's two children have no node in common.
pub proof fn lemma_children_disjoint(
    links: Map<NodeId, Link>,
    rank: Map<NodeId, int>,
    floor: int,
    y: NodeId,
    x: NodeId,
)
    requires
        down_ok(links, rank, floor, y),
        links[y].children is Some,
    ensures
        !(reach(links, rank, floor, x, kid0(links[y])) && reach(
            links,
            rank,
            floor,
            x,
            kid1(links[y]),
        )),
{
    let f = kid0(links[y]);
    let s = kid1(links[y]);
    assert(reach(links, rank, floor, y, y));
    assert(node_ok(links, rank, floor, y));
    lemma_reach_child(links, rank, floor, y);
    if reach(links, rank, floor, x, f) && reach(links, rank, floor, x, s) {
        lemma_reach_comparable(links, rank, floor, x, f, s, y);
        if reach(links, rank, floor, f, s) {
            lemma_down_ok_sub(links, rank, floor, s, y);
            lemma_reach_up(links, rank, floor, f, s);
            lemma_reach_rank(links, rank, floor, y, s);
        } else {
            lemma_down_ok_sub(links, rank, floor, f, y);
            lemma_reach_up(links, rank, floor, s, f);
            lemma_reach_rank(links, rank, floor, y, f);
        }
    }
}


/// Within a tree whose nodes are all well linked, a subtree holds stored nodes only.
pub proof fn lemma_reach_dom(
    links: Map<NodeId, Link>,
    rank: Map<NodeId, int>,
    floor: int,
    x: NodeId,
    y: NodeId,
)
    requires
        forall|z: NodeId| #[trigger] links.contains_key(z) ==> node_ok(links, rank, floor, z),
        links.contains_key(y),
        reach(links, rank, floor, x, y),
    ensures
        links.contains_key(x),
    decreases rank[y] - floor,
{
    if x != y {
        assert(node_ok(links, rank, floor, y));
        let f = kid0(links[y]);
        let s = kid1(links[y]);
        if ranked_below(rank, floor, y, f) && reach(links, rank, floor, x, f) {
            lemma_reach_dom(links, rank, floor, x, f);
        } else {
            lemma_reach_dom(links, rank, floor, x, s);
        }
    }
}

/// In a well-formed tree every stored node roots a well-linked subtree.
pub proof fn lemma_tree_down_ok(
    links: Map<NodeId, Link>,
    rank: Map<NodeId, int>,
    floor: int,
    ceil: int,
    y: NodeId,
)
    requires
        tree_wf(links, rank, floor, ceil),
        links.contains_key(y),
    ensures
        down_ok(links, rank, floor, y),
{
    assert forall|x: NodeId| #[trigger] reach(links, rank, floor, x, y) implies node_ok(
        links,
        rank,
        floor,
        x,
    ) by {
        lemma_reach_dom(links, rank, floor, x, y);
    }
}

/// In a well-formed tree every stored node lies below the root.
pub proof fn lemma_reach_root(
    links: Map<NodeId, Link>,
    rank: Map<NodeId, int>,
    floor: int,
    ceil: int,
    x: NodeId,
    r: NodeId,
)
    requires
        tree_wf(links, rank, floor, ceil),
        links.contains_key(x),
        is_root(links, r),
    ensures
        reach(links, rank, floor, x, r),
    decreases ceil - rank[x],
{
    assert(node_ok(links, rank, floor, x) && rank[x] <= ceil && parent_ok(links, x));
    if links[x].parent is None {
        assert(is_root(links, x));
    } else {
        let p = links[x].parent->0;
        assert(node_ok(links, rank, floor, p) && rank[p] <= ceil);
        lemma_reach_root(links, rank, floor, ceil, p, r);
        lemma_reach_child(links, rank, floor, p);
        lemma_reach_trans(links, rank, floor, x, p, r);
    }
}

/// A root without children is the only node of its tree.
pub proof fn lemma_leaf_root_alone(
    links: Map<NodeId, Link>,
    rank: Map<NodeId, int>,
    floor: int,
    ceil: int,
    r: NodeId,
)
    requires
        tree_wf(links, rank, floor, ceil),
        is_root(links, r),
        links[r].children is None,
    ensures
        links.dom() =~= set![r],
{
    assert forall|x: NodeId| links.contains_key(x) implies x == r by {
        lemma_reach_root(links, rank, floor, ceil, x, r);
    }
}

/// Walking down first children from `y` ends on a leaf of `y`'s subtree.
pub proof fn lemma_leftmost(
    links: Map<NodeId, Link>,
    rank: Map<NodeId, int>,
    floor: int,
    y: NodeId,
)
    requires
        down_ok(links, rank, floor, y),
    ensures
        reach(links, rank, floor, leftmost(links, rank, floor, y), y),
        links.contains_key(leftmost(links, rank, floor, y)),
        links[leftmost(links, rank, floor, y)].children is None,
    decreases rank[y] - floor,
{
    assert(reach(links, rank, floor, y, y));
    assert(node_ok(links, rank, floor, y));
    if links[y].children is Some {
        let f = kid0(links[y]);
        lemma_reach_child(links, rank, floor, y);
        lemma_down_ok_sub(links, rank, floor, f, y);
        lemma_leftmost(links, rank, floor, f);
        lemma_reach_trans(links, rank, floor, leftmost(links, rank, floor, f), f, y);
    }
}

/// A leaf alone is laid out by giving it its own area.
pub proof fn lemma_laid_out_leaf<G, F: Fn(G, SplitMode) -> (G, G)>(
    links: Map<NodeId, Link>,
    rank: Map<NodeId, int>,
    floor: int,
    slots: Map<NodeId, Slot<G>>,
    split: F,
    y: NodeId,
    area: G,
)
    requires
        links.contains_key(y),
        links[y].children is None,
        slots.contains_key(y),
        slots[y] == Slot::<G>::Leaf(area),
    ensures
        laid_out(links, rank, floor, slots, split, y, map![y => area]),
{
    assert forall|x: NodeId| map![y => area].contains_key(x) <==> reach(
        links,
        rank,
        floor,
        x,
        y,
    ) by {
        if x != y {
            assert(!reach(links, rank, floor, x, y));
        }
    }
}

/// A layout only depends on the slots of the laid-out subtree.
pub proof fn lemma_laid_out_frame<G, F: Fn(G, SplitMode) -> (G, G)>(
    links: Map<NodeId, Link>,
    rank: Map<NodeId, int>,
    floor: int,
    slots1: Map<NodeId, Slot<G>>,
    slots2: Map<NodeId, Slot<G>>,
    split: F,
    y: NodeId,
    areas: Map<NodeId, G>,
)
    requires
        laid_out(links, rank, floor, slots1, split, y, areas),
        forall|x: NodeId|
            #[trigger] reach(links, rank, floor, x, y) ==> slots1.contains_key(x)
                && slots2.contains_key(x) && slots2[x] == slots1[x],
    ensures
        laid_out(links, rank, floor, slots2, split, y, areas),
{
    assert forall|x: NodeId| #[trigger] areas.contains_key(x) implies slot_placed(
        links,
        slots2,
        split,
        areas,
        x,
    ) by {
        assert(reach(links, rank, floor, x, y));
        assert(slot_placed(links, slots1, split, areas, x));
    }
}

/// Laying out both children of a fork from the two halves of its area lays
/// out the fork.
pub proof fn lemma_laid_out_fork<G, F: Fn(G, SplitMode) -> (G, G)>(
    links: Map<NodeId, Link>,
    rank: Map<NodeId, int>,
    floor: int,
    slots: Map<NodeId, Slot<G>>,
    split: F,
    y: NodeId,
    mode: SplitMode,
    area: G,
    a1: Map<NodeId, G>,
    a2: Map<NodeId, G>,
)
    requires
        down_ok(links, rank, floor, y),
        links[y].children is Some,
        slots.contains_key(y),
        slots[y] == Slot::<G>::Fork(mode),
        laid_out(links, rank, floor, slots, split, kid0(links[y]), a1),
        laid_out(links, rank, floor, slots, split, kid1(links[y]), a2),
        call_ensures(split, (area, mode), (a1[kid0(links[y])], a2[kid1(links[y])])),
    ensures
        laid_out(links, rank, floor, slots, split, y, a1.union_prefer_right(a2).insert(y, area)),
{
    let f = kid0(links[y]);
    let s = kid1(links[y]);
    let areas = a1.union_prefer_right(a2).insert(y, area);
    assert(reach(links, rank, floor, y, y));
    assert(node_ok(links, rank, floor, y));
    lemma_reach_child(links, rank, floor, y);
    assert(a1.contains_key(f));
    assert(a2.contains_key(s));
    assert forall|x: NodeId| areas.contains_key(x) <==> reach(links, rank, floor, x, y) by {
        if x != y && reach(links, rank, floor, x, y) {
            assert(reach(links, rank, floor, x, f) || reach(links, rank, floor, x, s));
        }
        if a1.contains_key(x) {
            assert(reach(links, rank, floor, x, f));
            lemma_reach_trans(links, rank, floor, x, f, y);
        }
        if a2.contains_key(x) {
            assert(reach(links, rank, floor, x, s));
            lemma_reach_trans(links, rank, floor, x, s, y);
        }
    }
    assert(!a2.contains_key(f)) by {
        lemma_children_disjoint(links, rank, floor, y, f);
    }
    assert(areas[f] == a1[f]);
    assert(areas[s] == a2[s]);
    assert(slot_placed(links, slots, split, areas, y));
    assert forall|x: NodeId| #[trigger] areas.contains_key(x) implies slot_placed(
        links,
        slots,
        split,
        areas,
        x,
    ) by {
        if x != y {
            if a2.contains_key(x) {
                assert(slot_placed(links, slots, split, a2, x));
                assert(reach(links, rank, floor, x, s));
                lemma_down_ok_sub(links, rank, floor, s, y);
                if slots[x] is Fork {
                    assert(node_ok(links, rank, floor, x));
                    lemma_reach_child(links, rank, floor, x);
                    lemma_reach_trans(links, rank, floor, kid0(links[x]), x, s);
                    lemma_reach_trans(links, rank, floor, kid1(links[x]), x, s);
                    lemma_reach_rank(links, rank, floor, kid0(links[x]), s);
                    lemma_reach_rank(links, rank, floor, kid1(links[x]), s);
                    lemma_reach_trans(links, rank, floor, kid0(links[x]), s, y);
                    lemma_reach_trans(links, rank, floor, kid1(links[x]), s, y);
                    assert(a2.contains_key(kid0(links[x])));
                    assert(a2.contains_key(kid1(links[x])));
                }
            } else {
                assert(a1.contains_key(x));
                assert(slot_placed(links, slots, split, a1, x));
                assert(reach(links, rank, floor, x, f));
                lemma_down_ok_sub(links, rank, floor, f, y);
                if slots[x] is Fork {
                    assert(node_ok(links, rank, floor, x));
                    lemma_reach_child(links, rank, floor, x);
                    let k0 = kid0(links[x]);
                    let k1 = kid1(links[x]);
                    lemma_reach_trans(links, rank, floor, k0, x, f);
                    lemma_reach_trans(links, rank, floor, k1, x, f);
                    lemma_children_disjoint(links, rank, floor, y, k0);
                    lemma_children_disjoint(links, rank, floor, y, k1);
                    lemma_reach_trans(links, rank, floor, k0, f, y);
                    lemma_reach_trans(links, rank, floor, k1, f, y);
                    lemma_reach_rank(links, rank, floor, k0, f);
                    lemma_reach_rank(links, rank, floor, k1, f);
                    assert(a1.contains_key(k0));
                    assert(a1.contains_key(k1));
                    assert(!a2.contains_key(k0));
                    assert(!a2.contains_key(k1));
                }
            }
        }
    }
}


/// Reachability below `y` only depends on the children of the nodes below `y`.
pub proof fn lemma_reach_frame(
    links1: Map<NodeId, Link>,
    links2: Map<NodeId, Link>,
    rank: Map<NodeId, int>,
    floor: int,
    x: NodeId,
    y: NodeId,
)
    requires
        forall|z: NodeId|
            #[trigger] reach(links1, rank, floor, z, y) ==> links1.contains_key(z)
                && links2.contains_key(z) && links2[z].children == links1[z].children,
    ensures
        reach(links1, rank, floor, x, y) == reach(links2, rank, floor, x, y),
    decreases rank[y] - floor,
{
    assert(reach(links1, rank, floor, y, y));
    if x != y && links1[y].children is Some {
        let f = kid0(links1[y]);
        let s = kid1(links1[y]);
        if ranked_below(rank, floor, y, f) {
            assert forall|z: NodeId| #[trigger] reach(links1, rank, floor, z, f) implies links1.contains_key(z)
                && links2.contains_key(z) && links2[z].children == links1[z].children by {
                assert(reach(links1, rank, floor, z, y));
            }
            lemma_reach_frame(links1, links2, rank, floor, x, f);
        }
        if ranked_below(rank, floor, y, s) {
            assert forall|z: NodeId| #[trigger] reach(links1, rank, floor, z, s) implies links1.contains_key(z)
                && links2.contains_key(z) && links2[z].children == links1[z].children by {
                assert(reach(links1, rank, floor, z, y));
            }
            lemma_reach_frame(links1, links2, rank, floor, x, s);
        }
    }
}

/// The links after a fork `p` takes over the children of its child `sib`,
/// which then name `p` as their parent.
pub open spec fn lift_children(links: Map<NodeId, Link>, p: NodeId, sib: NodeId) -> Map<
    NodeId,
    Link,
> {
    let l1 = links.insert(p, Link { parent: links[p].parent, children: links[sib].children });
    match links[sib].children {
        Some((c1, c2)) => l1.insert(
            c1,
            Link { parent: Some(p), children: links[c1].children },
        ).insert(c2, Link { parent: Some(p), children: links[c2].children }),
        None => l1,
    }
}

/// Removing a leaf `a` whose sibling `sib` moves up into their parent `p`
/// (the parent takes the sibling's children) keeps the tree well formed, and
/// the parent's new subtree is well linked even before `a` and `sib` leave.
pub proof fn lemma_collapse(
    links: Map<NodeId, Link>,
    rank: Map<NodeId, int>,
    floor: int,
    ceil: int,
    a: NodeId,
    p: NodeId,
    sib: NodeId,
)
    requires
        tree_wf(links, rank, floor, ceil),
        links.contains_key(a),
        links[a].children is None,
        links[a].parent == Some(p),
        links.contains_key(p),
        links[p].children is Some,
        (kid0(links[p]) == a && kid1(links[p]) == sib) || (kid1(links[p]) == a && kid0(links[p])
            == sib),
    ensures
        down_ok(lift_children(links, p, sib), rank, floor, p),
        tree_wf(lift_children(links, p, sib).remove(a).remove(sib), rank, floor, ceil),
{
    let l1 = lift_children(links, p, sib);
    let l2 = l1.remove(a).remove(sib);
    assert(node_ok(links, rank, floor, p) && parent_ok(links, p));
    assert(node_ok(links, rank, floor, sib) && parent_ok(links, sib));
    assert(node_ok(links, rank, floor, a));
    assert(a != sib);
    assert(rank[sib] < rank[p]);
    assert(l1.dom() =~= links.dom());
    // nodes below the sibling's children keep their links, bar the new parent
    if links[sib].children is Some {
        let c1 = kid0(links[sib]);
        let c2 = kid1(links[sib]);
        assert(node_ok(links, rank, floor, c1) && node_ok(links, rank, floor, c2));
        assert(c1 != a && c2 != a && c1 != p && c2 != p);
        lemma_tree_down_ok(links, rank, floor, ceil, c1);
        lemma_tree_down_ok(links, rank, floor, ceil, c2);
        assert forall|z: NodeId| #[trigger] reach(links, rank, floor, z, c1) implies z != p && z
            != sib && z != a by {
            lemma_reach_rank(links, rank, floor, z, c1);
            if z == a {
                lemma_reach_up(links, rank, floor, a, c1);
                lemma_reach_rank(links, rank, floor, p, c1);
            }
        }
        assert forall|z: NodeId| #[trigger] reach(links, rank, floor, z, c2) implies z != p && z
            != sib && z != a by {
            lemma_reach_rank(links, rank, floor, z, c2);
            if z == a {
                lemma_reach_up(links, rank, floor, a, c2);
                lemma_reach_rank(links, rank, floor, p, c2);
            }
        }
        assert forall|x: NodeId| reach(l1, rank, floor, x, c1) == reach(
            links,
            rank,
            floor,
            x,
            c1,
        ) by {
            assert forall|z: NodeId| #[trigger] reach(links, rank, floor, z, c1) implies links.contains_key(z)
                && l1.contains_key(z) && l1[z].children == links[z].children by {
                lemma_reach_dom(links, rank, floor, z, c1);
            }
            lemma_reach_frame(links, l1, rank, floor, x, c1);
        }
        assert forall|x: NodeId| reach(l1, rank, floor, x, c2) == reach(
            links,
            rank,
            floor,
            x,
            c2,
        ) by {
            assert forall|z: NodeId| #[trigger] reach(links, rank, floor, z, c2) implies links.contains_key(z)
                && l1.contains_key(z) && l1[z].children == links[z].children by {
                lemma_reach_dom(links, rank, floor, z, c2);
            }
            lemma_reach_frame(links, l1, rank, floor, x, c2);
        }
        // the new subtree of p is well linked
        assert forall|x: NodeId| #[trigger] reach(l1, rank, floor, x, p) implies node_ok(
            l1,
            rank,
            floor,
            x,
        ) by {
            if x != p {
                assert(reach(l1, rank, floor, x, c1) || reach(l1, rank, floor, x, c2));
                assert(reach(links, rank, floor, x, c1) || reach(links, rank, floor, x, c2));
                lemma_reach_dom(links, rank, floor, x, sib);
                if reach(links, rank, floor, x, c1) {
                    lemma_reach_dom(links, rank, floor, x, c1);
                } else {
                    lemma_reach_dom(links, rank, floor, x, c2);
                }
                assert(node_ok(links, rank, floor, x));
                if links[x].children is Some {
                    let d1 = kid0(links[x]);
                    let d2 = kid1(links[x]);
                    assert(d1 != c1 && d1 != c2 && d2 != c1 && d2 != c2) by {
                        assert(node_ok(links, rank, floor, d1));
                        assert(node_ok(links, rank, floor, d2));
                    }
                }
            }
        }
    } else {
        assert forall|x: NodeId| #[trigger] reach(l1, rank, floor, x, p) implies node_ok(
            l1,
            rank,
            floor,
            x,
        ) by {
            if x != p {
                assert(!reach(l1, rank, floor, x, p));
            }
        }
    }
    // the whole tree after removing a and sib
    assert forall|x: NodeId| #[trigger] l2.contains_key(x) implies node_ok(l2, rank, floor, x)
        && rank[x] <= ceil && parent_ok(l2, x) by {
        assert(node_ok(links, rank, floor, x) && rank[x] <= ceil && parent_ok(links, x));
        assert(x != a && x != sib);
        if links[x].children is Some {
            let d1 = kid0(links[x]);
            let d2 = kid1(links[x]);
            assert(node_ok(links, rank, floor, d1) && node_ok(links, rank, floor, d2));
        }
        if links[x].parent is Some {
            let q = links[x].parent->0;
            assert(node_ok(links, rank, floor, q));
            if q != p && q != sib {
                assert(q != a);
            }
        }
        if links[sib].children is Some {
            let c1 = kid0(links[sib]);
            let c2 = kid1(links[sib]);
            assert(node_ok(links, rank, floor, c1) && node_ok(links, rank, floor, c2));
            assert(parent_ok(links, c1) && parent_ok(links, c2));
            if links[c1].children is Some {
                assert(node_ok(links, rank, floor, kid0(links[c1])));
                assert(node_ok(links, rank, floor, kid1(links[c1])));
            }
            if links[c2].children is Some {
                assert(node_ok(links, rank, floor, kid0(links[c2])));
                assert(node_ok(links, rank, floor, kid1(links[c2])));
            }
        }
        if links[p].parent is Some {
            let q = links[p].parent->0;
            assert(node_ok(links, rank, floor, q));
        }
    }
    assert forall|r1: NodeId, r2: NodeId|
        #![trigger is_root(l2, r1), is_root(l2, r2)]
        is_root(l2, r1) && is_root(l2, r2) implies r1 == r2 by {
        assert(is_root(links, r1) && is_root(links, r2));
    }
    let r = choose|r: NodeId| #[trigger] is_root(links, r);
    assert(is_root(links, r));
    assert(r != a && r != sib);
    assert(is_root(l2, r));
    assert(l2.dom().finite());
}


/// The links after the leaf `a` becomes a fork over two new leaves.
pub open spec fn grow_leaf(links: Map<NodeId, Link>, a: NodeId, n1: NodeId, n2: NodeId) -> Map<
    NodeId,
    Link,
> {
    links.insert(a, Link { parent: links[a].parent, children: Some((n1, n2)) }).insert(
        n1,
        Link { parent: Some(a), children: None },
    ).insert(n2, Link { parent: Some(a), children: None })
}

/// Splitting a leaf into a fork over two fresh leaves, ranked just below it,
/// keeps the tree well formed.
pub proof fn lemma_grow_leaf(
    links: Map<NodeId, Link>,
    rank: Map<NodeId, int>,
    floor: int,
    ceil: int,
    a: NodeId,
    n1: NodeId,
    n2: NodeId,
)
    requires
        tree_wf(links, rank, floor, ceil),
        links.contains_key(a),
        links[a].children is None,
        !links.contains_key(n1),
        !links.contains_key(n2),
        n1 != n2,
    ensures
        tree_wf(
            grow_leaf(links, a, n1, n2),
            rank.insert(n1, rank[a] - 1).insert(n2, rank[a] - 1),
            if rank[a] - 1 < floor {
                rank[a] - 1
            } else {
                floor
            },
            ceil,
        ),
{
    let l2 = grow_leaf(links, a, n1, n2);
    let r2 = rank.insert(n1, rank[a] - 1).insert(n2, rank[a] - 1);
    let f2 = if rank[a] - 1 < floor {
        rank[a] - 1
    } else {
        floor
    };
    assert(node_ok(links, rank, floor, a));
    assert forall|x: NodeId| #[trigger] l2.contains_key(x) implies node_ok(l2, r2, f2, x) && r2[x]
        <= ceil && parent_ok(l2, x) by {
        if x != n1 && x != n2 {
            assert(node_ok(links, rank, floor, x) && rank[x] <= ceil && parent_ok(links, x));
            if links[x].children is Some {
                assert(node_ok(links, rank, floor, kid0(links[x])));
                assert(node_ok(links, rank, floor, kid1(links[x])));
            }
            if links[x].parent is Some {
                assert(node_ok(links, rank, floor, links[x].parent->0));
            }
        }
    }
    assert forall|r1: NodeId, r2n: NodeId|
        #![trigger is_root(l2, r1), is_root(l2, r2n)]
        is_root(l2, r1) && is_root(l2, r2n) implies r1 == r2n by {
        assert(is_root(links, r1) && is_root(links, r2n));
    }
    assert(links.dom().len() > 0) by {
        assert(links.dom().contains(a));
    }
    let r = choose|r: NodeId| #[trigger] is_root(links, r);
    assert(is_root(l2, r));
}

/// A single leaf is a well-formed tree.
pub proof fn lemma_single_leaf(rank: Map<NodeId, int>, floor: int, ceil: int, id: NodeId)
    requires
        rank.contains_key(id),
        floor <= rank[id] <= ceil,
    ensures
        tree_wf(map![id => Link { parent: None, children: None }], rank, floor, ceil),
{
    let l = map![id => Link { parent: None, children: None }];
    assert(is_root(l, id));
    assert(l.dom() =~= set![id]);
}

/// The empty tree is well formed.
pub proof fn lemma_empty_tree(rank: Map<NodeId, int>, floor: int, ceil: int)
    ensures
        tree_wf(Map::<NodeId, Link>::empty(), rank, floor, ceil),
{
    assert(Map::<NodeId, Link>::empty().dom() =~= Set::<NodeId>::empty());
}


/// A layout below `y` only depends on the links and slots of the nodes below `y`.
pub proof fn lemma_laid_out_links_frame<G, F: Fn(G, SplitMode) -> (G, G)>(
    links1: Map<NodeId, Link>,
    links2: Map<NodeId, Link>,
    rank: Map<NodeId, int>,
    floor: int,
    slots1: Map<NodeId, Slot<G>>,
    slots2: Map<NodeId, Slot<G>>,
    split: F,
    y: NodeId,
    areas: Map<NodeId, G>,
)
    requires
        laid_out(links1, rank, floor, slots1, split, y, areas),
        forall|z: NodeId|
            #[trigger] reach(links1, rank, floor, z, y) ==> links1.contains_key(z)
                && links2.contains_key(z) && links2[z] == links1[z] && slots1.contains_key(z)
                && slots2.contains_key(z) && slots2[z] == slots1[z],
    ensures
        laid_out(links2, rank, floor, slots2, split, y, areas),
{
    assert forall|x: NodeId| reach(links1, rank, floor, x, y) == reach(
        links2,
        rank,
        floor,
        x,
        y,
    ) by {
        lemma_reach_frame(links1, links2, rank, floor, x, y);
    }
    assert forall|x: NodeId| #[trigger] areas.contains_key(x) implies slot_placed(
        links2,
        slots2,
        split,
        areas,
        x,
    ) by {
        assert(reach(links1, rank, floor, x, y));
        assert(slot_placed(links1, slots1, split, areas, x));
    }
}


/// In a well-linked subtree, a node whose parent does not name it as a child
/// lies outside the subtree (unless it is the subtree's root).
pub proof fn lemma_reach_up_contra(
    links: Map<NodeId, Link>,
    rank: Map<NodeId, int>,
    floor: int,
    x: NodeId,
    y: NodeId,
)
    requires
        down_ok(links, rank, floor, y),
        x != y,
        links[x].parent is Some,
        links.contains_key(links[x].parent->0),
        !(links[links[x].parent->0].children is Some && (kid0(links[links[x].parent->0]) == x
            || kid1(links[links[x].parent->0]) == x)),
    ensures
        !reach(links, rank, floor, x, y),
{
    if reach(links, rank, floor, x, y) {
        lemma_reach_up(links, rank, floor, x, y);
    }
}

} // verus!
