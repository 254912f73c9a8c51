//! The mathematical model of an interaction with a tree.
//!
//! A [`PickState`] mirrors a [`TreeNodeDefinition`]: one state node per
//! definition node, holding `Some(picked)` for a pickable node and `None` for
//! the others. The operations below say what picking and unpicking a node does
//! to the whole state, cascades included.
use vstd::prelude::*;
use crate::{NodeDefinitionType, TreeNodeDefinition};

verus! {

/// The pick state of a node and of all its descendants.
pub struct PickState {
    /// `Some(true)` if picked, `Some(false)` if not picked, `None` if the node cannot be picked.
    pub picked: Option<bool>,
    pub children: Seq<PickState>,
}

/// A node of this type has a pick state of its own.
pub open spec fn is_pickable(ty: NodeDefinitionType) -> bool {
    ty == NodeDefinitionType::PickMany || ty == NodeDefinitionType::PickUpToOne
        || ty == NodeDefinitionType::PickExactlyOne
}

pub open spec fn is_picked(s: PickState) -> bool {
    s.picked == Some(true)
}

/// The definition node reached from `d` by following `path`.
pub open spec fn def_at<T>(d: TreeNodeDefinition<T>, path: Seq<usize>) -> Option<TreeNodeDefinition<T>>
    decreases path.len(),
{
    if path.len() == 0 {
        Some(d)
    } else if path[0] < d.children@.len() {
        def_at(d.children@[path[0] as int], path.drop_first())
    } else {
        None
    }
}

/// The state node reached from `s` by following `path`.
pub open spec fn node_at(s: PickState, path: Seq<usize>) -> Option<PickState>
    decreases path.len(),
{
    if path.len() == 0 {
        Some(s)
    } else if path[0] < s.children.len() {
        node_at(s.children[path[0] as int], path.drop_first())
    } else {
        None
    }
}

/// `path` leads to a node of `d`.
pub open spec fn is_path<T>(d: TreeNodeDefinition<T>, path: Seq<usize>) -> bool {
    def_at(d, path) is Some
}

/// Only pickable nodes may require being picked before their children.
pub open spec fn valid_def<T>(d: TreeNodeDefinition<T>) -> bool
    decreases d,
{
    &&& (d.pick_children_needs_self ==> is_pickable(d.ty))
    &&& forall|i: int| 0 <= i < d.children@.len() ==> valid_def(#[trigger] d.children@[i])
}

/// `s` has the shape of `d`: same children, and a pick state exactly on the pickable nodes.
pub open spec fn shape_ok<T>(d: TreeNodeDefinition<T>, s: PickState) -> bool {
    &&& s.children.len() == d.children@.len()
    &&& (s.picked is Some <==> is_pickable(d.ty))
}

pub open spec fn mirrors<T>(d: TreeNodeDefinition<T>, s: PickState) -> bool
    decreases d,
{
    &&& shape_ok(d, s)
    &&& forall|i: int|
        0 <= i < d.children@.len() ==> mirrors(#[trigger] d.children@[i], s.children[i])
}

/// Child `i` has type `ty` and is picked.
pub open spec fn picked_of_type<T>(d: TreeNodeDefinition<T>, s: PickState, ty: NodeDefinitionType, i: int) -> bool {
    &&& 0 <= i < d.children@.len()
    &&& i < s.children.len()
    &&& d.children@[i].ty == ty
    &&& is_picked(s.children[i])
}

pub open spec fn has_child_of_type<T>(d: TreeNodeDefinition<T>, ty: NodeDefinitionType) -> bool {
    exists|i: int| 0 <= i < d.children@.len() && #[trigger] d.children@[i].ty == ty
}

/// The index of the first child of type `ty` (meaningful when there is one).
pub open spec fn first_child_of_type<T>(d: TreeNodeDefinition<T>, ty: NodeDefinitionType) -> int {
    choose|i: int|
        0 <= i < d.children@.len() && #[trigger] d.children@[i].ty == ty && forall|j: int|
            0 <= j < i ==> #[trigger] d.children@[j].ty != ty
}

/// The node's own rule suspends the rules of its children: it requires being
/// picked before its children and is not picked.
pub open spec fn suspended<T>(d: TreeNodeDefinition<T>, s: PickState) -> bool {
    d.pick_children_needs_self && !is_picked(s)
}

/// No child is picked while the node that they need is not.
pub open spec fn needs_self_ok<T>(d: TreeNodeDefinition<T>, s: PickState) -> bool {
    suspended(d, s) ==> forall|i: int| 0 <= i < s.children.len() ==> !is_picked(#[trigger] s.children[i])
}

/// A group of `PickExactlyOne` children has a picked member unless suspended.
pub open spec fn exactly_one_ok<T>(d: TreeNodeDefinition<T>, s: PickState) -> bool {
    has_child_of_type(d, NodeDefinitionType::PickExactlyOne) && !suspended(d, s) ==> exists|i: int|
        #[trigger] picked_of_type(d, s, NodeDefinitionType::PickExactlyOne, i)
}

/// At most one child of type `ty` is picked.
pub open spec fn at_most_one<T>(d: TreeNodeDefinition<T>, s: PickState, ty: NodeDefinitionType) -> bool {
    forall|i: int, j: int|
        #[trigger] picked_of_type(d, s, ty, i) && #[trigger] picked_of_type(d, s, ty, j) ==> i == j
}

/// What a node and its children must satisfy, apart from the rule that the
/// node needs to be picked before its children.
pub open spec fn below_ok<T>(d: TreeNodeDefinition<T>, s: PickState) -> bool {
    &&& shape_ok(d, s)
    &&& at_most_one(d, s, NodeDefinitionType::PickExactlyOne)
    &&& at_most_one(d, s, NodeDefinitionType::PickUpToOne)
}

/// The rules of one node towards its children.
pub open spec fn local_ok<T>(d: TreeNodeDefinition<T>, s: PickState) -> bool {
    &&& below_ok(d, s)
    &&& needs_self_ok(d, s)
    &&& exactly_one_ok(d, s)
}

/// Every node of `s` keeps the rules of its definition node.
pub open spec fn consistent<T>(d: TreeNodeDefinition<T>, s: PickState) -> bool
    decreases d,
{
    &&& local_ok(d, s)
    &&& forall|i: int|
        0 <= i < d.children@.len() ==> consistent(#[trigger] d.children@[i], s.children[i])
}

/// The node keeps the rules that do not depend on whether it is picked, and
/// every child is consistent.
pub open spec fn subtree_ok<T>(d: TreeNodeDefinition<T>, s: PickState) -> bool {
    &&& below_ok(d, s)
    &&& forall|i: int|
        0 <= i < d.children@.len() ==> consistent(#[trigger] d.children@[i], s.children[i])
}

/// Every node outside the subtree at `path` keeps its rules, and so do the
/// nodes beside the path.
pub open spec fn frame_ok<T>(d: TreeNodeDefinition<T>, s: PickState, path: Seq<usize>) -> bool
    decreases path.len(),
{
    if path.len() == 0 {
        true
    } else {
        let i = path[0] as int;
        &&& local_ok(d, s)
        &&& i < d.children@.len()
        &&& forall|j: int|
            0 <= j < d.children@.len() && j != i ==> consistent(#[trigger] d.children@[j], s.children[j])
        &&& frame_ok(d.children@[i], s.children[i], path.drop_first())
    }
}

/// Picking a node of type `picked_ty` unpicks its siblings of type `other_ty`.
pub open spec fn conflicts(picked_ty: NodeDefinitionType, other_ty: NodeDefinitionType) -> bool {
    ||| (picked_ty == NodeDefinitionType::PickExactlyOne && other_ty == NodeDefinitionType::PickExactlyOne)
    ||| (picked_ty == NodeDefinitionType::PickUpToOne && (other_ty == NodeDefinitionType::PickUpToOne
        || other_ty == NodeDefinitionType::PickMany))
}

/// The node becomes unpicked; if its children need it, they are unpicked in turn.
pub open spec fn unpicked<T>(d: TreeNodeDefinition<T>, s: PickState) -> PickState
    decreases d,
{
    PickState {
        picked: if s.picked is Some { Some(false) } else { None },
        children: if d.pick_children_needs_self {
            Seq::new(
                s.children.len(),
                |j: int|
                    if 0 <= j < d.children@.len() && s.children[j].picked is Some {
                        unpicked(d.children@[j], s.children[j])
                    } else {
                        s.children[j]
                    },
            )
        } else {
            s.children
        },
    }
}

/// The first `PickExactlyOne` child is picked when none of them is.
pub open spec fn first_exactly_one_due<T>(d: TreeNodeDefinition<T>, s: PickState) -> bool {
    &&& has_child_of_type(d, NodeDefinitionType::PickExactlyOne)
    &&& !(exists|i: int| #[trigger] picked_of_type(d, s, NodeDefinitionType::PickExactlyOne, i))
    &&& first_child_of_type(d, NodeDefinitionType::PickExactlyOne) < s.children.len()
}

/// The node becomes picked; if it has `PickExactlyOne` children of which none
/// is picked, the first of them becomes picked in turn.
pub open spec fn picked_down<T>(d: TreeNodeDefinition<T>, s: PickState) -> PickState
    decreases d,
{
    let k = first_child_of_type(d, NodeDefinitionType::PickExactlyOne);
    PickState {
        picked: Some(true),
        children: if first_exactly_one_due(d, s) && 0 <= k < d.children@.len() {
            s.children.update(k, picked_down(d.children@[k], s.children[k]))
        } else {
            s.children
        },
    }
}

/// In the parent `ps`, child `i` becomes picked: the siblings that conflict
/// with it are unpicked, and the child itself is picked as [`picked_down`] says.
pub open spec fn pick_child<T>(pd: TreeNodeDefinition<T>, ps: PickState, i: int) -> PickState {
    PickState {
        picked: ps.picked,
        children: Seq::new(
            ps.children.len(),
            |j: int|
                if j == i && 0 <= i < pd.children@.len() {
                    picked_down(pd.children@[i], ps.children[i])
                } else if 0 <= i < pd.children@.len() && 0 <= j < pd.children@.len() && conflicts(
                    pd.children@[i].ty,
                    pd.children@[j].ty,
                ) {
                    unpicked(pd.children@[j], ps.children[j])
                } else {
                    ps.children[j]
                },
        ),
    }
}

/// In the parent `ps`, child `i` becomes unpicked as [`unpicked`] says.
pub open spec fn unpick_child<T>(pd: TreeNodeDefinition<T>, ps: PickState, i: int) -> PickState {
    if 0 <= i < pd.children@.len() && i < ps.children.len() {
        PickState { picked: ps.picked, children: ps.children.update(i, unpicked(pd.children@[i], ps.children[i])) }
    } else {
        ps
    }
}

/// The `PickMany` children of a node are all picked (`value`) or all unpicked.
pub open spec fn set_pick_many_children<T>(d: TreeNodeDefinition<T>, s: PickState, value: bool) -> PickState {
    PickState {
        picked: s.picked,
        children: Seq::new(
            s.children.len(),
            |j: int|
                if 0 <= j < d.children@.len() && d.children@[j].ty == NodeDefinitionType::PickMany {
                    if value {
                        picked_down(d.children@[j], s.children[j])
                    } else {
                        unpicked(d.children@[j], s.children[j])
                    }
                } else {
                    s.children[j]
                },
        ),
    }
}

/// All the `PickMany` children of a node are picked.
pub open spec fn all_pick_many_picked<T>(d: TreeNodeDefinition<T>, s: PickState) -> bool {
    forall|j: int|
        0 <= j < d.children@.len() && j < s.children.len() && #[trigger] d.children@[j].ty
            == NodeDefinitionType::PickMany ==> is_picked(s.children[j])
}

/// An operation on one node of the state.
#[derive(Clone, Copy, Debug)]
pub enum NodeOp {
    /// [`pick_child`] with this child index.
    PickChild(usize),
    /// [`picked_down`] on the node itself.
    PickSelf,
    /// [`unpick_child`] with this child index.
    UnpickChild(usize),
    /// [`set_pick_many_children`] with this value.
    SetPickMany(bool),
}

pub open spec fn node_op<T>(d: TreeNodeDefinition<T>, s: PickState, op: NodeOp) -> PickState {
    match op {
        NodeOp::PickChild(i) => pick_child(d, s, i as int),
        NodeOp::PickSelf => picked_down(d, s),
        NodeOp::UnpickChild(i) => unpick_child(d, s, i as int),
        NodeOp::SetPickMany(v) => set_pick_many_children(d, s, v),
    }
}

/// `op` applied to the node at `path`; the rest of the state is kept.
pub open spec fn apply_at<T>(d: TreeNodeDefinition<T>, s: PickState, path: Seq<usize>, op: NodeOp) -> PickState
    decreases path.len(),
{
    if path.len() == 0 {
        node_op(d, s, op)
    } else if path[0] < d.children@.len() && path[0] < s.children.len() {
        let i = path[0] as int;
        PickState {
            picked: s.picked,
            children: s.children.update(i, apply_at(d.children@[i], s.children[i], path.drop_first(), op)),
        }
    } else {
        s
    }
}

/// The node at `path` becomes picked. Its conflicting siblings are unpicked,
/// and if its parent needs to be picked before it and is not, the parent is
/// picked the same way, and so on up the tree.
pub open spec fn pick_at<T>(d: TreeNodeDefinition<T>, s: PickState, path: Seq<usize>) -> PickState
    decreases path.len(),
{
    if path.len() == 0 {
        picked_down(d, s)
    } else {
        let pp = path.drop_last();
        let s2 = apply_at(d, s, pp, NodeOp::PickChild(path.last()));
        if cascades_up(d, s, pp) {
            pick_at(d, s2, pp)
        } else {
            s2
        }
    }
}

/// The node at `pp` needs to be picked before its children and is not.
pub open spec fn cascades_up<T>(d: TreeNodeDefinition<T>, s: PickState, pp: Seq<usize>) -> bool {
    &&& def_at(d, pp) is Some
    &&& node_at(s, pp) is Some
    &&& suspended(def_at(d, pp).unwrap(), node_at(s, pp).unwrap())
}

/// The node at `path` becomes unpicked, with its children where they need it.
pub open spec fn unpick_at<T>(d: TreeNodeDefinition<T>, s: PickState, path: Seq<usize>) -> PickState {
    if path.len() == 0 {
        unpicked(d, s)
    } else {
        apply_at(d, s, path.drop_last(), NodeOp::UnpickChild(path.last()))
    }
}

/// A sibling of type `PickExactlyOne` of the node at `path`, other than that
/// node itself, is picked.
pub open spec fn other_exactly_one_picked<T>(d: TreeNodeDefinition<T>, s: PickState, path: Seq<usize>) -> bool {
    &&& path.len() >= 1
    &&& def_at(d, path.drop_last()) is Some
    &&& node_at(s, path.drop_last()) is Some
    &&& exists|j: int|
        j != path.last() && #[trigger] picked_of_type(
            def_at(d, path.drop_last()).unwrap(),
            node_at(s, path.drop_last()).unwrap(),
            NodeDefinitionType::PickExactlyOne,
            j,
        )
}

/// The state in which a new interaction starts on node `d`:
/// every pickable node unpicked, except the first `PickExactlyOne` child of
/// each node whose rules are not suspended.
pub open spec fn initial_state<T>(d: TreeNodeDefinition<T>, first_exactly_one: bool) -> PickState
    decreases d,
{
    let picked = if d.ty == NodeDefinitionType::PickExactlyOne {
        Some(first_exactly_one)
    } else if is_pickable(d.ty) {
        Some(false)
    } else {
        None::<bool>
    };
    let exclude = picked == Some(false) && d.pick_children_needs_self;
    let k = first_child_of_type(d, NodeDefinitionType::PickExactlyOne);
    PickState {
        picked,
        children: Seq::new(
            d.children@.len(),
            |j: int|
                if 0 <= j < d.children@.len() {
                    initial_state(
                        d.children@[j],
                        !exclude && d.children@[j].ty == NodeDefinitionType::PickExactlyOne && j == k,
                    )
                } else {
                    PickState { picked: None, children: Seq::empty() }
                },
        ),
    }
}

/// The paths to the nodes below `s`, in depth-first order, each node before
/// its descendants; only the picked ones when `only_picked`.
pub open spec fn paths_below(s: PickState, only_picked: bool) -> Seq<Seq<usize>>
    decreases s, s.children.len() + 1,
{
    paths_before(s, s.children.len() as int, only_picked)
}

/// The paths that [`paths_below`] lists for the first `k` children of `s`.
pub open spec fn paths_before(s: PickState, k: int, only_picked: bool) -> Seq<Seq<usize>>
    decreases s, k,
{
    if k <= 0 || k > s.children.len() {
        Seq::empty()
    } else {
        let i = k - 1;
        paths_before(s, k - 1, only_picked) + paths_of_child(s, i, only_picked)
    }
}

/// The paths that [`paths_below`] lists for child `i` of `s`: the child itself
/// (when listed), then the paths below it, prefixed with `i`.
pub open spec fn paths_of_child(s: PickState, i: int, only_picked: bool) -> Seq<Seq<usize>>
    decreases s, i, 1int,
{
    if 0 <= i < s.children.len() {
        let own = if !only_picked || is_picked(s.children[i]) {
            seq![seq![i as usize]]
        } else {
            Seq::empty()
        };
        own + paths_below(s.children[i], only_picked).map_values(|p: Seq<usize>| seq![i as usize] + p)
    } else {
        Seq::empty()
    }
}

} // verus!
