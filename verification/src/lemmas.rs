//! Proofs about the model: the operations keep the shape of the state, and
//! the picking rules hold after each of them.
use vstd::prelude::*;
use crate::{NodeDefinitionType, TreeNodeDefinition};
use crate::model::{
    PickState, NodeOp, is_pickable, is_picked, def_at, node_at, is_path, valid_def, shape_ok,
    mirrors, picked_of_type, has_child_of_type, first_child_of_type, suspended, needs_self_ok,
    exactly_one_ok, at_most_one, below_ok, local_ok, consistent, frame_ok, conflicts, unpicked,
    first_exactly_one_due, picked_down, pick_child, set_pick_many_children, node_op, apply_at,
    unpick_child, unpick_at, other_exactly_one_picked, initial_state, paths_below, paths_before,
    paths_of_child,
    pick_at, cascades_up, subtree_ok,
};

verus! {

// ----------------------------------------------------------------------------
// Children of a given type
// ----------------------------------------------------------------------------

proof fn lemma_min_index<T>(d: TreeNodeDefinition<T>, ty: NodeDefinitionType, i: int)
    requires
        0 <= i < d.children@.len(),
        d.children@[i].ty == ty,
    ensures
        exists|k: int|
            0 <= k < d.children@.len() && #[trigger] d.children@[k].ty == ty && forall|j: int|
                0 <= j < k ==> #[trigger] d.children@[j].ty != ty,
    decreases i,
{
    if exists|j: int| 0 <= j < i && #[trigger] d.children@[j].ty == ty {
        let j = choose|j: int| 0 <= j < i && #[trigger] d.children@[j].ty == ty;
        lemma_min_index(d, ty, j);
    } else {
        assert(forall|j: int| 0 <= j < i ==> #[trigger] d.children@[j].ty != ty);
    }
}

/// The first child of a type is a child of that type, and no child before it is.
pub proof fn lemma_first_child_of_type<T>(d: TreeNodeDefinition<T>, ty: NodeDefinitionType)
    requires
        has_child_of_type(d, ty),
    ensures
        0 <= first_child_of_type(d, ty) < d.children@.len(),
        d.children@[first_child_of_type(d, ty)].ty == ty,
        forall|j: int| 0 <= j < first_child_of_type(d, ty) ==> #[trigger] d.children@[j].ty != ty,
{
    let i = choose|i: int| 0 <= i < d.children@.len() && #[trigger] d.children@[i].ty == ty;
    lemma_min_index(d, ty, i);
}

// ----------------------------------------------------------------------------
// Paths
// ----------------------------------------------------------------------------

pub proof fn lemma_path_split(p: Seq<usize>)
    requires
        p.len() >= 2,
    ensures
        p.drop_last().len() >= 1,
        p.drop_last()[0] == p[0],
        p.drop_last().drop_first() == p.drop_first().drop_last(),
        p.drop_first().last() == p.last(),
        p.drop_first().len() >= 1,
{
    assert(p.drop_last().drop_first() =~= p.drop_first().drop_last());
}

/// The definition node at a path is the child, at the last index, of the node at the parent path.
pub proof fn lemma_def_at_snoc<T>(d: TreeNodeDefinition<T>, p: Seq<usize>)
    requires
        p.len() >= 1,
    ensures
        def_at(d, p) == (match def_at(d, p.drop_last()) {
            Some(pd) => if p.last() < pd.children@.len() {
                Some(pd.children@[p.last() as int])
            } else {
                None
            },
            None => None,
        }),
    decreases p.len(),
{
    if p.len() == 1 {
        assert(p.drop_first().len() == 0);
        assert(p.drop_last().len() == 0);
    } else {
        lemma_path_split(p);
        assert(def_at(d, p.drop_last()) == if p[0] < d.children@.len() {
            def_at(d.children@[p[0] as int], p.drop_last().drop_first())
        } else {
            None
        });
        if p[0] < d.children@.len() {
            lemma_def_at_snoc(d.children@[p[0] as int], p.drop_first());
        }
    }
}

/// The state node at a path is the child, at the last index, of the node at the parent path.
pub proof fn lemma_node_at_snoc(s: PickState, p: Seq<usize>)
    requires
        p.len() >= 1,
    ensures
        node_at(s, p) == (match node_at(s, p.drop_last()) {
            Some(ps) => if p.last() < ps.children.len() {
                Some(ps.children[p.last() as int])
            } else {
                None
            },
            None => None,
        }),
    decreases p.len(),
{
    if p.len() == 1 {
        assert(p.drop_first().len() == 0);
        assert(p.drop_last().len() == 0);
    } else {
        lemma_path_split(p);
        assert(node_at(s, p.drop_last()) == if p[0] < s.children.len() {
            node_at(s.children[p[0] as int], p.drop_last().drop_first())
        } else {
            None
        });
        if p[0] < s.children.len() {
            lemma_node_at_snoc(s.children[p[0] as int], p.drop_first());
        }
    }
}

/// A path of the definition leads to a node of a mirroring state, and that node mirrors.
pub proof fn lemma_mirrors_node_at<T>(d: TreeNodeDefinition<T>, s: PickState, p: Seq<usize>)
    requires
        mirrors(d, s),
        is_path(d, p),
    ensures
        node_at(s, p) is Some,
        mirrors(def_at(d, p).unwrap(), node_at(s, p).unwrap()),
    decreases p.len(),
{
    if p.len() > 0 {
        let i = p[0] as int;
        assert(mirrors(d.children@[i], s.children[i]));
        lemma_mirrors_node_at(d.children@[i], s.children[i], p.drop_first());
    }
}

/// Every node of a valid definition is valid.
pub proof fn lemma_valid_def_at<T>(d: TreeNodeDefinition<T>, p: Seq<usize>)
    requires
        valid_def(d),
        is_path(d, p),
    ensures
        valid_def(def_at(d, p).unwrap()),
    decreases p.len(),
{
    if p.len() > 0 {
        let i = p[0] as int;
        assert(valid_def(d.children@[i]));
        lemma_valid_def_at(d.children@[i], p.drop_first());
    }
}

/// Applying an operation keeps the state's own pick state, unless it is the node operated on.
pub proof fn lemma_apply_at_picked<T>(d: TreeNodeDefinition<T>, s: PickState, p: Seq<usize>, op: NodeOp)
    requires
        p.len() >= 1,
    ensures
        apply_at(d, s, p, op).picked == s.picked,
        apply_at(d, s, p, op).children.len() == s.children.len(),
{
}

/// Applying an operation at a valid path keeps the shape when the new node keeps it.
pub proof fn lemma_apply_at_mirrors<T>(d: TreeNodeDefinition<T>, s: PickState, p: Seq<usize>, op: NodeOp)
    requires
        mirrors(d, s),
        is_path(d, p),
        mirrors(
            def_at(d, p).unwrap(),
            node_op(def_at(d, p).unwrap(), node_at(s, p).unwrap(), op),
        ),
    ensures
        mirrors(d, apply_at(d, s, p, op)),
        node_at(apply_at(d, s, p, op), p) == Some(
            node_op(def_at(d, p).unwrap(), node_at(s, p).unwrap(), op),
        ),
    decreases p.len(),
{
    lemma_mirrors_node_at(d, s, p);
    if p.len() > 0 {
        let i = p[0] as int;
        let c = d.children@[i];
        assert(mirrors(c, s.children[i]));
        lemma_apply_at_mirrors(c, s.children[i], p.drop_first(), op);
        let r = apply_at(d, s, p, op);
        assert forall|j: int| 0 <= j < d.children@.len() implies mirrors(#[trigger] d.children@[j], r.children[j]) by {
            if j != i {
                assert(mirrors(d.children@[j], s.children[j]));
            }
        }
    }
}

// ----------------------------------------------------------------------------
// Shape
// ----------------------------------------------------------------------------

/// A consistent state mirrors its definition.
pub proof fn lemma_consistent_mirrors<T>(d: TreeNodeDefinition<T>, s: PickState)
    requires
        consistent(d, s),
    ensures
        mirrors(d, s),
    decreases d,
{
    assert forall|i: int| 0 <= i < d.children@.len() implies mirrors(#[trigger] d.children@[i], s.children[i]) by {
        assert(consistent(d.children@[i], s.children[i]));
        lemma_consistent_mirrors(d.children@[i], s.children[i]);
    }
}

pub proof fn lemma_unpicked_mirrors<T>(d: TreeNodeDefinition<T>, s: PickState)
    requires
        mirrors(d, s),
    ensures
        mirrors(d, unpicked(d, s)),
    decreases d,
{
    let r = unpicked(d, s);
    assert forall|i: int| 0 <= i < d.children@.len() implies mirrors(#[trigger] d.children@[i], r.children[i]) by {
        assert(mirrors(d.children@[i], s.children[i]));
        lemma_unpicked_mirrors(d.children@[i], s.children[i]);
    }
}

pub proof fn lemma_picked_down_mirrors<T>(d: TreeNodeDefinition<T>, s: PickState)
    requires
        mirrors(d, s),
        is_pickable(d.ty),
    ensures
        mirrors(d, picked_down(d, s)),
    decreases d,
{
    let r = picked_down(d, s);
    let k = first_child_of_type(d, NodeDefinitionType::PickExactlyOne);
    if first_exactly_one_due(d, s) && 0 <= k < d.children@.len() {
        lemma_first_child_of_type(d, NodeDefinitionType::PickExactlyOne);
        assert(mirrors(d.children@[k], s.children[k]));
        lemma_picked_down_mirrors(d.children@[k], s.children[k]);
    }
    assert forall|i: int| 0 <= i < d.children@.len() implies mirrors(#[trigger] d.children@[i], r.children[i]) by {
        assert(mirrors(d.children@[i], s.children[i]));
    }
}

pub proof fn lemma_pick_child_mirrors<T>(pd: TreeNodeDefinition<T>, ps: PickState, i: int)
    requires
        mirrors(pd, ps),
        0 <= i < pd.children@.len(),
        is_pickable(pd.children@[i].ty),
    ensures
        mirrors(pd, pick_child(pd, ps, i)),
{
    let r = pick_child(pd, ps, i);
    assert forall|j: int| 0 <= j < pd.children@.len() implies mirrors(#[trigger] pd.children@[j], r.children[j]) by {
        assert(mirrors(pd.children@[j], ps.children[j]));
        if j == i {
            lemma_picked_down_mirrors(pd.children@[j], ps.children[j]);
        } else {
            lemma_unpicked_mirrors(pd.children@[j], ps.children[j]);
        }
    }
}

// ----------------------------------------------------------------------------
// Picking rules
// ----------------------------------------------------------------------------

/// Whether the rules of a node hold depends only on the pick states of the node and its children.
pub proof fn lemma_local_ok_same_picks<T>(d: TreeNodeDefinition<T>, s: PickState, s2: PickState)
    requires
        s.picked is Some <==> s2.picked is Some,
        suspended(d, s) == suspended(d, s2),
        s.children.len() == s2.children.len(),
        forall|j: int| 0 <= j < s.children.len() ==> (#[trigger] s.children[j]).picked == s2.children[j].picked,
    ensures
        local_ok(d, s) == local_ok(d, s2),
        forall|ty: NodeDefinitionType, i: int| #[trigger] picked_of_type(d, s, ty, i) == picked_of_type(d, s2, ty, i),
{
    assert forall|ty: NodeDefinitionType, i: int| #[trigger] picked_of_type(d, s, ty, i) == picked_of_type(d, s2, ty, i) by {
        if 0 <= i < s.children.len() {
            assert(s.children[i].picked == s2.children[i].picked);
        }
    }
    assert(needs_self_ok(d, s) == needs_self_ok(d, s2)) by {
        if suspended(d, s) {
            if needs_self_ok(d, s) {
                assert forall|i: int| 0 <= i < s2.children.len() implies !is_picked(#[trigger] s2.children[i]) by {
                    assert(!is_picked(s.children[i]));
                }
            }
            if needs_self_ok(d, s2) {
                assert forall|i: int| 0 <= i < s.children.len() implies !is_picked(#[trigger] s.children[i]) by {
                    assert(!is_picked(s2.children[i]));
                }
            }
        }
    }
    assert(exactly_one_ok(d, s) == exactly_one_ok(d, s2)) by {
        if has_child_of_type(d, NodeDefinitionType::PickExactlyOne) && !suspended(d, s) {
            if exists|i: int| #[trigger] picked_of_type(d, s, NodeDefinitionType::PickExactlyOne, i) {
                let w = choose|i: int| #[trigger] picked_of_type(d, s, NodeDefinitionType::PickExactlyOne, i);
                assert(picked_of_type(d, s2, NodeDefinitionType::PickExactlyOne, w));
            }
            if exists|i: int| #[trigger] picked_of_type(d, s2, NodeDefinitionType::PickExactlyOne, i) {
                let w = choose|i: int| #[trigger] picked_of_type(d, s2, NodeDefinitionType::PickExactlyOne, i);
                assert(picked_of_type(d, s, NodeDefinitionType::PickExactlyOne, w));
            }
        }
    }
    lemma_at_most_one_same(d, s, s2, NodeDefinitionType::PickExactlyOne);
    lemma_at_most_one_same(d, s, s2, NodeDefinitionType::PickUpToOne);
}

proof fn lemma_at_most_one_same<T>(d: TreeNodeDefinition<T>, s: PickState, s2: PickState, ty: NodeDefinitionType)
    requires
        forall|t: NodeDefinitionType, i: int| #[trigger] picked_of_type(d, s, t, i) == picked_of_type(d, s2, t, i),
    ensures
        at_most_one(d, s, ty) == at_most_one(d, s2, ty),
{
    if at_most_one(d, s, ty) {
        assert forall|i: int, j: int| #[trigger] picked_of_type(d, s2, ty, i) && #[trigger] picked_of_type(d, s2, ty, j) implies i == j by {
            assert(picked_of_type(d, s, ty, i) && picked_of_type(d, s, ty, j));
        }
    }
    if at_most_one(d, s2, ty) {
        assert forall|i: int, j: int| #[trigger] picked_of_type(d, s, ty, i) && #[trigger] picked_of_type(d, s, ty, j) implies i == j by {
            assert(picked_of_type(d, s2, ty, i) && picked_of_type(d, s2, ty, j));
        }
    }
}

/// Unpicking a node of a consistent state leaves it consistent.
pub proof fn lemma_unpicked_consistent<T>(d: TreeNodeDefinition<T>, s: PickState)
    requires
        consistent(d, s),
    ensures
        consistent(d, unpicked(d, s)),
        !is_picked(unpicked(d, s)),
        unpicked(d, s).picked is Some <==> s.picked is Some,
    decreases d,
{
    let r = unpicked(d, s);
    assert(local_ok(d, s));
    if d.pick_children_needs_self {
        assert forall|j: int| 0 <= j < d.children@.len() implies consistent(#[trigger] d.children@[j], r.children[j])
            && !is_picked(r.children[j]) by {
            assert(consistent(d.children@[j], s.children[j]));
            if s.children[j].picked is Some {
                lemma_unpicked_consistent(d.children@[j], s.children[j]);
            }
        }
        assert forall|j: int| 0 <= j < r.children.len() implies !is_picked(#[trigger] r.children[j]) by {
            assert(!is_picked(r.children[j]) && consistent(d.children@[j], r.children[j]));
        }
        assert forall|ty: NodeDefinitionType, i: int| !#[trigger] picked_of_type(d, r, ty, i) by {
            if 0 <= i < r.children.len() {
                assert(!is_picked(r.children[i]));
            }
        }
        assert(local_ok(d, r));
    } else {
        assert(r.children == s.children);
        assert forall|j: int| 0 <= j < d.children@.len() implies consistent(#[trigger] d.children@[j], r.children[j]) by {
            assert(consistent(d.children@[j], s.children[j]));
        }
        lemma_local_ok_same_picks(d, s, r);
    }
}

/// Picking a node whose rules below it hold makes it consistent.
pub proof fn lemma_picked_down_consistent<T>(d: TreeNodeDefinition<T>, s: PickState)
    requires
        subtree_ok(d, s),
        is_pickable(d.ty),
    ensures
        consistent(d, picked_down(d, s)),
        is_picked(picked_down(d, s)),
    decreases d,
{
    let r = picked_down(d, s);
    let k = first_child_of_type(d, NodeDefinitionType::PickExactlyOne);
    let peo = NodeDefinitionType::PickExactlyOne;
    if first_exactly_one_due(d, s) && 0 <= k < d.children@.len() {
        lemma_first_child_of_type(d, peo);
        assert(consistent(d.children@[k], s.children[k]));
        lemma_picked_down_consistent(d.children@[k], s.children[k]);
        assert forall|j: int| 0 <= j < d.children@.len() implies consistent(#[trigger] d.children@[j], r.children[j]) by {
            assert(consistent(d.children@[j], s.children[j]));
        }
        assert(picked_of_type(d, r, peo, k));
        assert forall|i: int, j: int| #[trigger] picked_of_type(d, r, peo, i) && #[trigger] picked_of_type(d, r, peo, j) implies i == j by {
            if i != k {
                assert(picked_of_type(d, s, peo, i));
            }
            if j != k {
                assert(picked_of_type(d, s, peo, j));
            }
        }
        assert forall|i: int| #[trigger] picked_of_type(d, r, NodeDefinitionType::PickUpToOne, i) implies picked_of_type(d, s, NodeDefinitionType::PickUpToOne, i) by {
        }
        assert(local_ok(d, r));
    } else {
        if has_child_of_type(d, peo) {
            lemma_first_child_of_type(d, peo);
        }
        assert(r.children == s.children);
        assert forall|j: int| 0 <= j < d.children@.len() implies consistent(#[trigger] d.children@[j], r.children[j]) by {
            assert(consistent(d.children@[j], s.children[j]));
        }
        assert forall|ty: NodeDefinitionType, i: int| #[trigger] picked_of_type(d, r, ty, i) == picked_of_type(d, s, ty, i) by {
        }
        if has_child_of_type(d, peo) {
            let w = choose|i: int| #[trigger] picked_of_type(d, s, peo, i);
            assert(picked_of_type(d, r, peo, w));
        }
        assert(local_ok(d, r));
    }
}

/// What picking child `i` does to child `j`.
pub proof fn lemma_pick_child_child<T>(pd: TreeNodeDefinition<T>, ps: PickState, i: int, j: int)
    requires
        shape_ok(pd, ps),
        0 <= i < pd.children@.len(),
        0 <= j < pd.children@.len(),
        is_pickable(pd.children@[i].ty),
        j != i ==> consistent(pd.children@[j], ps.children[j]),
        j == i ==> subtree_ok(pd.children@[i], ps.children[i]),
    ensures
        consistent(pd.children@[j], pick_child(pd, ps, i).children[j]),
        j == i ==> is_picked(pick_child(pd, ps, i).children[j]),
        j != i && conflicts(pd.children@[i].ty, pd.children@[j].ty) ==> !is_picked(pick_child(pd, ps, i).children[j]),
        j != i && !conflicts(pd.children@[i].ty, pd.children@[j].ty) ==> pick_child(pd, ps, i).children[j] == ps.children[j],
{
    let r = pick_child(pd, ps, i);
    if j == i {
        lemma_picked_down_consistent(pd.children@[i], ps.children[i]);
        assert(r.children[j] == picked_down(pd.children@[i], ps.children[i]));
    } else if conflicts(pd.children@[i].ty, pd.children@[j].ty) {
        lemma_unpicked_consistent(pd.children@[j], ps.children[j]);
        assert(r.children[j] == unpicked(pd.children@[j], ps.children[j]));
    } else {
        assert(r.children[j] == ps.children[j]);
    }
}

/// Picking child `i` of a node: the children stay consistent, the node keeps
/// its rules, except that it may now be required to be picked itself.
pub proof fn lemma_pick_child_ok<T>(pd: TreeNodeDefinition<T>, ps: PickState, i: int)
    requires
        shape_ok(pd, ps),
        at_most_one(pd, ps, NodeDefinitionType::PickExactlyOne),
        at_most_one(pd, ps, NodeDefinitionType::PickUpToOne),
        exactly_one_ok(pd, ps),
        0 <= i < pd.children@.len(),
        is_pickable(pd.children@[i].ty),
        forall|j: int| 0 <= j < pd.children@.len() && j != i ==> consistent(#[trigger] pd.children@[j], ps.children[j]),
        subtree_ok(pd.children@[i], ps.children[i]),
    ensures
        pick_child(pd, ps, i).picked == ps.picked,
        subtree_ok(pd, pick_child(pd, ps, i)),
        exactly_one_ok(pd, pick_child(pd, ps, i)),
        is_picked(pick_child(pd, ps, i).children[i]),
        !suspended(pd, ps) ==> consistent(pd, pick_child(pd, ps, i)),
{
    let r = pick_child(pd, ps, i);
    let ty_i = pd.children@[i].ty;
    let peo = NodeDefinitionType::PickExactlyOne;
    let puto = NodeDefinitionType::PickUpToOne;
    assert forall|j: int| 0 <= j < pd.children@.len() implies consistent(#[trigger] pd.children@[j], r.children[j])
        && (j == i ==> is_picked(r.children[j]))
        && (j != i && conflicts(ty_i, pd.children@[j].ty) ==> !is_picked(r.children[j]))
        && (j != i && !conflicts(ty_i, pd.children@[j].ty) ==> r.children[j] == ps.children[j]) by {
        lemma_pick_child_child(pd, ps, i, j);
    }
    assert(at_most_one(pd, r, peo)) by {
        assert forall|a: int, b: int| #[trigger] picked_of_type(pd, r, peo, a) && #[trigger] picked_of_type(pd, r, peo, b) implies a == b by {
            assert(pd.children@[a].ty == peo && pd.children@[b].ty == peo);
            if ty_i != peo {
                assert(picked_of_type(pd, ps, peo, a) && picked_of_type(pd, ps, peo, b));
            }
        }
    }
    assert(at_most_one(pd, r, puto)) by {
        assert forall|a: int, b: int| #[trigger] picked_of_type(pd, r, puto, a) && #[trigger] picked_of_type(pd, r, puto, b) implies a == b by {
            assert(pd.children@[a].ty == puto && pd.children@[b].ty == puto);
            if ty_i != puto {
                assert(picked_of_type(pd, ps, puto, a) && picked_of_type(pd, ps, puto, b));
            }
        }
    }
    assert(exactly_one_ok(pd, r)) by {
        if has_child_of_type(pd, peo) && !suspended(pd, r) {
            if ty_i == peo {
                assert(picked_of_type(pd, r, peo, i));
            } else {
                let w = choose|w: int| #[trigger] picked_of_type(pd, ps, peo, w);
                assert(pd.children@[w].ty == peo);
                assert(picked_of_type(pd, r, peo, w));
            }
        }
    }
    assert(subtree_ok(pd, r));
}

/// Picking or unpicking all the `PickMany` children of a node that does not
/// need to be picked before them keeps a consistent state consistent.
pub proof fn lemma_set_pick_many_consistent<T>(d: TreeNodeDefinition<T>, s: PickState, v: bool)
    requires
        consistent(d, s),
        !d.pick_children_needs_self,
    ensures
        consistent(d, set_pick_many_children(d, s, v)),
        set_pick_many_children(d, s, v).picked == s.picked,
{
    let r = set_pick_many_children(d, s, v);
    let pm = NodeDefinitionType::PickMany;
    assert(local_ok(d, s));
    assert forall|j: int| 0 <= j < d.children@.len() implies consistent(#[trigger] d.children@[j], r.children[j])
        && (d.children@[j].ty != pm ==> r.children[j] == s.children[j]) by {
        assert(consistent(d.children@[j], s.children[j]));
        if d.children@[j].ty == pm {
            lemma_picked_down_consistent(d.children@[j], s.children[j]);
            lemma_unpicked_consistent(d.children@[j], s.children[j]);
        }
    }
    assert forall|ty: NodeDefinitionType, i: int| ty != pm implies #[trigger] picked_of_type(d, r, ty, i) == picked_of_type(d, s, ty, i) by {
        if 0 <= i < d.children@.len() && d.children@[i].ty == ty {
            assert(r.children[i] == s.children[i]);
        }
    }
    let peo = NodeDefinitionType::PickExactlyOne;
    let puto = NodeDefinitionType::PickUpToOne;
    assert forall|a: int, b: int| #[trigger] picked_of_type(d, r, peo, a) && #[trigger] picked_of_type(d, r, peo, b) implies a == b by {
        assert(picked_of_type(d, s, peo, a) && picked_of_type(d, s, peo, b));
    }
    assert forall|a: int, b: int| #[trigger] picked_of_type(d, r, puto, a) && #[trigger] picked_of_type(d, r, puto, b) implies a == b by {
        assert(picked_of_type(d, s, puto, a) && picked_of_type(d, s, puto, b));
    }
    if has_child_of_type(d, peo) && !suspended(d, r) {
        let w = choose|w: int| #[trigger] picked_of_type(d, s, peo, w);
        assert(picked_of_type(d, r, peo, w));
    }
    assert(local_ok(d, r));
}

// ----------------------------------------------------------------------------
// The rules around a path
// ----------------------------------------------------------------------------

/// In a consistent state, the rules hold around every path, and at its end.
pub proof fn lemma_consistent_frame<T>(d: TreeNodeDefinition<T>, s: PickState, q: Seq<usize>)
    requires
        consistent(d, s),
        is_path(d, q),
    ensures
        frame_ok(d, s, q),
        node_at(s, q) is Some,
        consistent(def_at(d, q).unwrap(), node_at(s, q).unwrap()),
    decreases q.len(),
{
    if q.len() > 0 {
        let i = q[0] as int;
        assert(local_ok(d, s));
        assert(consistent(d.children@[i], s.children[i]));
        lemma_consistent_frame(d.children@[i], s.children[i], q.drop_first());
        assert forall|j: int| 0 <= j < d.children@.len() && j != i implies consistent(#[trigger] d.children@[j], s.children[j]) by {
        }
    }
}

/// The rules around a path and at its end make the whole state consistent.
pub proof fn lemma_frame_consistent<T>(d: TreeNodeDefinition<T>, s: PickState, q: Seq<usize>)
    requires
        frame_ok(d, s, q),
        def_at(d, q) is Some,
        node_at(s, q) is Some,
        consistent(def_at(d, q).unwrap(), node_at(s, q).unwrap()),
    ensures
        consistent(d, s),
    decreases q.len(),
{
    if q.len() > 0 {
        let i = q[0] as int;
        assert(local_ok(d, s));
        lemma_frame_consistent(d.children@[i], s.children[i], q.drop_first());
        assert forall|j: int| 0 <= j < d.children@.len() implies consistent(#[trigger] d.children@[j], s.children[j]) by {
            if j != i {
            }
        }
    }
}

/// The rules around a path hold around its parent path, and at the parent
/// node, whose children beside the path are consistent.
pub proof fn lemma_frame_parent<T>(d: TreeNodeDefinition<T>, s: PickState, p: Seq<usize>)
    requires
        frame_ok(d, s, p),
        p.len() >= 1,
    ensures
        frame_ok(d, s, p.drop_last()),
        def_at(d, p.drop_last()) is Some,
        node_at(s, p.drop_last()) is Some,
        local_ok(def_at(d, p.drop_last()).unwrap(), node_at(s, p.drop_last()).unwrap()),
        p.last() < def_at(d, p.drop_last()).unwrap().children@.len(),
        forall|j: int| 0 <= j < def_at(d, p.drop_last()).unwrap().children@.len() && j != p.last()
            ==> consistent(#[trigger] def_at(d, p.drop_last()).unwrap().children@[j], node_at(s, p.drop_last()).unwrap().children[j]),
        def_at(d, p) == Some(def_at(d, p.drop_last()).unwrap().children@[p.last() as int]),
        node_at(s, p) == Some(node_at(s, p.drop_last()).unwrap().children[p.last() as int]),
    decreases p.len(),
{
    let i = p[0] as int;
    if p.len() == 1 {
        assert(p.drop_last().len() == 0);
        assert(p.last() == p[0]);
        assert(local_ok(d, s));
    } else {
        lemma_path_split(p);
        lemma_frame_parent(d.children@[i], s.children[i], p.drop_first());
        assert(local_ok(d, s));
    }
    lemma_def_at_snoc(d, p);
    lemma_node_at_snoc(s, p);
}

/// An operation at the end of a path that keeps the node's pick state keeps
/// the rules around the path.
pub proof fn lemma_frame_apply<T>(d: TreeNodeDefinition<T>, s: PickState, q: Seq<usize>, op: NodeOp)
    requires
        frame_ok(d, s, q),
        def_at(d, q) is Some,
        node_at(s, q) is Some,
        node_op(def_at(d, q).unwrap(), node_at(s, q).unwrap(), op).picked == node_at(s, q).unwrap().picked,
    ensures
        frame_ok(d, apply_at(d, s, q, op), q),
        node_at(apply_at(d, s, q, op), q) == Some(node_op(def_at(d, q).unwrap(), node_at(s, q).unwrap(), op)),
    decreases q.len(),
{
    if q.len() > 0 {
        let i = q[0] as int;
        let rest = q.drop_first();
        let c = s.children[i];
        let r = apply_at(d, s, q, op);
        assert(local_ok(d, s));
        lemma_frame_apply(d.children@[i], c, rest, op);
        let c2 = apply_at(d.children@[i], c, rest, op);
        assert(r.children == s.children.update(i, c2));
        if rest.len() > 0 {
            lemma_apply_at_picked(d.children@[i], c, rest, op);
        }
        assert(c2.picked == c.picked);
        assert forall|j: int| 0 <= j < s.children.len() implies (#[trigger] s.children[j]).picked == r.children[j].picked by {
        }
        lemma_local_ok_same_picks(d, s, r);
        assert forall|j: int| 0 <= j < d.children@.len() && j != i implies consistent(#[trigger] d.children@[j], r.children[j]) by {
            assert(consistent(d.children@[j], s.children[j]));
        }
    }
}

/// Picking the node at a path makes the state consistent, when the rules
/// hold around the path and below its end.
pub proof fn lemma_pick_at_consistent<T>(d: TreeNodeDefinition<T>, s: PickState, p: Seq<usize>)
    requires
        valid_def(d),
        def_at(d, p) is Some,
        node_at(s, p) is Some,
        frame_ok(d, s, p),
        subtree_ok(def_at(d, p).unwrap(), node_at(s, p).unwrap()),
        is_pickable(def_at(d, p).unwrap().ty),
    ensures
        consistent(d, pick_at(d, s, p)),
    decreases p.len(),
{
    reveal(pick_at);
    if p.len() == 0 {
        lemma_picked_down_consistent(d, s);
    } else {
        let pp = p.drop_last();
        let i = p.last() as int;
        lemma_frame_parent(d, s, p);
        let pd = def_at(d, pp).unwrap();
        let ps = node_at(s, pp).unwrap();
        assert(local_ok(pd, ps));
        lemma_pick_child_ok(pd, ps, i);
        let op = NodeOp::PickChild(p.last());
        assert(node_op(pd, ps, op) == pick_child(pd, ps, i));
        lemma_frame_apply(d, s, pp, op);
        let s2 = apply_at(d, s, pp, op);
        assert(cascades_up(d, s, pp) == suspended(pd, ps));
        if suspended(pd, ps) {
            lemma_valid_def_at(d, pp);
            assert(is_pickable(pd.ty));
            lemma_pick_at_consistent(d, s2, pp);
        } else {
            lemma_frame_consistent(d, s2, pp);
        }
    }
}

/// Unpicking child `i` keeps a node consistent, unless that child is the only
/// picked member of a `PickExactlyOne` group.
pub proof fn lemma_unpick_child_consistent<T>(pd: TreeNodeDefinition<T>, ps: PickState, i: int)
    requires
        consistent(pd, ps),
        0 <= i < pd.children@.len(),
        pd.children@[i].ty == NodeDefinitionType::PickExactlyOne ==> exists|j: int|
            j != i && #[trigger] picked_of_type(pd, ps, NodeDefinitionType::PickExactlyOne, j),
    ensures
        consistent(pd, unpick_child(pd, ps, i)),
        unpick_child(pd, ps, i).picked == ps.picked,
{
    let r = unpick_child(pd, ps, i);
    let peo = NodeDefinitionType::PickExactlyOne;
    let puto = NodeDefinitionType::PickUpToOne;
    assert(local_ok(pd, ps));
    assert(consistent(pd.children@[i], ps.children[i]));
    lemma_unpicked_consistent(pd.children@[i], ps.children[i]);
    assert forall|j: int| 0 <= j < pd.children@.len() implies consistent(#[trigger] pd.children@[j], r.children[j])
        && (j != i ==> r.children[j] == ps.children[j]) && (j == i ==> !is_picked(r.children[j])) by {
        assert(consistent(pd.children@[j], ps.children[j]));
    }
    assert forall|ty: NodeDefinitionType, j: int| #[trigger] picked_of_type(pd, r, ty, j) implies picked_of_type(pd, ps, ty, j) && j != i by {
    }
    assert(needs_self_ok(pd, r)) by {
        if suspended(pd, r) {
            assert forall|j: int| 0 <= j < r.children.len() implies !is_picked(#[trigger] r.children[j]) by {
                if j != i {
                    assert(!is_picked(ps.children[j]));
                }
            }
        }
    }
    assert(exactly_one_ok(pd, r)) by {
        if has_child_of_type(pd, peo) && !suspended(pd, r) {
            if pd.children@[i].ty == peo {
                let w = choose|j: int| j != i && #[trigger] picked_of_type(pd, ps, peo, j);
                assert(picked_of_type(pd, r, peo, w));
            } else {
                let w = choose|w: int| #[trigger] picked_of_type(pd, ps, peo, w);
                assert(w != i);
                assert(picked_of_type(pd, r, peo, w));
            }
        }
    }
    assert forall|a: int, b: int| #[trigger] picked_of_type(pd, r, peo, a) && #[trigger] picked_of_type(pd, r, peo, b) implies a == b by {
        assert(picked_of_type(pd, ps, peo, a) && picked_of_type(pd, ps, peo, b));
    }
    assert forall|a: int, b: int| #[trigger] picked_of_type(pd, r, puto, a) && #[trigger] picked_of_type(pd, r, puto, b) implies a == b by {
        assert(picked_of_type(pd, ps, puto, a) && picked_of_type(pd, ps, puto, b));
    }
    assert(local_ok(pd, r));
}

/// Unpicking a node keeps a consistent state consistent, unless the node is
/// the only picked member of its `PickExactlyOne` group.
pub proof fn lemma_unpick_at_consistent<T>(d: TreeNodeDefinition<T>, s: PickState, p: Seq<usize>)
    requires
        consistent(d, s),
        is_path(d, p),
        p.len() >= 1,
        def_at(d, p).unwrap().ty == NodeDefinitionType::PickExactlyOne ==> other_exactly_one_picked(d, s, p),
    ensures
        consistent(d, unpick_at(d, s, p)),
{
    let pp = p.drop_last();
    lemma_def_at_snoc(d, p);
    lemma_consistent_frame(d, s, pp);
    let pd = def_at(d, pp).unwrap();
    let ps = node_at(s, pp).unwrap();
    let i = p.last() as int;
    lemma_unpick_child_consistent(pd, ps, i);
    let op = NodeOp::UnpickChild(p.last());
    lemma_frame_apply(d, s, pp, op);
    lemma_frame_consistent(d, apply_at(d, s, pp, op), pp);
}

/// Picking or unpicking all the `PickMany` children of a node that does not
/// need to be picked before them keeps a consistent state consistent.
pub proof fn lemma_set_pick_many_at_consistent<T>(d: TreeNodeDefinition<T>, s: PickState, p: Seq<usize>, v: bool)
    requires
        consistent(d, s),
        is_path(d, p),
        !def_at(d, p).unwrap().pick_children_needs_self,
    ensures
        consistent(d, apply_at(d, s, p, NodeOp::SetPickMany(v))),
{
    lemma_consistent_frame(d, s, p);
    lemma_set_pick_many_consistent(def_at(d, p).unwrap(), node_at(s, p).unwrap(), v);
    lemma_frame_apply(d, s, p, NodeOp::SetPickMany(v));
    lemma_frame_consistent(d, apply_at(d, s, p, NodeOp::SetPickMany(v)), p);
}

/// The state in which an interaction starts is consistent.
pub proof fn lemma_initial_state_consistent<T>(d: TreeNodeDefinition<T>, first: bool)
    requires
        valid_def(d),
        d.ty == NodeDefinitionType::PickExactlyOne || !first,
    ensures
        consistent(d, initial_state(d, first)),
        is_picked(initial_state(d, first)) == first,
    decreases d,
{
    let s = initial_state(d, first);
    let peo = NodeDefinitionType::PickExactlyOne;
    let puto = NodeDefinitionType::PickUpToOne;
    let k = first_child_of_type(d, peo);
    let exclude = s.picked == Some(false) && d.pick_children_needs_self;
    if has_child_of_type(d, peo) {
        lemma_first_child_of_type(d, peo);
    }
    assert forall|j: int| 0 <= j < d.children@.len() implies consistent(#[trigger] d.children@[j], s.children[j])
        && is_picked(s.children[j]) == (!exclude && d.children@[j].ty == peo && j == k) by {
        assert(valid_def(d.children@[j]));
        lemma_initial_state_consistent(d.children@[j], !exclude && d.children@[j].ty == peo && j == k);
    }
    assert forall|ty: NodeDefinitionType, j: int| #[trigger] picked_of_type(d, s, ty, j) implies ty == peo && j == k && !exclude by {
    }
    assert(needs_self_ok(d, s)) by {
        if suspended(d, s) {
            assert forall|j: int| 0 <= j < s.children.len() implies !is_picked(#[trigger] s.children[j]) by {
                assert(is_picked(s.children[j]) == (!exclude && d.children@[j].ty == peo && j == k));
            }
        }
    }
    assert(exactly_one_ok(d, s)) by {
        if has_child_of_type(d, peo) && !suspended(d, s) {
            assert(picked_of_type(d, s, peo, k));
        }
    }
    assert(local_ok(d, s));
}

/// One step of [`pick_at`]: the node becomes picked within its parent, and
/// the parent is picked next when it needs to be.
pub proof fn lemma_pick_at_unfold<T>(d: TreeNodeDefinition<T>, s: PickState, p: Seq<usize>)
    ensures
        p.len() == 0 ==> pick_at(d, s, p) == picked_down(d, s),
        p.len() > 0 ==> pick_at(d, s, p) == (if cascades_up(d, s, p.drop_last()) {
            pick_at(d, apply_at(d, s, p.drop_last(), NodeOp::PickChild(p.last())), p.drop_last())
        } else {
            apply_at(d, s, p.drop_last(), NodeOp::PickChild(p.last()))
        }),
{
    reveal(pick_at);
}

// ----------------------------------------------------------------------------
// Listing the paths
// ----------------------------------------------------------------------------

/// `p` leads to a node of `s`, which is picked if `only_picked`.
pub open spec fn listed_path_ok(s: PickState, p: Seq<usize>, only_picked: bool) -> bool {
    &&& node_at(s, p) is Some
    &&& (only_picked ==> is_picked(node_at(s, p).unwrap()))
}

/// Every listed path leads to a node, and to a picked node when only those are listed.
pub proof fn lemma_paths_below_ok<T>(d: TreeNodeDefinition<T>, s: PickState, only_picked: bool)
    requires
        mirrors(d, s),
    ensures
        forall|m: int| 0 <= m < paths_below(s, only_picked).len() ==> listed_path_ok(s, #[trigger] paths_below(s, only_picked)[m], only_picked),
    decreases s, s.children.len() + 1,
{
    assert(paths_below(s, only_picked) == paths_before(s, s.children.len() as int, only_picked));
    lemma_paths_before_ok(d, s, s.children.len() as int, only_picked);
}

proof fn lemma_paths_before_ok<T>(d: TreeNodeDefinition<T>, s: PickState, k: int, only_picked: bool)
    requires
        mirrors(d, s),
    ensures
        forall|m: int| 0 <= m < paths_before(s, k, only_picked).len() ==> listed_path_ok(s, #[trigger] paths_before(s, k, only_picked)[m], only_picked),
    decreases s, k,
{
    if 0 < k <= s.children.len() {
        let i = k - 1;
        lemma_paths_before_ok(d, s, k - 1, only_picked);
        lemma_paths_of_child_ok(d, s, i, only_picked);
        let a = paths_before(s, k - 1, only_picked);
        let b = paths_of_child(s, i, only_picked);
        assert(paths_before(s, k, only_picked) == a + b);
        assert forall|m: int| 0 <= m < (a + b).len() implies listed_path_ok(s, #[trigger] (a + b)[m], only_picked) by {
            if m < a.len() {
                assert((a + b)[m] == a[m]);
            } else {
                assert((a + b)[m] == b[m - a.len()]);
            }
        }
    }
}

proof fn lemma_paths_of_child_ok<T>(d: TreeNodeDefinition<T>, s: PickState, i: int, only_picked: bool)
    requires
        mirrors(d, s),
    ensures
        forall|m: int| 0 <= m < paths_of_child(s, i, only_picked).len() ==> listed_path_ok(s, #[trigger] paths_of_child(s, i, only_picked)[m], only_picked),
    decreases s, i, 1int,
{
    if 0 <= i < s.children.len() {
        let c = s.children[i];
        assert(d.children.len() == d.children@.len());
        assert(d.children@.len() <= usize::MAX);
        assert((i as usize) as int == i);
        assert(mirrors(d.children@[i], c));
        lemma_paths_below_ok(d.children@[i], c, only_picked);
        let own: Seq<Seq<usize>> = if !only_picked || is_picked(c) { seq![seq![i as usize]] } else { Seq::empty() };
        let below = paths_below(c, only_picked);
        let mapped = below.map_values(|p: Seq<usize>| seq![i as usize] + p);
        assert(paths_of_child(s, i, only_picked) == own + mapped);
        assert forall|m: int| 0 <= m < (own + mapped).len() implies listed_path_ok(s, #[trigger] (own + mapped)[m], only_picked) by {
            if m < own.len() {
                let p = seq![i as usize];
                assert((own + mapped)[m] == p);
                assert(p.drop_first().len() == 0);
                assert(node_at(s, p) == node_at(c, p.drop_first()));
            } else {
                let q = below[m - own.len()];
                let p = seq![i as usize] + q;
                assert((own + mapped)[m] == p);
                assert(p.drop_first() =~= q);
                assert(listed_path_ok(c, q, only_picked));
                assert(node_at(s, p) == node_at(c, q));
            }
        }
    }
}

/// A path that leads to a node of a mirroring state leads to a node of the definition.
pub proof fn lemma_node_at_mirrors<T>(d: TreeNodeDefinition<T>, s: PickState, p: Seq<usize>)
    requires
        mirrors(d, s),
        node_at(s, p) is Some,
    ensures
        is_path(d, p),
    decreases p.len(),
{
    if p.len() > 0 {
        let i = p[0] as int;
        assert(mirrors(d.children@[i], s.children[i]));
        lemma_node_at_mirrors(d.children@[i], s.children[i], p.drop_first());
    }
}

// ----------------------------------------------------------------------------
// Repeating an operation
// ----------------------------------------------------------------------------

/// Unpicking a consistent node that is not picked changes nothing.
pub proof fn lemma_unpicked_fixpoint<T>(d: TreeNodeDefinition<T>, x: PickState)
    requires
        consistent(d, x),
        !is_picked(x),
    ensures
        unpicked(d, x) == x,
    decreases d,
{
    assert(local_ok(d, x));
    let r = unpicked(d, x);
    if d.pick_children_needs_self {
        assert forall|j: int| 0 <= j < x.children.len() implies #[trigger] r.children[j] == x.children[j] by {
            assert(consistent(d.children@[j], x.children[j]));
            assert(!is_picked(x.children[j]));
            if x.children[j].picked is Some {
                lemma_unpicked_fixpoint(d.children@[j], x.children[j]);
            }
        }
        assert(r.children =~= x.children);
    }
    assert(r.picked == x.picked);
}

/// Picking a consistent node that is picked changes nothing.
pub proof fn lemma_picked_down_fixpoint<T>(d: TreeNodeDefinition<T>, y: PickState)
    requires
        consistent(d, y),
        is_picked(y),
    ensures
        picked_down(d, y) == y,
{
    assert(local_ok(d, y));
    assert(!first_exactly_one_due(d, y));
    assert(picked_down(d, y).children =~= y.children);
}

/// An operation that gives back the node it is applied to changes nothing.
pub proof fn lemma_apply_at_same<T>(d: TreeNodeDefinition<T>, s: PickState, q: Seq<usize>, op: NodeOp)
    requires
        def_at(d, q) is Some,
        node_at(s, q) is Some,
        node_op(def_at(d, q).unwrap(), node_at(s, q).unwrap(), op) == node_at(s, q).unwrap(),
    ensures
        apply_at(d, s, q, op) == s,
    decreases q.len(),
{
    if q.len() > 0 {
        let i = q[0] as int;
        lemma_apply_at_same(d.children@[i], s.children[i], q.drop_first(), op);
        assert(apply_at(d, s, q, op).children =~= s.children);
    }
}

/// The node at the path operated on is the result of the operation.
pub proof fn lemma_node_at_apply_at<T>(d: TreeNodeDefinition<T>, s: PickState, q: Seq<usize>, op: NodeOp)
    requires
        def_at(d, q) is Some,
        node_at(s, q) is Some,
    ensures
        node_at(apply_at(d, s, q, op), q) == Some(node_op(def_at(d, q).unwrap(), node_at(s, q).unwrap(), op)),
    decreases q.len(),
{
    if q.len() > 0 {
        let i = q[0] as int;
        lemma_node_at_apply_at(d.children@[i], s.children[i], q.drop_first(), op);
    }
}

/// The child at `j` of a node is at the path extended with `j`.
pub proof fn lemma_node_at_push(s: PickState, q: Seq<usize>, j: usize)
    requires
        node_at(s, q) is Some,
        j < node_at(s, q).unwrap().children.len(),
    ensures
        node_at(s, q.push(j)) == Some(node_at(s, q).unwrap().children[j as int]),
{
    lemma_node_at_snoc(s, q.push(j));
    assert(q.push(j).drop_last() =~= q);
}

/// Picking the node at `q` keeps its child `j`, unless that child is a
/// `PickExactlyOne` child of a group with no picked member.
pub proof fn lemma_pick_at_keeps_child<T>(d: TreeNodeDefinition<T>, t: PickState, q: Seq<usize>, j: usize)
    requires
        def_at(d, q) is Some,
        node_at(t, q) is Some,
        j < def_at(d, q).unwrap().children@.len(),
        j < node_at(t, q).unwrap().children.len(),
        def_at(d, q).unwrap().children@[j as int].ty != NodeDefinitionType::PickExactlyOne
            || exists|m: int| #[trigger] picked_of_type(def_at(d, q).unwrap(), node_at(t, q).unwrap(), NodeDefinitionType::PickExactlyOne, m),
    ensures
        node_at(pick_at(d, t, q), q.push(j)) == node_at(t, q.push(j)),
    decreases q.len(),
{
    reveal(pick_at);
    let qd = def_at(d, q).unwrap();
    let qs = node_at(t, q).unwrap();
    let k = first_child_of_type(qd, NodeDefinitionType::PickExactlyOne);
    lemma_node_at_push(t, q, j);
    assert(picked_down(qd, qs).children[j as int] == qs.children[j as int]) by {
        if first_exactly_one_due(qd, qs) && 0 <= k < qd.children@.len() {
            lemma_first_child_of_type(qd, NodeDefinitionType::PickExactlyOne);
            assert(k != j);
        }
    }
    if q.len() == 0 {
        assert(node_at(picked_down(d, t), q.push(j)) == node_at(picked_down(d, t).children[j as int], q.push(j).drop_first()));
        assert(q.push(j).drop_first().len() == 0);
    } else {
        let q3 = q.drop_last();
        let last = q.last();
        lemma_def_at_snoc(d, q);
        lemma_node_at_snoc(t, q);
        let pd = def_at(d, q3).unwrap();
        let ps = node_at(t, q3).unwrap();
        assert(q3.push(last) =~= q);
        let op = NodeOp::PickChild(last);
        lemma_node_at_apply_at(d, t, q3, op);
        let t2 = apply_at(d, t, q3, op);
        let c = pick_child(pd, ps, last as int);
        assert(c.children[last as int] == picked_down(qd, qs));
        lemma_node_at_push(t2, q3, last);
        assert(node_at(t2, q) == Some(picked_down(qd, qs)));
        lemma_node_at_push(t2, q, j);
        if crate::model::cascades_up(d, t, q3) {
            assert(node_at(t2, q3) == Some(c));
            assert(def_at(d, q3) == Some(pd));
            if qd.ty == NodeDefinitionType::PickExactlyOne {
                assert(picked_of_type(pd, c, NodeDefinitionType::PickExactlyOne, last as int));
            }
            lemma_pick_at_keeps_child(d, t2, q3, last);
            let t3 = pick_at(d, t2, q3);
            assert(node_at(t3, q) == node_at(t2, q));
            lemma_node_at_push(t3, q, j);
        }
    }
}

/// Picking the node at `q`, whose child `i` is picked, keeps that child and
/// the siblings that conflict with it.
proof fn lemma_pick_at_keeps_conflicting<T>(d: TreeNodeDefinition<T>, t: PickState, q: Seq<usize>, i: usize)
    requires
        def_at(d, q) is Some,
        node_at(t, q) is Some,
        i < def_at(d, q).unwrap().children@.len(),
        def_at(d, q).unwrap().children@.len() == node_at(t, q).unwrap().children.len(),
        is_picked(node_at(t, q).unwrap().children[i as int]),
    ensures
        node_at(pick_at(d, t, q), q) is Some,
        forall|j: int| 0 <= j < def_at(d, q).unwrap().children@.len() && (j == i || conflicts(
            def_at(d, q).unwrap().children@[i as int].ty,
            #[trigger] def_at(d, q).unwrap().children@[j].ty,
        )) ==> node_at(pick_at(d, t, q), q).unwrap().children[j] == node_at(t, q).unwrap().children[j],
{
    let qd = def_at(d, q).unwrap();
    let qs = node_at(t, q).unwrap();
    let r = pick_at(d, t, q);
    let peo = NodeDefinitionType::PickExactlyOne;
    if qd.children@[i as int].ty == peo {
        assert(picked_of_type(qd, qs, peo, i as int));
    }
    lemma_pick_at_keeps_child(d, t, q, i);
    lemma_node_at_push(t, q, i);
    lemma_node_at_snoc(r, q.push(i));
    assert(q.push(i).drop_last() =~= q);
    assert forall|j: int| 0 <= j < qd.children@.len() && (j == i || conflicts(
        qd.children@[i as int].ty,
        #[trigger] qd.children@[j].ty,
    )) implies node_at(r, q).unwrap().children[j] == qs.children[j] by {
        assert(qd.children.len() == qd.children@.len());
        assert((j as usize) as int == j);
        if qd.children@[i as int].ty == peo {
            assert(picked_of_type(qd, qs, peo, i as int));
        }
        lemma_pick_at_keeps_child(d, t, q, j as usize);
        lemma_node_at_push(t, q, j as usize);
        lemma_node_at_snoc(r, q.push(j as usize));
        assert(q.push(j as usize).drop_last() =~= q);
    }
}

/// After picking the node at `c`, that node is picked, its conflicting
/// siblings are not, and the state is consistent.
pub proof fn lemma_pick_at_result<T>(d: TreeNodeDefinition<T>, s: PickState, c: Seq<usize>)
    requires
        valid_def(d),
        consistent(d, s),
        is_path(d, c),
        c.len() >= 1,
        is_pickable(def_at(d, c).unwrap().ty),
    ensures
        consistent(d, pick_at(d, s, c)),
        node_at(pick_at(d, s, c), c.drop_last()) is Some,
        is_picked(node_at(pick_at(d, s, c), c).unwrap()),
        node_at(pick_at(d, s, c), c) == Some(node_at(pick_at(d, s, c), c.drop_last()).unwrap().children[c.last() as int]),
        forall|j: int| 0 <= j < def_at(d, c.drop_last()).unwrap().children@.len() && j != c.last()
            && conflicts(def_at(d, c).unwrap().ty, #[trigger] def_at(d, c.drop_last()).unwrap().children@[j].ty)
            ==> !is_picked(node_at(pick_at(d, s, c), c.drop_last()).unwrap().children[j]),
{
    lemma_consistent_frame(d, s, c);
    lemma_pick_at_consistent(d, s, c);
    lemma_pick_at_unfold(d, s, c);
    let pp = c.drop_last();
    let i = c.last();
    lemma_def_at_snoc(d, c);
    lemma_consistent_frame(d, s, pp);
    lemma_node_at_snoc(s, c);
    let pd = def_at(d, pp).unwrap();
    let ps = node_at(s, pp).unwrap();
    assert(local_ok(pd, ps));
    assert(forall|j: int| 0 <= j < pd.children@.len() && j != i ==> consistent(#[trigger] pd.children@[j], ps.children[j]));
    lemma_pick_child_ok(pd, ps, i as int);
    let op = NodeOp::PickChild(i);
    lemma_node_at_apply_at(d, s, pp, op);
    let s2 = apply_at(d, s, pp, op);
    let cn = pick_child(pd, ps, i as int);
    assert(node_at(s2, pp) == Some(cn));
    let s1 = pick_at(d, s, c);
    assert forall|j: int| 0 <= j < pd.children@.len() && (j == i || conflicts(pd.children@[i as int].ty, #[trigger] pd.children@[j].ty))
        implies node_at(s1, pp) is Some && node_at(s1, pp).unwrap().children[j] == cn.children[j] by {
        if crate::model::cascades_up(d, s, pp) {
            lemma_pick_at_keeps_conflicting(d, s2, pp, i);
        }
    }
    assert forall|j: int| 0 <= j < pd.children@.len() && j != i && conflicts(pd.children@[i as int].ty, #[trigger] pd.children@[j].ty)
        implies !is_picked(node_at(s1, pp).unwrap().children[j]) by {
        lemma_pick_child_child(pd, ps, i as int, j);
    }
    assert(node_at(s1, pp).unwrap().children[i as int] == cn.children[i as int]);
    lemma_pick_child_child(pd, ps, i as int, i as int);
    lemma_consistent_mirrors(d, s1);
    lemma_mirrors_node_at(d, s1, pp);
    lemma_node_at_snoc(s1, c);
}

} // verus!
