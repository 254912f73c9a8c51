//! What holds of the library as a whole: laws relating interactions to each
//! other and to the state they leave behind.
use vstd::prelude::*;
use crate::{NodeDefinitionType, TreeNodeDefinition, descendant_count, children_descendant_count};
use crate::model::{
    PickState, NodeOp, is_pickable, is_picked, def_at, node_at, is_path, valid_def, mirrors,
    consistent, local_ok, conflicts, unpicked, picked_down, pick_child, unpick_child,
    set_pick_many_children, apply_at, pick_at, unpick_at, has_child_of_type, picked_of_type,
    other_exactly_one_picked, paths_below, paths_before, paths_of_child, cascades_up,
};
use crate::lemmas::{
    lemma_consistent_frame, lemma_consistent_mirrors, lemma_valid_def_at, lemma_def_at_snoc,
    lemma_node_at_snoc, lemma_node_at_apply_at, lemma_apply_at_same, lemma_unpicked_fixpoint,
    lemma_picked_down_fixpoint, lemma_unpicked_consistent, lemma_picked_down_consistent,
    lemma_set_pick_many_consistent, lemma_pick_at_result, lemma_pick_at_unfold,
    lemma_pick_at_consistent, lemma_unpick_at_consistent, lemma_set_pick_many_at_consistent,
    lemma_mirrors_node_at, lemma_paths_below_ok, listed_path_ok,
};
use crate::console_driver::{Key, Palette, TreeRow, key_interaction, row_ok, scaffolding};
use crate::interactor::{
    EditPickedType, TreeInteraction, edit_result, interact_result, seek_sibling_cursor, sibling_index,
};

verus! {

/// In a consistent node whose child `i` is picked and whose conflicting
/// children are not, picking child `i` again changes nothing.
proof fn lemma_pick_child_fixpoint<T>(pd: TreeNodeDefinition<T>, ps: PickState, i: int)
    requires
        consistent(pd, ps),
        0 <= i < pd.children@.len(),
        is_picked(ps.children[i]),
        forall|j: int| 0 <= j < pd.children@.len() && j != i && conflicts(pd.children@[i].ty, #[trigger] pd.children@[j].ty)
            ==> !is_picked(ps.children[j]),
    ensures
        pick_child(pd, ps, i) == ps,
{
    assert(local_ok(pd, ps));
    let r = pick_child(pd, ps, i);
    assert forall|j: int| 0 <= j < ps.children.len() implies #[trigger] r.children[j] == ps.children[j] by {
        assert(consistent(pd.children@[j], ps.children[j]));
        if j == i {
            lemma_picked_down_fixpoint(pd.children@[j], ps.children[j]);
        } else if conflicts(pd.children@[i].ty, pd.children@[j].ty) {
            lemma_unpicked_fixpoint(pd.children@[j], ps.children[j]);
        }
    }
    assert(r.children =~= ps.children);
}

/// Picking or unpicking the `PickMany` children of a consistent node a second
/// time changes nothing.
proof fn lemma_set_pick_many_twice<T>(d: TreeNodeDefinition<T>, s: PickState, v: bool)
    requires
        consistent(d, s),
    ensures
        set_pick_many_children(d, set_pick_many_children(d, s, v), v) == set_pick_many_children(d, s, v),
{
    assert(local_ok(d, s));
    let r = set_pick_many_children(d, s, v);
    let r2 = set_pick_many_children(d, r, v);
    assert forall|j: int| 0 <= j < r.children.len() implies #[trigger] r2.children[j] == r.children[j] by {
        if d.children@[j].ty == NodeDefinitionType::PickMany {
            assert(consistent(d.children@[j], s.children[j]));
            if v {
                lemma_picked_down_consistent(d.children@[j], s.children[j]);
                lemma_picked_down_fixpoint(d.children@[j], r.children[j]);
            } else {
                lemma_unpicked_consistent(d.children@[j], s.children[j]);
                lemma_unpicked_fixpoint(d.children@[j], r.children[j]);
            }
        }
    }
    assert(r2.children =~= r.children);
}

/// Selecting a node twice gives the same answer and the same state as
/// selecting it once; so do two `interact` calls that select it.
pub proof fn law_select_is_idempotent<T>(d: TreeNodeDefinition<T>, s: PickState, c: Seq<usize>)
    requires
        valid_def(d),
        consistent(d, s),
        is_path(d, c),
        c.len() >= 1,
    ensures
        edit_result(d, edit_result(d, s, c, EditPickedType::Select).1, c, EditPickedType::Select)
            == edit_result(d, s, c, EditPickedType::Select),
        ({
            let e = TreeInteraction::EditPicked(EditPickedType::Select);
            let r1 = interact_result(d, s, c, e);
            interact_result(d, r1.1, r1.2, e) == r1
        }),
{
    let nd = def_at(d, c).unwrap();
    lemma_consistent_frame(d, s, c);
    lemma_valid_def_at(d, c);
    let ns = node_at(s, c).unwrap();
    if nd.ty == NodeDefinitionType::Text && has_child_of_type(nd, NodeDefinitionType::PickMany) {
        let op = NodeOp::SetPickMany(true);
        lemma_node_at_apply_at(d, s, c, op);
        let s1 = apply_at(d, s, c, op);
        lemma_set_pick_many_twice(nd, ns, true);
        lemma_apply_at_same(d, s1, c, op);
    } else if is_pickable(nd.ty) {
        let s1 = pick_at(d, s, c);
        lemma_pick_at_result(d, s, c);
        let pp = c.drop_last();
        let i = c.last();
        lemma_def_at_snoc(d, c);
        lemma_consistent_frame(d, s1, pp);
        let pd = def_at(d, pp).unwrap();
        let ps1 = node_at(s1, pp).unwrap();
        assert(local_ok(pd, ps1));
        assert(!cascades_up(d, s1, pp));
        lemma_pick_at_unfold(d, s1, c);
        lemma_pick_child_fixpoint(pd, ps1, i as int);
        lemma_apply_at_same(d, s1, pp, NodeOp::PickChild(i));
    }
}

/// Deselecting a node twice gives the same answer and the same state as
/// deselecting it once; so do two `interact` calls that deselect it.
pub proof fn law_deselect_is_idempotent<T>(d: TreeNodeDefinition<T>, s: PickState, c: Seq<usize>)
    requires
        valid_def(d),
        consistent(d, s),
        is_path(d, c),
        c.len() >= 1,
    ensures
        edit_result(d, edit_result(d, s, c, EditPickedType::Deselect).1, c, EditPickedType::Deselect)
            == edit_result(d, s, c, EditPickedType::Deselect),
        ({
            let e = TreeInteraction::EditPicked(EditPickedType::Deselect);
            let r1 = interact_result(d, s, c, e);
            interact_result(d, r1.1, r1.2, e) == r1
        }),
{
    let nd = def_at(d, c).unwrap();
    lemma_consistent_frame(d, s, c);
    let ns = node_at(s, c).unwrap();
    if nd.ty == NodeDefinitionType::Text && has_child_of_type(nd, NodeDefinitionType::PickMany) {
        let op = NodeOp::SetPickMany(false);
        lemma_node_at_apply_at(d, s, c, op);
        let s1 = apply_at(d, s, c, op);
        lemma_set_pick_many_twice(nd, ns, false);
        lemma_apply_at_same(d, s1, c, op);
    } else if is_pickable(nd.ty) && !(nd.ty == NodeDefinitionType::PickExactlyOne && !other_exactly_one_picked(d, s, c)) {
        let pp = c.drop_last();
        let i = c.last();
        lemma_def_at_snoc(d, c);
        lemma_node_at_snoc(s, c);
        lemma_consistent_frame(d, s, pp);
        let pd = def_at(d, pp).unwrap();
        let ps = node_at(s, pp).unwrap();
        assert(local_ok(pd, ps));
        let op = NodeOp::UnpickChild(i);
        lemma_node_at_apply_at(d, s, pp, op);
        let s1 = apply_at(d, s, pp, op);
        let ps1 = unpick_child(pd, ps, i as int);
        assert(node_at(s1, pp) == Some(ps1));
        assert(consistent(pd.children@[i as int], ps.children[i as int]));
        lemma_unpicked_consistent(pd.children@[i as int], ps.children[i as int]);
        lemma_unpicked_fixpoint(pd.children@[i as int], ps1.children[i as int]);
        assert(ps1.children.update(i as int, unpicked(pd.children@[i as int], ps1.children[i as int])) =~= ps1.children);
        lemma_apply_at_same(d, s1, pp, op);
        lemma_node_at_snoc(s1, c);
        if nd.ty == NodeDefinitionType::PickExactlyOne {
            let w = choose|j: int| j != i && #[trigger] picked_of_type(pd, ps, NodeDefinitionType::PickExactlyOne, j);
            assert(picked_of_type(pd, ps1, NodeDefinitionType::PickExactlyOne, w));
            assert(other_exactly_one_picked(d, s1, c));
        }
    }
}

/// Every interaction keeps the picking rules, and leaves the cursor on a node
/// other than the root.
pub proof fn law_interaction_keeps_rules<T>(d: TreeNodeDefinition<T>, s: PickState, c: Seq<usize>, interaction: TreeInteraction)
    requires
        valid_def(d),
        consistent(d, s),
        is_path(d, c),
        c.len() >= 1,
    ensures
        consistent(d, interact_result(d, s, c, interaction).1),
        is_path(d, interact_result(d, s, c, interaction).2),
        interact_result(d, s, c, interaction).2.len() >= 1,
{
    lemma_consistent_frame(d, s, c);
    lemma_valid_def_at(d, c);
    lemma_def_at_snoc(d, c);
    match interaction {
        TreeInteraction::EditPicked(ept) => {
            let nd = def_at(d, c).unwrap();
            let ns = node_at(s, c).unwrap();
            if nd.ty == NodeDefinitionType::Text && has_child_of_type(nd, NodeDefinitionType::PickMany) {
                lemma_set_pick_many_at_consistent(d, s, c, crate::interactor::edit_target(ept, crate::model::all_pick_many_picked(nd, ns)));
            } else if is_pickable(nd.ty) {
                if crate::interactor::edit_target(ept, is_picked(ns)) {
                    lemma_pick_at_consistent(d, s, c);
                } else if !(nd.ty == NodeDefinitionType::PickExactlyOne && !other_exactly_one_picked(d, s, c)) {
                    lemma_unpick_at_consistent(d, s, c);
                }
            }
        },
        TreeInteraction::SeekSibling { next } => {
            let c2 = seek_sibling_cursor(d, c, next);
            let n = def_at(d, c.drop_last()).unwrap().children@.len() as int;
            assert(c2.drop_last() =~= c.drop_last());
            lemma_def_at_snoc(d, c2);
            let k = sibling_index(c.last() as int, n, next);
            assert(0 <= k < n) by {
                vstd::arithmetic::div_mod::lemma_mod_bound(c.last() as int + 1, n);
                vstd::arithmetic::div_mod::lemma_mod_bound(c.last() as int + n - 1, n);
            }
            assert(def_at(d, c.drop_last()).unwrap().children.len() == n);
        },
        TreeInteraction::EnterNode => {
            if def_at(d, c).unwrap().children@.len() != 0 {
                assert(c.push(0).drop_last() =~= c);
                lemma_def_at_snoc(d, c.push(0));
            }
        },
        TreeInteraction::ExitNode => {
        },
    }
}

/// An interaction that is refused changes neither the state nor the cursor.
pub proof fn law_refused_interaction_changes_nothing<T>(d: TreeNodeDefinition<T>, s: PickState, c: Seq<usize>, interaction: TreeInteraction)
    ensures
        interact_result(d, s, c, interaction).0 is Err ==> interact_result(d, s, c, interaction).1 == s
            && interact_result(d, s, c, interaction).2 == c,
{
}

/// Moving the cursor never changes what is picked, and editing never moves the cursor.
pub proof fn law_moving_and_editing_are_separate<T>(d: TreeNodeDefinition<T>, s: PickState, c: Seq<usize>, interaction: TreeInteraction)
    ensures
        interaction is EditPicked ==> interact_result(d, s, c, interaction).2 == c,
        !(interaction is EditPicked) ==> interact_result(d, s, c, interaction).1 == s,
{
}

/// Moving to the next sibling and then to the previous one (or the other way
/// round) brings the cursor back.
pub proof fn law_seek_sibling_round_trip<T>(d: TreeNodeDefinition<T>, c: Seq<usize>, next: bool)
    requires
        is_path(d, c),
        c.len() >= 1,
    ensures
        seek_sibling_cursor(d, seek_sibling_cursor(d, c, next), !next) == c,
{
    lemma_def_at_snoc(d, c);
    let c2 = seek_sibling_cursor(d, c, next);
    let n = def_at(d, c.drop_last()).unwrap().children@.len() as int;
    let idx = c.last() as int;
    assert(c2.drop_last() =~= c.drop_last());
    let k = sibling_index(idx, n, next);
    assert(n > 0);
    if next {
        if idx + 1 < n {
            vstd::arithmetic::div_mod::lemma_small_mod((idx + 1) as nat, n as nat);
            vstd::arithmetic::div_mod::lemma_mod_add_multiples_vanish(idx, n);
            vstd::arithmetic::div_mod::lemma_small_mod(idx as nat, n as nat);
        } else {
            vstd::arithmetic::div_mod::lemma_mod_self_0(n);
            vstd::arithmetic::div_mod::lemma_small_mod((n - 1) as nat, n as nat);
        }
    } else {
        if idx == 0 {
            vstd::arithmetic::div_mod::lemma_small_mod((n - 1) as nat, n as nat);
            vstd::arithmetic::div_mod::lemma_mod_self_0(n);
        } else {
            vstd::arithmetic::div_mod::lemma_mod_add_multiples_vanish(idx - 1, n);
            vstd::arithmetic::div_mod::lemma_small_mod((idx - 1) as nat, n as nat);
            vstd::arithmetic::div_mod::lemma_small_mod(idx as nat, n as nat);
        }
    }
    assert(0 <= k < n);
    assert(sibling_index(k, n, !next) == idx);
    let pdef = def_at(d, c.drop_last()).unwrap();
    assert(pdef.children.len() == pdef.children@.len());
    assert(c2.last() == k as usize);
    assert((k as usize) as int == k);
    let c3 = seek_sibling_cursor(d, c2, !next);
    assert(c3 == c2.drop_last().push(sibling_index(c2.last() as int, n, !next) as usize));
    assert(c.drop_last().push(idx as usize) =~= c);
}

/// Entering a node and then leaving it brings the cursor back.
pub proof fn law_enter_then_exit<T>(d: TreeNodeDefinition<T>, s: PickState, c: Seq<usize>)
    requires
        c.len() >= 1,
        interact_result(d, s, c, TreeInteraction::EnterNode).0 is Ok,
    ensures
        interact_result(d, s, interact_result(d, s, c, TreeInteraction::EnterNode).2, TreeInteraction::ExitNode)
            == (Ok::<bool, crate::interactor::TreeInteractionError>(false), s, c),
{
    assert(c.push(0).drop_last() =~= c);
}

/// The node at `p` exists and is picked.
pub open spec fn is_picked_at(s: PickState, p: Seq<usize>) -> bool {
    node_at(s, p) is Some && is_picked(node_at(s, p).unwrap())
}

/// [`is_picked_at`] as a predicate on paths.
pub open spec fn picked_in(s: PickState) -> spec_fn(Seq<usize>) -> bool {
    |p: Seq<usize>| is_picked_at(s, p)
}

proof fn lemma_map_filter_commute<A, B>(xs: Seq<A>, f: spec_fn(A) -> B, p: spec_fn(B) -> bool, q: spec_fn(A) -> bool)
    requires
        forall|a: A| #[trigger] p(f(a)) == q(a),
    ensures
        xs.map_values(f).filter(p) == xs.filter(q).map_values(f),
    decreases xs.len(),
{
    if xs.len() == 0 {
        reveal(Seq::filter);
        assert(xs.map_values(f).filter(p) =~= Seq::<B>::empty());
        assert(xs.filter(q).map_values(f) =~= Seq::<B>::empty());
    } else {
        let ys = xs.drop_last();
        let e = xs.last();
        lemma_map_filter_commute(ys, f, p, q);
        assert(xs =~= ys.push(e));
        assert(xs.map_values(f) =~= ys.map_values(f).push(f(e)));
        ys.map_values(f).lemma_filter_push(f(e), p);
        ys.lemma_filter_push(e, q);
        assert(p(f(e)) == q(e));
        if q(e) {
            assert(ys.filter(q).push(e).map_values(f) =~= ys.filter(q).map_values(f).push(f(e)));
        }
    }
}

/// All the paths, in order, lead to as many nodes as there are below the root.
pub proof fn law_all_paths_count<T>(d: TreeNodeDefinition<T>, s: PickState)
    requires
        mirrors(d, s),
    ensures
        paths_below(s, false).len() == descendant_count(d),
    decreases s, s.children.len() + 1,
{
    assert(paths_below(s, false) == paths_before(s, s.children.len() as int, false));
    lemma_paths_before_count(d, s, s.children.len() as int);
}

proof fn lemma_paths_before_count<T>(d: TreeNodeDefinition<T>, s: PickState, k: int)
    requires
        mirrors(d, s),
        0 <= k <= s.children.len(),
    ensures
        paths_before(s, k, false).len() == k + children_descendant_count(d.children@, k),
    decreases s, k,
{
    if k > 0 {
        let i = k - 1;
        lemma_paths_before_count(d, s, k - 1);
        assert(mirrors(d.children@[i], s.children[i]));
        law_all_paths_count(d.children@[i], s.children[i]);
        assert(paths_of_child(s, i, false).len() == 1 + paths_below(s.children[i], false).len());
    }
}

/// The selected paths are the paths to picked nodes, in the same order as all the paths.
pub proof fn law_selected_paths_are_picked_paths<T>(d: TreeNodeDefinition<T>, s: PickState)
    requires
        mirrors(d, s),
    ensures
        paths_below(s, true) == paths_below(s, false).filter(picked_in(s)),
    decreases s, s.children.len() + 1,
{
    assert(paths_below(s, false) == paths_before(s, s.children.len() as int, false));
    assert(paths_below(s, true) == paths_before(s, s.children.len() as int, true));
    lemma_selected_before(d, s, s.children.len() as int);
}

proof fn lemma_selected_before<T>(d: TreeNodeDefinition<T>, s: PickState, k: int)
    requires
        mirrors(d, s),
        0 <= k <= s.children.len(),
    ensures
        paths_before(s, k, true) == paths_before(s, k, false).filter(picked_in(s)),
    decreases s, k,
{
    if k == 0 {
        reveal(Seq::filter);
        assert(paths_before(s, 0, false).len() == 0);
    } else {
        let i = k - 1;
        lemma_selected_before(d, s, k - 1);
        let c = s.children[i];
        assert(mirrors(d.children@[i], c));
        law_selected_paths_are_picked_paths(d.children@[i], c);
        assert(d.children.len() == d.children@.len());
        assert((i as usize) as int == i);
        let f = |p: Seq<usize>| seq![i as usize] + p;
        let below = paths_below(c, false);
        assert forall|p: Seq<usize>| #[trigger] picked_in(s)(f(p)) == picked_in(c)(p) by {
            let fp = seq![i as usize] + p;
            assert(fp.drop_first() =~= p);
            assert(node_at(s, fp) == node_at(c, p));
        }
        lemma_map_filter_commute(below, f, picked_in(s), picked_in(c));
        let own = seq![seq![i as usize]];
        assert(own.filter(picked_in(s)) == if is_picked(c) { own } else { Seq::<Seq<usize>>::empty() }) by {
            Seq::<Seq<usize>>::empty().lemma_filter_push(seq![i as usize], picked_in(s));
            assert(Seq::<Seq<usize>>::empty().push(seq![i as usize]) =~= own);
            reveal(Seq::filter);
            assert(Seq::<Seq<usize>>::empty().filter(picked_in(s)) =~= Seq::<Seq<usize>>::empty());
            let p1 = seq![i as usize];
            assert(p1.drop_first().len() == 0);
            assert(node_at(s, p1) == node_at(c, p1.drop_first()));
            assert(Seq::<Seq<usize>>::empty().push(p1) =~= own);
        }
        let mapped = below.map_values(f);
        assert(paths_of_child(s, i, false) == own + mapped);
        Seq::filter_distributes_over_add(own, mapped, picked_in(s));
        Seq::filter_distributes_over_add(paths_before(s, k - 1, false), paths_of_child(s, i, false), picked_in(s));
        assert(paths_of_child(s, i, true) == paths_of_child(s, i, false).filter(picked_in(s)));
    }
}

/// Selecting a pickable node picks it, and picks its parent if the parent
/// must be picked before its children; selecting a `Text` node with
/// `PickMany` children picks all of them.
pub proof fn law_select_picks<T>(d: TreeNodeDefinition<T>, s: PickState, c: Seq<usize>)
    requires
        valid_def(d),
        consistent(d, s),
        is_path(d, c),
        c.len() >= 1,
    ensures
        is_pickable(def_at(d, c).unwrap().ty) ==> {
            let s1 = edit_result(d, s, c, EditPickedType::Select).1;
            &&& is_picked_at(s1, c)
            &&& def_at(d, c.drop_last()).unwrap().pick_children_needs_self ==> is_picked_at(s1, c.drop_last())
        },
        def_at(d, c).unwrap().ty == NodeDefinitionType::Text && has_child_of_type(def_at(d, c).unwrap(), NodeDefinitionType::PickMany)
            ==> crate::model::all_pick_many_picked(def_at(d, c).unwrap(), node_at(edit_result(d, s, c, EditPickedType::Select).1, c).unwrap()),
{
    let nd = def_at(d, c).unwrap();
    lemma_consistent_frame(d, s, c);
    let ns = node_at(s, c).unwrap();
    if is_pickable(nd.ty) {
        let s1 = pick_at(d, s, c);
        lemma_pick_at_result(d, s, c);
        let pp = c.drop_last();
        lemma_def_at_snoc(d, c);
        lemma_consistent_frame(d, s1, pp);
        assert(local_ok(def_at(d, pp).unwrap(), node_at(s1, pp).unwrap()));
    }
    if nd.ty == NodeDefinitionType::Text && has_child_of_type(nd, NodeDefinitionType::PickMany) {
        let op = NodeOp::SetPickMany(true);
        lemma_node_at_apply_at(d, s, c, op);
        assert(local_ok(nd, ns));
        let r = set_pick_many_children(nd, ns, true);
        assert forall|j: int| 0 <= j < nd.children@.len() && j < r.children.len() && #[trigger] nd.children@[j].ty == NodeDefinitionType::PickMany
            implies is_picked(r.children[j]) by {
            assert(consistent(nd.children@[j], ns.children[j]));
            lemma_picked_down_consistent(nd.children@[j], ns.children[j]);
        }
    }
}

/// Deselecting a pickable node, when it is not refused, leaves it unpicked;
/// deselecting a `Text` node with `PickMany` children unpicks all of them.
pub proof fn law_deselect_unpicks<T>(d: TreeNodeDefinition<T>, s: PickState, c: Seq<usize>)
    requires
        valid_def(d),
        consistent(d, s),
        is_path(d, c),
        c.len() >= 1,
    ensures
        is_pickable(def_at(d, c).unwrap().ty) && edit_result(d, s, c, EditPickedType::Deselect).0 is Ok
            ==> !is_picked_at(edit_result(d, s, c, EditPickedType::Deselect).1, c),
        def_at(d, c).unwrap().ty == NodeDefinitionType::Text ==> forall|j: int|
            0 <= j < def_at(d, c).unwrap().children@.len() && #[trigger] def_at(d, c).unwrap().children@[j].ty == NodeDefinitionType::PickMany
                ==> !is_picked(node_at(edit_result(d, s, c, EditPickedType::Deselect).1, c).unwrap().children[j]),
{
    let nd = def_at(d, c).unwrap();
    lemma_consistent_frame(d, s, c);
    let ns = node_at(s, c).unwrap();
    assert(local_ok(nd, ns));
    if is_pickable(nd.ty) && edit_result(d, s, c, EditPickedType::Deselect).0 is Ok {
        let pp = c.drop_last();
        let i = c.last();
        lemma_def_at_snoc(d, c);
        lemma_node_at_snoc(s, c);
        lemma_consistent_frame(d, s, pp);
        let op = NodeOp::UnpickChild(i);
        lemma_node_at_apply_at(d, s, pp, op);
        let s1 = apply_at(d, s, pp, op);
        lemma_node_at_snoc(s1, c);
        lemma_unpicked_consistent(nd, ns);
    }
    if nd.ty == NodeDefinitionType::Text && has_child_of_type(nd, NodeDefinitionType::PickMany) {
        let op = NodeOp::SetPickMany(false);
        lemma_node_at_apply_at(d, s, c, op);
        let r = set_pick_many_children(nd, ns, false);
        assert forall|j: int| 0 <= j < nd.children@.len() && #[trigger] nd.children@[j].ty == NodeDefinitionType::PickMany
            implies !is_picked(r.children[j]) by {
            assert(consistent(nd.children@[j], ns.children[j]));
            lemma_unpicked_consistent(nd.children@[j], ns.children[j]);
        }
    }
    if nd.ty == NodeDefinitionType::Text && !has_child_of_type(nd, NodeDefinitionType::PickMany) {
        assert forall|j: int| 0 <= j < nd.children@.len() implies #[trigger] nd.children@[j].ty != NodeDefinitionType::PickMany by {
        }
    }
}

/// Toggling a pickable node deselects it when it is picked and selects it
/// otherwise, in `interact` as in the edit itself; when it is not refused,
/// the node's picked state flips.
pub proof fn law_toggle_flips<T>(d: TreeNodeDefinition<T>, s: PickState, c: Seq<usize>)
    requires
        valid_def(d),
        consistent(d, s),
        is_path(d, c),
        c.len() >= 1,
    ensures
        is_pickable(def_at(d, c).unwrap().ty) ==> {
            let was = is_picked_at(s, c);
            let r = edit_result(d, s, c, EditPickedType::Toggle);
            &&& r == edit_result(d, s, c, if was { EditPickedType::Deselect } else { EditPickedType::Select })
            &&& r.0 is Ok ==> is_picked_at(r.1, c) == !was
        },
        is_pickable(def_at(d, c).unwrap().ty) ==> interact_result(d, s, c, TreeInteraction::EditPicked(EditPickedType::Toggle))
            == interact_result(d, s, c, TreeInteraction::EditPicked(
                if is_picked_at(s, c) { EditPickedType::Deselect } else { EditPickedType::Select },
            )),
{
    lemma_consistent_mirrors(d, s);
    lemma_mirrors_node_at(d, s, c);
    law_select_picks(d, s, c);
    law_deselect_unpicks(d, s, c);
}

/// `a` comes before `b` in lexicographic order; a proper prefix comes first.
pub open spec fn lex_less(a: Seq<usize>, b: Seq<usize>) -> bool
    decreases a.len(),
{
    if b.len() == 0 {
        false
    } else if a.len() == 0 {
        true
    } else if a[0] != b[0] {
        a[0] < b[0]
    } else {
        lex_less(a.drop_first(), b.drop_first())
    }
}

/// Each path comes strictly before every later one.
pub open spec fn strictly_sorted(ps: Seq<Seq<usize>>) -> bool {
    forall|a: int, b: int| 0 <= a < b < ps.len() ==> lex_less(#[trigger] ps[a], #[trigger] ps[b])
}

proof fn lemma_lex_irreflexive(a: Seq<usize>)
    ensures
        !lex_less(a, a),
    decreases a.len(),
{
    if a.len() > 0 {
        lemma_lex_irreflexive(a.drop_first());
    }
}

proof fn lemma_lex_prefix(i: usize, p: Seq<usize>, q: Seq<usize>)
    ensures
        lex_less(seq![i] + p, seq![i] + q) == lex_less(p, q),
        q.len() > 0 ==> lex_less(seq![i], seq![i] + q),
{
    assert((seq![i] + p).drop_first() =~= p);
    assert((seq![i] + q).drop_first() =~= q);
    assert(seq![i].drop_first() =~= Seq::<usize>::empty());
    assert((seq![i] + p)[0] == i);
    assert((seq![i] + q)[0] == i);
    if q.len() > 0 {
        assert(lex_less(Seq::<usize>::empty(), q));
    }
}

/// What the listing of the first `k` children's paths holds: paths that start
/// below `k`, in lexicographic order, and each path to a node that starts below `k`.
spec fn paths_before_all_ok(s: PickState, k: int) -> bool {
    let ps = paths_before(s, k, false);
    &&& forall|m: int| 0 <= m < ps.len() ==> (#[trigger] ps[m]).len() > 0 && ps[m][0] < k
    &&& strictly_sorted(ps)
    &&& forall|p: Seq<usize>| p.len() > 0 && p[0] < k && #[trigger] node_at(s, p) is Some ==> ps.contains(p)
}

proof fn lemma_paths_below_all<T>(d: TreeNodeDefinition<T>, s: PickState)
    requires
        mirrors(d, s),
    ensures
        paths_before_all_ok(s, s.children.len() as int),
        paths_below(s, false) == paths_before(s, s.children.len() as int, false),
    decreases s, s.children.len() + 1,
{
    lemma_paths_before_all(d, s, s.children.len() as int);
}

proof fn lemma_paths_before_all<T>(d: TreeNodeDefinition<T>, s: PickState, k: int)
    requires
        mirrors(d, s),
        0 <= k <= s.children.len(),
    ensures
        paths_before_all_ok(s, k),
    decreases s, k,
{
    if k == 0 {
        assert forall|p: Seq<usize>| p.len() > 0 && p[0] < k && #[trigger] node_at(s, p) is Some implies
            paths_before(s, k, false).contains(p) by {}
    } else {
        let i = k - 1;
        lemma_paths_before_all(d, s, k - 1);
        lemma_paths_of_child_all(d, s, i);
        let a = paths_before(s, k - 1, false);
        let b = paths_of_child(s, i, false);
        let ps = a + b;
        assert(paths_before(s, k, false) == ps);
        assert forall|m: int| 0 <= m < ps.len() implies (#[trigger] ps[m]).len() > 0 && ps[m][0] < k by {
            if m < a.len() {
                assert(ps[m] == a[m]);
            } else {
                assert(ps[m] == b[m - a.len()]);
            }
        }
        assert forall|x: int, y: int| 0 <= x < y < ps.len() implies lex_less(#[trigger] ps[x], #[trigger] ps[y]) by {
            if y < a.len() {
                assert(ps[x] == a[x] && ps[y] == a[y]);
            } else if x >= a.len() {
                assert(ps[x] == b[x - a.len()] && ps[y] == b[y - a.len()]);
            } else {
                assert(ps[x] == a[x] && ps[y] == b[y - a.len()]);
                assert(a[x][0] < i);
                assert(b[y - a.len()][0] == i);
            }
        }
        assert forall|p: Seq<usize>| p.len() > 0 && p[0] < k && #[trigger] node_at(s, p) is Some implies ps.contains(p) by {
            if p[0] < k - 1 {
                assert(a.contains(p));
                let m = choose|m: int| 0 <= m < a.len() && a[m] == p;
                assert(ps[m] == p);
            } else {
                assert(b.contains(p));
                let m = choose|m: int| 0 <= m < b.len() && b[m] == p;
                assert(ps[m + a.len()] == p);
            }
        }
    }
}

proof fn lemma_paths_of_child_all<T>(d: TreeNodeDefinition<T>, s: PickState, i: int)
    requires
        mirrors(d, s),
        0 <= i < s.children.len(),
    ensures
        forall|m: int| 0 <= m < paths_of_child(s, i, false).len() ==> (#[trigger] paths_of_child(s, i, false)[m]).len() > 0
            && paths_of_child(s, i, false)[m][0] == i,
        strictly_sorted(paths_of_child(s, i, false)),
        forall|p: Seq<usize>| p.len() > 0 && p[0] == i && #[trigger] node_at(s, p) is Some ==> paths_of_child(s, i, false).contains(p),
    decreases s, i, 1int,
{
    let c = s.children[i];
    assert(d.children.len() == d.children@.len());
    assert(d.children@.len() <= usize::MAX);
    assert((i as usize) as int == i);
    assert(mirrors(d.children@[i], c));
    lemma_paths_below_all(d.children@[i], c);
    let iu = i as usize;
    let below = paths_below(c, false);
    let own: Seq<Seq<usize>> = seq![seq![iu]];
    let mapped = below.map_values(|p: Seq<usize>| seq![iu] + p);
    let ps = own + mapped;
    assert(paths_of_child(s, i, false) == ps);
    assert forall|m: int| 0 <= m < ps.len() implies (#[trigger] ps[m]).len() > 0 && ps[m][0] == i by {
        if m == 0 {
            assert(ps[m] == seq![iu]);
        } else {
            assert(ps[m] == seq![iu] + below[m - 1]);
        }
    }
    assert forall|x: int, y: int| 0 <= x < y < ps.len() implies lex_less(#[trigger] ps[x], #[trigger] ps[y]) by {
        assert(ps[y] == seq![iu] + below[y - 1]);
        lemma_lex_prefix(iu, below[y - 1], below[y - 1]);
        if x == 0 {
            assert(ps[x] == seq![iu]);
        } else {
            assert(ps[x] == seq![iu] + below[x - 1]);
            lemma_lex_prefix(iu, below[x - 1], below[y - 1]);
        }
    }
    assert forall|p: Seq<usize>| p.len() > 0 && p[0] == i && #[trigger] node_at(s, p) is Some implies ps.contains(p) by {
        if p.len() == 1 {
            assert(p =~= seq![iu]);
            assert(ps[0] == p);
        } else {
            let q = p.drop_first();
            assert(node_at(s, p) == node_at(c, q));
            assert(node_at(c, q) is Some);
            assert(q[0] < c.children.len());
            assert(below.contains(q));
            let m = choose|m: int| 0 <= m < below.len() && below[m] == q;
            assert(p =~= seq![iu] + q);
            assert(ps[m + 1] == p);
        }
    }
}

/// `get_all_paths` lists every path to a node below the root and nothing
/// else, each once, in lexicographic order (so each node comes before its
/// descendants), and as many paths as `total_len` counts nodes.
pub proof fn law_all_paths_are_every_path_in_order<T>(d: TreeNodeDefinition<T>, s: PickState)
    requires
        mirrors(d, s),
    ensures
        forall|p: Seq<usize>|
            #![trigger paths_below(s, false).contains(p)]
            #![trigger is_path(d, p)]
            paths_below(s, false).contains(p) <==> (p.len() > 0 && is_path(d, p)),
        strictly_sorted(paths_below(s, false)),
        paths_below(s, false).no_duplicates(),
        paths_below(s, false).len() == descendant_count(d),
{
    let ps = paths_below(s, false);
    lemma_paths_below_all(d, s);
    lemma_paths_below_ok(d, s, false);
    law_all_paths_count(d, s);
    assert forall|p: Seq<usize>| #[trigger] ps.contains(p) <==> (p.len() > 0 && is_path(d, p)) by {
        if ps.contains(p) {
            let m = choose|m: int| 0 <= m < ps.len() && ps[m] == p;
            assert(listed_path_ok(s, ps[m], false));
            crate::lemmas::lemma_node_at_mirrors(d, s, p);
        }
        if p.len() > 0 && is_path(d, p) {
            lemma_mirrors_node_at(d, s, p);
            assert(p[0] < s.children.len());
        }
    }
    assert forall|x: int, y: int| 0 <= x < ps.len() && 0 <= y < ps.len() && x != y implies ps[x] != ps[y] by {
        if x < y {
            assert(lex_less(ps[x], ps[y]));
            lemma_lex_irreflexive(ps[x]);
        } else {
            assert(lex_less(ps[y], ps[x]));
            lemma_lex_irreflexive(ps[y]);
        }
    }
}

proof fn lemma_children_count_same<T>(a: Seq<TreeNodeDefinition<T>>, b: Seq<TreeNodeDefinition<T>>, k: int)
    requires
        a.len() == b.len(),
        forall|i: int| 0 <= i < a.len() ==> descendant_count(#[trigger] a[i]) == descendant_count(b[i]),
    ensures
        children_descendant_count(a, k) == children_descendant_count(b, k),
    decreases k,
{
    if 0 < k <= a.len() {
        lemma_children_count_same(a, b, k - 1);
    }
}

/// A copy of a tree (what `clone` gives) is valid exactly when the tree is,
/// and has as many nodes below its root; so a clone of a tree that a
/// [`crate::TreeInteractor`] accepts is accepted too.
pub proof fn law_copy_keeps_validity<T: Clone>(a: TreeNodeDefinition<T>, b: TreeNodeDefinition<T>)
    requires
        crate::is_copy_of(a, b),
    ensures
        valid_def(b) == valid_def(a),
        descendant_count(b) == descendant_count(a),
        b.children@.len() == a.children@.len(),
    decreases a,
{
    assert forall|i: int| 0 <= i < a.children@.len() implies
        valid_def(#[trigger] b.children@[i]) == valid_def(a.children@[i])
        && descendant_count(b.children@[i]) == descendant_count(a.children@[i]) by {
        law_copy_keeps_validity(a.children@[i], b.children@[i]);
    }
    lemma_children_count_same(a.children@, b.children@, a.children@.len() as int);
    if valid_def(a) {
        assert forall|i: int| 0 <= i < b.children@.len() implies valid_def(#[trigger] b.children@[i]) by {
            assert(valid_def(a.children@[i]));
        }
    }
    if valid_def(b) {
        assert forall|i: int| 0 <= i < a.children@.len() implies valid_def(#[trigger] a.children@[i]) by {
            assert(valid_def(b.children@[i]));
        }
    }
}

/// Selecting a node leaves a sibling exactly as it was unless the selection
/// has to change it: a `PickExactlyOne` node unpicks only its
/// `PickExactlyOne` siblings, a `PickUpToOne` node only its `PickUpToOne`
/// and `PickMany` siblings, and a `PickMany` node none; a `PickExactlyOne`
/// sibling may also become picked when the parent is picked on the way, so
/// that its group gets a member.
pub proof fn law_select_keeps_unrelated_siblings<T>(d: TreeNodeDefinition<T>, s: PickState, c: Seq<usize>, j: usize)
    requires
        valid_def(d),
        consistent(d, s),
        is_path(d, c),
        c.len() >= 1,
        j < def_at(d, c.drop_last()).unwrap().children@.len(),
        j != c.last(),
        def_at(d, c.drop_last()).unwrap().children@[j as int].ty != NodeDefinitionType::PickExactlyOne || (
            def_at(d, c).unwrap().ty != NodeDefinitionType::PickExactlyOne && exists|m: int| #[trigger] picked_of_type(
                def_at(d, c.drop_last()).unwrap(), node_at(s, c.drop_last()).unwrap(), NodeDefinitionType::PickExactlyOne, m)),
        is_pickable(def_at(d, c).unwrap().ty),
        def_at(d, c).unwrap().ty == NodeDefinitionType::PickUpToOne ==> {
            let sty = def_at(d, c.drop_last()).unwrap().children@[j as int].ty;
            sty != NodeDefinitionType::PickUpToOne && sty != NodeDefinitionType::PickMany
        },
    ensures
        node_at(interact_result(d, s, c, TreeInteraction::EditPicked(EditPickedType::Select)).1, c.drop_last().push(j))
            == node_at(s, c.drop_last().push(j)),
        node_at(s, c.drop_last().push(j)) is Some,
{
    let pp = c.drop_last();
    let i = c.last();
    lemma_def_at_snoc(d, c);
    lemma_consistent_mirrors(d, s);
    lemma_mirrors_node_at(d, s, pp);
    let pd = def_at(d, pp).unwrap();
    let ps = node_at(s, pp).unwrap();
    assert(ps.children.len() == pd.children@.len());
    lemma_pick_at_unfold(d, s, c);
    let op = NodeOp::PickChild(i);
    lemma_node_at_apply_at(d, s, pp, op);
    let s2 = apply_at(d, s, pp, op);
    let cn = pick_child(pd, ps, i as int);
    assert(node_at(s2, pp) == Some(cn));
    assert(!conflicts(pd.children@[i as int].ty, pd.children@[j as int].ty));
    assert(cn.children[j as int] == ps.children[j as int]);
    crate::lemmas::lemma_node_at_push(s, pp, j);
    crate::lemmas::lemma_node_at_push(s2, pp, j);
    if cascades_up(d, s, pp) {
        if pd.children@[j as int].ty == NodeDefinitionType::PickExactlyOne {
            let m = choose|m: int| #[trigger] picked_of_type(pd, ps, NodeDefinitionType::PickExactlyOne, m);
            assert(m != i);
            assert(!conflicts(pd.children@[i as int].ty, pd.children@[m].ty));
            assert(cn.children[m] == ps.children[m]);
            assert(picked_of_type(pd, cn, NodeDefinitionType::PickExactlyOne, m));
        }
        crate::lemmas::lemma_pick_at_keeps_child(d, s2, pp, j);
    }
}

/// Selecting a `PickExactlyOne` node unpicks every other `PickExactlyOne`
/// sibling; selecting a `PickUpToOne` node unpicks every other `PickUpToOne`
/// and every `PickMany` sibling.
pub proof fn law_select_unpicks_rivals<T>(d: TreeNodeDefinition<T>, s: PickState, c: Seq<usize>, j: usize)
    requires
        valid_def(d),
        consistent(d, s),
        is_path(d, c),
        c.len() >= 1,
        j < def_at(d, c.drop_last()).unwrap().children@.len(),
        j != c.last(),
        ({
            let ty = def_at(d, c).unwrap().ty;
            let sty = def_at(d, c.drop_last()).unwrap().children@[j as int].ty;
            ||| ty == NodeDefinitionType::PickExactlyOne && sty == NodeDefinitionType::PickExactlyOne
            ||| ty == NodeDefinitionType::PickUpToOne && (sty == NodeDefinitionType::PickUpToOne || sty == NodeDefinitionType::PickMany)
        }),
    ensures
        node_at(interact_result(d, s, c, TreeInteraction::EditPicked(EditPickedType::Select)).1, c.drop_last().push(j)) is Some,
        !is_picked(node_at(interact_result(d, s, c, TreeInteraction::EditPicked(EditPickedType::Select)).1, c.drop_last().push(j)).unwrap()),
{
    let pp = c.drop_last();
    lemma_def_at_snoc(d, c);
    lemma_pick_at_result(d, s, c);
    let s1 = pick_at(d, s, c);
    lemma_consistent_mirrors(d, s1);
    lemma_mirrors_node_at(d, s1, pp);
    crate::lemmas::lemma_node_at_push(s1, pp, j);
}

/// Child `j` of `nd` is a `PickMany` node.
pub open spec fn many_child<T>(nd: TreeNodeDefinition<T>, j: int) -> bool {
    0 <= j < nd.children@.len() && nd.children@[j].ty == NodeDefinitionType::PickMany
}

/// Child `j` of `ns` is picked.
pub open spec fn kid_picked(ns: PickState, j: int) -> bool {
    ns.children[j].picked == Some(true)
}

/// The box drawn in front of a node says what the node is and whether it is
/// picked: nothing for a `Text` node without `PickMany` children; for a `Text`
/// node with them, the empty, full or partial checkbox as none, all or some of
/// them are picked; a checkbox for `PickMany`; a radio button for
/// `PickUpToOne` and `PickExactlyOne`; the finishing box for `AllDone`.
pub proof fn law_row_box<T>(row: TreeRow, pal: Palette, d: TreeNodeDefinition<T>, s: PickState, cursor: Seq<usize>, path: Seq<usize>)
    requires
        mirrors(d, s),
        is_path(d, path),
        row_ok(row, pal, d, s, cursor, path),
    ensures
        def_at(d, path).unwrap().ty == NodeDefinitionType::Text
            && (forall|j: int| !#[trigger] many_child(def_at(d, path).unwrap(), j))
            ==> row.checkbox@ == Seq::<char>::empty(),
        def_at(d, path).unwrap().ty == NodeDefinitionType::Text
            && (exists|j: int| #[trigger] many_child(def_at(d, path).unwrap(), j))
            && (forall|j: int| #[trigger] many_child(def_at(d, path).unwrap(), j) ==> !kid_picked(node_at(s, path).unwrap(), j))
            ==> row.checkbox@ == pal.unpicked_manybox@,
        def_at(d, path).unwrap().ty == NodeDefinitionType::Text
            && (exists|j: int| #[trigger] many_child(def_at(d, path).unwrap(), j) && kid_picked(node_at(s, path).unwrap(), j))
            && (forall|j: int| #[trigger] many_child(def_at(d, path).unwrap(), j) ==> kid_picked(node_at(s, path).unwrap(), j))
            ==> row.checkbox@ == pal.picked_manybox@,
        def_at(d, path).unwrap().ty == NodeDefinitionType::Text
            && (exists|j: int| #[trigger] many_child(def_at(d, path).unwrap(), j) && kid_picked(node_at(s, path).unwrap(), j))
            && (exists|j: int| #[trigger] many_child(def_at(d, path).unwrap(), j) && !kid_picked(node_at(s, path).unwrap(), j))
            ==> row.checkbox@ == pal.some_picked_manybox@,
        def_at(d, path).unwrap().ty == NodeDefinitionType::PickMany ==> row.checkbox@ == (
            if node_at(s, path).unwrap().picked == Some(true) { pal.picked_manybox@ } else { pal.unpicked_manybox@ }),
        def_at(d, path).unwrap().ty == NodeDefinitionType::PickUpToOne
            || def_at(d, path).unwrap().ty == NodeDefinitionType::PickExactlyOne ==> row.checkbox@ == (
            if node_at(s, path).unwrap().picked == Some(true) { pal.picked_onebox@ } else { pal.unpicked_onebox@ }),
        def_at(d, path).unwrap().ty == NodeDefinitionType::AllDone ==> row.checkbox@ == pal.all_done@,
{
    lemma_mirrors_node_at(d, s, path);
    let nd = def_at(d, path).unwrap();
    let ns = node_at(s, path).unwrap();
    assert(ns.children.len() == nd.children@.len());
    if nd.ty == NodeDefinitionType::Text {
        if has_child_of_type(nd, NodeDefinitionType::PickMany) {
            let w = choose|j: int| 0 <= j < nd.children@.len() && #[trigger] nd.children@[j].ty == NodeDefinitionType::PickMany;
            assert(many_child(nd, w));
        } else {
            assert forall|j: int| !#[trigger] many_child(nd, j) by {}
        }
        if exists|j: int| #[trigger] many_child(nd, j) {
            let w = choose|j: int| #[trigger] many_child(nd, j);
            assert(nd.children@[w].ty == NodeDefinitionType::PickMany);
            assert(has_child_of_type(nd, NodeDefinitionType::PickMany));
        }
        if exists|j: int| #[trigger] many_child(nd, j) && kid_picked(ns, j) {
            let w = choose|j: int| #[trigger] many_child(nd, j) && kid_picked(ns, j);
            assert(nd.children@[w].ty == NodeDefinitionType::PickMany);
            assert(!crate::console_driver::no_pick_many_picked(nd, ns));
        }
        if exists|j: int| #[trigger] many_child(nd, j) && !kid_picked(ns, j) {
            let w = choose|j: int| #[trigger] many_child(nd, j) && !kid_picked(ns, j);
            assert(nd.children@[w].ty == NodeDefinitionType::PickMany);
            assert(!crate::model::all_pick_many_picked(nd, ns));
        }
        if forall|j: int| #[trigger] many_child(nd, j) ==> !kid_picked(ns, j) {
            assert forall|j: int| 0 <= j < nd.children@.len() && j < ns.children.len()
                && #[trigger] nd.children@[j].ty == NodeDefinitionType::PickMany implies !is_picked(ns.children[j]) by {
                assert(many_child(nd, j));
            }
        }
        if forall|j: int| #[trigger] many_child(nd, j) ==> kid_picked(ns, j) {
            assert forall|j: int| 0 <= j < nd.children@.len() && j < ns.children.len()
                && #[trigger] nd.children@[j].ty == NodeDefinitionType::PickMany implies is_picked(ns.children[j]) by {
                assert(many_child(nd, j));
            }
        }
    }
}

/// The leader of a line: nothing for the root; below it, one vertical pipe and
/// two spaces for each ancestor other than the root, then a corner for a last
/// child or a branch for another, then the connector, which shows whether the
/// cursor is on the node.
pub proof fn law_row_leader<T>(row: TreeRow, pal: Palette, d: TreeNodeDefinition<T>, s: PickState, cursor: Seq<usize>, path: Seq<usize>)
    requires
        is_path(d, path),
        row_ok(row, pal, d, s, cursor, path),
    ensures
        path.len() == 0 ==> row.leader@.len() == 0,
        path.len() >= 1 ==> ({
            let k = path.len() - 1;
            let conn = if path == cursor { pal.selected_connector@ } else { pal.unselected_connector@ };
            let siblings = def_at(d, path.drop_last()).unwrap().children@.len();
            &&& row.leader@.len() == 3 * k + 1 + conn.len()
            &&& forall|x: int| 0 <= x < 3 * k ==> #[trigger] row.leader@[x] == (if x % 3 == 0 { pal.pipe_vert } else { ' ' })
            &&& row.leader@[3 * k] == (if path.last() + 1 == siblings { pal.pipe_corner } else { pal.pipe_branch })
            &&& row.leader@.subrange(3 * k + 1, row.leader@.len() as int) == conn
        }),
{
    if path.len() >= 1 {
        let k = path.len() - 1;
        lemma_scaffolding(pal.pipe_vert, path.len() as int);
        let sc = scaffolding(pal.pipe_vert, path.len() as int);
        let l = row.leader@;
        assert forall|x: int| 0 <= x < 3 * k implies #[trigger] l[x] == (if x % 3 == 0 { pal.pipe_vert } else { ' ' }) by {
            assert(l[x] == sc[x]);
        }
        let conn = if path == cursor { pal.selected_connector@ } else { pal.unselected_connector@ };
        assert(l.subrange(3 * k + 1, l.len() as int) =~= conn);
    }
}

proof fn lemma_scaffolding(pv: char, depth: int)
    requires
        depth >= 1,
    ensures
        scaffolding(pv, depth).len() == 3 * (depth - 1),
        forall|x: int| 0 <= x < 3 * (depth - 1) ==> #[trigger] scaffolding(pv, depth)[x] == (if x % 3 == 0 { pv } else { ' ' }),
    decreases depth,
{
    if depth >= 2 {
        lemma_scaffolding(pv, depth - 1);
        let a = scaffolding(pv, depth - 1);
        let t = seq![pv, ' ', ' '];
        assert(scaffolding(pv, depth) == a + t);
        assert forall|x: int| 0 <= x < 3 * (depth - 1) implies #[trigger] scaffolding(pv, depth)[x] == (if x % 3 == 0 { pv } else { ' ' }) by {
            if x < a.len() {
                assert((a + t)[x] == a[x]);
            } else {
                let r = x - 3 * (depth - 2);
                assert(0 <= r < 3);
                assert(x % 3 == r) by (nonlinear_arith)
                    requires x == 3 * (depth - 2) + r, 0 <= r < 3, depth >= 2;
                assert((a + t)[x] == t[r]);
            }
        }
    }
}

/// Only the listed keys do anything: space and Enter toggle, `y`/`Y` select,
/// `n`/`N` deselect, `h`/left leave the node, `l`/right enter it, `j`/down and
/// `k`/up go to the next and previous sibling; every other key maps to no
/// interaction, and `take_input` then answers `Ignored` and changes nothing.
pub proof fn law_keys(key: Key)
    ensures
        key_interaction(key) == (
            if key == Key::Char(' ') || key == Key::Enter {
                Some(TreeInteraction::EditPicked(EditPickedType::Toggle))
            } else if key == Key::Char('y') || key == Key::Char('Y') {
                Some(TreeInteraction::EditPicked(EditPickedType::Select))
            } else if key == Key::Char('n') || key == Key::Char('N') {
                Some(TreeInteraction::EditPicked(EditPickedType::Deselect))
            } else if key == Key::Char('h') || key == Key::ArrowLeft {
                Some(TreeInteraction::ExitNode)
            } else if key == Key::Char('l') || key == Key::ArrowRight {
                Some(TreeInteraction::EnterNode)
            } else if key == Key::Char('j') || key == Key::ArrowDown {
                Some(TreeInteraction::SeekSibling { next: true })
            } else if key == Key::Char('k') || key == Key::ArrowUp {
                Some(TreeInteraction::SeekSibling { next: false })
            } else {
                None::<TreeInteraction>
            }
        ),
{
}

} // verus!
