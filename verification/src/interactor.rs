use vstd::prelude::*;
use crate::{NodeDefinitionType, TreeNodeDefinition};
use crate::model::{
    PickState, NodeOp, is_pickable, def_at, node_at, is_path, valid_def, mirrors, conflicts,
    unpicked, picked_down, pick_child, unpick_child, set_pick_many_children, node_op, apply_at,
    pick_at, first_child_of_type, has_child_of_type, picked_of_type, first_exactly_one_due,
    initial_state, is_picked, all_pick_many_picked, paths_below, paths_before, other_exactly_one_picked, unpick_at, consistent,
};
use crate::TreeDefinition;
use crate::lemmas::{
    lemma_first_child_of_type, lemma_mirrors_node_at, lemma_apply_at_mirrors, lemma_pick_child_mirrors,
    lemma_def_at_snoc, lemma_node_at_snoc, lemma_valid_def_at, lemma_pick_at_unfold,
    lemma_initial_state_consistent, lemma_consistent_mirrors, lemma_consistent_frame,
    lemma_set_pick_many_at_consistent, lemma_pick_at_consistent, lemma_unpick_at_consistent,
    lemma_paths_below_ok, lemma_node_at_mirrors,
};

verus! {

/// The state of an interaction with the tree.
///
/// Mostly public for the benefit of drivers.
pub struct TreeInteractorNode {
    /// If the node is not pickable (like a Text node), this is None.
    picked: Option<bool>,
    children: Vec<TreeInteractorNode>,
}

impl View for TreeInteractorNode {
    type V = PickState;

    open spec fn view(&self) -> PickState {
        self.model()
    }
}

impl TreeInteractorNode {
    /// The pick state of this node and of its descendants.
    pub closed spec fn model(self) -> PickState
        decreases self,
    {
        PickState {
            picked: self.picked,
            children: Seq::new(
                self.children@.len(),
                |i: int|
                    if 0 <= i < self.children@.len() {
                        self.children@[i].model()
                    } else {
                        PickState { picked: None, children: Seq::empty() }
                    },
            ),
        }
    }

    /// The model of a node is made of its pick state and the models of its children.
    proof fn lemma_view(&self)
        ensures
            #[trigger] self@.picked == self.picked,
            self@.children.len() == self.children@.len(),
            forall|i: int| 0 <= i < self.children@.len() ==> #[trigger] self@.children[i] == self.children@[i]@,
    {
        reveal_with_fuel(TreeInteractorNode::model, 2);
    }

    /// Whether this node is picked; `None` if the node cannot be picked.
    pub fn picked(&self) -> (res: Option<bool>)
        ensures
            res == self@.picked,
    {
        self.picked
    }

    /// The states of the children of this node.
    pub fn children(&self) -> (res: &Vec<TreeInteractorNode>)
        ensures
            res@.len() == self@.children.len(),
            forall|i: int| 0 <= i < res@.len() ==> #[trigger] res@[i]@ == self@.children[i],
    {
        proof {
            self.lemma_view();
        }
        &self.children
    }

    /// The paths to the nodes below this one, each node before its
    /// descendants; only to the picked ones when `only_picked`.
    fn get_all_paths_to_children_filtered(&self, only_picked: bool) -> (res: Vec<Vec<usize>>)
        ensures
            paths_view(res@) == paths_below(self@, only_picked),
        decreases self,
    {
        proof {
            self.lemma_view();
        }
        let mut paths: Vec<Vec<usize>> = Vec::new();
        let len = self.children.len();
        let mut idx: usize = 0;
        assert(paths_view(paths@) =~= paths_before(self@, 0, only_picked));
        while idx < len
            invariant
                len == self.children@.len(),
                len == self@.children.len(),
                forall|m: int| 0 <= m < len ==> #[trigger] self@.children[m] == self.children@[m]@,
                idx <= len,
                paths_view(paths@) == paths_before(self@, idx as int, only_picked),
            decreases len - idx,
        {
            let kid = &self.children[idx];
            let ghost before = paths_view(paths@);
            let ghost own: Seq<Seq<usize>> = if !only_picked || is_picked(kid@) {
                seq![seq![idx]]
            } else {
                Seq::empty()
            };
            if !only_picked || is_picked_exec(kid) {
                let mut single: Vec<usize> = Vec::new();
                single.push(idx);
                paths.push(single);
                assert(single@ =~= seq![idx]);
            }
            assert(paths_view(paths@) =~= before + own);
            let subpaths = kid.get_all_paths_to_children_filtered(only_picked);
            let ghost below = paths_below(kid@, only_picked);
            let ghost prefixed = below.map_values(|p: Seq<usize>| seq![idx] + p);
            let mut m: usize = 0;
            assert(below.len() == subpaths@.len());
            while m < subpaths.len()
                invariant
                    paths_view(subpaths@) == below,
                    below.len() == subpaths@.len(),
                    prefixed == below.map_values(|p: Seq<usize>| seq![idx] + p),
                    m <= subpaths@.len(),
                    paths_view(paths@) == before + own + prefixed.take(m as int),
                decreases subpaths@.len() - m,
            {
                let mut extended: Vec<usize> = Vec::new();
                extended.push(idx);
                let mut copy = subpaths[m].clone();
                assert(copy@ =~= subpaths@[m as int]@);
                extended.append(&mut copy);
                assert(extended@ =~= seq![idx] + below[m as int]);
                let ghost old_paths = paths@;
                paths.push(extended);
                assert(prefixed[m as int] == seq![idx] + below[m as int]);
                assert(prefixed.take(m + 1) =~= prefixed.take(m as int).push(seq![idx] + below[m as int]));
                assert(paths_view(paths@) =~= paths_view(old_paths).push(extended@));
                m = m + 1;
            }
            assert(prefixed.take(subpaths@.len() as int) =~= prefixed);
            assert((idx as int + 1) - 1 == idx as int);
            assert(paths_before(self@, idx + 1, only_picked) == paths_before(self@, idx as int, only_picked)
                + crate::model::paths_of_child(self@, idx as int, only_picked));
            assert(paths_view(paths@) =~= paths_before(self@, idx + 1, only_picked));
            idx = idx + 1;
        }
        assert(paths_below(self@, only_picked) == paths_before(self@, len as int, only_picked));
        paths
    }

    /// Create the default state of this node with enough `children` to match the shape of the node definition.
    fn create_mirroring_node<M>(node: &TreeNodeDefinition<M>, first_pick_exactly_one: bool) -> (res: Self)
        ensures
            res@ == initial_state(*node, first_pick_exactly_one),
        decreases node,
    {
        let peo = NodeDefinitionType::PickExactlyOne;
        let picked = match node.ty {
            NodeDefinitionType::PickMany => Some(false),
            NodeDefinitionType::PickUpToOne => Some(false),
            NodeDefinitionType::PickExactlyOne => Some(first_pick_exactly_one),
            NodeDefinitionType::Text | NodeDefinitionType::AllDone => None,
        };
        let mut children: Vec<TreeInteractorNode> = Vec::new();
        let mut found_first_pick_exactly_one = false;
        // do NOT pick the first PickExactlyOne if this node is unpicked and has
        // `pick_children_needs_self`
        let special_case_exclude_fpeo = match picked {
            Some(false) => node.pick_children_needs_self,
            _ => false,
        };
        let ghost k = first_child_of_type(*node, peo);
        proof {
            if has_child_of_type(*node, peo) {
                lemma_first_child_of_type(*node, peo);
            }
        }
        let len = node.children.len();
        let mut idx: usize = 0;
        while idx < len
            invariant
                len == node.children@.len(),
                idx <= len,
                children@.len() == idx,
                has_child_of_type(*node, peo) ==> 0 <= k < len && node.children@[k].ty == peo
                    && forall|j: int| 0 <= j < k ==> #[trigger] node.children@[j].ty != peo,
                found_first_pick_exactly_one == (!special_case_exclude_fpeo && exists|j: int|
                    0 <= j < idx && #[trigger] node.children@[j].ty == peo),
                forall|j: int| 0 <= j < idx ==> #[trigger] children@[j]@ == initial_state(
                    node.children@[j],
                    !special_case_exclude_fpeo && node.children@[j].ty == peo && j == k,
                ),
            decreases len - idx,
        {
            let kid = &node.children[idx];
            let found_fpeo = kid.ty == peo && !found_first_pick_exactly_one && !special_case_exclude_fpeo;
            proof {
                if kid.ty == peo && !special_case_exclude_fpeo {
                    assert(has_child_of_type(*node, peo));
                    if found_first_pick_exactly_one {
                        let j = choose|j: int| 0 <= j < idx && #[trigger] node.children@[j].ty == peo;
                        assert(k <= j);
                    } else {
                        if k < idx {
                            assert(node.children@[k].ty == peo);
                        }
                        assert(k == idx);
                    }
                }
            }
            if found_fpeo {
                found_first_pick_exactly_one = true;
            }
            let child = TreeInteractorNode::create_mirroring_node(kid, found_fpeo);
            children.push(child);
            idx = idx + 1;
        }
        let res = Self { picked, children };
        proof {
            res.lemma_view();
            assert(res@.children =~= initial_state(*node, first_pick_exactly_one).children);
        }
        res
    }
}

// ----------------------------------------------------------------------------
// Operations on one node of the state
// ----------------------------------------------------------------------------

fn conflicts_exec(picked_ty: NodeDefinitionType, other_ty: NodeDefinitionType) -> (res: bool)
    ensures
        res == conflicts(picked_ty, other_ty),
{
    match picked_ty {
        NodeDefinitionType::PickExactlyOne => other_ty == NodeDefinitionType::PickExactlyOne,
        NodeDefinitionType::PickUpToOne => other_ty == NodeDefinitionType::PickUpToOne || other_ty
            == NodeDefinitionType::PickMany,
        _ => false,
    }
}

fn is_picked_exec(n: &TreeInteractorNode) -> (res: bool)
    ensures
        res == is_picked(n@),
{
    proof {
        n.lemma_view();
    }
    match n.picked {
        Some(b) => b,
        None => false,
    }
}

/// The node becomes unpicked, and so do its children if they need it.
fn unpick_node<T>(d: &TreeNodeDefinition<T>, n: &mut TreeInteractorNode)
    requires
        mirrors(*d, old(n)@),
    ensures
        final(n)@ == unpicked(*d, old(n)@),
    decreases d,
{
    proof {
        old(n).lemma_view();
    }
    let ghost s0 = old(n)@;
    if n.picked.is_some() {
        n.picked = Some(false);
    }
    if d.pick_children_needs_self {
        let len = n.children.len();
        let mut j: usize = 0;
        while j < len
            invariant
                len == n.children@.len(),
                len == d.children@.len(),
                s0.children.len() == len,
                n.picked == (if s0.picked is Some { Some(false) } else { None::<bool> }),
                mirrors(*d, s0),
                j <= len,
                forall|m: int| 0 <= m < j ==> #[trigger] n.children@[m]@ == (
                    if s0.children[m].picked is Some { unpicked(d.children@[m], s0.children[m]) } else { s0.children[m] }),
                forall|m: int| j <= m < len ==> #[trigger] n.children@[m]@ == s0.children[m],
            decreases len - j,
        {
            let ghost before = n.children@[j as int]@;
            assert(mirrors(d.children@[j as int], s0.children[j as int]));
            proof {
                n.children@[j as int].lemma_view();
            }
            if n.children[j].picked.is_some() {
                unpick_node(&d.children[j], &mut n.children[j]);
            }
            j = j + 1;
        }
        proof {
            n.lemma_view();
            assert(n@.children =~= unpicked(*d, s0).children);
        }
    } else {
        proof {
            n.lemma_view();
            assert forall|m: int| 0 <= m < n.children@.len() implies #[trigger] n@.children[m] == s0.children[m] by {
            }
            assert(n@.children =~= s0.children);
        }
    }
}

/// The index of the first `PickExactlyOne` child, or the number of children if there is none.
fn first_exactly_one_exec<T>(d: &TreeNodeDefinition<T>) -> (k: usize)
    ensures
        k <= d.children@.len(),
        k < d.children@.len() <==> has_child_of_type(*d, NodeDefinitionType::PickExactlyOne),
        k < d.children@.len() ==> k == first_child_of_type(*d, NodeDefinitionType::PickExactlyOne),
{
    let len = d.children.len();
    let mut k: usize = 0;
    while k < len && d.children[k].ty != NodeDefinitionType::PickExactlyOne
        invariant
            len == d.children@.len(),
            k <= len,
            forall|j: int| 0 <= j < k ==> #[trigger] d.children@[j].ty != NodeDefinitionType::PickExactlyOne,
        decreases len - k,
    {
        k = k + 1;
    }
    if k < len {
        proof {
            lemma_first_child_of_type(*d, NodeDefinitionType::PickExactlyOne);
            let f = first_child_of_type(*d, NodeDefinitionType::PickExactlyOne);
            if f < k {
                assert(d.children@[f].ty != NodeDefinitionType::PickExactlyOne);
            }
            if k < f {
                assert(d.children@[k as int].ty != NodeDefinitionType::PickExactlyOne);
            }
        }
    } else {
        assert(!has_child_of_type(*d, NodeDefinitionType::PickExactlyOne));
    }
    k
}

/// Some child of type `ty` is picked.
fn any_picked_of_type<T>(d: &TreeNodeDefinition<T>, n: &TreeInteractorNode, ty: NodeDefinitionType) -> (res: bool)
    requires
        mirrors(*d, n@),
    ensures
        res == exists|i: int| #[trigger] picked_of_type(*d, n@, ty, i),
{
    proof {
        n.lemma_view();
    }
    let len = d.children.len();
    let mut j: usize = 0;
    while j < len
        invariant
            len == d.children@.len(),
            len == n@.children.len(),
            len == n.children@.len(),
            forall|m: int| 0 <= m < len ==> #[trigger] n@.children[m] == n.children@[m]@,
            j <= len,
            forall|m: int| 0 <= m < j ==> !#[trigger] picked_of_type(*d, n@, ty, m),
        decreases len - j,
    {
        if d.children[j].ty == ty && is_picked_exec(&n.children[j]) {
            assert(picked_of_type(*d, n@, ty, j as int));
            return true;
        }
        j = j + 1;
    }
    false
}

/// The node becomes picked, and so does its first `PickExactlyOne` child if
/// none of them is.
fn pick_down_node<T>(d: &TreeNodeDefinition<T>, n: &mut TreeInteractorNode)
    requires
        mirrors(*d, old(n)@),
    ensures
        final(n)@ == picked_down(*d, old(n)@),
    decreases d,
{
    proof {
        old(n).lemma_view();
    }
    let ghost s0 = old(n)@;
    let k = first_exactly_one_exec(d);
    let due = k < d.children.len() && !any_picked_of_type(d, n, NodeDefinitionType::PickExactlyOne);
    n.picked = Some(true);
    if due {
        assert(first_exactly_one_due(*d, s0));
        assert(mirrors(d.children@[k as int], s0.children[k as int]));
        proof {
            n.children@[k as int].lemma_view();
        }
        pick_down_node(&d.children[k], &mut n.children[k]);
        proof {
            n.lemma_view();
            assert forall|m: int| 0 <= m < n.children@.len() && m != k implies #[trigger] n@.children[m] == s0.children[m] by {
            }
            assert(n@.children =~= picked_down(*d, s0).children);
        }
    } else {
        proof {
            n.lemma_view();
            if k < d.children@.len() {
                assert(!first_exactly_one_due(*d, s0));
            }
            assert forall|m: int| 0 <= m < n.children@.len() implies #[trigger] n@.children[m] == s0.children[m] by {
            }
            assert(n@.children =~= picked_down(*d, s0).children);
        }
    }
}

/// Child `i` becomes picked; the siblings that conflict with it become unpicked.
fn pick_child_node<T>(pd: &TreeNodeDefinition<T>, n: &mut TreeInteractorNode, i: usize)
    requires
        mirrors(*pd, old(n)@),
        i < pd.children@.len(),
    ensures
        final(n)@ == pick_child(*pd, old(n)@, i as int),
{
    proof {
        old(n).lemma_view();
    }
    let ghost s0 = old(n)@;
    let ty_i = pd.children[i].ty;
    let len = n.children.len();
    let mut j: usize = 0;
    while j < len
        invariant
            len == n.children@.len(),
            len == pd.children@.len(),
            s0.children.len() == len,
            mirrors(*pd, s0),
            n.picked == s0.picked,
            i < len,
            ty_i == pd.children@[i as int].ty,
            j <= len,
            forall|m: int| 0 <= m < j ==> #[trigger] n.children@[m]@ == (
                if m != i && conflicts(ty_i, pd.children@[m].ty) { unpicked(pd.children@[m], s0.children[m]) } else { s0.children[m] }),
            forall|m: int| j <= m < len ==> #[trigger] n.children@[m]@ == s0.children[m],
        decreases len - j,
    {
        assert(mirrors(pd.children@[j as int], s0.children[j as int]));
        proof {
            n.children@[j as int].lemma_view();
        }
        if j != i && conflicts_exec(ty_i, pd.children[j].ty) {
            unpick_node(&pd.children[j], &mut n.children[j]);
        }
        j = j + 1;
    }
    assert(n.children@[i as int]@ == s0.children[i as int]);
    assert(mirrors(pd.children@[i as int], s0.children[i as int]));
    pick_down_node(&pd.children[i], &mut n.children[i]);
    proof {
        n.lemma_view();
        assert(n@.children =~= pick_child(*pd, s0, i as int).children);
    }
}

/// Child `i` becomes unpicked.
fn unpick_child_node<T>(pd: &TreeNodeDefinition<T>, n: &mut TreeInteractorNode, i: usize)
    requires
        mirrors(*pd, old(n)@),
        i < pd.children@.len(),
    ensures
        final(n)@ == unpick_child(*pd, old(n)@, i as int),
{
    proof {
        old(n).lemma_view();
    }
    let ghost s0 = old(n)@;
    assert(mirrors(pd.children@[i as int], s0.children[i as int]));
    unpick_node(&pd.children[i], &mut n.children[i]);
    proof {
        n.lemma_view();
        assert(n@.children =~= unpick_child(*pd, s0, i as int).children);
    }
}

/// Every `PickMany` child becomes picked (`value`) or unpicked.
fn set_pick_many_node<T>(d: &TreeNodeDefinition<T>, n: &mut TreeInteractorNode, value: bool)
    requires
        mirrors(*d, old(n)@),
    ensures
        final(n)@ == set_pick_many_children(*d, old(n)@, value),
{
    proof {
        old(n).lemma_view();
    }
    let ghost s0 = old(n)@;
    let len = n.children.len();
    let mut j: usize = 0;
    while j < len
        invariant
            len == n.children@.len(),
            len == d.children@.len(),
            s0.children.len() == len,
            mirrors(*d, s0),
            n.picked == s0.picked,
            j <= len,
            forall|m: int| 0 <= m < j ==> #[trigger] n.children@[m]@ == (
                if d.children@[m].ty == NodeDefinitionType::PickMany {
                    if value { picked_down(d.children@[m], s0.children[m]) } else { unpicked(d.children@[m], s0.children[m]) }
                } else { s0.children[m] }),
            forall|m: int| j <= m < len ==> #[trigger] n.children@[m]@ == s0.children[m],
        decreases len - j,
    {
        assert(mirrors(d.children@[j as int], s0.children[j as int]));
        proof {
            n.children@[j as int].lemma_view();
        }
        if d.children[j].ty == NodeDefinitionType::PickMany {
            if value {
                pick_down_node(&d.children[j], &mut n.children[j]);
            } else {
                unpick_node(&d.children[j], &mut n.children[j]);
            }
        }
        j = j + 1;
    }
    proof {
        n.lemma_view();
        assert(n@.children =~= set_pick_many_children(*d, s0, value).children);
    }
}

/// The child indices that `op` uses exist.
spec fn op_in_range<T>(d: TreeNodeDefinition<T>, op: NodeOp) -> bool {
    match op {
        NodeOp::PickChild(i) => i < d.children@.len(),
        NodeOp::UnpickChild(i) => i < d.children@.len(),
        _ => true,
    }
}

fn node_op_exec<T>(d: &TreeNodeDefinition<T>, n: &mut TreeInteractorNode, op: NodeOp)
    requires
        mirrors(*d, old(n)@),
        op_in_range(*d, op),
    ensures
        final(n)@ == node_op(*d, old(n)@, op),
{
    match op {
        NodeOp::PickChild(i) => pick_child_node(d, n, i),
        NodeOp::PickSelf => pick_down_node(d, n),
        NodeOp::UnpickChild(i) => unpick_child_node(d, n, i),
        NodeOp::SetPickMany(v) => set_pick_many_node(d, n, v),
    }
}

proof fn lemma_subrange_step(path: Seq<usize>, k: int, end: int)
    requires
        0 <= k < end <= path.len(),
    ensures
        path.subrange(k, end).len() > 0,
        path.subrange(k, end)[0] == path[k],
        path.subrange(k, end).drop_first() == path.subrange(k + 1, end),
{
    assert(path.subrange(k, end).drop_first() =~= path.subrange(k + 1, end));
}

/// The definition node at `path[k..end]`.
pub(crate) fn def_at_exec<'a, T>(d: &'a TreeNodeDefinition<T>, path: &[usize], k: usize, end: usize) -> (res: &'a TreeNodeDefinition<T>)
    requires
        k <= end <= path@.len(),
        is_path(*d, path@.subrange(k as int, end as int)),
    ensures
        def_at(*d, path@.subrange(k as int, end as int)) == Some(*res),
    decreases end - k,
{
    if k == end {
        assert(path@.subrange(k as int, end as int).len() == 0);
        d
    } else {
        proof {
            lemma_subrange_step(path@, k as int, end as int);
        }
        let i = path[k];
        def_at_exec(&d.children[i], path, k + 1, end)
    }
}

/// The state node at `path[k..end]`.
pub(crate) fn node_at_exec<'a>(n: &'a TreeInteractorNode, path: &[usize], k: usize, end: usize) -> (res: &'a TreeInteractorNode)
    requires
        k <= end <= path@.len(),
        node_at(n@, path@.subrange(k as int, end as int)) is Some,
    ensures
        node_at(n@, path@.subrange(k as int, end as int)) == Some(res@),
    decreases end - k,
{
    proof {
        n.lemma_view();
    }
    if k == end {
        assert(path@.subrange(k as int, end as int).len() == 0);
        n
    } else {
        proof {
            lemma_subrange_step(path@, k as int, end as int);
        }
        let i = path[k];
        node_at_exec(&n.children[i], path, k + 1, end)
    }
}

/// `op` applied to the state node at `path[k..end]`.
fn apply_at_exec<T>(d: &TreeNodeDefinition<T>, n: &mut TreeInteractorNode, path: &[usize], k: usize, end: usize, op: NodeOp)
    requires
        k <= end <= path@.len(),
        mirrors(*d, old(n)@),
        is_path(*d, path@.subrange(k as int, end as int)),
        op_in_range(def_at(*d, path@.subrange(k as int, end as int)).unwrap(), op),
    ensures
        final(n)@ == apply_at(*d, old(n)@, path@.subrange(k as int, end as int), op),
    decreases end - k,
{
    proof {
        old(n).lemma_view();
    }
    let ghost s0 = old(n)@;
    if k == end {
        assert(path@.subrange(k as int, end as int).len() == 0);
        node_op_exec(d, n, op);
    } else {
        proof {
            lemma_subrange_step(path@, k as int, end as int);
        }
        let i = path[k];
        assert(mirrors(d.children@[i as int], s0.children[i as int]));
        proof {
            n.children@[i as int].lemma_view();
        }
        apply_at_exec(&d.children[i], &mut n.children[i], path, k + 1, end, op);
        proof {
            n.lemma_view();
            assert(n@.children =~= apply_at(*d, s0, path@.subrange(k as int, end as int), op).children);
        }
    }
}

/// One step of [`pick_at`] on `path[..end]`: the node becomes picked within its
/// parent; the result says whether the parent must be picked next.
fn pick_step<T>(d: &TreeNodeDefinition<T>, root: &mut TreeInteractorNode, path: &[usize], end: usize) -> (cascade: bool)
    requires
        0 < end <= path@.len(),
        valid_def(*d),
        mirrors(*d, old(root)@),
        is_path(*d, path@.subrange(0, end as int)),
        is_pickable(def_at(*d, path@.subrange(0, end as int)).unwrap().ty),
    ensures
        path@.subrange(0, end as int).drop_last() == path@.subrange(0, end - 1),
        path@.subrange(0, end as int).last() == path@[end - 1],
        final(root)@ == apply_at(*d, old(root)@, path@.subrange(0, end - 1), NodeOp::PickChild(path@[end - 1])),
        cascade == crate::model::cascades_up(*d, old(root)@, path@.subrange(0, end - 1)),
        mirrors(*d, final(root)@),
        is_path(*d, path@.subrange(0, end - 1)),
        cascade ==> is_pickable(def_at(*d, path@.subrange(0, end - 1)).unwrap().ty),
{
    let ghost cur = old(root)@;
    let ghost p = path@.subrange(0, end as int);
    let i = path[end - 1];
    let ghost pp = path@.subrange(0, end - 1);
    assert(p.drop_last() =~= pp);
    assert(p.last() == i);
    proof {
        lemma_def_at_snoc(*d, p);
        lemma_mirrors_node_at(*d, cur, pp);
    }
    let pd = def_at_exec(d, path, 0, end - 1);
    let cascade = pd.pick_children_needs_self && !is_picked_exec(node_at_exec(root, path, 0, end - 1));
    proof {
        lemma_pick_child_mirrors(*pd, node_at(cur, pp).unwrap(), i as int);
        lemma_apply_at_mirrors(*d, cur, pp, NodeOp::PickChild(i));
        if cascade {
            lemma_valid_def_at(*d, pp);
        }
    }
    apply_at_exec(d, root, path, 0, end - 1, NodeOp::PickChild(i));
    cascade
}

/// The node at `path[..end]` becomes picked, as [`pick_at`] says.
fn pick_at_exec<T>(d: &TreeNodeDefinition<T>, root: &mut TreeInteractorNode, path: &[usize], end: usize)
    requires
        end <= path@.len(),
        valid_def(*d),
        mirrors(*d, old(root)@),
        is_path(*d, path@.subrange(0, end as int)),
        is_pickable(def_at(*d, path@.subrange(0, end as int)).unwrap().ty),
    ensures
        final(root)@ == pick_at(*d, old(root)@, path@.subrange(0, end as int)),
    decreases end,
{
    let ghost cur = old(root)@;
    proof {
        lemma_pick_at_unfold(*d, cur, path@.subrange(0, end as int));
    }
    if end == 0 {
        assert(path@.subrange(0, 0) =~= Seq::<usize>::empty());
        apply_at_exec(d, root, path, 0, 0, NodeOp::PickSelf);
    } else {
        let cascade = pick_step(d, root, path, end);
        if cascade {
            pick_at_exec(d, root, path, end - 1);
        }
    }
}

/// How to interact with the tree.
#[derive(Debug, Clone, Copy)]
pub enum TreeInteraction {
    /// Change the picked-ness state of this node.
    EditPicked(EditPickedType),
    /// Go to this node's next/previous sibling. Wrapping.
    SeekSibling { next: bool },
    /// Go to this node's first child.
    EnterNode,
    /// Go to this node's parent.
    ExitNode,
}

/// How to change the picked state of a node.
///
/// See [`TreeInteraction::EditPicked`].
#[derive(Debug, Clone, Copy, Eq, PartialEq, Structural)]
pub enum EditPickedType {
    /// Pick this node
    Select,
    /// Unpick this node
    Deselect,
    /// Toggle the picked state of this node
    Toggle,
}

/// What went wrong when you did an invalid operation on the tree
#[derive(Debug, Clone, Eq, PartialEq, Structural)]
pub enum TreeInteractionError {
    /// [`TreeInteraction::EditPicked`] on an unpickable node
    TriedToEditUnpickableNode,
    /// [`TreeInteraction::EnterNode`] on node with no children
    NodeHasNoChildren,
    /// [`TreeInteraction::ExitNode`] on a child of the root node
    NodeHasNoParent,
    /// [`TreeInteraction::EditPicked`] such that a family of [`NodeDefinitionType::PickExactlyOne`] nodes
    /// would have no picked siblings
    TriedToUnpickButNeedExactlyOne,
}

/// The paths that a list of paths holds.
pub open spec fn paths_view(v: Seq<Vec<usize>>) -> Seq<Seq<usize>> {
    v.map_values(|p: Vec<usize>| p@)
}

/// The value that an edit gives a node whose current value is `current`.
pub open spec fn edit_target(ept: EditPickedType, current: bool) -> bool {
    match ept {
        EditPickedType::Select => true,
        EditPickedType::Deselect => false,
        EditPickedType::Toggle => !current,
    }
}

/// The result and the new state of editing the node at `cursor`.
///
/// - An `AllDone` node reports that the user is done, and changes nothing.
/// - A `Text` node with `PickMany` children acts as a checkbox for them:
///   they are all picked, or all unpicked (toggling picks them all unless
///   they all are picked already). A `Text` node without any is not pickable.
/// - A pickable node is picked with [`pick_at`] or unpicked with
///   [`unpick_at`]; unpicking the only picked member of a `PickExactlyOne`
///   group is refused and changes nothing.
pub open spec fn edit_result<T>(
    d: TreeNodeDefinition<T>,
    s: PickState,
    cursor: Seq<usize>,
    ept: EditPickedType,
) -> (Result<bool, TreeInteractionError>, PickState) {
    let nd = def_at(d, cursor).unwrap();
    let ns = node_at(s, cursor).unwrap();
    if nd.ty == NodeDefinitionType::AllDone {
        (Ok(true), s)
    } else if nd.ty == NodeDefinitionType::Text {
        if has_child_of_type(nd, NodeDefinitionType::PickMany) {
            (Ok(false), apply_at(d, s, cursor, NodeOp::SetPickMany(edit_target(ept, all_pick_many_picked(nd, ns)))))
        } else {
            (Err(TreeInteractionError::TriedToEditUnpickableNode), s)
        }
    } else if edit_target(ept, is_picked(ns)) {
        (Ok(false), pick_at(d, s, cursor))
    } else if nd.ty == NodeDefinitionType::PickExactlyOne && !other_exactly_one_picked(d, s, cursor) {
        (Err(TreeInteractionError::TriedToUnpickButNeedExactlyOne), s)
    } else {
        (Ok(false), unpick_at(d, s, cursor))
    }
}

/// The index of the next (or previous) sibling of child `idx` among `n`, wrapping.
pub open spec fn sibling_index(idx: int, n: int, next: bool) -> int {
    if next {
        (idx + 1) % n
    } else {
        (idx + n - 1) % n
    }
}

/// The cursor after moving to the next (or previous) sibling.
pub open spec fn seek_sibling_cursor<T>(d: TreeNodeDefinition<T>, cursor: Seq<usize>, next: bool) -> Seq<usize> {
    let n = def_at(d, cursor.drop_last()).unwrap().children@.len() as int;
    cursor.drop_last().push(sibling_index(cursor.last() as int, n, next) as usize)
}

/// The result, the new state and the new cursor of an interaction.
pub open spec fn interact_result<T>(
    d: TreeNodeDefinition<T>,
    s: PickState,
    cursor: Seq<usize>,
    interaction: TreeInteraction,
) -> (Result<bool, TreeInteractionError>, PickState, Seq<usize>) {
    match interaction {
        TreeInteraction::EditPicked(ept) => {
            let (r, s2) = edit_result(d, s, cursor, ept);
            (r, s2, cursor)
        },
        TreeInteraction::SeekSibling { next } => (Ok(false), s, seek_sibling_cursor(d, cursor, next)),
        TreeInteraction::EnterNode => if def_at(d, cursor).unwrap().children@.len() == 0 {
            (Err(TreeInteractionError::NodeHasNoChildren), s, cursor)
        } else {
            (Ok(false), s, cursor.push(0))
        },
        TreeInteraction::ExitNode => if cursor.len() <= 1 {
            (Err(TreeInteractionError::NodeHasNoParent), s, cursor)
        } else {
            (Ok(false), s, cursor.drop_last())
        },
    }
}

/// The mutable interface to interacting with a tree.
///
/// This struct internally "mirrors" the structure of a [`TreeNodeDefinition`].
///
/// ## Tree Paths
///
/// Traversing the tree is done with "paths." A path is a list of indices.
/// Traverse a node by indexing its children.
///
/// In other words,
/// - `[]` is the root node
/// - `[0]` is the first child of the root
/// - `[1]` is the second child of the root
/// - `[0, 1]` is the second child of the first child of the root
pub struct TreeInteractor<T> {
    /// The tree that this acts on.
    tree: TreeDefinition<T>,
    root: TreeInteractorNode,
    /// Path the current cursor took through the tree.
    /// Each index is the index of the [`TreeNodeDefinition`] in its parent.
    cursor_path: Vec<usize>,
}

impl<T> TreeInteractor<T> {
    /// The tree that this acts on.
    pub closed spec fn definition(&self) -> TreeDefinition<T> {
        self.tree
    }

    /// The pick state of every node.
    pub closed spec fn state(&self) -> PickState {
        self.root@
    }

    /// The path to the node under the cursor.
    pub closed spec fn cursor(&self) -> Seq<usize> {
        self.cursor_path@
    }

    /// The interactor is well formed: the definition is valid, the state keeps
    /// the picking rules, and the cursor is on a node other than the root.
    pub closed spec fn wf(&self) -> bool {
        &&& valid_def(self.tree.root)
        &&& consistent(self.tree.root, self.root@)
        &&& self.cursor_path@.len() >= 1
        &&& is_path(self.tree.root, self.cursor_path@)
    }

    /// The state of a well-formed interactor mirrors its definition.
    pub proof fn lemma_wf_mirrors(&self)
        requires
            self.wf(),
        ensures
            mirrors(self.definition().root, self.state()),
            valid_def(self.definition().root),
            crate::model::consistent(self.definition().root, self.state()),
            is_path(self.definition().root, self.cursor()),
            self.cursor().len() >= 1,
    {
        lemma_consistent_mirrors(self.tree.root, self.root@);
    }

    /// Create a new tree.
    ///
    /// The tree must not be empty; only pickable nodes may require being
    /// picked before their children.
    pub fn new(tree: TreeDefinition<T>) -> (res: TreeInteractor<T>)
        requires
            tree.root.children@.len() > 0,
            valid_def(tree.root),
        ensures
            res.wf(),
            res.definition() == tree,
            res.state() == initial_state(tree.root, false),
            res.cursor() == seq![0usize],
    {
        let root = TreeInteractorNode::create_mirroring_node(&tree.root, false);
        let mut cursor_path = Vec::new();
        // by default select the first child of the root
        cursor_path.push(0);
        proof {
            lemma_initial_state_consistent(tree.root, false);
            assert(cursor_path@ =~= seq![0usize]);
            assert(cursor_path@.drop_first().len() == 0);
            assert(def_at(tree.root.children@[0], cursor_path@.drop_first()) is Some);
            assert(is_path(tree.root, cursor_path@));
        }
        Self { tree, root, cursor_path }
    }

    /// Get the path the cursor has taken through the tree.
    ///
    /// Each index is the index of the node in its parent.
    pub fn cursor_path(&self) -> (res: &[usize])
        ensures
            res@ == self.cursor(),
    {
        self.cursor_path.as_slice()
    }

    /// The tree that this acts on.
    pub fn tree(&self) -> (res: &TreeDefinition<T>)
        ensures
            *res == self.definition(),
    {
        &self.tree
    }

    /// The state of the root node, and through it of every node.
    pub fn root(&self) -> (res: &TreeInteractorNode)
        ensures
            res@ == self.state(),
    {
        &self.root
    }

    /// Traverse a path through the tree to the node definition.
    pub fn select_node_via_path(&self, path: &[usize]) -> (res: Option<&TreeNodeDefinition<T>>)
        ensures
            match res {
                Some(n) => def_at(self.definition().root, path@) == Some(*n),
                None => def_at(self.definition().root, path@) is None,
            },
    {
        assert(path@.subrange(0, path@.len() as int) =~= path@);
        def_lookup(&self.tree.root, path, 0)
    }

    /// The currently selected node, where the cursor is.
    pub fn selected_node(&self) -> (res: &TreeNodeDefinition<T>)
        requires
            self.wf(),
        ensures
            def_at(self.definition().root, self.cursor()) == Some(*res),
    {
        assert(self.cursor_path@.subrange(0, self.cursor_path@.len() as int) =~= self.cursor_path@);
        def_at_exec(&self.tree.root, self.cursor_path.as_slice(), 0, self.cursor_path.len())
    }

    /// Traverse a path through the tree to the node state.
    pub fn select_interactor_node_via_path(&self, path: &[usize]) -> (res: Option<&TreeInteractorNode>)
        ensures
            match res {
                Some(n) => node_at(self.state(), path@) == Some(n@),
                None => node_at(self.state(), path@) is None,
            },
    {
        assert(path@.subrange(0, path@.len() as int) =~= path@);
        node_lookup(&self.root, path, 0)
    }

    /// Get the currently selected node interaction state
    pub fn selected_interactor_node(&self) -> (res: &TreeInteractorNode)
        requires
            self.wf(),
        ensures
            node_at(self.state(), self.cursor()) == Some(res@),
    {
        assert(self.cursor_path@.subrange(0, self.cursor_path@.len() as int) =~= self.cursor_path@);
        proof {
            lemma_consistent_mirrors(self.tree.root, self.root@);
            lemma_mirrors_node_at(self.tree.root, self.root@, self.cursor_path@);
        }
        node_at_exec(&self.root, self.cursor_path.as_slice(), 0, self.cursor_path.len())
    }

    /// Handle user input from the tree.
    ///
    /// Returns:
    /// - `Ok(false)` if the interaction was handled properly.
    /// - `Ok(true)` if the interaction was handled properly, and the user selected an [`NodeDefinitionType::AllDone`] node. The caller should quit the interaction loop.
    /// - `Err` if there was an error; then nothing changed.
    pub fn interact(&mut self, interaction: TreeInteraction) -> (res: Result<bool, TreeInteractionError>)
        requires
            old(self).wf(),
        ensures
            final(self).wf(),
            final(self).definition() == old(self).definition(),
            (res, final(self).state(), final(self).cursor()) == interact_result(
                old(self).definition().root,
                old(self).state(),
                old(self).cursor(),
                interaction,
            ),
    {
        let ghost d = self.tree.root;
        let ghost c = self.cursor_path@;
        match interaction {
            TreeInteraction::EditPicked(ept) => self.edit_picked(ept),
            TreeInteraction::SeekSibling { next } => {
                let len = self.cursor_path.len();
                let index_in_parent = self.cursor_path[len - 1];
                proof {
                    assert(self.cursor_path@.subrange(0, len - 1) =~= c.drop_last());
                    lemma_def_at_snoc(d, c);
                }
                let parent = def_at_exec(&self.tree.root, self.cursor_path.as_slice(), 0, len - 1);
                let n = parent.children.len();
                let new_idx = if next {
                    (index_in_parent + 1) % n
                } else if index_in_parent == 0 {
                    n - 1
                } else {
                    index_in_parent - 1
                };
                proof {
                    let idx = index_in_parent as int;
                    if !next {
                        if idx == 0 {
                            vstd::arithmetic::div_mod::lemma_small_mod((n - 1) as nat, n as nat);
                        } else {
                            vstd::arithmetic::div_mod::lemma_mod_add_multiples_vanish(idx - 1, n as int);
                            vstd::arithmetic::div_mod::lemma_small_mod((idx - 1) as nat, n as nat);
                        }
                    }
                    assert(new_idx as int == sibling_index(idx, n as int, next));
                }
                self.cursor_path.pop();
                self.cursor_path.push(new_idx);
                proof {
                    let c2 = self.cursor_path@;
                    assert(c2.drop_last() =~= c.drop_last());
                    lemma_def_at_snoc(d, c2);
                    assert(c2 =~= seek_sibling_cursor(d, c, next));
                }
                Ok(false)
            },
            TreeInteraction::EnterNode => {
                let node = self.selected_node();
                if node.children.len() == 0 {
                    Err(TreeInteractionError::NodeHasNoChildren)
                } else {
                    // Select its first child
                    self.cursor_path.push(0);
                    proof {
                        let c2 = self.cursor_path@;
                        assert(c2.drop_last() =~= c);
                        lemma_def_at_snoc(d, c2);
                    }
                    Ok(false)
                }
            },
            TreeInteraction::ExitNode => {
                if self.cursor_path.len() <= 1 {
                    Err(TreeInteractionError::NodeHasNoParent)
                } else {
                    self.cursor_path.pop();
                    proof {
                        assert(self.cursor_path@ =~= c.drop_last());
                        lemma_def_at_snoc(d, c);
                    }
                    Ok(false)
                }
            },
        }
    }

    /// Change the picked state of the node under the cursor.
    fn edit_picked(&mut self, ept: EditPickedType) -> (res: Result<bool, TreeInteractionError>)
        requires
            old(self).wf(),
        ensures
            final(self).wf(),
            final(self).definition() == old(self).definition(),
            final(self).cursor() == old(self).cursor(),
            (res, final(self).state()) == edit_result(old(self).definition().root, old(self).state(), old(self).cursor(), ept),
    {
        let ghost d = self.tree.root;
        let ghost s0 = self.root@;
        let ghost c = self.cursor_path@;
        let len = self.cursor_path.len();
        proof {
            lemma_consistent_mirrors(d, s0);
            lemma_mirrors_node_at(d, s0, c);
            lemma_consistent_frame(d, s0, c);
            lemma_valid_def_at(d, c);
            assert(self.cursor_path@.subrange(0, len as int) =~= c);
        }
        let node = def_at_exec(&self.tree.root, self.cursor_path.as_slice(), 0, len);
        let ty = node.ty;
        // first, we need to handle special cases.
        // is this the AllDone node?
        if ty == NodeDefinitionType::AllDone {
            // get out of here!
            return Ok(true);
        }
        if ty == NodeDefinitionType::Text {
            let (has_pick_many, all_picked) = pick_many_summary(
                node,
                node_at_exec(&self.root, self.cursor_path.as_slice(), 0, len),
            );
            if !has_pick_many {
                return Err(TreeInteractionError::TriedToEditUnpickableNode);
            }
            let value = match ept {
                EditPickedType::Select => true,
                EditPickedType::Deselect => false,
                EditPickedType::Toggle => !all_picked,
            };
            apply_at_exec(&self.tree.root, &mut self.root, self.cursor_path.as_slice(), 0, len, NodeOp::SetPickMany(value));
            proof {
                lemma_set_pick_many_at_consistent(d, s0, c, value);
            }
            return Ok(false);
        }
        let currently = is_picked_exec(node_at_exec(&self.root, self.cursor_path.as_slice(), 0, len));
        let ideal_next_state = match ept {
            EditPickedType::Select => true,
            EditPickedType::Deselect => false,
            EditPickedType::Toggle => !currently,
        };
        if ideal_next_state {
            pick_at_exec(&self.tree.root, &mut self.root, self.cursor_path.as_slice(), len);
            proof {
                lemma_pick_at_consistent(d, s0, c);
            }
            return Ok(false);
        }
        let i = self.cursor_path[len - 1];
        proof {
            assert(self.cursor_path@.subrange(0, len - 1) =~= c.drop_last());
            lemma_def_at_snoc(d, c);
            lemma_mirrors_node_at(d, s0, c.drop_last());
        }
        if ty == NodeDefinitionType::PickExactlyOne {
            let others = any_other_picked_exactly_one(
                def_at_exec(&self.tree.root, self.cursor_path.as_slice(), 0, len - 1),
                node_at_exec(&self.root, self.cursor_path.as_slice(), 0, len - 1),
                i,
            );
            if !others {
                // do not set this node to unpicked; maintains invariants
                return Err(TreeInteractionError::TriedToUnpickButNeedExactlyOne);
            }
        }
        apply_at_exec(&self.tree.root, &mut self.root, self.cursor_path.as_slice(), 0, len - 1, NodeOp::UnpickChild(i));
        proof {
            lemma_unpick_at_consistent(d, s0, c);
        }
        Ok(false)
    }

    /// Get every valid path through the tree.
    pub fn get_all_paths(&self) -> (res: Vec<Vec<usize>>)
        ensures
            paths_view(res@) == paths_below(self.state(), false),
    {
        self.root.get_all_paths_to_children_filtered(false)
    }

    /// Get the path to every selected node.
    pub fn get_all_selected_paths(&self) -> (res: Vec<Vec<usize>>)
        ensures
            paths_view(res@) == paths_below(self.state(), true),
    {
        self.root.get_all_paths_to_children_filtered(true)
    }

    /// Get the `data` associated with each picked node, as a flat list.
    pub fn get_all_selected_data(&self) -> (res: Vec<&T>)
        requires
            self.wf(),
        ensures
            res@.len() == paths_below(self.state(), true).len(),
            forall|k: int| 0 <= k < res@.len() ==> is_path(self.definition().root, #[trigger] paths_below(self.state(), true)[k])
                && *res@[k] == def_at(self.definition().root, paths_below(self.state(), true)[k]).unwrap().data,
    {
        let asp = self.get_all_selected_paths();
        let ghost paths = paths_below(self.state(), true);
        proof {
            lemma_consistent_mirrors(self.tree.root, self.root@);
            lemma_paths_below_ok(self.tree.root, self.root@, true);
        }
        let mut res: Vec<&T> = Vec::new();
        let mut k: usize = 0;
        while k < asp.len()
            invariant
                paths_view(asp@) == paths,
                paths.len() == asp@.len(),
                mirrors(self.tree.root, self.root@),
                forall|m: int| 0 <= m < paths.len() ==> crate::lemmas::listed_path_ok(self.root@, #[trigger] paths[m], true),
                k <= asp@.len(),
                res@.len() == k,
                forall|m: int| 0 <= m < k ==> is_path(self.tree.root, #[trigger] paths[m])
                    && *res@[m] == def_at(self.tree.root, paths[m]).unwrap().data,
            decreases asp@.len() - k,
        {
            assert(asp@[k as int]@ == paths[k as int]);
            proof {
                assert(crate::lemmas::listed_path_ok(self.root@, paths[k as int], true));
                lemma_node_at_mirrors(self.tree.root, self.root@, paths[k as int]);
            }
            let node = self.select_node_via_path(asp[k].as_slice()).unwrap();
            res.push(&node.data);
            k = k + 1;
        }
        res
    }

    /// Consume self and return the tree definition.
    pub fn consume(self) -> (res: TreeDefinition<T>)
        ensures
            res == self.definition(),
    {
        self.tree
    }
}

/// Whether the node has `PickMany` children, and whether they are all picked.
fn pick_many_summary<T>(d: &TreeNodeDefinition<T>, n: &TreeInteractorNode) -> (res: (bool, bool))
    requires
        mirrors(*d, n@),
    ensures
        res.0 == has_child_of_type(*d, NodeDefinitionType::PickMany),
        res.1 == all_pick_many_picked(*d, n@),
{
    proof {
        n.lemma_view();
    }
    let len = d.children.len();
    let mut has = false;
    let mut all = true;
    let mut j: usize = 0;
    while j < len
        invariant
            len == d.children@.len(),
            len == n@.children.len(),
            len == n.children@.len(),
            forall|m: int| 0 <= m < len ==> #[trigger] n@.children[m] == n.children@[m]@,
            j <= len,
            has == exists|m: int| 0 <= m < j && #[trigger] d.children@[m].ty == NodeDefinitionType::PickMany,
            all == forall|m: int| 0 <= m < j && #[trigger] d.children@[m].ty == NodeDefinitionType::PickMany
                ==> is_picked(n@.children[m]),
        decreases len - j,
    {
        if d.children[j].ty == NodeDefinitionType::PickMany {
            has = true;
            if !is_picked_exec(&n.children[j]) {
                all = false;
            }
        }
        j = j + 1;
    }
    (has, all)
}

/// Some child of type `PickExactlyOne` other than child `i` is picked.
fn any_other_picked_exactly_one<T>(pd: &TreeNodeDefinition<T>, ps: &TreeInteractorNode, i: usize) -> (res: bool)
    requires
        mirrors(*pd, ps@),
    ensures
        res == exists|j: int| j != i && #[trigger] picked_of_type(*pd, ps@, NodeDefinitionType::PickExactlyOne, j),
{
    proof {
        ps.lemma_view();
    }
    let len = pd.children.len();
    let mut j: usize = 0;
    while j < len
        invariant
            len == pd.children@.len(),
            len == ps@.children.len(),
            len == ps.children@.len(),
            forall|m: int| 0 <= m < len ==> #[trigger] ps@.children[m] == ps.children@[m]@,
            j <= len,
            forall|m: int| 0 <= m < j && m != i ==> !#[trigger] picked_of_type(*pd, ps@, NodeDefinitionType::PickExactlyOne, m),
        decreases len - j,
    {
        if j != i && pd.children[j].ty == NodeDefinitionType::PickExactlyOne && is_picked_exec(&ps.children[j]) {
            assert(picked_of_type(*pd, ps@, NodeDefinitionType::PickExactlyOne, j as int));
            return true;
        }
        j = j + 1;
    }
    false
}

/// The definition node at `path[k..]`, if there is one.
fn def_lookup<'a, T>(d: &'a TreeNodeDefinition<T>, path: &[usize], k: usize) -> (res: Option<&'a TreeNodeDefinition<T>>)
    requires
        k <= path@.len(),
    ensures
        match res {
            Some(n) => def_at(*d, path@.subrange(k as int, path@.len() as int)) == Some(*n),
            None => def_at(*d, path@.subrange(k as int, path@.len() as int)) is None,
        },
    decreases path@.len() - k,
{
    if k == path.len() {
        assert(path@.subrange(k as int, path@.len() as int).len() == 0);
        Some(d)
    } else {
        proof {
            lemma_subrange_step(path@, k as int, path@.len() as int);
        }
        let i = path[k];
        if i < d.children.len() {
            def_lookup(&d.children[i], path, k + 1)
        } else {
            None
        }
    }
}

/// The state node at `path[k..]`, if there is one.
fn node_lookup<'a>(n: &'a TreeInteractorNode, path: &[usize], k: usize) -> (res: Option<&'a TreeInteractorNode>)
    requires
        k <= path@.len(),
    ensures
        match res {
            Some(r) => node_at(n@, path@.subrange(k as int, path@.len() as int)) == Some(r@),
            None => node_at(n@, path@.subrange(k as int, path@.len() as int)) is None,
        },
    decreases path@.len() - k,
{
    proof {
        n.lemma_view();
    }
    if k == path.len() {
        assert(path@.subrange(k as int, path@.len() as int).len() == 0);
        Some(n)
    } else {
        proof {
            lemma_subrange_step(path@, k as int, path@.len() as int);
        }
        let i = path[k];
        if i < n.children.len() {
            node_lookup(&n.children[i], path, k + 1)
        } else {
            None
        }
    }
}

} // verus!
