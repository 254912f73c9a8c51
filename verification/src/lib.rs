//! A library for traversal and manipulation of a tree.
//!
//! Create a tree of nodes as a [`TreeNodeDefinition`],
//! feed it to a [`TreeInteractor`],
//! and manipulate the tree by applying [`TreeInteraction`]s.
//!
//! The behaviour of every interaction is stated over the model in [`model`]:
//! a tree of pick states that mirrors the definition tree.
use vstd::prelude::*;

pub mod dsl;
pub mod model;
pub mod lemmas;
pub mod laws;
pub mod interactor;
pub mod console_driver;

pub use interactor::{
    EditPickedType, TreeInteraction, TreeInteractionError, TreeInteractor, TreeInteractorNode,
};

verus! {

/// Wrapper around the root node to make it clear what is the root and what is a child.
///
/// Generic over `T`, which is additional data associated with each node.
#[derive(Debug)]
pub struct TreeDefinition<T> {
    pub root: TreeNodeDefinition<T>,
}

impl<T> TreeDefinition<T> {
    pub fn new(root: TreeNodeDefinition<T>) -> (res: Self)
        ensures
            res.root == root,
    {
        Self { root }
    }
}

/// A definition of a tree, or one of its subnodes.
/// This serves as the "blueprint" for the behavior of a [`TreeInteractor`].
#[derive(Debug)]
pub struct TreeNodeDefinition<T> {
    /// Extra data associated with this node.
    pub data: T,
    /// The behavior of this node.
    pub ty: NodeDefinitionType,
    /// The children.
    pub children: Vec<TreeNodeDefinition<T>>,
    /// If this is `true`, this node must be picked before any of its children can be picked.
    /// (Picking a child automatically picks this one.)
    pub pick_children_needs_self: bool,
}

/// Number of nodes below `n` (all descendants, `n` itself excluded).
pub open spec fn descendant_count<T>(n: TreeNodeDefinition<T>) -> nat
    decreases n,
{
    n.children@.len() + children_descendant_count(n.children@, n.children@.len() as int)
}

/// Sum of [`descendant_count`] over the first `k` nodes of `s`.
pub open spec fn children_descendant_count<T>(s: Seq<TreeNodeDefinition<T>>, k: int) -> nat
    decreases s, k,
{
    if k <= 0 || k > s.len() {
        0
    } else {
        children_descendant_count(s, k - 1) + descendant_count(s[k - 1])
    }
}

impl<T> TreeNodeDefinition<T> {
    /// Create a new node with no children.
    ///
    /// Intended for builder-style use: see [`Self::with_child`].
    pub fn new(ty: NodeDefinitionType, data: T, pick_children_needs_self: bool) -> (res: Self)
        ensures
            res.ty == ty,
            res.data == data,
            res.pick_children_needs_self == pick_children_needs_self,
            res.children@.len() == 0,
    {
        Self::new_with_children(ty, data, pick_children_needs_self, Vec::new())
    }

    /// Create a new node with the following children.
    pub fn new_with_children(
        ty: NodeDefinitionType,
        data: T,
        pick_children_needs_self: bool,
        children: Vec<TreeNodeDefinition<T>>,
    ) -> (res: Self)
        ensures
            res.ty == ty,
            res.data == data,
            res.pick_children_needs_self == pick_children_needs_self,
            res.children@ == children@,
    {
        Self { data, ty, children, pick_children_needs_self }
    }

    /// Append `child` to this node's children and return it.
    /// Intended for builder-style use.
    pub fn with_child(self, child: TreeNodeDefinition<T>) -> (res: Self)
        ensures
            res.ty == self.ty,
            res.data == self.data,
            res.pick_children_needs_self == self.pick_children_needs_self,
            res.children@ == self.children@.push(child),
    {
        let mut s = self;
        s.children.push(child);
        s
    }

    /// Set `pick_children_needs_self`.
    ///
    /// Intended for builder-style use.
    pub fn with_pick_children_needs_self(self, pick_children_needs_self: bool) -> (res: Self)
        ensures
            res.ty == self.ty,
            res.data == self.data,
            res.pick_children_needs_self == pick_children_needs_self,
            res.children@ == self.children@,
    {
        let mut s = self;
        s.pick_children_needs_self = pick_children_needs_self;
        s
    }

    /// Whether only pickable nodes in this tree require being picked before
    /// their children, which a [`TreeInteractor`] needs.
    pub fn is_valid(&self) -> (res: bool)
        ensures
            res == model::valid_def(*self),
        decreases self,
    {
        if self.pick_children_needs_self && !(self.ty == NodeDefinitionType::PickMany
            || self.ty == NodeDefinitionType::PickUpToOne || self.ty == NodeDefinitionType::PickExactlyOne) {
            return false;
        }
        let n = self.children.len();
        let mut i: usize = 0;
        while i < n
            invariant
                n == self.children@.len(),
                i <= n,
                forall|j: int| 0 <= j < i ==> model::valid_def(#[trigger] self.children@[j]),
            decreases n - i,
        {
            if !self.children[i].is_valid() {
                return false;
            }
            i = i + 1;
        }
        true
    }

    /// The number of nodes below this one (this node itself is not counted).
    pub fn total_len(&self) -> (res: usize)
        requires
            descendant_count(*self) <= usize::MAX,
        ensures
            res == descendant_count(*self),
        decreases self,
    {
        let n = self.children.len();
        let mut sum: usize = 0;
        let mut i: usize = 0;
        while i < n
            invariant
                n == self.children@.len(),
                i <= n,
                descendant_count(*self) <= usize::MAX,
                sum == children_descendant_count(self.children@, i as int),
            decreases n - i,
        {
            proof {
                lemma_children_count_monotone(self.children@, i + 1, n as int);
            }
            let child_len = self.children[i].total_len();
            sum = sum + child_len;
            i = i + 1;
        }
        n + sum
    }
}

proof fn lemma_children_count_monotone<T>(s: Seq<TreeNodeDefinition<T>>, j: int, k: int)
    requires
        0 <= j <= k <= s.len(),
    ensures
        children_descendant_count(s, j) <= children_descendant_count(s, k),
    decreases k - j,
{
    if j < k {
        lemma_children_count_monotone(s, j, k - 1);
    }
}

/// `b` is a copy of `a`: the same types and rules at every node, each
/// node's data a clone of the other's.
pub open spec fn is_copy_of<T: Clone>(a: TreeNodeDefinition<T>, b: TreeNodeDefinition<T>) -> bool
    decreases a,
{
    &&& b.ty == a.ty
    &&& b.pick_children_needs_self == a.pick_children_needs_self
    &&& cloned::<T>(a.data, b.data)
    &&& b.children@.len() == a.children@.len()
    &&& forall|i: int| 0 <= i < a.children@.len() ==> is_copy_of(#[trigger] a.children@[i], b.children@[i])
}

fn clone_node<T: Clone>(n: &TreeNodeDefinition<T>) -> (res: TreeNodeDefinition<T>)
    ensures
        is_copy_of(*n, res),
    decreases n,
{
    let len = n.children.len();
    let mut children: Vec<TreeNodeDefinition<T>> = Vec::new();
    let mut i: usize = 0;
    while i < len
        invariant
            len == n.children@.len(),
            i <= len,
            children@.len() == i,
            forall|j: int| 0 <= j < i ==> is_copy_of(#[trigger] n.children@[j], children@[j]),
        decreases len - i,
    {
        let child = clone_node(&n.children[i]);
        children.push(child);
        i = i + 1;
    }
    TreeNodeDefinition {
        data: n.data.clone(),
        ty: n.ty,
        children,
        pick_children_needs_self: n.pick_children_needs_self,
    }
}

impl<T: Clone> Clone for TreeNodeDefinition<T> {
    fn clone(&self) -> (res: Self)
        ensures
            is_copy_of(*self, res),
    {
        clone_node(self)
    }
}

impl<T: Clone> Clone for TreeDefinition<T> {
    fn clone(&self) -> (res: Self)
        ensures
            is_copy_of(self.root, res.root),
    {
        TreeDefinition { root: clone_node(&self.root) }
    }
}

/// Determines the behavior of this node.
///
/// To avoid confusion, it's probably best to only have nodes of one type in a group.
#[derive(Debug, Clone, Copy, PartialEq, Eq, Structural)]
pub enum NodeDefinitionType {
    /// Any number of `PickMany` nodes in a group may be picked.
    ///
    /// Displays with a square button: `[ ] Self`.
    PickMany,
    /// At most one `PickUpToOne` node in a group may be picked.
    /// Picking one unpicks its `PickUpToOne` and `PickMany` siblings.
    ///
    /// Displays with a "radio button": `( ) Self`
    PickUpToOne,
    /// If there are any `PickExactlyOne` nodes in a group, one MUST be picked.
    /// These nodes do not interact with `PickUpToOne` nodes.
    ///
    /// [`TreeNodeDefinition::pick_children_needs_self`] takes priority over this node's rules,
    /// so if the parent has `pick_children_needs_self` and is unpicked, then
    /// the siblings of this node may be unpicked.
    ///
    /// Displays with a "radio button": `( ) Self`
    PickExactlyOne,
    /// Just displays text. Not pickable.
    ///
    /// As a special case, if this has any `PickMany` children,
    /// then it will display with a square button.
    /// Picking the button will (un)pick all of its `PickMany` children.
    /// This does not actually influence any picking state on this node,
    /// it's just convenience.
    Text,
    /// The user picks this to indicate they are done.
    /// As convention, only the last child of the root should be this type.
    ///
    /// Not technically pickable; interacting with this node is special-cased.
    AllDone,
}

} // verus!
