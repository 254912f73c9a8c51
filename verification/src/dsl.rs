//! Helper builder functions to make making trees less of a headache
use vstd::prelude::*;
use crate::{NodeDefinitionType, TreeNodeDefinition};

verus! {

/// A `Text` node with no children.
pub fn text<T>(data: T) -> (res: TreeNodeDefinition<T>)
    ensures
        res.ty == NodeDefinitionType::Text,
        res.data == data,
        !res.pick_children_needs_self,
        res.children@.len() == 0,
{
    TreeNodeDefinition::new(NodeDefinitionType::Text, data, false)
}

/// A `PickMany` node with no children.
pub fn pick_many<T>(data: T) -> (res: TreeNodeDefinition<T>)
    ensures
        res.ty == NodeDefinitionType::PickMany,
        res.data == data,
        !res.pick_children_needs_self,
        res.children@.len() == 0,
{
    TreeNodeDefinition::new(NodeDefinitionType::PickMany, data, false)
}

/// A `PickUpToOne` node with no children.
pub fn pick_up_to_one<T>(data: T) -> (res: TreeNodeDefinition<T>)
    ensures
        res.ty == NodeDefinitionType::PickUpToOne,
        res.data == data,
        !res.pick_children_needs_self,
        res.children@.len() == 0,
{
    TreeNodeDefinition::new(NodeDefinitionType::PickUpToOne, data, false)
}

/// A `PickExactlyOne` node with no children.
pub fn pick_exactly_one<T>(data: T) -> (res: TreeNodeDefinition<T>)
    ensures
        res.ty == NodeDefinitionType::PickExactlyOne,
        res.data == data,
        !res.pick_children_needs_self,
        res.children@.len() == 0,
{
    TreeNodeDefinition::new(NodeDefinitionType::PickExactlyOne, data, false)
}

/// An `AllDone` node with no children.
pub fn all_done<T>(data: T) -> (res: TreeNodeDefinition<T>)
    ensures
        res.ty == NodeDefinitionType::AllDone,
        res.data == data,
        !res.pick_children_needs_self,
        res.children@.len() == 0,
{
    TreeNodeDefinition::new(NodeDefinitionType::AllDone, data, false)
}

} // verus!
