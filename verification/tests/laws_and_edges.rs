use treeversal::dsl::{all_done, pick_exactly_one, pick_many, pick_up_to_one, text};
use treeversal::{
  EditPickedType, NodeDefinitionType, TreeDefinition, TreeInteraction, TreeInteractionError,
  TreeInteractor, TreeNodeDefinition,
};

fn selected(i: &TreeInteractor<&'static str>) -> Vec<&'static str> {
  i.get_all_selected_data().into_iter().copied().collect()
}

fn picks(i: &TreeInteractor<&'static str>) -> Vec<Vec<usize>> {
  i.get_all_selected_paths()
}

fn mixed_tree() -> TreeDefinition<&'static str> {
  TreeDefinition::new(
    text("root")
      .with_child(
        text("many")
          .with_child(pick_many("m0"))
          .with_child(pick_many("m1").with_pick_children_needs_self(true).with_child(pick_exactly_one("m1.e0")).with_child(pick_exactly_one("m1.e1"))),
      )
      .with_child(
        text("one")
          .with_child(pick_up_to_one("u0"))
          .with_child(pick_up_to_one("u1"))
          .with_child(pick_many("u2")),
      )
      .with_child(
        text("exact")
          .with_child(pick_exactly_one("e0"))
          .with_child(pick_exactly_one("e1").with_pick_children_needs_self(true).with_child(pick_many("e1.m"))),
      )
      .with_child(all_done("done")),
  )
}

/// Every path to a node of the tree, root excluded.
fn every_path(i: &TreeInteractor<&'static str>) -> Vec<Vec<usize>> {
  i.get_all_paths()
}

/// Walk the cursor to `path` from the first child of the root.
fn goto(i: &mut TreeInteractor<&'static str>, path: &[usize]) {
  while i.cursor_path().len() > 1 {
    i.interact(TreeInteraction::ExitNode).unwrap();
  }
  while i.cursor_path()[0] != path[0] {
    i.interact(TreeInteraction::SeekSibling { next: true }).unwrap();
  }
  for depth in 1..path.len() {
    i.interact(TreeInteraction::EnterNode).unwrap();
    while i.cursor_path()[depth] != path[depth] {
      i.interact(TreeInteraction::SeekSibling { next: true }).unwrap();
    }
  }
  assert_eq!(i.cursor_path(), path);
}

#[test]
fn initial_state_picks_first_exactly_one_only_where_allowed() {
  let i = TreeInteractor::new(mixed_tree());
  // "m1" is unpicked and needs to be picked before its children, so its group waits;
  // the "exact" group starts with its first member.
  assert_eq!(selected(&i), vec!["e0"]);
  assert_eq!(i.cursor_path(), &[0]);
}

#[test]
fn select_twice_is_select_once() {
  let tree = mixed_tree();
  let all = TreeInteractor::new(tree.clone()).get_all_paths();
  for path in all {
    let mut a = TreeInteractor::new(tree.clone());
    goto(&mut a, &path);
    let first = a.interact(TreeInteraction::EditPicked(EditPickedType::Select));
    let after_first = picks(&a);
    let second = a.interact(TreeInteraction::EditPicked(EditPickedType::Select));
    assert_eq!(first, second, "{:?}", path);
    assert_eq!(after_first, picks(&a), "{:?}", path);
  }
}

#[test]
fn deselect_twice_is_deselect_once() {
  let tree = mixed_tree();
  let all = TreeInteractor::new(tree.clone()).get_all_paths();
  for path in all {
    let mut a = TreeInteractor::new(tree.clone());
    // pick something first so that deselecting has work to do
    goto(&mut a, &path);
    let _ = a.interact(TreeInteraction::EditPicked(EditPickedType::Select));
    let first = a.interact(TreeInteraction::EditPicked(EditPickedType::Deselect));
    let after_first = picks(&a);
    let second = a.interact(TreeInteraction::EditPicked(EditPickedType::Deselect));
    assert_eq!(first, second, "{:?}", path);
    assert_eq!(after_first, picks(&a), "{:?}", path);
  }
}

#[test]
fn refused_interactions_change_nothing() {
  let mut i = TreeInteractor::new(mixed_tree());
  let before = picks(&i);
  assert_eq!(i.interact(TreeInteraction::ExitNode), Err(TreeInteractionError::NodeHasNoParent));
  assert_eq!(i.cursor_path(), &[0]);
  goto(&mut i, &[0, 0]);
  assert_eq!(i.interact(TreeInteraction::EnterNode), Err(TreeInteractionError::NodeHasNoChildren));
  assert_eq!(i.cursor_path(), &[0, 0]);
  goto(&mut i, &[2, 0]);
  assert_eq!(
    i.interact(TreeInteraction::EditPicked(EditPickedType::Deselect)),
    Err(TreeInteractionError::TriedToUnpickButNeedExactlyOne)
  );
  assert_eq!(
    i.interact(TreeInteraction::EditPicked(EditPickedType::Toggle)),
    Err(TreeInteractionError::TriedToUnpickButNeedExactlyOne)
  );
  assert_eq!(i.cursor_path(), &[2, 0]);
  assert_eq!(picks(&i), before);
}

#[test]
fn deselecting_an_unpicked_member_of_a_satisfied_group_is_accepted() {
  let mut i = TreeInteractor::new(mixed_tree());
  goto(&mut i, &[2, 1]);
  assert_eq!(i.interact(TreeInteraction::EditPicked(EditPickedType::Deselect)), Ok(false));
  assert_eq!(selected(&i), vec!["e0"]);
}

#[test]
fn text_without_pick_many_children_is_not_pickable() {
  let mut i = TreeInteractor::new(TreeDefinition::new(
    text("root").with_child(text("t").with_child(pick_up_to_one("u"))),
  ));
  assert_eq!(
    i.interact(TreeInteraction::EditPicked(EditPickedType::Select)),
    Err(TreeInteractionError::TriedToEditUnpickableNode)
  );
  assert_eq!(selected(&i), Vec::<&str>::new());
}

#[test]
fn seeking_there_and_back_returns() {
  let mut i = TreeInteractor::new(mixed_tree());
  for start in 0..4 {
    goto(&mut i, &[start]);
    i.interact(TreeInteraction::SeekSibling { next: true }).unwrap();
    assert_eq!(i.cursor_path(), &[(start + 1) % 4]);
    i.interact(TreeInteraction::SeekSibling { next: false }).unwrap();
    assert_eq!(i.cursor_path(), &[start]);
    i.interact(TreeInteraction::SeekSibling { next: false }).unwrap();
    assert_eq!(i.cursor_path(), &[(start + 3) % 4]);
    i.interact(TreeInteraction::SeekSibling { next: true }).unwrap();
    assert_eq!(i.cursor_path(), &[start]);
  }
}

#[test]
fn entering_then_exiting_returns() {
  let mut i = TreeInteractor::new(mixed_tree());
  goto(&mut i, &[1]);
  assert_eq!(i.interact(TreeInteraction::EnterNode), Ok(false));
  assert_eq!(i.cursor_path(), &[1, 0]);
  assert_eq!(i.interact(TreeInteraction::ExitNode), Ok(false));
  assert_eq!(i.cursor_path(), &[1]);
}

#[test]
fn selecting_a_child_picks_the_parent_and_its_group() {
  let mut i = TreeInteractor::new(mixed_tree());
  // pick "e1.m": its parent "e1" needs to be picked first; picking "e1" unpicks "e0"
  goto(&mut i, &[2, 1, 0]);
  assert_eq!(i.interact(TreeInteraction::EditPicked(EditPickedType::Select)), Ok(false));
  assert_eq!(selected(&i), vec!["e1", "e1.m"]);
  // pick "m1": its first PickExactlyOne child is picked with it
  goto(&mut i, &[0, 1]);
  assert_eq!(i.interact(TreeInteraction::EditPicked(EditPickedType::Select)), Ok(false));
  assert_eq!(selected(&i), vec!["m1", "m1.e0", "e1", "e1.m"]);
  // picking "e0" back unpicks "e1" and what needs it
  goto(&mut i, &[2, 0]);
  assert_eq!(i.interact(TreeInteraction::EditPicked(EditPickedType::Select)), Ok(false));
  assert_eq!(selected(&i), vec!["m1", "m1.e0", "e0"]);
}

#[test]
fn picking_up_to_one_unpicks_pick_many_siblings_only_one_way() {
  let mut i = TreeInteractor::new(mixed_tree());
  goto(&mut i, &[1, 2]);
  i.interact(TreeInteraction::EditPicked(EditPickedType::Select)).unwrap();
  goto(&mut i, &[1, 0]);
  i.interact(TreeInteraction::EditPicked(EditPickedType::Select)).unwrap();
  assert_eq!(selected(&i), vec!["u0", "e0"]);
  goto(&mut i, &[1, 2]);
  i.interact(TreeInteraction::EditPicked(EditPickedType::Select)).unwrap();
  assert_eq!(selected(&i), vec!["u0", "u2", "e0"]);
  goto(&mut i, &[1, 1]);
  i.interact(TreeInteraction::EditPicked(EditPickedType::Toggle)).unwrap();
  assert_eq!(selected(&i), vec!["u1", "e0"]);
}

#[test]
fn all_paths_count_every_node_below_the_root() {
  let tree = mixed_tree();
  assert_eq!(tree.root.total_len(), 14);
  let i = TreeInteractor::new(tree);
  let all = every_path(&i);
  assert_eq!(all.len(), 14);
  assert_eq!(all[0], vec![0]);
  assert_eq!(all[1], vec![0, 0]);
  assert_eq!(all[2], vec![0, 1]);
  assert_eq!(all[3], vec![0, 1, 0]);
  assert_eq!(all[13], vec![3]);
}

#[test]
fn selected_paths_are_the_picked_paths_in_order() {
  let mut i = TreeInteractor::new(mixed_tree());
  goto(&mut i, &[0]);
  i.interact(TreeInteraction::EditPicked(EditPickedType::Select)).unwrap();
  let all = i.get_all_paths();
  let expected: Vec<Vec<usize>> = all
    .into_iter()
    .filter(|p| i.select_interactor_node_via_path(p).unwrap().picked() == Some(true))
    .collect();
  assert_eq!(i.get_all_selected_paths(), expected);
  assert_eq!(selected(&i), vec!["m0", "m1", "m1.e0", "e0"]);
}

#[test]
fn text_checkbox_toggles_pick_many_children() {
  let mut i = TreeInteractor::new(mixed_tree());
  goto(&mut i, &[0]);
  assert_eq!(i.interact(TreeInteraction::EditPicked(EditPickedType::Toggle)), Ok(false));
  assert_eq!(selected(&i), vec!["m0", "m1", "m1.e0", "e0"]);
  assert_eq!(i.interact(TreeInteraction::EditPicked(EditPickedType::Toggle)), Ok(false));
  assert_eq!(selected(&i), vec!["e0"]);
}

#[test]
fn all_done_changes_nothing() {
  let mut i = TreeInteractor::new(mixed_tree());
  goto(&mut i, &[3]);
  let before = picks(&i);
  assert_eq!(i.interact(TreeInteraction::EditPicked(EditPickedType::Deselect)), Ok(true));
  assert_eq!(picks(&i), before);
}

#[test]
fn lookups_by_path() {
  let i = TreeInteractor::new(mixed_tree());
  assert_eq!(i.select_node_via_path(&[]).unwrap().data, "root");
  assert_eq!(i.select_node_via_path(&[0, 1, 1]).unwrap().data, "m1.e1");
  assert!(i.select_node_via_path(&[0, 2]).is_none());
  assert!(i.select_node_via_path(&[3, 0]).is_none());
  assert_eq!(i.select_interactor_node_via_path(&[2, 0]).unwrap().picked(), Some(true));
  assert_eq!(i.select_interactor_node_via_path(&[2]).unwrap().picked(), None);
  assert_eq!(i.select_interactor_node_via_path(&[2]).unwrap().children().len(), 2);
  assert!(i.select_interactor_node_via_path(&[9]).is_none());
  assert_eq!(i.selected_node().data, "many");
  assert_eq!(i.selected_interactor_node().picked(), None);
  assert_eq!(i.root().children().len(), 4);
  assert_eq!(i.tree().root.data, "root");
  let tree = i.consume();
  assert_eq!(tree.root.children.len(), 4);
}

#[test]
fn definitions_are_valid_only_when_needs_self_is_on_pickable_nodes() {
  assert!(mixed_tree().root.is_valid());
  let bad = text("root").with_child(text("t").with_pick_children_needs_self(true).with_child(pick_many("m")));
  assert!(!bad.is_valid());
  let bad_root = text("root").with_pick_children_needs_self(true).with_child(pick_many("m"));
  assert!(!bad_root.is_valid());
}

#[test]
fn builders_set_what_they_say() {
  let n = TreeNodeDefinition::new_with_children(NodeDefinitionType::PickMany, 7u8, true, vec![pick_many(8u8)]);
  assert_eq!(n.ty, NodeDefinitionType::PickMany);
  assert_eq!(n.data, 7);
  assert!(n.pick_children_needs_self);
  assert_eq!(n.children.len(), 1);
  let n = n.with_pick_children_needs_self(false).with_child(pick_up_to_one(9u8));
  assert!(!n.pick_children_needs_self);
  assert_eq!(n.children[1].data, 9);
  assert_eq!(n.total_len(), 2);
  assert_eq!(pick_exactly_one(1u8).ty, NodeDefinitionType::PickExactlyOne);
  assert_eq!(all_done(1u8).ty, NodeDefinitionType::AllDone);
  assert_eq!(text(1u8).ty, NodeDefinitionType::Text);
  let copy = n.clone();
  assert_eq!(copy.children.len(), 2);
  assert_eq!(copy.children[1].data, 9);
  assert_eq!(copy.ty, n.ty);
}

#[test]
fn toggle_flips_a_pickable_node_unless_refused() {
  let tree = mixed_tree();
  let all = TreeInteractor::new(tree.clone()).get_all_paths();
  for path in all {
    let mut a = TreeInteractor::new(tree.clone());
    goto(&mut a, &path);
    let picked_before = a.selected_interactor_node().picked();
    let r = a.interact(TreeInteraction::EditPicked(EditPickedType::Toggle));
    if let (Some(was), Ok(_)) = (picked_before, r.clone()) {
      assert_eq!(a.selected_interactor_node().picked(), Some(!was), "{:?}", path);
    }
    // the same as selecting an unpicked node, or deselecting a picked one
    let mut b = TreeInteractor::new(tree.clone());
    goto(&mut b, &path);
    let ept = if picked_before == Some(true) { EditPickedType::Deselect } else { EditPickedType::Select };
    let rb = b.interact(TreeInteraction::EditPicked(ept));
    if picked_before.is_some() {
      assert_eq!(r, rb, "{:?}", path);
      assert_eq!(picks(&a), picks(&b), "{:?}", path);
    }
  }
}

/// Every path to a node below the root of `def`, found by walking the definition.
fn walk(def: &TreeNodeDefinition<&'static str>, prefix: &mut Vec<usize>, out: &mut Vec<Vec<usize>>) {
  for (i, kid) in def.children.iter().enumerate() {
    prefix.push(i);
    out.push(prefix.clone());
    walk(kid, prefix, out);
    prefix.pop();
  }
}

#[test]
fn all_paths_are_every_path_once_in_lexicographic_order() {
  let tree = mixed_tree();
  let i = TreeInteractor::new(tree.clone());
  let all = i.get_all_paths();
  for w in all.windows(2) {
    assert!(w[0] < w[1], "{:?} before {:?}", w[0], w[1]);
  }
  let mut walked = Vec::new();
  walk(&tree.root, &mut Vec::new(), &mut walked);
  let mut sorted = walked.clone();
  sorted.sort();
  assert_eq!(all, sorted);
  assert_eq!(all.len(), tree.root.total_len());
  for p in &all {
    assert!(i.select_node_via_path(p).is_some());
  }
  assert!(!all.contains(&vec![]));
}

fn same_tree(a: &TreeNodeDefinition<&'static str>, b: &TreeNodeDefinition<&'static str>) -> bool {
  a.data == b.data
    && a.ty == b.ty
    && a.pick_children_needs_self == b.pick_children_needs_self
    && a.children.len() == b.children.len()
    && a.children.iter().zip(b.children.iter()).all(|(x, y)| same_tree(x, y))
}

#[test]
fn consume_gives_back_the_tree_after_interactions() {
  let tree = mixed_tree();
  let mut i = TreeInteractor::new(tree.clone());
  goto(&mut i, &[0, 1]);
  i.interact(TreeInteraction::EditPicked(EditPickedType::Select)).unwrap();
  goto(&mut i, &[2, 1, 0]);
  i.interact(TreeInteraction::EditPicked(EditPickedType::Toggle)).unwrap();
  let _ = i.interact(TreeInteraction::ExitNode);
  let back = i.consume();
  assert!(same_tree(&back.root, &tree.root));
}
