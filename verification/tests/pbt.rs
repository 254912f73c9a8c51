// property based testing

use fastrand::Rng;
use treeversal::dsl::{pick_exactly_one, pick_many, pick_up_to_one, text};
use treeversal::{
  EditPickedType, NodeDefinitionType, TreeDefinition, TreeInteraction, TreeInteractor,
  TreeInteractorNode, TreeNodeDefinition,
};

/// Make an example tree with nicely-named data
fn example_tree() -> TreeDefinition<&'static str> {
  let root = text("root")
    .with_child(
      text("alpha")
        .with_child(pick_many("alpha.0"))
        .with_child(pick_many("alpha.1"))
        .with_child(pick_many("alpha.2")),
    )
    .with_child(
      text("beta")
        .with_child(pick_up_to_one("beta.0"))
        .with_child(pick_up_to_one("beta.1"))
        .with_child(pick_up_to_one("beta.2"))
        .with_child(pick_up_to_one("beta.3")),
    )
    .with_child(
      text("gamma")
        .with_child(pick_exactly_one("gamma.0"))
        .with_child(pick_exactly_one("gamma.1"))
        .with_child(pick_exactly_one("gamma.2")),
    )
    .with_child(
      text("delta")
        .with_child(
          text("delta.0")
            .with_child(pick_many("delta.0.1"))
            .with_child(pick_many("delta.0.2")),
        )
        .with_child(
          text("delta.1")
            .with_child(pick_exactly_one("delta.1.0"))
            .with_child(pick_exactly_one("delta.1.1")),
        )
        .with_child(
          text("delta.2")
            .with_child(pick_many("delta.2.0"))
            .with_child(pick_many("delta.2.1"))
            .with_child(pick_many("delta.2.2")),
        ),
    );

  TreeDefinition::new(root)
}

/// Check the picking rules at every node below `def`.
fn assert_node_invariants(def: &TreeNodeDefinition<&'static str>, node: &TreeInteractorNode) {
  let pickable = matches!(
    def.ty,
    NodeDefinitionType::PickMany | NodeDefinitionType::PickUpToOne | NodeDefinitionType::PickExactlyOne
  );
  assert_eq!(node.picked().is_some(), pickable, "{}", def.data);
  assert_eq!(node.children().len(), def.children.len(), "{}", def.data);
  let picked = |i: usize| node.children()[i].picked() == Some(true);
  let suspended = def.pick_children_needs_self && node.picked() != Some(true);
  if suspended {
    for i in 0..def.children.len() {
      assert!(!picked(i), "{} is picked but its parent is not", def.children[i].data);
    }
  }
  let count = |ty: NodeDefinitionType| {
    (0..def.children.len()).filter(|&i| def.children[i].ty == ty && picked(i)).count()
  };
  let has_exactly_one = def.children.iter().any(|c| c.ty == NodeDefinitionType::PickExactlyOne);
  if has_exactly_one && !suspended {
    assert_eq!(count(NodeDefinitionType::PickExactlyOne), 1, "{}", def.data);
  }
  assert!(count(NodeDefinitionType::PickExactlyOne) <= 1, "{}", def.data);
  assert!(count(NodeDefinitionType::PickUpToOne) <= 1, "{}", def.data);
  for i in 0..def.children.len() {
    assert_node_invariants(&def.children[i], &node.children()[i]);
  }
}

fn assert_invariants(i: &TreeInteractor<&'static str>) {
  assert_node_invariants(&i.tree().root, i.root());
  assert!(!i.cursor_path().is_empty());
  assert!(i.select_node_via_path(i.cursor_path()).is_some());
}

fn random_interaction(rand: &mut Rng) -> TreeInteraction {
  let interacts = [
    TreeInteraction::EditPicked(EditPickedType::Select),
    TreeInteraction::EditPicked(EditPickedType::Deselect),
    TreeInteraction::EditPicked(EditPickedType::Toggle),
    TreeInteraction::SeekSibling { next: true },
    TreeInteraction::SeekSibling { next: false },
    TreeInteraction::EnterNode,
    TreeInteraction::ExitNode,
  ];
  rand.choice(interacts).unwrap()
}

// Tree interactions can return errors but shouldn't panic
#[test]
fn hammer_tree_with_random_interactions() {
  for _ in 0..100 {
    let tree = example_tree();
    let mut interactor = TreeInteractor::new(tree);

    let mut rng = Rng::with_seed(0o7604);
    for _ in 0..10000 {
      let interaction = random_interaction(&mut rng);
      let _ignore = interactor.interact(interaction);
    }

    assert_invariants(&interactor);
  }
}
