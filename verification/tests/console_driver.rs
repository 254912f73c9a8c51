use treeversal::console_driver::{
  key_to_interaction, ConsoleDriver, Key, Palette, StyledMsgAndData, TakeInput, TreeRow,
};
use treeversal::{EditPickedType, NodeDefinitionType, TreeDefinition, TreeInteraction, TreeInteractionError, TreeNodeDefinition};

use NodeDefinitionType::{AllDone, PickMany, PickUpToOne, Text};

fn msg(s: &str) -> StyledMsgAndData<()> {
  StyledMsgAndData::unstyled(s, ())
}

fn node(ty: NodeDefinitionType, s: &str) -> TreeNodeDefinition<StyledMsgAndData<()>> {
  TreeNodeDefinition::new(ty, msg(s), false)
}

fn driver(palette: Palette) -> ConsoleDriver<()> {
  let root = node(Text, "root")
    .with_child(node(PickMany, "alpha"))
    .with_child(node(Text, "group").with_child(node(PickMany, "x")).with_child(node(PickMany, "y")))
    .with_child(node(PickUpToOne, "radio"))
    .with_child(node(AllDone, "done"));
  ConsoleDriver::new(console::Term::stdout(), palette, TreeDefinition::new(root))
}

fn lines(rows: &[TreeRow]) -> Vec<String> {
  rows.iter().map(|r| format!("{}{}", r.leader, r.checkbox)).collect()
}

#[test]
fn keys_map_to_interactions() {
  let edit = |k: Key| match key_to_interaction(&k) {
    Some(TreeInteraction::EditPicked(e)) => Some(e),
    _ => None,
  };
  assert_eq!(edit(Key::Char(' ')), Some(EditPickedType::Toggle));
  assert_eq!(edit(Key::Enter), Some(EditPickedType::Toggle));
  assert_eq!(edit(Key::Char('y')), Some(EditPickedType::Select));
  assert_eq!(edit(Key::Char('Y')), Some(EditPickedType::Select));
  assert_eq!(edit(Key::Char('n')), Some(EditPickedType::Deselect));
  assert_eq!(edit(Key::Char('N')), Some(EditPickedType::Deselect));
  assert!(matches!(key_to_interaction(&Key::Char('h')), Some(TreeInteraction::ExitNode)));
  assert!(matches!(key_to_interaction(&Key::ArrowLeft), Some(TreeInteraction::ExitNode)));
  assert!(matches!(key_to_interaction(&Key::Char('j')), Some(TreeInteraction::SeekSibling { next: true })));
  assert!(matches!(key_to_interaction(&Key::ArrowDown), Some(TreeInteraction::SeekSibling { next: true })));
  assert!(matches!(key_to_interaction(&Key::Char('k')), Some(TreeInteraction::SeekSibling { next: false })));
  assert!(matches!(key_to_interaction(&Key::ArrowUp), Some(TreeInteraction::SeekSibling { next: false })));
  assert!(matches!(key_to_interaction(&Key::Char('l')), Some(TreeInteraction::EnterNode)));
  assert!(matches!(key_to_interaction(&Key::ArrowRight), Some(TreeInteraction::EnterNode)));
  assert!(key_to_interaction(&Key::Char('x')).is_none());
  assert!(key_to_interaction(&Key::Escape).is_none());
  assert!(key_to_interaction(&Key::CtrlC).is_none());
  assert!(key_to_interaction(&Key::UnknownEscSeq(vec!['a'])).is_none());
}

#[test]
fn take_input_reports_what_happened() {
  let mut d = driver(Palette::default());
  assert_eq!(d.take_input(Key::Char('x')), Ok(TakeInput::Ignored));
  assert_eq!(d.interactor.cursor_path(), &[0]);
  assert_eq!(d.take_input(Key::Char('l')), Err(TreeInteractionError::NodeHasNoChildren));
  assert_eq!(d.take_input(Key::Char(' ')), Ok(TakeInput::Accepted));
  assert_eq!(d.interactor.get_all_selected_paths(), vec![vec![0]]);
  assert_eq!(d.take_input(Key::ArrowUp), Ok(TakeInput::Accepted));
  assert_eq!(d.interactor.cursor_path(), &[3]);
  assert_eq!(d.take_input(Key::Enter), Ok(TakeInput::Quit));
  assert_eq!(d.take_input(Key::Char('h')), Err(TreeInteractionError::NodeHasNoParent));
  assert!(!d.printed_once);
}

#[test]
fn rows_draw_the_tree() {
  let mut d = driver(Palette::default());
  assert_eq!(
    lines(&d.tree_rows()),
    vec!["[ ] ", "|>[ ] ", "|-[ ] ", "|  |-[ ] ", "|  `-[ ] ", "|-( ) ", "`-{?} "]
  );
  let rows = d.tree_rows();
  assert_eq!(rows[0].path, Vec::<usize>::new());
  assert_eq!(rows[4].path, vec![1, 1]);
  assert!(rows[1].selected);
  assert!(!rows[2].selected);
  // pick "x": its group shows a half-filled box
  d.take_input(Key::Char('j')).unwrap();
  d.take_input(Key::Char('l')).unwrap();
  d.take_input(Key::Char('y')).unwrap();
  assert_eq!(
    lines(&d.tree_rows()),
    vec!["[ ] ", "|-[ ] ", "|-[/] ", "|  |>[X] ", "|  `-[ ] ", "|-( ) ", "`-{?} "]
  );
  d.take_input(Key::Char('j')).unwrap();
  d.take_input(Key::Char('y')).unwrap();
  d.take_input(Key::Char('h')).unwrap();
  d.take_input(Key::Char('j')).unwrap();
  d.take_input(Key::Char('y')).unwrap();
  assert_eq!(
    lines(&d.tree_rows()),
    vec!["[ ] ", "|-[ ] ", "|-[X] ", "|  |-[X] ", "|  `-[X] ", "|>(o) ", "`-{?} "]
  );
}

#[test]
fn fancy_rows_use_box_drawing() {
  let d = driver(Palette::fancy());
  assert_eq!(
    lines(&d.tree_rows()),
    vec!["[ ] ", "├>[ ] ", "├─[ ] ", "│  ├─[ ] ", "│  └─[ ] ", "├─( ) ", "└─{?} "]
  );
}

#[test]
fn palettes() {
  let p = Palette::default();
  assert_eq!(p.unpicked_manybox, "[ ] ");
  assert_eq!(p.some_picked_manybox, "[/] ");
  assert_eq!(p.picked_manybox, "[X] ");
  assert_eq!(p.unpicked_onebox, "( ) ");
  assert_eq!(p.picked_onebox, "(o) ");
  assert_eq!(p.error_box, "[!] ");
  assert_eq!((p.pipe_vert, p.pipe_branch, p.pipe_corner), ('|', '|', '`'));
  assert_eq!(p.unselected_connector, "-");
  assert_eq!(p.selected_connector, ">");
  assert_eq!(p.all_done, "{?} ");
  let f = Palette::fancy();
  assert_eq!((f.pipe_vert, f.pipe_branch, f.pipe_corner), ('│', '├', '└'));
  assert_eq!(f.unselected_connector, "─");
  assert_eq!(f.selected_connector, ">");
}

#[test]
fn unstyled_messages_keep_their_text() {
  console::set_colors_enabled(false);
  let m = StyledMsgAndData::unstyled("hello", 3u8);
  assert_eq!(format!("{}", m.message), "hello");
  assert_eq!(m.data, 3);
  let n = StyledMsgAndData::new(console::style("bye".to_string()), 4u8);
  assert_eq!(format!("{}", n.clone().message), "bye");
}
