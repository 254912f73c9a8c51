//! Driver for the tree on the terminal, with the `console` crate.
//!
//! What the driver decides stands here: which key does what, and what each
//! line of the drawn tree holds. Reading keys and writing lines is left to
//! the caller.
use vstd::prelude::*;
use vstd::string::StringExecFns;
use crate::{NodeDefinitionType, TreeDefinition, TreeNodeDefinition};
use crate::model::{PickState, def_at, node_at, is_path, valid_def, initial_state, has_child_of_type,
    is_picked, paths_below, mirrors};
use crate::interactor::{
    EditPickedType, TreeInteraction, TreeInteractionError, TreeInteractor, interact_result,
    paths_view,
};

verus! {

#[verifier::external_type_specification]
#[verifier::external_body]
pub struct ExTerm(console::Term);

#[verifier::external_type_specification]
#[verifier::external_body]
#[verifier::reject_recursive_types(D)]
pub struct ExStyledObject<D>(console::StyledObject<D>);

/// The clone that `console::StyledObject` derives; nothing is stated of the copy.
pub assume_specification<D: Clone>[ <console::StyledObject<D> as Clone>::clone ](s: &console::StyledObject<D>) -> console::StyledObject<D>;

/// What `console::style` makes of `text`: the text under the empty style.
/// It depends on the text alone, since the empty style is a constant.
pub uninterp spec fn plain_style(text: Seq<char>) -> console::StyledObject<String>;

/// `console::style`: the text with no style applied yet. The contract names
/// the result and says no more of it, since the styled object shows nothing
/// of what it holds but through `Display`.
#[verifier::external_body]
fn style_string(text: String) -> (res: console::StyledObject<String>)
    ensures
        res == plain_style(text@),
{
    console::style(text)
}

/// `String::push`: appends `c` to `s`.
#[verifier::external_body]
fn push_char(s: &mut String, c: char)
    ensures
        final(s)@ == old(s)@.push(c),
{
    s.push(c)
}

/// Drives interaction with a [`TreeDefinition`] and [`TreeInteractor`] via the terminal.
pub struct ConsoleDriver<T> {
    pub term: console::Term,
    pub interactor: TreeInteractor<StyledMsgAndData<T>>,
    pub printed_once: bool,
    pub palette: Palette,
}

/// Wrapper for some data associated with a tree node, plus a message to display with the node.
#[derive(Clone, Debug)]
pub struct StyledMsgAndData<T> {
    pub message: console::StyledObject<String>,
    pub data: T,
}

impl<T> StyledMsgAndData<T> {
    pub fn new(message: console::StyledObject<String>, data: T) -> (res: Self)
        ensures
            res.message == message,
            res.data == data,
    {
        Self { message, data }
    }

    /// Create with an unstyled string
    pub fn unstyled(message: &str, data: T) -> (res: Self)
        ensures
            res.message == plain_style(message@),
            res.data == data,
    {
        Self::new(style_string(message.to_owned()), data)
    }
}

/// A key that the user pressed.
#[derive(Debug, Clone, PartialEq, Eq)]
pub enum Key {
    Unknown,
    /// Unrecognized sequence containing Esc and a list of chars
    UnknownEscSeq(Vec<char>),
    ArrowLeft,
    ArrowRight,
    ArrowUp,
    ArrowDown,
    Enter,
    Escape,
    Backspace,
    Home,
    End,
    Tab,
    BackTab,
    Alt,
    Del,
    Shift,
    Insert,
    PageUp,
    PageDown,
    Char(char),
    CtrlC,
}

/// What a key does to the tree, if anything.
pub open spec fn key_interaction(key: Key) -> Option<TreeInteraction> {
    match key {
        Key::Char(' ') | Key::Enter => Some(TreeInteraction::EditPicked(EditPickedType::Toggle)),
        Key::Char('y') | Key::Char('Y') => Some(TreeInteraction::EditPicked(EditPickedType::Select)),
        Key::Char('n') | Key::Char('N') => Some(TreeInteraction::EditPicked(EditPickedType::Deselect)),
        Key::Char('h') | Key::ArrowLeft => Some(TreeInteraction::ExitNode),
        Key::Char('j') | Key::ArrowDown => Some(TreeInteraction::SeekSibling { next: true }),
        Key::Char('k') | Key::ArrowUp => Some(TreeInteraction::SeekSibling { next: false }),
        Key::Char('l') | Key::ArrowRight => Some(TreeInteraction::EnterNode),
        _ => None,
    }
}

/// How an interaction's answer is reported for a key.
pub open spec fn take_input_result(r: Result<bool, TreeInteractionError>) -> Result<TakeInput, TreeInteractionError> {
    match r {
        Ok(true) => Ok(TakeInput::Quit),
        Ok(false) => Ok(TakeInput::Accepted),
        Err(e) => Err(e),
    }
}

/// What a key does to the tree, if anything.
pub fn key_to_interaction(key: &Key) -> (res: Option<TreeInteraction>)
    ensures
        res == key_interaction(*key),
{
    match key {
        Key::Char(' ') | Key::Enter => Some(TreeInteraction::EditPicked(EditPickedType::Toggle)),
        // mostly for testing purposes
        Key::Char('y') | Key::Char('Y') => Some(TreeInteraction::EditPicked(EditPickedType::Select)),
        Key::Char('n') | Key::Char('N') => Some(TreeInteraction::EditPicked(EditPickedType::Deselect)),
        Key::Char('h') | Key::ArrowLeft => Some(TreeInteraction::ExitNode),
        Key::Char('j') | Key::ArrowDown => Some(TreeInteraction::SeekSibling { next: true }),
        Key::Char('k') | Key::ArrowUp => Some(TreeInteraction::SeekSibling { next: false }),
        Key::Char('l') | Key::ArrowRight => Some(TreeInteraction::EnterNode),
        _ => None,
    }
}

impl<T> ConsoleDriver<T> {
    /// Create a new driver.
    pub fn new(term: console::Term, palette: Palette, tree: TreeDefinition<StyledMsgAndData<T>>) -> (res: Self)
        requires
            tree.root.children@.len() > 0,
            valid_def(tree.root),
        ensures
            res.term == term,
            res.palette == palette,
            !res.printed_once,
            res.interactor.wf(),
            res.interactor.definition() == tree,
            res.interactor.state() == initial_state(tree.root, false),
            res.interactor.cursor() == seq![0usize],
    {
        Self { term, palette, interactor: TreeInteractor::new(tree), printed_once: false }
    }

    /// Handle a key input from the user.
    ///
    /// Returns how it handled the input, or an error from interacting with the tree wrong.
    pub fn take_input(&mut self, key: Key) -> (res: Result<TakeInput, TreeInteractionError>)
        requires
            old(self).interactor.wf(),
        ensures
            final(self).interactor.wf(),
            final(self).term == old(self).term,
            final(self).palette == old(self).palette,
            final(self).printed_once == old(self).printed_once,
            final(self).interactor.definition() == old(self).interactor.definition(),
            match key_interaction(key) {
                None => res == Ok::<TakeInput, TreeInteractionError>(TakeInput::Ignored)
                    && final(self).interactor.state() == old(self).interactor.state()
                    && final(self).interactor.cursor() == old(self).interactor.cursor(),
                Some(interaction) => {
                    let r = interact_result(
                        old(self).interactor.definition().root,
                        old(self).interactor.state(),
                        old(self).interactor.cursor(),
                        interaction,
                    );
                    &&& res == take_input_result(r.0)
                    &&& final(self).interactor.state() == r.1
                    &&& final(self).interactor.cursor() == r.2
                },
            },
    {
        let action = match key_to_interaction(&key) {
            Some(action) => action,
            None => return Ok(TakeInput::Ignored),
        };
        let quit = self.interactor.interact(action);
        match quit {
            Ok(true) => Ok(TakeInput::Quit),
            Ok(false) => Ok(TakeInput::Accepted),
            Err(e) => Err(e),
        }
    }
}

/// One line of the drawn tree: the pipes that lead to a node, and the box in
/// front of its message.
pub struct TreeRow {
    /// The path to the node.
    pub path: Vec<usize>,
    /// The pipes and the connector that lead to the node; empty for the root.
    pub leader: String,
    /// The box in front of the node's message; empty for a node without one.
    pub checkbox: String,
    /// The cursor is on this node.
    pub selected: bool,
}

/// The vertical pipes in front of a node at `depth`: one for each ancestor
/// other than the root.
pub open spec fn scaffolding(pipe_vert: char, depth: int) -> Seq<char>
    decreases depth,
{
    if depth <= 1 {
        Seq::empty()
    } else {
        scaffolding(pipe_vert, depth - 1) + seq![pipe_vert, ' ', ' ']
    }
}

/// The number of children of the parent of the node at `path`.
pub open spec fn sibling_count<T>(d: TreeNodeDefinition<T>, path: Seq<usize>) -> int {
    if path.len() == 0 {
        1
    } else {
        def_at(d, path.drop_last()).unwrap().children@.len() as int
    }
}

/// What leads to the node at `path`: the scaffolding, a branch (a corner for
/// the last child), and the connector, which shows whether the cursor is there.
pub open spec fn leader_text(pal: Palette, path: Seq<usize>, siblings: int, selected: bool) -> Seq<char> {
    if path.len() == 0 {
        Seq::empty()
    } else {
        scaffolding(pal.pipe_vert, path.len() as int) + seq![
            if path.last() == siblings - 1 {
                pal.pipe_corner
            } else {
                pal.pipe_branch
            },
        ] + if selected {
            pal.selected_connector@
        } else {
            pal.unselected_connector@
        }
    }
}

/// No `PickMany` child of the node is picked.
pub open spec fn no_pick_many_picked<T>(d: TreeNodeDefinition<T>, s: PickState) -> bool {
    forall|j: int|
        0 <= j < d.children@.len() && j < s.children.len() && #[trigger] d.children@[j].ty
            == NodeDefinitionType::PickMany ==> !is_picked(s.children[j])
}

/// The box in front of a node: the finishing box for `AllDone`; a checkbox
/// for `PickMany`, and for `Text` with `PickMany` children, where it shows
/// whether none, some or all of them are picked; a radio button for
/// `PickUpToOne` and `PickExactlyOne`; nothing for other `Text` nodes.
pub open spec fn checkbox_text<T>(pal: Palette, d: TreeNodeDefinition<T>, s: PickState) -> Seq<char> {
    if d.ty == NodeDefinitionType::AllDone {
        pal.all_done@
    } else if d.ty == NodeDefinitionType::Text {
        if !has_child_of_type(d, NodeDefinitionType::PickMany) {
            Seq::empty()
        } else if no_pick_many_picked(d, s) {
            pal.unpicked_manybox@
        } else if crate::model::all_pick_many_picked(d, s) {
            pal.picked_manybox@
        } else {
            pal.some_picked_manybox@
        }
    } else {
        match s.picked {
            Some(true) => if d.ty == NodeDefinitionType::PickMany {
                pal.picked_manybox@
            } else {
                pal.picked_onebox@
            },
            Some(false) => if d.ty == NodeDefinitionType::PickMany {
                pal.unpicked_manybox@
            } else {
                pal.unpicked_onebox@
            },
            None => pal.error_box@,
        }
    }
}

/// `row` draws the node at `path`.
pub open spec fn row_ok<T>(row: TreeRow, pal: Palette, d: TreeNodeDefinition<T>, s: PickState, cursor: Seq<usize>, path: Seq<usize>) -> bool {
    &&& row.path@ == path
    &&& row.selected == (path == cursor)
    &&& row.leader@ == leader_text(pal, path, sibling_count(d, path), path == cursor)
    &&& row.checkbox@ == checkbox_text(pal, def_at(d, path).unwrap(), node_at(s, path).unwrap())
}

impl<T> ConsoleDriver<T> {
    /// The lines of the drawn tree: the root, then every node before its
    /// descendants, in the order of the children.
    pub fn tree_rows(&self) -> (res: Vec<TreeRow>)
        requires
            self.interactor.wf(),
        ensures
            res@.len() == paths_below(self.interactor.state(), false).len() + 1,
            row_ok(res@[0], self.palette, self.interactor.definition().root, self.interactor.state(), self.interactor.cursor(), Seq::empty()),
            forall|k: int| 0 <= k < paths_below(self.interactor.state(), false).len() ==> row_ok(
                #[trigger] res@[k + 1],
                self.palette,
                self.interactor.definition().root,
                self.interactor.state(),
                self.interactor.cursor(),
                paths_below(self.interactor.state(), false)[k],
            ),
    {
        let paths = self.interactor.get_all_paths();
        let ghost all = paths_below(self.interactor.state(), false);
        proof {
            self.interactor.lemma_wf_mirrors();
            crate::lemmas::lemma_paths_below_ok(self.interactor.definition().root, self.interactor.state(), false);
        }
        let mut rows: Vec<TreeRow> = Vec::new();
        let root_path: Vec<usize> = Vec::new();
        proof {
            assert(root_path@.len() == 0);
            assert(root_path@ =~= Seq::<usize>::empty());
        }
        rows.push(self.row_for(root_path.as_slice()));
        let mut k: usize = 0;
        while k < paths.len()
            invariant
                self.interactor.wf(),
                paths_view(paths@) == all,
                all == paths_below(self.interactor.state(), false),
                all.len() == paths@.len(),
                forall|m: int| 0 <= m < all.len() ==> crate::lemmas::listed_path_ok(self.interactor.state(), #[trigger] all[m], false),
                mirrors(self.interactor.definition().root, self.interactor.state()),
                k <= paths@.len(),
                rows@.len() == k + 1,
                row_ok(rows@[0], self.palette, self.interactor.definition().root, self.interactor.state(), self.interactor.cursor(), Seq::empty()),
                forall|m: int| 0 <= m < k ==> row_ok(
                    #[trigger] rows@[m + 1],
                    self.palette,
                    self.interactor.definition().root,
                    self.interactor.state(),
                    self.interactor.cursor(),
                    all[m],
                ),
            decreases paths@.len() - k,
        {
            assert(paths@[k as int]@ == all[k as int]);
            proof {
                assert(crate::lemmas::listed_path_ok(self.interactor.state(), all[k as int], false));
                crate::lemmas::lemma_node_at_mirrors(self.interactor.definition().root, self.interactor.state(), all[k as int]);
            }
            let row = self.row_for(paths[k].as_slice());
            rows.push(row);
            k = k + 1;
        }
        rows
    }

    /// The line that draws the node at `path`.
    fn row_for(&self, path: &[usize]) -> (res: TreeRow)
        requires
            self.interactor.wf(),
            is_path(self.interactor.definition().root, path@),
        ensures
            row_ok(res, self.palette, self.interactor.definition().root, self.interactor.state(), self.interactor.cursor(), path@),
    {
        let ghost d = self.interactor.definition().root;
        let ghost st = self.interactor.state();
        proof {
            self.interactor.lemma_wf_mirrors();
            crate::lemmas::lemma_mirrors_node_at(d, st, path@);
        }
        let node = self.interactor.select_node_via_path(path).unwrap();
        let state = self.interactor.select_interactor_node_via_path(path).unwrap();
        proof {
            crate::lemmas::lemma_mirrors_node_at(d, st, path@);
        }
        let selected = slices_equal(path, self.interactor.cursor_path());
        let mut leader = String::new();
        let len = path.len();
        if len > 0 {
            proof {
                crate::lemmas::lemma_def_at_snoc(d, path@);
                assert(path@.subrange(0, len - 1) =~= path@.drop_last());
            }
            let parent = crate::interactor::def_at_exec(&self.interactor.tree().root, path, 0, len - 1);
            let mut depth: usize = 1;
            while depth < len
                invariant
                    1 <= depth <= len,
                    leader@ == scaffolding(self.palette.pipe_vert, depth as int),
                decreases len - depth,
            {
                push_char(&mut leader, self.palette.pipe_vert);
                push_char(&mut leader, ' ');
                push_char(&mut leader, ' ');
                assert(leader@ =~= scaffolding(self.palette.pipe_vert, depth as int) + seq![self.palette.pipe_vert, ' ', ' ']);
                depth = depth + 1;
            }
            let pipe = if path[len - 1] == parent.children.len() - 1 {
                self.palette.pipe_corner
            } else {
                self.palette.pipe_branch
            };
            push_char(&mut leader, pipe);
            let indicator = if selected {
                &self.palette.selected_connector
            } else {
                &self.palette.unselected_connector
            };
            leader.append(indicator.as_str());
            assert(sibling_count(d, path@) == parent.children@.len());
            assert(path@.last() == path@[len - 1]);
            assert(leader@ =~= leader_text(self.palette, path@, sibling_count(d, path@), selected));
        } else {
            assert(leader@ =~= leader_text(self.palette, path@, sibling_count(d, path@), selected));
        }
        let mut path_vec: Vec<usize> = Vec::new();
        let mut i: usize = 0;
        while i < len
            invariant
                len == path@.len(),
                i <= len,
                path_vec@ == path@.take(i as int),
            decreases len - i,
        {
            path_vec.push(path[i]);
            assert(path@.take(i + 1) =~= path@.take(i as int).push(path@[i as int]));
            i = i + 1;
        }
        assert(path@.take(len as int) =~= path@);
        let checkbox = checkbox_string(&self.palette, node, state);
        assert(selected == (path@ == self.interactor.cursor()));
        assert(checkbox@ == checkbox_text(self.palette, def_at(d, path@).unwrap(), node_at(st, path@).unwrap()));
        TreeRow { path: path_vec, leader, checkbox, selected }
    }
}

/// The two paths are the same.
fn slices_equal(a: &[usize], b: &[usize]) -> (res: bool)
    ensures
        res == (a@ == b@),
{
    if a.len() != b.len() {
        return false;
    }
    let mut i: usize = 0;
    while i < a.len()
        invariant
            a@.len() == b@.len(),
            i <= a@.len(),
            forall|j: int| 0 <= j < i ==> a@[j] == b@[j],
        decreases a@.len() - i,
    {
        if a[i] != b[i] {
            return false;
        }
        i = i + 1;
    }
    assert(a@ =~= b@);
    true
}

/// The box in front of a node, as [`checkbox_text`] says.
fn checkbox_string<T>(pal: &Palette, d: &TreeNodeDefinition<T>, n: &crate::interactor::TreeInteractorNode) -> (res: String)
    requires
        crate::model::mirrors(*d, n@),
    ensures
        res@ == checkbox_text(*pal, *d, n@),
{
    if d.ty == NodeDefinitionType::AllDone {
        return pal.all_done.clone();
    }
    if d.ty == NodeDefinitionType::Text {
        let kids = n.children();
        let len = d.children.len();
        let mut has_many = false;
        let mut all = true;
        let mut none = true;
        let mut j: usize = 0;
        while j < len
            invariant
                len == d.children@.len(),
                len == n@.children.len(),
                kids@.len() == len,
                forall|m: int| 0 <= m < len ==> #[trigger] kids@[m]@ == n@.children[m],
                j <= len,
                has_many == exists|m: int| 0 <= m < j && #[trigger] d.children@[m].ty == NodeDefinitionType::PickMany,
                all == forall|m: int| 0 <= m < j && #[trigger] d.children@[m].ty == NodeDefinitionType::PickMany
                    ==> is_picked(n@.children[m]),
                none == forall|m: int| 0 <= m < j && #[trigger] d.children@[m].ty == NodeDefinitionType::PickMany
                    ==> !is_picked(n@.children[m]),
            decreases len - j,
        {
            if d.children[j].ty == NodeDefinitionType::PickMany {
                has_many = true;
                let p = kids[j].picked();
                if p == Some(true) {
                    none = false;
                } else {
                    all = false;
                }
            }
            j = j + 1;
        }
        if !has_many {
            return String::new();
        } else if none {
            return pal.unpicked_manybox.clone();
        } else if all {
            return pal.picked_manybox.clone();
        } else {
            return pal.some_picked_manybox.clone();
        }
    }
    let many = d.ty == NodeDefinitionType::PickMany;
    match n.picked() {
        Some(true) => if many {
            pal.picked_manybox.clone()
        } else {
            pal.picked_onebox.clone()
        },
        Some(false) => if many {
            pal.unpicked_manybox.clone()
        } else {
            pal.unpicked_onebox.clone()
        },
        None => pal.error_box.clone(),
    }
}

/// What happened after the user presses a key.
#[derive(Debug, Clone, Copy, PartialEq, Eq, Structural)]
pub enum TakeInput {
    /// The key was handled and there was no error.
    Accepted,
    /// The key does not control the tree
    Ignored,
    /// The key was handled, and a [`NodeDefinitionType::AllDone`] was touched
    Quit,
}

/// How to draw each part of the tree
#[derive(Debug, Clone)]
pub struct Palette {
    /// Display an unchecked checkbox
    pub unpicked_manybox: String,
    /// Display a half-selected checkbox
    pub some_picked_manybox: String,
    /// Display a checked checkbox
    pub picked_manybox: String,
    /// Display an upicked radio button
    pub unpicked_onebox: String,
    /// Display a picked radio button
    pub picked_onebox: String,
    /// Used to indicate an invalid selection state as a debug tool.
    /// If you see this, something has gone wrong
    pub error_box: String,
    /// Char used to extend the tree vertically
    pub pipe_vert: char,
    /// Char to indicate that the tree branches
    pub pipe_branch: char,
    /// Char to indicate last branch of a node
    pub pipe_corner: char,
    /// Connector between the pipes and the node
    pub unselected_connector: String,
    /// Connector between the pipes and the node when the cursor is there
    pub selected_connector: String,
    /// Leading "box" for the finishing node
    pub all_done: String,
}

impl Default for Palette {
    fn default() -> (res: Self)
        ensures
            res.unpicked_manybox@ == "[ ] "@,
            res.some_picked_manybox@ == "[/] "@,
            res.picked_manybox@ == "[X] "@,
            res.unpicked_onebox@ == "( ) "@,
            res.picked_onebox@ == "(o) "@,
            res.error_box@ == "[!] "@,
            res.pipe_vert == '|',
            res.pipe_branch == '|',
            res.pipe_corner == '`',
            res.unselected_connector@ == "-"@,
            res.selected_connector@ == ">"@,
            res.all_done@ == "{?} "@,
    {
        Self {
            unpicked_manybox: "[ ] ".to_owned(),
            some_picked_manybox: "[/] ".to_owned(),
            picked_manybox: "[X] ".to_owned(),
            unpicked_onebox: "( ) ".to_owned(),
            picked_onebox: "(o) ".to_owned(),
            error_box: "[!] ".to_owned(),
            pipe_vert: '|',
            pipe_branch: '|',
            pipe_corner: '`',
            unselected_connector: "-".to_owned(),
            selected_connector: ">".to_owned(),
            all_done: "{?} ".to_owned(),
        }
    }
}

impl Palette {
    /// Draw the tree with fancy Unicode characters
    pub fn fancy() -> (res: Self)
        ensures
            res.unpicked_manybox@ == "[ ] "@,
            res.some_picked_manybox@ == "[/] "@,
            res.picked_manybox@ == "[X] "@,
            res.unpicked_onebox@ == "( ) "@,
            res.picked_onebox@ == "(o) "@,
            res.error_box@ == "[!] "@,
            res.pipe_vert == '│',
            res.pipe_branch == '├',
            res.pipe_corner == '└',
            res.unselected_connector@ == "─"@,
            res.selected_connector@ == ">"@,
            res.all_done@ == "{?} "@,
    {
        Self {
            unpicked_manybox: "[ ] ".to_owned(),
            some_picked_manybox: "[/] ".to_owned(),
            picked_manybox: "[X] ".to_owned(),
            unpicked_onebox: "( ) ".to_owned(),
            picked_onebox: "(o) ".to_owned(),
            error_box: "[!] ".to_owned(),
            pipe_vert: '│',
            pipe_branch: '├',
            pipe_corner: '└',
            unselected_connector: "─".to_owned(),
            selected_connector: ">".to_owned(),
            all_done: "{?} ".to_owned(),
        }
    }
}

} // verus!
