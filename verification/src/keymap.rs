//! Config-driven keymaps for copy mode.
//!
//! [`CopyModeAction`] is the vocabulary of things a key can do, each with
//! one config name ([`action_by_name`] / [`action_name`]). Two presets bind
//! every action to a key spec ([`vi_preset`], [`emacs_preset`]), and
//! [`resolve_keymap`] applies a configuration on top: `keymap` picks the
//! preset, and a `key_<action>` entry **replaces** that action's key spec.
//! Keys are plain strings here; parsing them is the host's job.

use std::collections::BTreeMap;
use vstd::prelude::*;
use crate::motion::Motion;
use crate::region::SelectionMode;
use crate::text;

verus! {

/// A single thing a key can do in copy mode.
#[derive(Debug, Clone, Copy, PartialEq, Eq, Structural)]
pub enum CopyModeAction {
    /// Move the cursor.
    Motion(Motion),
    /// Toggle a selection shape.
    Select(SelectionMode),
    /// Copy the selection into the ring and leave copy mode.
    Yank,
    /// Copy the selection into the ring and the system clipboard, then
    /// leave copy mode.
    YankToClipboard,
    /// Clear the selection, or leave copy mode when nothing is selected.
    Cancel,
}

/// The config name of every action.
pub open spec fn name_of(a: CopyModeAction) -> Seq<char> {
    match a {
        CopyModeAction::Motion(Motion::Left) => "left"@,
        CopyModeAction::Motion(Motion::Down) => "down"@,
        CopyModeAction::Motion(Motion::Up) => "up"@,
        CopyModeAction::Motion(Motion::Right) => "right"@,
        CopyModeAction::Motion(Motion::WordForward) => "word_forward"@,
        CopyModeAction::Motion(Motion::WordBackward) => "word_backward"@,
        CopyModeAction::Motion(Motion::WordEnd) => "word_end"@,
        CopyModeAction::Motion(Motion::LineStart) => "line_start"@,
        CopyModeAction::Motion(Motion::LineFirstNonBlank) => "line_first_non_blank"@,
        CopyModeAction::Motion(Motion::LineEnd) => "line_end"@,
        CopyModeAction::Motion(Motion::Top) => "top"@,
        CopyModeAction::Motion(Motion::Bottom) => "bottom"@,
        CopyModeAction::Motion(Motion::HalfPageUp) => "half_page_up"@,
        CopyModeAction::Motion(Motion::HalfPageDown) => "half_page_down"@,
        CopyModeAction::Motion(Motion::PageUp) => "page_up"@,
        CopyModeAction::Motion(Motion::PageDown) => "page_down"@,
        CopyModeAction::Select(SelectionMode::Char) => "select_char"@,
        CopyModeAction::Select(SelectionMode::Line) => "select_line"@,
        CopyModeAction::Select(SelectionMode::Block) => "select_block"@,
        CopyModeAction::Yank => "yank"@,
        CopyModeAction::YankToClipboard => "yank_clipboard"@,
        CopyModeAction::Cancel => "cancel"@,
    }
}

/// The vocabulary in its canonical order.
pub open spec fn vocabulary() -> Seq<CopyModeAction> {
    seq![
        CopyModeAction::Motion(Motion::Left),
        CopyModeAction::Motion(Motion::Down),
        CopyModeAction::Motion(Motion::Up),
        CopyModeAction::Motion(Motion::Right),
        CopyModeAction::Motion(Motion::WordForward),
        CopyModeAction::Motion(Motion::WordBackward),
        CopyModeAction::Motion(Motion::WordEnd),
        CopyModeAction::Motion(Motion::LineStart),
        CopyModeAction::Motion(Motion::LineFirstNonBlank),
        CopyModeAction::Motion(Motion::LineEnd),
        CopyModeAction::Motion(Motion::Top),
        CopyModeAction::Motion(Motion::Bottom),
        CopyModeAction::Motion(Motion::HalfPageUp),
        CopyModeAction::Motion(Motion::HalfPageDown),
        CopyModeAction::Motion(Motion::PageUp),
        CopyModeAction::Motion(Motion::PageDown),
        CopyModeAction::Select(SelectionMode::Char),
        CopyModeAction::Select(SelectionMode::Line),
        CopyModeAction::Select(SelectionMode::Block),
        CopyModeAction::Yank,
        CopyModeAction::YankToClipboard,
        CopyModeAction::Cancel,
    ]
}

/// The action a config name refers to, if it is in the vocabulary.
pub open spec fn named_action(n: Seq<char>) -> Option<CopyModeAction> {
    if n == "left"@ {
        Some(CopyModeAction::Motion(Motion::Left))
    } else if n == "down"@ {
        Some(CopyModeAction::Motion(Motion::Down))
    } else if n == "up"@ {
        Some(CopyModeAction::Motion(Motion::Up))
    } else if n == "right"@ {
        Some(CopyModeAction::Motion(Motion::Right))
    } else if n == "word_forward"@ {
        Some(CopyModeAction::Motion(Motion::WordForward))
    } else if n == "word_backward"@ {
        Some(CopyModeAction::Motion(Motion::WordBackward))
    } else if n == "word_end"@ {
        Some(CopyModeAction::Motion(Motion::WordEnd))
    } else if n == "line_start"@ {
        Some(CopyModeAction::Motion(Motion::LineStart))
    } else if n == "line_first_non_blank"@ {
        Some(CopyModeAction::Motion(Motion::LineFirstNonBlank))
    } else if n == "line_end"@ {
        Some(CopyModeAction::Motion(Motion::LineEnd))
    } else if n == "top"@ {
        Some(CopyModeAction::Motion(Motion::Top))
    } else if n == "bottom"@ {
        Some(CopyModeAction::Motion(Motion::Bottom))
    } else if n == "half_page_up"@ {
        Some(CopyModeAction::Motion(Motion::HalfPageUp))
    } else if n == "half_page_down"@ {
        Some(CopyModeAction::Motion(Motion::HalfPageDown))
    } else if n == "page_up"@ {
        Some(CopyModeAction::Motion(Motion::PageUp))
    } else if n == "page_down"@ {
        Some(CopyModeAction::Motion(Motion::PageDown))
    } else if n == "select_char"@ {
        Some(CopyModeAction::Select(SelectionMode::Char))
    } else if n == "select_line"@ {
        Some(CopyModeAction::Select(SelectionMode::Line))
    } else if n == "select_block"@ {
        Some(CopyModeAction::Select(SelectionMode::Block))
    } else if n == "yank"@ {
        Some(CopyModeAction::Yank)
    } else if n == "yank_clipboard"@ {
        Some(CopyModeAction::YankToClipboard)
    } else if n == "cancel"@ {
        Some(CopyModeAction::Cancel)
    } else {
        None
    }
}

/// The vocabulary of action names, each paired with the action it names,
/// in canonical order.
pub fn action_names() -> (r: Vec<(&'static str, CopyModeAction)>)
    ensures
        r@.len() == vocabulary().len(),
        forall|k: int|
            0 <= k < r@.len() ==> (#[trigger] r@[k]).1 == vocabulary()[k] && r@[k].0@ == name_of(
                vocabulary()[k],
            ),
{
    let mut r: Vec<(&'static str, CopyModeAction)> = Vec::new();
    r.push(("left", CopyModeAction::Motion(Motion::Left)));
    r.push(("down", CopyModeAction::Motion(Motion::Down)));
    r.push(("up", CopyModeAction::Motion(Motion::Up)));
    r.push(("right", CopyModeAction::Motion(Motion::Right)));
    r.push(("word_forward", CopyModeAction::Motion(Motion::WordForward)));
    r.push(("word_backward", CopyModeAction::Motion(Motion::WordBackward)));
    r.push(("word_end", CopyModeAction::Motion(Motion::WordEnd)));
    r.push(("line_start", CopyModeAction::Motion(Motion::LineStart)));
    r.push(("line_first_non_blank", CopyModeAction::Motion(Motion::LineFirstNonBlank)));
    r.push(("line_end", CopyModeAction::Motion(Motion::LineEnd)));
    r.push(("top", CopyModeAction::Motion(Motion::Top)));
    r.push(("bottom", CopyModeAction::Motion(Motion::Bottom)));
    r.push(("half_page_up", CopyModeAction::Motion(Motion::HalfPageUp)));
    r.push(("half_page_down", CopyModeAction::Motion(Motion::HalfPageDown)));
    r.push(("page_up", CopyModeAction::Motion(Motion::PageUp)));
    r.push(("page_down", CopyModeAction::Motion(Motion::PageDown)));
    r.push(("select_char", CopyModeAction::Select(SelectionMode::Char)));
    r.push(("select_line", CopyModeAction::Select(SelectionMode::Line)));
    r.push(("select_block", CopyModeAction::Select(SelectionMode::Block)));
    r.push(("yank", CopyModeAction::Yank));
    r.push(("yank_clipboard", CopyModeAction::YankToClipboard));
    r.push(("cancel", CopyModeAction::Cancel));
    r
}

/// Looks up the action a config name refers to; `None` outside the
/// vocabulary.
pub fn action_by_name(name: &str) -> (r: Option<CopyModeAction>)
    ensures
        r == named_action(name@),
{
    if text::str_eq(name, "left") {
        Some(CopyModeAction::Motion(Motion::Left))
    } else if text::str_eq(name, "down") {
        Some(CopyModeAction::Motion(Motion::Down))
    } else if text::str_eq(name, "up") {
        Some(CopyModeAction::Motion(Motion::Up))
    } else if text::str_eq(name, "right") {
        Some(CopyModeAction::Motion(Motion::Right))
    } else if text::str_eq(name, "word_forward") {
        Some(CopyModeAction::Motion(Motion::WordForward))
    } else if text::str_eq(name, "word_backward") {
        Some(CopyModeAction::Motion(Motion::WordBackward))
    } else if text::str_eq(name, "word_end") {
        Some(CopyModeAction::Motion(Motion::WordEnd))
    } else if text::str_eq(name, "line_start") {
        Some(CopyModeAction::Motion(Motion::LineStart))
    } else if text::str_eq(name, "line_first_non_blank") {
        Some(CopyModeAction::Motion(Motion::LineFirstNonBlank))
    } else if text::str_eq(name, "line_end") {
        Some(CopyModeAction::Motion(Motion::LineEnd))
    } else if text::str_eq(name, "top") {
        Some(CopyModeAction::Motion(Motion::Top))
    } else if text::str_eq(name, "bottom") {
        Some(CopyModeAction::Motion(Motion::Bottom))
    } else if text::str_eq(name, "half_page_up") {
        Some(CopyModeAction::Motion(Motion::HalfPageUp))
    } else if text::str_eq(name, "half_page_down") {
        Some(CopyModeAction::Motion(Motion::HalfPageDown))
    } else if text::str_eq(name, "page_up") {
        Some(CopyModeAction::Motion(Motion::PageUp))
    } else if text::str_eq(name, "page_down") {
        Some(CopyModeAction::Motion(Motion::PageDown))
    } else if text::str_eq(name, "select_char") {
        Some(CopyModeAction::Select(SelectionMode::Char))
    } else if text::str_eq(name, "select_line") {
        Some(CopyModeAction::Select(SelectionMode::Line))
    } else if text::str_eq(name, "select_block") {
        Some(CopyModeAction::Select(SelectionMode::Block))
    } else if text::str_eq(name, "yank") {
        Some(CopyModeAction::Yank)
    } else if text::str_eq(name, "yank_clipboard") {
        Some(CopyModeAction::YankToClipboard)
    } else if text::str_eq(name, "cancel") {
        Some(CopyModeAction::Cancel)
    } else {
        None
    }
}

/// The canonical config name of `action` (always present).
pub fn action_name(action: CopyModeAction) -> (r: Option<&'static str>)
    ensures
        r matches Some(n) && n@ == name_of(action),
{
    let n = match action {
        CopyModeAction::Motion(Motion::Left) => "left",
        CopyModeAction::Motion(Motion::Down) => "down",
        CopyModeAction::Motion(Motion::Up) => "up",
        CopyModeAction::Motion(Motion::Right) => "right",
        CopyModeAction::Motion(Motion::WordForward) => "word_forward",
        CopyModeAction::Motion(Motion::WordBackward) => "word_backward",
        CopyModeAction::Motion(Motion::WordEnd) => "word_end",
        CopyModeAction::Motion(Motion::LineStart) => "line_start",
        CopyModeAction::Motion(Motion::LineFirstNonBlank) => "line_first_non_blank",
        CopyModeAction::Motion(Motion::LineEnd) => "line_end",
        CopyModeAction::Motion(Motion::Top) => "top",
        CopyModeAction::Motion(Motion::Bottom) => "bottom",
        CopyModeAction::Motion(Motion::HalfPageUp) => "half_page_up",
        CopyModeAction::Motion(Motion::HalfPageDown) => "half_page_down",
        CopyModeAction::Motion(Motion::PageUp) => "page_up",
        CopyModeAction::Motion(Motion::PageDown) => "page_down",
        CopyModeAction::Select(SelectionMode::Char) => "select_char",
        CopyModeAction::Select(SelectionMode::Line) => "select_line",
        CopyModeAction::Select(SelectionMode::Block) => "select_block",
        CopyModeAction::Yank => "yank",
        CopyModeAction::YankToClipboard => "yank_clipboard",
        CopyModeAction::Cancel => "cancel",
    };
    Some(n)
}

/// Every action's name leads back to that action, and only its own name
/// does.
pub proof fn law_action_names_round_trip(a: CopyModeAction, n: Seq<char>)
    ensures
        named_action(name_of(a)) == Some(a),
        named_action(n) == Some(a) ==> n == name_of(a),
{
    reveal_strlit("left");
    reveal_strlit("down");
    reveal_strlit("up");
    reveal_strlit("right");
    reveal_strlit("word_forward");
    reveal_strlit("word_backward");
    reveal_strlit("word_end");
    reveal_strlit("line_start");
    reveal_strlit("line_first_non_blank");
    reveal_strlit("line_end");
    reveal_strlit("top");
    reveal_strlit("bottom");
    reveal_strlit("half_page_up");
    reveal_strlit("half_page_down");
    reveal_strlit("page_up");
    reveal_strlit("page_down");
    reveal_strlit("select_char");
    reveal_strlit("select_line");
    reveal_strlit("select_block");
    reveal_strlit("yank");
    reveal_strlit("yank_clipboard");
    reveal_strlit("cancel");
    assert("left"@.len() == 4 && "left"@[0] == 'l');
    assert("down"@.len() == 4 && "down"@[0] == 'd');
    assert("up"@.len() == 2 && "up"@[0] == 'u');
    assert("right"@.len() == 5 && "right"@[0] == 'r');
    assert("word_forward"@.len() == 12 && "word_forward"@[0] == 'w');
    assert("word_backward"@.len() == 13 && "word_backward"@[0] == 'w');
    assert("word_end"@.len() == 8 && "word_end"@[0] == 'w');
    assert("line_start"@.len() == 10 && "line_start"@[0] == 'l');
    assert("line_first_non_blank"@.len() == 20 && "line_first_non_blank"@[0] == 'l');
    assert("line_end"@.len() == 8 && "line_end"@[0] == 'l');
    assert("top"@.len() == 3 && "top"@[0] == 't');
    assert("bottom"@.len() == 6 && "bottom"@[0] == 'b');
    assert("half_page_up"@.len() == 12 && "half_page_up"@[0] == 'h');
    assert("half_page_down"@.len() == 14 && "half_page_down"@[0] == 'h');
    assert("page_up"@.len() == 7 && "page_up"@[0] == 'p');
    assert("page_down"@.len() == 9 && "page_down"@[0] == 'p');
    assert("select_char"@.len() == 11 && "select_char"@[0] == 's');
    assert("select_line"@.len() == 11 && "select_line"@[0] == 's');
    assert("select_block"@.len() == 12 && "select_block"@[0] == 's');
    assert("yank"@.len() == 4 && "yank"@[0] == 'y');
    assert("yank_clipboard"@.len() == 14 && "yank_clipboard"@[0] == 'y');
    assert("cancel"@.len() == 6 && "cancel"@[0] == 'c');
    assert("select_char"@[7] == 'c' && "select_line"@[7] == 'l');
}

/// vi's copy-mode keybindings.
pub open spec fn vi_table() -> Seq<(CopyModeAction, Seq<char>)> {
    seq![
        (CopyModeAction::Motion(Motion::Left), "h, Left"@),
        (CopyModeAction::Motion(Motion::Down), "j, Down"@),
        (CopyModeAction::Motion(Motion::Up), "k, Up"@),
        (CopyModeAction::Motion(Motion::Right), "l, Right"@),
        (CopyModeAction::Motion(Motion::WordForward), "w"@),
        (CopyModeAction::Motion(Motion::WordBackward), "b"@),
        (CopyModeAction::Motion(Motion::WordEnd), "e"@),
        (CopyModeAction::Motion(Motion::LineStart), "0, Home"@),
        (CopyModeAction::Motion(Motion::LineFirstNonBlank), "^"@),
        (CopyModeAction::Motion(Motion::LineEnd), "$, End"@),
        (CopyModeAction::Motion(Motion::Top), "g"@),
        (CopyModeAction::Motion(Motion::Bottom), "G"@),
        (CopyModeAction::Motion(Motion::HalfPageUp), "Ctrl u"@),
        (CopyModeAction::Motion(Motion::HalfPageDown), "Ctrl d"@),
        (CopyModeAction::Motion(Motion::PageUp), "Ctrl b, PageUp"@),
        (CopyModeAction::Motion(Motion::PageDown), "Ctrl f, PageDown"@),
        (CopyModeAction::Select(SelectionMode::Char), "v"@),
        (CopyModeAction::Select(SelectionMode::Line), "V"@),
        (CopyModeAction::Select(SelectionMode::Block), "Ctrl v"@),
        (CopyModeAction::Yank, "y"@),
        (CopyModeAction::YankToClipboard, "Y"@),
        (CopyModeAction::Cancel, "Esc"@),
    ]
}

/// Emacs-style copy-mode keybindings.
pub open spec fn emacs_table() -> Seq<(CopyModeAction, Seq<char>)> {
    seq![
        (CopyModeAction::Motion(Motion::Left), "Ctrl b, Left"@),
        (CopyModeAction::Motion(Motion::Right), "Ctrl f, Right"@),
        (CopyModeAction::Motion(Motion::Down), "Ctrl n, Down"@),
        (CopyModeAction::Motion(Motion::Up), "Ctrl p, Up"@),
        (CopyModeAction::Motion(Motion::LineStart), "Ctrl a, Home"@),
        (CopyModeAction::Motion(Motion::LineEnd), "Ctrl e, End"@),
        (CopyModeAction::Motion(Motion::WordForward), "Alt f"@),
        (CopyModeAction::Motion(Motion::WordBackward), "Alt b"@),
        (CopyModeAction::Motion(Motion::WordEnd), "Alt e"@),
        (CopyModeAction::Motion(Motion::Top), "Alt <"@),
        (CopyModeAction::Motion(Motion::Bottom), "Alt >"@),
        (CopyModeAction::Motion(Motion::PageDown), "Ctrl v, PageDown"@),
        (CopyModeAction::Motion(Motion::PageUp), "Alt v, PageUp"@),
        (CopyModeAction::Motion(Motion::HalfPageDown), "Ctrl d"@),
        (CopyModeAction::Motion(Motion::HalfPageUp), "Ctrl u"@),
        (CopyModeAction::Motion(Motion::LineFirstNonBlank), "Alt m"@),
        (CopyModeAction::Select(SelectionMode::Char), "Ctrl Space"@),
        (CopyModeAction::Select(SelectionMode::Line), "Alt l"@),
        (CopyModeAction::Select(SelectionMode::Block), "Alt r"@),
        (CopyModeAction::Yank, "Alt w"@),
        (CopyModeAction::YankToClipboard, "Alt W"@),
        (CopyModeAction::Cancel, "Ctrl g, Esc"@),
    ]
}

/// The position of each action in [`vi_table`].
pub open spec fn vi_pos(a: CopyModeAction) -> int {
    match a {
        CopyModeAction::Motion(Motion::Left) => 0,
        CopyModeAction::Motion(Motion::Down) => 1,
        CopyModeAction::Motion(Motion::Up) => 2,
        CopyModeAction::Motion(Motion::Right) => 3,
        CopyModeAction::Motion(Motion::WordForward) => 4,
        CopyModeAction::Motion(Motion::WordBackward) => 5,
        CopyModeAction::Motion(Motion::WordEnd) => 6,
        CopyModeAction::Motion(Motion::LineStart) => 7,
        CopyModeAction::Motion(Motion::LineFirstNonBlank) => 8,
        CopyModeAction::Motion(Motion::LineEnd) => 9,
        CopyModeAction::Motion(Motion::Top) => 10,
        CopyModeAction::Motion(Motion::Bottom) => 11,
        CopyModeAction::Motion(Motion::HalfPageUp) => 12,
        CopyModeAction::Motion(Motion::HalfPageDown) => 13,
        CopyModeAction::Motion(Motion::PageUp) => 14,
        CopyModeAction::Motion(Motion::PageDown) => 15,
        CopyModeAction::Select(SelectionMode::Char) => 16,
        CopyModeAction::Select(SelectionMode::Line) => 17,
        CopyModeAction::Select(SelectionMode::Block) => 18,
        CopyModeAction::Yank => 19,
        CopyModeAction::YankToClipboard => 20,
        CopyModeAction::Cancel => 21,
    }
}

/// The position of each action in [`emacs_table`].
pub open spec fn emacs_pos(a: CopyModeAction) -> int {
    match a {
        CopyModeAction::Motion(Motion::Left) => 0,
        CopyModeAction::Motion(Motion::Right) => 1,
        CopyModeAction::Motion(Motion::Down) => 2,
        CopyModeAction::Motion(Motion::Up) => 3,
        CopyModeAction::Motion(Motion::LineStart) => 4,
        CopyModeAction::Motion(Motion::LineEnd) => 5,
        CopyModeAction::Motion(Motion::WordForward) => 6,
        CopyModeAction::Motion(Motion::WordBackward) => 7,
        CopyModeAction::Motion(Motion::WordEnd) => 8,
        CopyModeAction::Motion(Motion::Top) => 9,
        CopyModeAction::Motion(Motion::Bottom) => 10,
        CopyModeAction::Motion(Motion::PageDown) => 11,
        CopyModeAction::Motion(Motion::PageUp) => 12,
        CopyModeAction::Motion(Motion::HalfPageDown) => 13,
        CopyModeAction::Motion(Motion::HalfPageUp) => 14,
        CopyModeAction::Motion(Motion::LineFirstNonBlank) => 15,
        CopyModeAction::Select(SelectionMode::Char) => 16,
        CopyModeAction::Select(SelectionMode::Line) => 17,
        CopyModeAction::Select(SelectionMode::Block) => 18,
        CopyModeAction::Yank => 19,
        CopyModeAction::YankToClipboard => 20,
        CopyModeAction::Cancel => 21,
    }
}

/// vi's copy-mode keybindings: one `(action, key spec)` pair per action.
pub fn vi_preset() -> (r: Vec<(CopyModeAction, &'static str)>)
    ensures
        preset_views(r@) == vi_table(),
{
    let mut r: Vec<(CopyModeAction, &'static str)> = Vec::new();
    r.push((CopyModeAction::Motion(Motion::Left), "h, Left"));
    r.push((CopyModeAction::Motion(Motion::Down), "j, Down"));
    r.push((CopyModeAction::Motion(Motion::Up), "k, Up"));
    r.push((CopyModeAction::Motion(Motion::Right), "l, Right"));
    r.push((CopyModeAction::Motion(Motion::WordForward), "w"));
    r.push((CopyModeAction::Motion(Motion::WordBackward), "b"));
    r.push((CopyModeAction::Motion(Motion::WordEnd), "e"));
    r.push((CopyModeAction::Motion(Motion::LineStart), "0, Home"));
    r.push((CopyModeAction::Motion(Motion::LineFirstNonBlank), "^"));
    r.push((CopyModeAction::Motion(Motion::LineEnd), "$, End"));
    r.push((CopyModeAction::Motion(Motion::Top), "g"));
    r.push((CopyModeAction::Motion(Motion::Bottom), "G"));
    r.push((CopyModeAction::Motion(Motion::HalfPageUp), "Ctrl u"));
    r.push((CopyModeAction::Motion(Motion::HalfPageDown), "Ctrl d"));
    r.push((CopyModeAction::Motion(Motion::PageUp), "Ctrl b, PageUp"));
    r.push((CopyModeAction::Motion(Motion::PageDown), "Ctrl f, PageDown"));
    r.push((CopyModeAction::Select(SelectionMode::Char), "v"));
    r.push((CopyModeAction::Select(SelectionMode::Line), "V"));
    r.push((CopyModeAction::Select(SelectionMode::Block), "Ctrl v"));
    r.push((CopyModeAction::Yank, "y"));
    r.push((CopyModeAction::YankToClipboard, "Y"));
    r.push((CopyModeAction::Cancel, "Esc"));
    proof {
        assert(preset_views(r@) =~= vi_table());
    }
    r
}

/// Emacs-style copy-mode keybindings: one `(action, key spec)` pair per action.
pub fn emacs_preset() -> (r: Vec<(CopyModeAction, &'static str)>)
    ensures
        preset_views(r@) == emacs_table(),
{
    let mut r: Vec<(CopyModeAction, &'static str)> = Vec::new();
    r.push((CopyModeAction::Motion(Motion::Left), "Ctrl b, Left"));
    r.push((CopyModeAction::Motion(Motion::Right), "Ctrl f, Right"));
    r.push((CopyModeAction::Motion(Motion::Down), "Ctrl n, Down"));
    r.push((CopyModeAction::Motion(Motion::Up), "Ctrl p, Up"));
    r.push((CopyModeAction::Motion(Motion::LineStart), "Ctrl a, Home"));
    r.push((CopyModeAction::Motion(Motion::LineEnd), "Ctrl e, End"));
    r.push((CopyModeAction::Motion(Motion::WordForward), "Alt f"));
    r.push((CopyModeAction::Motion(Motion::WordBackward), "Alt b"));
    r.push((CopyModeAction::Motion(Motion::WordEnd), "Alt e"));
    r.push((CopyModeAction::Motion(Motion::Top), "Alt <"));
    r.push((CopyModeAction::Motion(Motion::Bottom), "Alt >"));
    r.push((CopyModeAction::Motion(Motion::PageDown), "Ctrl v, PageDown"));
    r.push((CopyModeAction::Motion(Motion::PageUp), "Alt v, PageUp"));
    r.push((CopyModeAction::Motion(Motion::HalfPageDown), "Ctrl d"));
    r.push((CopyModeAction::Motion(Motion::HalfPageUp), "Ctrl u"));
    r.push((CopyModeAction::Motion(Motion::LineFirstNonBlank), "Alt m"));
    r.push((CopyModeAction::Select(SelectionMode::Char), "Ctrl Space"));
    r.push((CopyModeAction::Select(SelectionMode::Line), "Alt l"));
    r.push((CopyModeAction::Select(SelectionMode::Block), "Alt r"));
    r.push((CopyModeAction::Yank, "Alt w"));
    r.push((CopyModeAction::YankToClipboard, "Alt W"));
    r.push((CopyModeAction::Cancel, "Ctrl g, Esc"));
    proof {
        assert(preset_views(r@) =~= emacs_table());
    }
    r
}

/// Each action sits at its position in [`vi_table`].
pub proof fn lemma_vi_pos(a: CopyModeAction)
    ensures
        0 <= vi_pos(a) < vi_table().len(),
        vi_table()[vi_pos(a)].0 == a,
{
    match a {
        CopyModeAction::Motion(Motion::Left) => {},
        CopyModeAction::Motion(Motion::Down) => {},
        CopyModeAction::Motion(Motion::Up) => {},
        CopyModeAction::Motion(Motion::Right) => {},
        CopyModeAction::Motion(Motion::WordForward) => {},
        CopyModeAction::Motion(Motion::WordBackward) => {},
        CopyModeAction::Motion(Motion::WordEnd) => {},
        CopyModeAction::Motion(Motion::LineStart) => {},
        CopyModeAction::Motion(Motion::LineFirstNonBlank) => {},
        CopyModeAction::Motion(Motion::LineEnd) => {},
        CopyModeAction::Motion(Motion::Top) => {},
        CopyModeAction::Motion(Motion::Bottom) => {},
        CopyModeAction::Motion(Motion::HalfPageUp) => {},
        CopyModeAction::Motion(Motion::HalfPageDown) => {},
        CopyModeAction::Motion(Motion::PageUp) => {},
        CopyModeAction::Motion(Motion::PageDown) => {},
        CopyModeAction::Select(SelectionMode::Char) => {},
        CopyModeAction::Select(SelectionMode::Line) => {},
        CopyModeAction::Select(SelectionMode::Block) => {},
        CopyModeAction::Yank => {},
        CopyModeAction::YankToClipboard => {},
        CopyModeAction::Cancel => {},
    }
}

/// [`vi_table`] binds every action exactly once.
pub proof fn lemma_vi_table_complete()
    ensures
        table_complete(vi_table()),
{
    let t = vi_table();
    assert forall|a: CopyModeAction| 0 <= #[trigger] vi_pos(a) < t.len() && t[vi_pos(a)].0 == a by {
        lemma_vi_pos(a);
    }
    assert forall|i: int| 0 <= i < t.len() implies #[trigger] vi_pos(t[i].0) == i by {
        if i == 0 {} else if i == 1 {} else if i == 2 {} else if i == 3 {} else if i == 4 {} else if i == 5 {} else if i == 6 {} else if i == 7 {} else if i == 8 {} else if i == 9 {} else if i == 10 {} else if i == 11 {} else if i == 12 {} else if i == 13 {} else if i == 14 {} else if i == 15 {} else if i == 16 {} else if i == 17 {} else if i == 18 {} else if i == 19 {} else if i == 20 {} else if i == 21 {}
    }
    lemma_complete_by_position(t, |a: CopyModeAction| vi_pos(a));
}

/// Each action sits at its position in [`emacs_table`].
pub proof fn lemma_emacs_pos(a: CopyModeAction)
    ensures
        0 <= emacs_pos(a) < emacs_table().len(),
        emacs_table()[emacs_pos(a)].0 == a,
{
    match a {
        CopyModeAction::Motion(Motion::Left) => {},
        CopyModeAction::Motion(Motion::Right) => {},
        CopyModeAction::Motion(Motion::Down) => {},
        CopyModeAction::Motion(Motion::Up) => {},
        CopyModeAction::Motion(Motion::LineStart) => {},
        CopyModeAction::Motion(Motion::LineEnd) => {},
        CopyModeAction::Motion(Motion::WordForward) => {},
        CopyModeAction::Motion(Motion::WordBackward) => {},
        CopyModeAction::Motion(Motion::WordEnd) => {},
        CopyModeAction::Motion(Motion::Top) => {},
        CopyModeAction::Motion(Motion::Bottom) => {},
        CopyModeAction::Motion(Motion::PageDown) => {},
        CopyModeAction::Motion(Motion::PageUp) => {},
        CopyModeAction::Motion(Motion::HalfPageDown) => {},
        CopyModeAction::Motion(Motion::HalfPageUp) => {},
        CopyModeAction::Motion(Motion::LineFirstNonBlank) => {},
        CopyModeAction::Select(SelectionMode::Char) => {},
        CopyModeAction::Select(SelectionMode::Line) => {},
        CopyModeAction::Select(SelectionMode::Block) => {},
        CopyModeAction::Yank => {},
        CopyModeAction::YankToClipboard => {},
        CopyModeAction::Cancel => {},
    }
}

/// [`emacs_table`] binds every action exactly once.
pub proof fn lemma_emacs_table_complete()
    ensures
        table_complete(emacs_table()),
{
    let t = emacs_table();
    assert forall|a: CopyModeAction| 0 <= #[trigger] emacs_pos(a) < t.len() && t[emacs_pos(a)].0 == a by {
        lemma_emacs_pos(a);
    }
    assert forall|i: int| 0 <= i < t.len() implies #[trigger] emacs_pos(t[i].0) == i by {
        if i == 0 {} else if i == 1 {} else if i == 2 {} else if i == 3 {} else if i == 4 {} else if i == 5 {} else if i == 6 {} else if i == 7 {} else if i == 8 {} else if i == 9 {} else if i == 10 {} else if i == 11 {} else if i == 12 {} else if i == 13 {} else if i == 14 {} else if i == 15 {} else if i == 16 {} else if i == 17 {} else if i == 18 {} else if i == 19 {} else if i == 20 {} else if i == 21 {}
    }
    lemma_complete_by_position(t, |a: CopyModeAction| emacs_pos(a));
}

/// A preset's `(action, key spec)` pairs with the specs as character views.
pub open spec fn preset_views(p: Seq<(CopyModeAction, &str)>) -> Seq<(CopyModeAction, Seq<char>)> {
    p.map_values(|e: (CopyModeAction, &str)| (e.0, e.1@))
}

/// Resolved bindings with the specs as character views.
pub open spec fn binding_views(p: Seq<(CopyModeAction, String)>) -> Seq<
    (CopyModeAction, Seq<char>),
> {
    p.map_values(|e: (CopyModeAction, String)| (e.0, e.1@))
}

/// Whether some position of `t` binds `a`.
pub open spec fn binds(t: Seq<(CopyModeAction, Seq<char>)>, a: CopyModeAction) -> bool {
    exists|i: int| 0 <= i < t.len() && #[trigger] t[i].0 == a
}

/// Every action appears in `t`, and at exactly one position.
pub open spec fn table_complete(t: Seq<(CopyModeAction, Seq<char>)>) -> bool {
    &&& forall|a: CopyModeAction| #[trigger] binds(t, a)
    &&& forall|i: int, j: int| 0 <= i < j < t.len() ==> #[trigger] t[i].0 != #[trigger] t[j].0
}

pub proof fn lemma_complete_by_position(
    t: Seq<(CopyModeAction, Seq<char>)>,
    pos: spec_fn(CopyModeAction) -> int,
)
    requires
        forall|a: CopyModeAction| 0 <= #[trigger] pos(a) < t.len() && t[pos(a)].0 == a,
        forall|i: int| 0 <= i < t.len() ==> #[trigger] pos(t[i].0) == i,
    ensures
        table_complete(t),
{
    assert forall|a: CopyModeAction| #[trigger] binds(t, a) by {
        let i = pos(a);
        assert(0 <= i < t.len() && t[i].0 == a);
    }
    assert forall|i: int, j: int| 0 <= i < j < t.len() implies #[trigger] t[i].0
        != #[trigger] t[j].0 by {
        if t[i].0 == t[j].0 {
            assert(pos(t[i].0) == i);
            assert(pos(t[j].0) == j);
        }
    }
}

/// Whether a config key starts with `key_`.
pub open spec fn has_key_prefix(k: Seq<char>) -> bool {
    k.len() >= 4 && k.take(4) == "key_"@
}

/// The action a `key_<action>` config key overrides, if it names one.
pub open spec fn entry_override(k: Seq<char>) -> Option<CopyModeAction> {
    if has_key_prefix(k) {
        named_action(k.skip(4))
    } else {
        None
    }
}

/// The first position at or after `i` whose action is `a` (or `b.len()`).
pub open spec fn find_from(b: Seq<(CopyModeAction, Seq<char>)>, a: CopyModeAction, i: int) -> int
    decreases b.len() - i,
{
    if i < 0 || i >= b.len() {
        b.len() as int
    } else if b[i].0 == a {
        i
    } else {
        find_from(b, a, i + 1)
    }
}

/// `b` with action `a`'s key spec replaced by `v` (appended when absent).
pub open spec fn set_binding(b: Seq<(CopyModeAction, Seq<char>)>, a: CopyModeAction, v: Seq<char>) -> Seq<
    (CopyModeAction, Seq<char>),
> {
    let i = find_from(b, a, 0);
    if i < b.len() {
        b.update(i, (a, v))
    } else {
        b.push((a, v))
    }
}

/// `b` after applying every `key_<action>` entry of `entries`, in order.
pub open spec fn apply_overrides(
    b: Seq<(CopyModeAction, Seq<char>)>,
    entries: Seq<(Seq<char>, Seq<char>)>,
) -> Seq<(CopyModeAction, Seq<char>)>
    decreases entries.len(),
{
    if entries.len() == 0 {
        b
    } else {
        let p = apply_overrides(b, entries.drop_last());
        match entry_override(entries.last().0) {
            Some(a) => set_binding(p, a, entries.last().1),
            None => p,
        }
    }
}

/// The value of the last entry of `entries` that overrides action `a`.
pub open spec fn last_override(entries: Seq<(Seq<char>, Seq<char>)>, a: CopyModeAction) -> Option<
    Seq<char>,
>
    decreases entries.len(),
{
    if entries.len() == 0 {
        None
    } else if entry_override(entries.last().0) == Some(a) {
        Some(entries.last().1)
    } else {
        last_override(entries.drop_last(), a)
    }
}

/// The value the first entry keyed `key` holds.
pub open spec fn lookup(entries: Seq<(Seq<char>, Seq<char>)>, key: Seq<char>) -> Option<Seq<char>>
    decreases entries.len(),
{
    if entries.len() == 0 {
        None
    } else if entries[0].0 == key {
        Some(entries[0].1)
    } else {
        lookup(entries.drop_first(), key)
    }
}

/// The preset a `keymap` value selects: emacs for `"emacs"`, vi otherwise.
pub open spec fn preset_table(choice: Option<Seq<char>>) -> Seq<(CopyModeAction, Seq<char>)> {
    if choice == Some("emacs"@) {
        emacs_table()
    } else {
        vi_table()
    }
}

/// The warning for an unknown `keymap` value.
pub open spec fn keymap_message(v: Seq<char>) -> Seq<char> {
    "unknown keymap '"@ + v + "' (expected 'vi' or 'emacs'), using vi"@
}

/// The warning for a `key_<action>` entry naming no known action.
pub open spec fn action_message(action_word: Seq<char>, key: Seq<char>) -> Seq<char> {
    "unknown copy-mode action '"@ + action_word + "' in '"@ + key + "', ignoring"@
}

/// The warnings a `keymap` value produces.
pub open spec fn keymap_warnings(choice: Option<Seq<char>>) -> Seq<Seq<char>> {
    match choice {
        Some(v) => if v == "vi"@ || v == "emacs"@ {
            Seq::empty()
        } else {
            seq![keymap_message(v)]
        },
        None => Seq::empty(),
    }
}

/// One warning per `key_<action>` entry whose action is unknown, in order.
pub open spec fn entry_warnings(entries: Seq<(Seq<char>, Seq<char>)>) -> Seq<Seq<char>>
    decreases entries.len(),
{
    if entries.len() == 0 {
        Seq::empty()
    } else {
        let k = entries.last().0;
        entry_warnings(entries.drop_last()) + if has_key_prefix(k) && named_action(k.skip(4))
            is None {
            seq![action_message(k.skip(4), k)]
        } else {
            Seq::empty()
        }
    }
}

/// The character views of a vector of strings.
pub open spec fn string_views(v: Seq<String>) -> Seq<Seq<char>> {
    v.map_values(|s: String| s@)
}

/// The entries of a configuration map, as character views, in the map's
/// iteration (ascending key) order.
pub uninterp spec fn config_entries_of(config: BTreeMap<String, String>) -> Seq<
    (Seq<char>, Seq<char>),
>;

/// Owned entry pairs with their strings as character views.
pub open spec fn entry_views(v: Seq<(String, String)>) -> Seq<(Seq<char>, Seq<char>)> {
    v.map_values(|e: (String, String)| (e.0@, e.1@))
}

/// Whether `a` sorts strictly before `b`, comparing characters by their
/// scalar values (the order of `String`, whose UTF-8 bytes compare the same
/// way).
pub open spec fn key_before(a: Seq<char>, b: Seq<char>) -> bool {
    exists|k: int|
        0 <= k <= a.len() && k <= b.len() && a.take(k) == b.take(k) && ((k == a.len() && k
            < b.len()) || (k < a.len() && k < b.len() && (a[k] as u32) < (b[k] as u32)))
}

/// The key/value pairs of a map with their strings as character views.
pub open spec fn pair_views<'a>(v: Seq<(&'a String, &'a String)>) -> Seq<(Seq<char>, Seq<char>)> {
    v.map_values(|e: (&'a String, &'a String)| (e.0@, e.1@))
}

/// Calls `BTreeMap::iter` and collects what it yields: a reference to every
/// key of the map once, with its value, in ascending key order. The views
/// of the pairs are [`config_entries_of`].
#[verifier::external_body]
fn config_pairs<'a>(config: &'a BTreeMap<String, String>) -> (r: Vec<(&'a String, &'a String)>)
    ensures
        pair_views(r@) == config_entries_of(*config),
        forall|i: int|
            0 <= i < r@.len() ==> config@.contains_key(*(#[trigger] r@[i]).0) && config@[*r@[i].0]
                == *r@[i].1,
        forall|k: String|
            #[trigger] config@.contains_key(k) ==> exists|i: int| 0 <= i < r@.len() && *r@[i].0 == k,
        forall|i: int, j: int| 0 <= i < j < r@.len() ==> key_before(r@[i].0@, r@[j].0@),
{
    config.iter().collect()
}

/// Whether `m` holds a pair whose views are `e`.
pub open spec fn pair_in_map(m: Map<String, String>, e: (Seq<char>, Seq<char>)) -> bool {
    exists|s: String| #[trigger] m.contains_key(s) && s@ == e.0 && m[s]@ == e.1
}

/// Whether some entry of `ev` is `(k, v)`.
pub open spec fn pair_in_entries(ev: Seq<(Seq<char>, Seq<char>)>, k: Seq<char>, v: Seq<char>) -> bool {
    exists|i: int| 0 <= i < ev.len() && #[trigger] ev[i] == (k, v)
}

/// Whether the entries `ev` hold exactly the pairs of `m`, read as
/// character views.
pub open spec fn covers(ev: Seq<(Seq<char>, Seq<char>)>, m: Map<String, String>) -> bool {
    &&& forall|i: int| 0 <= i < ev.len() ==> #[trigger] pair_in_map(m, ev[i])
    &&& forall|s: String| #[trigger] m.contains_key(s) ==> pair_in_entries(ev, s@, m[s]@)
}

/// The entries' keys are strictly ascending.
pub open spec fn keys_ascending(ev: Seq<(Seq<char>, Seq<char>)>) -> bool {
    forall|i: int, j: int| 0 <= i < j < ev.len() ==> key_before(#[trigger] ev[i].0, #[trigger] ev[j].0)
}

/// The value `m` holds under a key whose characters are `key`, if any.
pub open spec fn map_value(m: Map<String, String>, key: Seq<char>) -> Option<Seq<char>> {
    if exists|s: String| #[trigger] m.contains_key(s) && s@ == key {
        Some(m[choose|s: String| #[trigger] m.contains_key(s) && s@ == key]@)
    } else {
        None
    }
}

/// The map's entries, owned, in ascending key order: exactly its pairs.
fn config_entries(config: &BTreeMap<String, String>) -> (r: Vec<(String, String)>)
    ensures
        entry_views(r@) == config_entries_of(*config),
        covers(entry_views(r@), config@),
        keys_ascending(entry_views(r@)),
{
    let pairs = config_pairs(config);
    let mut out: Vec<(String, String)> = Vec::new();
    let mut i: usize = 0;
    while i < pairs.len()
        invariant
            i <= pairs@.len(),
            entry_views(out@) == pair_views(pairs@).take(i as int),
        decreases pairs@.len() - i,
    {
        let (k, v) = pairs[i];
        let ghost before = out@;
        out.push((k.clone(), v.clone()));
        proof {
            assert(entry_views(out@) =~= entry_views(before).push((k@, v@)));
            assert(pair_views(pairs@).take(i + 1) =~= pair_views(pairs@).take(i as int).push(
                pair_views(pairs@)[i as int],
            ));
        }
        i = i + 1;
    }
    proof {
        let ev = entry_views(out@);
        let pv = pair_views(pairs@);
        assert(pv.take(i as int) =~= pv);
        assert forall|a: int| 0 <= a < ev.len() implies #[trigger] pair_in_map(config@, ev[a]) by {
            let s = *pairs@[a].0;
            assert(config@.contains_key(s));
            assert(ev[a] == pv[a]);
        }
        assert forall|s: String| #[trigger] config@.contains_key(s) implies pair_in_entries(
            ev,
            s@,
            config@[s]@,
        ) by {
            let a = choose|a: int| 0 <= a < pairs@.len() && *pairs@[a].0 == s;
            assert(ev[a] == pv[a]);
        }
        assert forall|a: int, b: int| 0 <= a < b < ev.len() implies key_before(
            #[trigger] ev[a].0,
            #[trigger] ev[b].0,
        ) by {
            assert(ev[a] == pv[a] && ev[b] == pv[b]);
        }
    }
    out
}

/// The position of the first entry keyed `keymap`.
fn find_keymap_entry(entries: &Vec<(String, String)>) -> (r: Option<usize>)
    ensures
        match lookup(entry_views(entries@), "keymap"@) {
            Some(v) => r matches Some(i) && i < entries@.len() && entries@[i as int].1@ == v,
            None => r is None,
        },
{
    let ghost ev = entry_views(entries@);
    proof {
        assert(ev.skip(0) =~= ev);
    }
    let mut i: usize = 0;
    while i < entries.len()
        invariant
            i <= entries@.len(),
            ev == entry_views(entries@),
            lookup(ev, "keymap"@) == lookup(ev.skip(i as int), "keymap"@),
        decreases entries@.len() - i,
    {
        proof {
            assert(ev.skip(i as int).drop_first() =~= ev.skip(i + 1));
            assert(ev.skip(i as int)[0] == ev[i as int]);
            assert(ev[i as int] == (entries@[i as int].0@, entries@[i as int].1@));
        }
        if text::str_eq(entries[i].0.as_str(), "keymap") {
            return Some(i);
        }
        i = i + 1;
    }
    proof {
        assert(ev.skip(i as int) =~= Seq::<(Seq<char>, Seq<char>)>::empty());
    }
    None
}

/// The `key_<action>` suffix of a config key, if it has that prefix.
fn strip_key_prefix(key: &str) -> (r: Option<String>)
    ensures
        has_key_prefix(key@) ==> (r matches Some(s) && s@ == key@.skip(4)),
        !has_key_prefix(key@) ==> r is None,
{
    let cs = text::chars_of(key);
    proof {
        reveal_strlit("key_");
        assert("key_"@ =~= seq!['k', 'e', 'y', '_']);
        if cs@.len() >= 4 {
            assert(cs@.take(4) =~= seq![cs@[0], cs@[1], cs@[2], cs@[3]]);
        }
    }
    if cs.len() >= 4 && cs[0] == 'k' && cs[1] == 'e' && cs[2] == 'y' && cs[3] == '_' {
        let mut rest: Vec<char> = Vec::new();
        text::append_range(&mut rest, cs.as_slice(), 4, cs.len());
        proof {
            assert(rest@ =~= key@.skip(4));
        }
        Some(text::string_of(rest.as_slice()))
    } else {
        None
    }
}

fn set_binding_exec(bindings: &mut Vec<(CopyModeAction, String)>, action: CopyModeAction, v: String)
    ensures
        binding_views(final(bindings)@) == set_binding(binding_views(old(bindings)@), action, v@),
{
    let ghost b = binding_views(bindings@);
    let mut i: usize = 0;
    while i < bindings.len()
        invariant
            i <= bindings@.len(),
            b == binding_views(bindings@),
            bindings@ == old(bindings)@,
            find_from(b, action, 0) == find_from(b, action, i as int),
        decreases bindings@.len() - i,
    {
        if bindings[i].0 == action {
            bindings.set(i, (action, v));
            proof {
                assert(binding_views(bindings@) =~= b.update(i as int, (action, v@)));
            }
            return;
        }
        i = i + 1;
    }
    bindings.push((action, v));
    proof {
        assert(binding_views(bindings@) =~= b.push((action, v@)));
    }
}

fn owned_bindings(preset: &Vec<(CopyModeAction, &'static str)>) -> (r: Vec<(CopyModeAction, String)>)
    ensures
        binding_views(r@) == preset_views(preset@),
{
    let mut r: Vec<(CopyModeAction, String)> = Vec::new();
    let mut i: usize = 0;
    while i < preset.len()
        invariant
            i <= preset@.len(),
            binding_views(r@) == preset_views(preset@).take(i as int),
        decreases preset@.len() - i,
    {
        let (a, s) = preset[i];
        let owned = s.to_owned();
        let ghost before = r@;
        r.push((a, owned));
        proof {
            assert(owned@ == s@);
            assert(binding_views(r@) =~= binding_views(before).push((a, s@)));
            assert(preset_views(preset@).take(i + 1) =~= preset_views(preset@).take(i as int).push(preset_views(preset@)[i as int]));
            assert(preset_views(preset@)[i as int] == (preset@[i as int].0, preset@[i as int].1@));
            assert(binding_views(r@) =~= preset_views(preset@).take(i + 1));
        }
        i = i + 1;
    }
    proof {
        assert(preset_views(preset@).take(preset@.len() as int) =~= preset_views(preset@));
    }
    r
}

fn message3(a: &str, b: &[char], c: &str, d: &str, e: &str) -> (r: String)
    ensures
        r@ == a@ + b@ + c@ + d@ + e@,
{
    let mut out: Vec<char> = Vec::new();
    text::append_str(&mut out, a);
    text::append_all(&mut out, b);
    text::append_str(&mut out, c);
    text::append_str(&mut out, d);
    text::append_str(&mut out, e);
    text::string_of(out.as_slice())
}

/// Keys in strict order are different.
proof fn lemma_key_before_ne(a: Seq<char>, b: Seq<char>)
    requires
        key_before(a, b),
    ensures
        a != b,
{
    let k = choose|k: int|
        0 <= k <= a.len() && k <= b.len() && a.take(k) == b.take(k) && ((k == a.len() && k
            < b.len()) || (k < a.len() && k < b.len() && (a[k] as u32) < (b[k] as u32)));
}

/// With distinct keys, the value looked up is the one entry holding the key.
proof fn lemma_lookup_unique(ev: Seq<(Seq<char>, Seq<char>)>, key: Seq<char>)
    requires
        keys_ascending(ev),
    ensures
        forall|j: int| 0 <= j < ev.len() && ev[j].0 == key ==> lookup(ev, key) == Some(ev[j].1),
        (forall|j: int| 0 <= j < ev.len() ==> ev[j].0 != key) ==> lookup(ev, key) is None,
    decreases ev.len(),
{
    if ev.len() > 0 {
        let t = ev.drop_first();
        assert forall|i: int, j: int| 0 <= i < j < t.len() implies key_before(
            #[trigger] t[i].0,
            #[trigger] t[j].0,
        ) by {
            assert(t[i] == ev[i + 1] && t[j] == ev[j + 1]);
        }
        lemma_lookup_unique(t, key);
        assert forall|j: int| 0 <= j < ev.len() && ev[j].0 == key implies lookup(ev, key) == Some(
            ev[j].1,
        ) by {
            if j > 0 {
                if ev[0].0 == key {
                    lemma_key_before_ne(ev[0].0, ev[j].0);
                }
                assert(t[j - 1] == ev[j]);
            }
        }
        if forall|j: int| 0 <= j < ev.len() ==> ev[j].0 != key {
            assert forall|j: int| 0 <= j < t.len() implies t[j].0 != key by {
                assert(t[j] == ev[j + 1]);
            }
        }
    }
}

/// With distinct keys, and one key `k` alone overriding `a`, the last
/// override of `a` is the value under `k`.
proof fn lemma_last_override_unique(
    ev: Seq<(Seq<char>, Seq<char>)>,
    a: CopyModeAction,
    k: Seq<char>,
)
    requires
        keys_ascending(ev),
        forall|x: Seq<char>| (#[trigger] entry_override(x) == Some(a)) == (x == k),
    ensures
        last_override(ev, a) == lookup(ev, k),
    decreases ev.len(),
{
    lemma_lookup_unique(ev, k);
    if ev.len() > 0 {
        let init = ev.drop_last();
        assert forall|i: int, j: int| 0 <= i < j < init.len() implies key_before(
            #[trigger] init[i].0,
            #[trigger] init[j].0,
        ) by {
            assert(init[i] == ev[i] && init[j] == ev[j]);
        }
        lemma_last_override_unique(init, a, k);
        lemma_lookup_unique(init, k);
        let n = ev.len() - 1;
        assert(ev.last() == ev[n]);
        if entry_override(ev.last().0) != Some(a) {
            assert(ev[n].0 != k);
            if exists|j: int| 0 <= j < init.len() && init[j].0 == k {
                let j = choose|j: int| 0 <= j < init.len() && init[j].0 == k;
                assert(init[j] == ev[j]);
            } else {
                assert forall|j: int| 0 <= j < ev.len() implies ev[j].0 != k by {
                    if j < n {
                        assert(init[j] == ev[j]);
                    }
                }
            }
        }
    }
}

/// Exactly the key `key_<name>` overrides an action.
proof fn lemma_override_key(a: CopyModeAction)
    ensures
        forall|x: Seq<char>| (#[trigger] entry_override(x) == Some(a)) == (x == "key_"@ + name_of(a)),
{
    reveal_strlit("key_");
    law_action_names_round_trip(a, name_of(a));
    let k = "key_"@ + name_of(a);
    assert(k.take(4) =~= "key_"@);
    assert(k.skip(4) =~= name_of(a));
    assert forall|x: Seq<char>| (#[trigger] entry_override(x) == Some(a)) == (x == k) by {
        if entry_override(x) == Some(a) {
            law_action_names_round_trip(a, x.skip(4));
            assert(x =~= x.take(4) + x.skip(4));
        }
    }
}

/// Entries covering a map with distinct keys look up what the map holds.
proof fn lemma_map_value(ev: Seq<(Seq<char>, Seq<char>)>, m: Map<String, String>, key: Seq<char>)
    requires
        covers(ev, m),
        keys_ascending(ev),
    ensures
        lookup(ev, key) == map_value(m, key),
{
    lemma_lookup_unique(ev, key);
    if exists|j: int| 0 <= j < ev.len() && ev[j].0 == key {
        let j = choose|j: int| 0 <= j < ev.len() && ev[j].0 == key;
        assert(pair_in_map(m, ev[j]));
        let w = choose|s: String| #[trigger] m.contains_key(s) && s@ == ev[j].0 && m[s]@ == ev[j].1;
        assert(m.contains_key(w) && w@ == key);
        let c = choose|s: String| #[trigger] m.contains_key(s) && s@ == key;
        assert(pair_in_entries(ev, c@, m[c]@));
        let i = choose|i: int| 0 <= i < ev.len() && #[trigger] ev[i] == (c@, m[c]@);
        if i < j {
            lemma_key_before_ne(ev[i].0, ev[j].0);
        } else if j < i {
            lemma_key_before_ne(ev[j].0, ev[i].0);
        }
    } else {
        if exists|s: String| #[trigger] m.contains_key(s) && s@ == key {
            let c = choose|s: String| #[trigger] m.contains_key(s) && s@ == key;
            assert(pair_in_entries(ev, c@, m[c]@));
            let i = choose|i: int| 0 <= i < ev.len() && #[trigger] ev[i] == (c@, m[c]@);
            assert(ev[i].0 == key);
        }
    }
}

/// The keymap a configuration map gives, read from the map itself: its
/// `keymap` value picks the preset, and each action keeps its preset key
/// spec unless the map has a `key_<action>` value, which replaces it.
pub open spec fn keymap_of_map(m: Map<String, String>) -> Seq<(CopyModeAction, Seq<char>)> {
    let t = preset_table(map_value(m, "keymap"@));
    Seq::new(
        t.len(),
        |i: int|
            (
                t[i].0,
                match map_value(m, "key_"@ + name_of(t[i].0)) {
                    Some(v) => v,
                    None => t[i].1,
                },
            ),
    )
}

/// Builds the effective copy-mode keymap from a configuration, with the
/// warnings its mistakes produce.
///
/// `keymap` selects the preset (`"vi"`, the default, or `"emacs"`; any
/// other value warns and uses vi). Each `key_<action>` entry, in the map's
/// order, replaces that action's key spec; one naming no known action warns
/// and is skipped. Key specs are returned unsplit. The map holds each key
/// once, so the entries' keys are strictly ascending.
pub fn resolve_keymap(config: &BTreeMap<String, String>) -> (r: (
    Vec<(CopyModeAction, String)>,
    Vec<String>,
))
    ensures
        ({
            let entries = config_entries_of(*config);
            let choice = lookup(entries, "keymap"@);
            &&& forall|i: int, j: int|
                0 <= i < j < entries.len() ==> key_before(
                    #[trigger] entries[i].0,
                    #[trigger] entries[j].0,
                )
            &&& binding_views(r.0@) == apply_overrides(preset_table(choice), entries)
            &&& string_views(r.1@) == keymap_warnings(choice) + entry_warnings(entries)
            &&& binding_views(r.0@) == keymap_of_map(config@)
        }),
{
    let entries = config_entries(config);
    proof {
        let ev = entry_views(entries@);
        assert forall|i: int, j: int| 0 <= i < j < ev.len() implies key_before(
            #[trigger] ev[i].0,
            #[trigger] ev[j].0,
        ) by {
            assert(ev[i].0 == entries@[i].0@ && ev[j].0 == entries@[j].0@);
        }
    }
    let r = resolve_keymap_entries(&entries);
    proof {
        let ev = entry_views(entries@);
        let m = config@;
        lemma_map_value(ev, m, "keymap"@);
        let choice = lookup(ev, "keymap"@);
        law_override_replaces_preset(ev, choice);
        let t = preset_table(choice);
        let b = binding_views(r.0@);
        assert forall|i: int| 0 <= i < t.len() implies #[trigger] b[i] == keymap_of_map(m)[i] by {
            let a = t[i].0;
            lemma_override_key(a);
            lemma_last_override_unique(ev, a, "key_"@ + name_of(a));
            lemma_map_value(ev, m, "key_"@ + name_of(a));
        }
        assert(b =~= keymap_of_map(m));
    }
    r
}

/// [`resolve_keymap`] over configuration entries given in order: the
/// first `keymap` entry selects the preset, and each `key_<action>` entry
/// in turn overrides or warns.
pub fn resolve_keymap_entries(entries: &Vec<(String, String)>) -> (r: (
    Vec<(CopyModeAction, String)>,
    Vec<String>,
))
    ensures
        ({
            let ev = entry_views(entries@);
            let choice = lookup(ev, "keymap"@);
            &&& binding_views(r.0@) == apply_overrides(preset_table(choice), ev)
            &&& string_views(r.1@) == keymap_warnings(choice) + entry_warnings(ev)
        }),
{
    let ghost ev = entry_views(entries@);
    let ghost choice = lookup(ev, "keymap"@);
    let mut warnings: Vec<String> = Vec::new();
    let use_emacs = match find_keymap_entry(entries) {
        None => false,
        Some(i) => {
            let v = entries[i].1.as_str();
            if text::str_eq(v, "vi") {
                false
            } else if text::str_eq(v, "emacs") {
                true
            } else {
                let empty: Vec<char> = Vec::new();
                warnings.push(
                    message3(
                        "unknown keymap '",
                        empty.as_slice(),
                        v,
                        "' (expected 'vi' or 'emacs'), using vi",
                        "",
                    ),
                );
                proof {
                    reveal_strlit("");
                    assert("unknown keymap '"@ + empty@ + v@ + "' (expected 'vi' or 'emacs'), using vi"@
                        + ""@ =~= keymap_message(v@));
                }
                false
            }
        },
    };
    proof {
        assert(string_views(warnings@) =~= keymap_warnings(choice));
    }
    let preset = if use_emacs {
        emacs_preset()
    } else {
        vi_preset()
    };
    let mut bindings = owned_bindings(&preset);
    let ghost kw = keymap_warnings(choice);
    proof {
        reveal_strlit("vi");
        reveal_strlit("emacs");
        assert("vi"@.len() != "emacs"@.len());
        assert(apply_overrides(preset_table(choice), ev.take(0)) == preset_table(choice));
        assert(ev.take(0) =~= Seq::<(Seq<char>, Seq<char>)>::empty());
        assert(kw + entry_warnings(ev.take(0)) =~= kw);
    }
    let mut i: usize = 0;
    while i < entries.len()
        invariant
            i <= entries@.len(),
            ev == entry_views(entries@),
            binding_views(bindings@) == apply_overrides(preset_table(choice), ev.take(i as int)),
            string_views(warnings@) == kw + entry_warnings(ev.take(i as int)),
        decreases entries@.len() - i,
    {
        let key = entries[i].0.as_str();
        proof {
            assert(ev.take(i + 1).drop_last() =~= ev.take(i as int));
            assert(ev.take(i + 1).last() == ev[i as int]);
            assert(ev[i as int] == (entries@[i as int].0@, entries@[i as int].1@));
        }
        match strip_key_prefix(key) {
            None => {
                proof {
                    assert(string_views(warnings@) =~= kw + entry_warnings(ev.take(i + 1)));
                }
            },
            Some(action_word) => {
                match action_by_name(action_word.as_str()) {
                    Some(action) => {
                        set_binding_exec(&mut bindings, action, entries[i].1.clone());
                        proof {
                            assert(string_views(warnings@) =~= kw + entry_warnings(ev.take(i + 1)));
                        }
                    },
                    None => {
                        let msg = message3(
                            "unknown copy-mode action '",
                            text::chars_of(action_word.as_str()).as_slice(),
                            "' in '",
                            key,
                            "', ignoring",
                        );
                        let ghost before = warnings@;
                        warnings.push(msg);
                        proof {
                            assert(string_views(warnings@) =~= string_views(before).push(msg@));
                            assert(string_views(warnings@) =~= kw + entry_warnings(ev.take(i + 1)));
                        }
                    },
                }
            },
        }
        i = i + 1;
    }
    proof {
        assert(ev.take(entries@.len() as int) =~= ev);
    }
    (bindings, warnings)
}

/// Applying overrides to a complete table keeps its shape and gives each
/// action the value of the last entry that overrides it, or its own spec.
pub proof fn lemma_apply_overrides(
    b: Seq<(CopyModeAction, Seq<char>)>,
    entries: Seq<(Seq<char>, Seq<char>)>,
)
    requires
        table_complete(b),
    ensures
        apply_overrides(b, entries).len() == b.len(),
        forall|i: int|
            0 <= i < b.len() ==> #[trigger] apply_overrides(b, entries)[i] == (
            b[i].0,
            match last_override(entries, b[i].0) {
                Some(v) => v,
                None => b[i].1,
            },
        ),
    decreases entries.len(),
{
    if entries.len() > 0 {
        let p = apply_overrides(b, entries.drop_last());
        lemma_apply_overrides(b, entries.drop_last());
        match entry_override(entries.last().0) {
            Some(a) => {
                assert(binds(b, a));
                let j = choose|j: int| 0 <= j < b.len() && #[trigger] b[j].0 == a;
                assert(p[j].0 == a);
                lemma_find_from(p, a, 0, j);
                assert forall|i: int| 0 <= i < b.len() implies #[trigger] apply_overrides(
                    b,
                    entries,
                )[i] == (
                b[i].0,
                match last_override(entries, b[i].0) {
                    Some(v) => v,
                    None => b[i].1,
                },
            ) by {
                    assert(p[i].0 == b[i].0);
                    if i != j {
                        assert(b[i].0 != b[j].0);
                    }
                }
            },
            None => {},
        }
    }
}

pub proof fn lemma_find_from(
    p: Seq<(CopyModeAction, Seq<char>)>,
    a: CopyModeAction,
    i: int,
    j: int,
)
    requires
        0 <= i <= j < p.len(),
        p[j].0 == a,
        forall|k: int| i <= k < j ==> #[trigger] p[k].0 != a,
    ensures
        find_from(p, a, i) == j,
    decreases j - i,
{
    if i < j {
        lemma_find_from(p, a, i + 1, j);
    }
}

/// A `key_<action>` entry replaces that action's preset key spec rather
/// than adding to it: each action of the selected preset ends up bound to
/// the value of the last entry overriding it, or keeps its preset spec; the
/// table's order and length never change.
pub proof fn law_override_replaces_preset(
    entries: Seq<(Seq<char>, Seq<char>)>,
    choice: Option<Seq<char>>,
)
    ensures
        ({
            let t = preset_table(choice);
            let r = apply_overrides(t, entries);
            &&& r.len() == t.len()
            &&& forall|i: int|
                0 <= i < t.len() ==> #[trigger] r[i] == (
                t[i].0,
                match last_override(entries, t[i].0) {
                    Some(v) => v,
                    None => t[i].1,
                },
            )
        }),
{
    lemma_vi_table_complete();
    lemma_emacs_table_complete();
    lemma_apply_overrides(preset_table(choice), entries);
}

/// The non-empty trimmed pieces of `pieces`, in order.
pub open spec fn nonempty_trimmed(pieces: Seq<Seq<char>>) -> Seq<Seq<char>>
    decreases pieces.len(),
{
    if pieces.len() == 0 {
        Seq::empty()
    } else {
        nonempty_trimmed(pieces.drop_last()) + if text::trim(pieces.last()).len() > 0 {
            seq![text::trim(pieces.last())]
        } else {
            Seq::empty()
        }
    }
}

/// Splits a comma-separated key spec into its keys, each trimmed, dropping
/// the ones that are empty once trimmed. (A caller first tries the whole
/// value as a single key, so that a literal `,` stays bindable.)
pub fn split_key_spec(value: &str) -> (r: Vec<String>)
    ensures
        string_views(r@) == nonempty_trimmed(text::split_on(value@, ',')),
{
    let cs = text::chars_of(value);
    let pieces = text::split_chars(cs.as_slice(), ',');
    let ghost sp = text::split_on(value@, ',');
    let mut out: Vec<String> = Vec::new();
    let mut i: usize = 0;
    proof {
        assert(sp.take(0) =~= Seq::<Seq<char>>::empty());
    }
    while i < pieces.len()
        invariant
            i <= pieces@.len(),
            sp == text::split_on(value@, ','),
            pieces@.len() == sp.len(),
            forall|k: int| 0 <= k < pieces@.len() ==> #[trigger] pieces@[k]@ == sp[k],
            string_views(out@) == nonempty_trimmed(sp.take(i as int)),
        decreases pieces@.len() - i,
    {
        let t = text::trim_chars(pieces[i].as_slice());
        proof {
            assert(sp.take(i + 1).drop_last() =~= sp.take(i as int));
            assert(sp.take(i + 1).last() == sp[i as int]);
        }
        if t.len() > 0 {
            let ghost before = out@;
            out.push(text::string_of(t.as_slice()));
            proof {
                assert(string_views(out@) =~= string_views(before).push(t@));
                assert(string_views(out@) =~= nonempty_trimmed(sp.take(i + 1)));
            }
        } else {
            proof {
                assert(string_views(out@) =~= nonempty_trimmed(sp.take(i + 1)));
            }
        }
        i = i + 1;
    }
    proof {
        assert(sp.take(pieces@.len() as int) =~= sp);
    }
    out
}

/// The key spec a table binds action `a` to: that of its first pair for
/// `a`, if any.
pub open spec fn key_spec(t: Seq<(CopyModeAction, Seq<char>)>, a: CopyModeAction) -> Option<Seq<char>> {
    let i = find_from(t, a, 0);
    if i < t.len() {
        Some(t[i].1)
    } else {
        None
    }
}

/// In a table whose actions are distinct, the key spec of the action at
/// position `j` is the one stored there.
pub proof fn lemma_key_spec_at(t: Seq<(CopyModeAction, Seq<char>)>, a: CopyModeAction, j: int)
    requires
        table_complete(t),
        0 <= j < t.len(),
        t[j].0 == a,
    ensures
        key_spec(t, a) == Some(t[j].1),
{
    assert forall|k: int| 0 <= k < j implies #[trigger] t[k].0 != a by {
        assert(t[k].0 != t[j].0);
    }
    lemma_find_from(t, a, 0, j);
}

/// The vi preset binds each action to its vi key: `h`/`j`/`k`/`l` (and the
/// arrows) move, `w`, `b` and `e` are the word motions, `0`/`^`/`$` the
/// line motions, `g`/`G` the first and last lines, `Ctrl u`/`Ctrl d` half
/// pages and `Ctrl b`/`Ctrl f` whole pages, `v`/`V`/`Ctrl v` select, `y`
/// and `Y` yank, `Esc` cancels.
pub proof fn law_vi_preset_keys()
    ensures
        key_spec(vi_table(), CopyModeAction::Motion(Motion::Left)) == Some("h, Left"@),
        key_spec(vi_table(), CopyModeAction::Motion(Motion::Down)) == Some("j, Down"@),
        key_spec(vi_table(), CopyModeAction::Motion(Motion::Up)) == Some("k, Up"@),
        key_spec(vi_table(), CopyModeAction::Motion(Motion::Right)) == Some("l, Right"@),
        key_spec(vi_table(), CopyModeAction::Motion(Motion::WordForward)) == Some("w"@),
        key_spec(vi_table(), CopyModeAction::Motion(Motion::WordBackward)) == Some("b"@),
        key_spec(vi_table(), CopyModeAction::Motion(Motion::WordEnd)) == Some("e"@),
        key_spec(vi_table(), CopyModeAction::Motion(Motion::LineStart)) == Some("0, Home"@),
        key_spec(vi_table(), CopyModeAction::Motion(Motion::LineFirstNonBlank)) == Some("^"@),
        key_spec(vi_table(), CopyModeAction::Motion(Motion::LineEnd)) == Some("$, End"@),
        key_spec(vi_table(), CopyModeAction::Motion(Motion::Top)) == Some("g"@),
        key_spec(vi_table(), CopyModeAction::Motion(Motion::Bottom)) == Some("G"@),
        key_spec(vi_table(), CopyModeAction::Motion(Motion::HalfPageUp)) == Some("Ctrl u"@),
        key_spec(vi_table(), CopyModeAction::Motion(Motion::HalfPageDown)) == Some("Ctrl d"@),
        key_spec(vi_table(), CopyModeAction::Motion(Motion::PageUp)) == Some("Ctrl b, PageUp"@),
        key_spec(vi_table(), CopyModeAction::Motion(Motion::PageDown)) == Some("Ctrl f, PageDown"@),
        key_spec(vi_table(), CopyModeAction::Select(SelectionMode::Char)) == Some("v"@),
        key_spec(vi_table(), CopyModeAction::Select(SelectionMode::Line)) == Some("V"@),
        key_spec(vi_table(), CopyModeAction::Select(SelectionMode::Block)) == Some("Ctrl v"@),
        key_spec(vi_table(), CopyModeAction::Yank) == Some("y"@),
        key_spec(vi_table(), CopyModeAction::YankToClipboard) == Some("Y"@),
        key_spec(vi_table(), CopyModeAction::Cancel) == Some("Esc"@),
{
    lemma_vi_table_complete();
    let t = vi_table();
    assert forall|a: CopyModeAction| #[trigger] key_spec(t, a) == Some(t[vi_pos(a)].1) by {
        lemma_vi_pos(a);
        lemma_key_spec_at(t, a, vi_pos(a));
    }
}

/// The emacs preset binds each action to its emacs key: `Ctrl b`/`Ctrl f`/
/// `Ctrl n`/`Ctrl p` (and the arrows) move, `Alt f`, `Alt b` and `Alt e`
/// are the word motions, `Ctrl a`/`Ctrl e` the line ends, `Alt <`/`Alt >`
/// the first and last lines, `Ctrl v`/`Alt v` whole pages, `Ctrl Space`
/// selects, `Alt w` yanks, `Ctrl g` cancels.
pub proof fn law_emacs_preset_keys()
    ensures
        key_spec(emacs_table(), CopyModeAction::Motion(Motion::Left)) == Some("Ctrl b, Left"@),
        key_spec(emacs_table(), CopyModeAction::Motion(Motion::Down)) == Some("Ctrl n, Down"@),
        key_spec(emacs_table(), CopyModeAction::Motion(Motion::Up)) == Some("Ctrl p, Up"@),
        key_spec(emacs_table(), CopyModeAction::Motion(Motion::Right)) == Some("Ctrl f, Right"@),
        key_spec(emacs_table(), CopyModeAction::Motion(Motion::WordForward)) == Some("Alt f"@),
        key_spec(emacs_table(), CopyModeAction::Motion(Motion::WordBackward)) == Some("Alt b"@),
        key_spec(emacs_table(), CopyModeAction::Motion(Motion::WordEnd)) == Some("Alt e"@),
        key_spec(emacs_table(), CopyModeAction::Motion(Motion::LineStart)) == Some("Ctrl a, Home"@),
        key_spec(emacs_table(), CopyModeAction::Motion(Motion::LineFirstNonBlank)) == Some("Alt m"@),
        key_spec(emacs_table(), CopyModeAction::Motion(Motion::LineEnd)) == Some("Ctrl e, End"@),
        key_spec(emacs_table(), CopyModeAction::Motion(Motion::Top)) == Some("Alt <"@),
        key_spec(emacs_table(), CopyModeAction::Motion(Motion::Bottom)) == Some("Alt >"@),
        key_spec(emacs_table(), CopyModeAction::Motion(Motion::HalfPageUp)) == Some("Ctrl u"@),
        key_spec(emacs_table(), CopyModeAction::Motion(Motion::HalfPageDown)) == Some("Ctrl d"@),
        key_spec(emacs_table(), CopyModeAction::Motion(Motion::PageUp)) == Some("Alt v, PageUp"@),
        key_spec(emacs_table(), CopyModeAction::Motion(Motion::PageDown)) == Some("Ctrl v, PageDown"@),
        key_spec(emacs_table(), CopyModeAction::Select(SelectionMode::Char)) == Some("Ctrl Space"@),
        key_spec(emacs_table(), CopyModeAction::Select(SelectionMode::Line)) == Some("Alt l"@),
        key_spec(emacs_table(), CopyModeAction::Select(SelectionMode::Block)) == Some("Alt r"@),
        key_spec(emacs_table(), CopyModeAction::Yank) == Some("Alt w"@),
        key_spec(emacs_table(), CopyModeAction::YankToClipboard) == Some("Alt W"@),
        key_spec(emacs_table(), CopyModeAction::Cancel) == Some("Ctrl g, Esc"@),
{
    lemma_emacs_table_complete();
    let t = emacs_table();
    assert forall|a: CopyModeAction| #[trigger] key_spec(t, a) == Some(t[emacs_pos(a)].1) by {
        lemma_emacs_pos(a);
        lemma_key_spec_at(t, a, emacs_pos(a));
    }
}

/// A configuration that sets neither `keymap` nor any `key_<action>`
/// entry (an empty one among them) gives the vi preset unchanged.
pub proof fn law_default_keymap_is_vi(m: Map<String, String>)
    requires
        map_value(m, "keymap"@) is None,
        forall|a: CopyModeAction| #[trigger] map_value(m, "key_"@ + name_of(a)) is None,
    ensures
        keymap_of_map(m) == vi_table(),
{
    let t = vi_table();
    assert forall|i: int| 0 <= i < t.len() implies #[trigger] keymap_of_map(m)[i] == t[i] by {
        assert(map_value(m, "key_"@ + name_of(t[i].0)) is None);
    }
    assert(keymap_of_map(m) =~= t);
}

proof fn lemma_nonempty_trimmed_all(pieces: Seq<Seq<char>>)
    requires
        forall|i: int| 0 <= i < pieces.len() ==> text::trim(#[trigger] pieces[i]).len() > 0,
    ensures
        nonempty_trimmed(pieces) == pieces.map_values(|p: Seq<char>| text::trim(p)),
    decreases pieces.len(),
{
    if pieces.len() > 0 {
        let init = pieces.drop_last();
        assert forall|i: int| 0 <= i < init.len() implies text::trim(#[trigger] init[i]).len() > 0 by {
            assert(init[i] == pieces[i]);
        }
        lemma_nonempty_trimmed_all(init);
        assert(text::trim(pieces[pieces.len() - 1]).len() > 0);
        assert(pieces.map_values(|p: Seq<char>| text::trim(p)) =~= init.map_values(
            |p: Seq<char>| text::trim(p),
        ) + seq![text::trim(pieces.last())]);
    }
}

/// Keys written one after another with commas between them (spaces
/// around each allowed) split back into those keys, trimmed, in order.
pub proof fn law_split_key_spec_lists_keys(keys: Seq<Seq<char>>)
    requires
        keys.len() >= 1,
        forall|i: int, k: int| 0 <= i < keys.len() && 0 <= k < keys[i].len() ==> #[trigger] keys[i][k]
            != ',',
        forall|i: int| 0 <= i < keys.len() ==> text::trim(#[trigger] keys[i]).len() > 0,
    ensures
        nonempty_trimmed(text::split_on(text::join_with(keys, seq![',']), ',')) == keys.map_values(
            |k: Seq<char>| text::trim(k),
        ),
{
    text::lemma_split_join(keys, ',');
    lemma_nonempty_trimmed_all(keys);
}

} // verus!
