//! Keyboard decisions of the editor: which command a key press on the canvas
//! means, how focus cycles through world controls, and how the catalog menu
//! and the group label editor react to keys.

use crate::catalog::{entry_rows, filtered_catalog_entries, filtered_indices, opt_origin, CatalogOrigin, NodeCatalogItem};
use crate::graph_core::PortType;
use crate::text_input::{edit_key_view, edit_text_key, fits, str_eq, utf16_units, WorldTextInputState};
use vstd::prelude::*;

verus! {

/// What a key press on the canvas asks the editor to do.
#[derive(Clone, Copy, Debug, PartialEq, Eq, Structural)]
pub enum CanvasCommand {
    OpenCatalog,
    DeleteSelection,
    SelectAll,
    CycleRouting,
    FitView,
    Cancel,
    CopySelection,
    Paste,
    Redo,
    Undo,
    UngroupSelection,
    GroupSelection,
}

/// The canvas key map. `command` is Control or the platform key; Tab opens
/// the catalog only when there is one.
pub open spec fn canvas_command_of(
    key: Seq<char>,
    command: bool,
    shift: bool,
    has_catalog: bool,
) -> Option<CanvasCommand> {
    if key == "tab"@ && has_catalog {
        Some(CanvasCommand::OpenCatalog)
    } else if key == "delete"@ || key == "backspace"@ {
        Some(CanvasCommand::DeleteSelection)
    } else if key == "a"@ && command {
        Some(CanvasCommand::SelectAll)
    } else if key == "r"@ && !command {
        Some(CanvasCommand::CycleRouting)
    } else if key == "f"@ && !command {
        Some(CanvasCommand::FitView)
    } else if key == "escape"@ {
        Some(CanvasCommand::Cancel)
    } else if key == "c"@ && command {
        Some(CanvasCommand::CopySelection)
    } else if key == "v"@ && command {
        Some(CanvasCommand::Paste)
    } else if key == "z"@ && command && shift {
        Some(CanvasCommand::Redo)
    } else if key == "z"@ && command {
        Some(CanvasCommand::Undo)
    } else if key == "g"@ && command && shift {
        Some(CanvasCommand::UngroupSelection)
    } else if key == "g"@ && command {
        Some(CanvasCommand::GroupSelection)
    } else {
        None
    }
}

/// The canvas shortcuts, whatever else is held: Delete and Backspace delete
/// the selection; Escape cancels; with Control or the platform key, A
/// selects all, C copies, V pastes, Z undoes and Shift-Z redoes, G groups
/// and Shift-G ungroups; without it, R cycles the routing and F fits the
/// view; Tab opens the catalog when there is one. No other key means
/// anything.
pub proof fn lemma_canvas_shortcuts(key: Seq<char>, command: bool, shift: bool, has_catalog: bool)
    ensures
        canvas_command_of("delete"@, command, shift, has_catalog) == Some(CanvasCommand::DeleteSelection),
        canvas_command_of("backspace"@, command, shift, has_catalog) == Some(
            CanvasCommand::DeleteSelection,
        ),
        canvas_command_of("escape"@, command, shift, has_catalog) == Some(CanvasCommand::Cancel),
        canvas_command_of("a"@, true, shift, has_catalog) == Some(CanvasCommand::SelectAll),
        canvas_command_of("c"@, true, shift, has_catalog) == Some(CanvasCommand::CopySelection),
        canvas_command_of("v"@, true, shift, has_catalog) == Some(CanvasCommand::Paste),
        canvas_command_of("z"@, true, false, has_catalog) == Some(CanvasCommand::Undo),
        canvas_command_of("z"@, true, true, has_catalog) == Some(CanvasCommand::Redo),
        canvas_command_of("g"@, true, false, has_catalog) == Some(CanvasCommand::GroupSelection),
        canvas_command_of("g"@, true, true, has_catalog) == Some(CanvasCommand::UngroupSelection),
        canvas_command_of("r"@, false, shift, has_catalog) == Some(CanvasCommand::CycleRouting),
        canvas_command_of("f"@, false, shift, has_catalog) == Some(CanvasCommand::FitView),
        canvas_command_of("tab"@, command, shift, true) == Some(CanvasCommand::OpenCatalog),
        canvas_command_of("tab"@, command, shift, false) is None,
        canvas_command_of("a"@, false, shift, has_catalog) is None,
        canvas_command_of("z"@, false, shift, has_catalog) is None,
        canvas_command_of("r"@, true, shift, has_catalog) is None,
        key != "delete"@ && key != "backspace"@ && key != "escape"@ && key != "a"@ && key != "c"@
            && key != "v"@ && key != "z"@ && key != "g"@ && key != "r"@ && key != "f"@ && key
            != "tab"@ ==> canvas_command_of(key, command, shift, has_catalog) is None,
{
    reveal_strlit("delete");
    reveal_strlit("backspace");
    reveal_strlit("escape");
    reveal_strlit("tab");
    reveal_strlit("a");
    reveal_strlit("c");
    reveal_strlit("v");
    reveal_strlit("z");
    reveal_strlit("g");
    reveal_strlit("r");
    reveal_strlit("f");
    assert("delete"@.len() == 6 && "backspace"@.len() == 9 && "tab"@.len() == 3);
    assert("escape"@.len() == 6 && "escape"@[0] == 'e' && "delete"@[0] == 'd');
    assert("a"@.len() == 1 && "c"@.len() == 1 && "v"@.len() == 1 && "z"@.len() == 1);
    assert("g"@.len() == 1 && "r"@.len() == 1 && "f"@.len() == 1);
    assert("a"@[0] == 'a' && "c"@[0] == 'c' && "v"@[0] == 'v' && "z"@[0] == 'z');
    assert("g"@[0] == 'g' && "r"@[0] == 'r' && "f"@[0] == 'f');
    assert("delete"@ != "tab"@);
    assert("backspace"@ != "tab"@);
    assert("escape"@ != "delete"@);
    assert("c"@ != "a"@ && "v"@ != "a"@ && "v"@ != "c"@ && "z"@ != "a"@ && "z"@ != "c"@ && "z"@ != "v"@);
    assert("g"@ != "a"@ && "g"@ != "c"@ && "g"@ != "v"@ && "g"@ != "z"@);
    assert("r"@ != "a"@ && "f"@ != "a"@ && "f"@ != "r"@);
}

/// Map a key press on the canvas to a command; see [`canvas_command_of`].
pub fn canvas_command(key: &str, command: bool, shift: bool, has_catalog: bool) -> (r: Option<
    CanvasCommand,
>)
    ensures
        r == canvas_command_of(key@, command, shift, has_catalog),
{
    if str_eq(key, "tab") && has_catalog {
        Some(CanvasCommand::OpenCatalog)
    } else if str_eq(key, "delete") || str_eq(key, "backspace") {
        Some(CanvasCommand::DeleteSelection)
    } else if str_eq(key, "a") && command {
        Some(CanvasCommand::SelectAll)
    } else if str_eq(key, "r") && !command {
        Some(CanvasCommand::CycleRouting)
    } else if str_eq(key, "f") && !command {
        Some(CanvasCommand::FitView)
    } else if str_eq(key, "escape") {
        Some(CanvasCommand::Cancel)
    } else if str_eq(key, "c") && command {
        Some(CanvasCommand::CopySelection)
    } else if str_eq(key, "v") && command {
        Some(CanvasCommand::Paste)
    } else if str_eq(key, "z") && command && shift {
        Some(CanvasCommand::Redo)
    } else if str_eq(key, "z") && command {
        Some(CanvasCommand::Undo)
    } else if str_eq(key, "g") && command && shift {
        Some(CanvasCommand::UngroupSelection)
    } else if str_eq(key, "g") && command {
        Some(CanvasCommand::GroupSelection)
    } else {
        None
    }
}

/// What Escape cancels, innermost first.
#[derive(Clone, Copy, Debug, PartialEq, Eq, Structural)]
pub enum EscapeEffect {
    CloseAnchorMenu,
    DismissEscapeOverlays,
    CancelGesturesAndClearSelection,
}

/// What Escape does: close the port menu when it is open, else dismiss the
/// overlays that asked for Escape, else cancel gestures and the selection.
pub fn escape_effect(anchor_menu_open: bool, escape_overlays_active: bool) -> (r: EscapeEffect)
    ensures
        r == (if anchor_menu_open {
            EscapeEffect::CloseAnchorMenu
        } else if escape_overlays_active {
            EscapeEffect::DismissEscapeOverlays
        } else {
            EscapeEffect::CancelGesturesAndClearSelection
        }),
{
    if anchor_menu_open {
        EscapeEffect::CloseAnchorMenu
    } else if escape_overlays_active {
        EscapeEffect::DismissEscapeOverlays
    } else {
        EscapeEffect::CancelGesturesAndClearSelection
    }
}

/// The world control that Tab (or Shift-Tab) focuses next, cyclically; with
/// no current control, the first (or last) one.
pub open spec fn next_control_of(current: Option<usize>, len: int, backward: bool) -> int {
    match current {
        Some(i) => if backward {
            (i + len - 1) % len
        } else {
            (i + 1) % len
        },
        None => if backward {
            len - 1
        } else {
            0
        },
    }
}

/// The control to focus next; see [`next_control_of`].
pub fn next_control_index(current: Option<usize>, len: usize, backward: bool) -> (r: usize)
    requires
        len > 0,
        current matches Some(i) ==> i < len,
    ensures
        r == next_control_of(current, len as int, backward),
        r < len,
{
    match current {
        Some(i) => {
            if backward {
                if i == 0 {
                    assert((0 + len - 1) % (len as int) == len - 1) by (nonlinear_arith)
                        requires
                            len > 0,
                    ;
                    len - 1
                } else {
                    assert((i + len - 1) % (len as int) == i - 1) by (nonlinear_arith)
                        requires
                            0 < i < len,
                    ;
                    i - 1
                }
            } else if i + 1 == len {
                assert((i + 1) % (len as int) == 0) by (nonlinear_arith)
                    requires
                        i + 1 == len,
                        len > 0,
                ;
                0
            } else {
                assert((i + 1) % (len as int) == i + 1) by (nonlinear_arith)
                    requires
                        i + 1 < len,
                ;
                i + 1
            }
        },
        None => {
            if backward {
                len - 1
            } else {
                0
            }
        },
    }
}

/// Tab then Shift-Tab returns to the control that was focused.
pub proof fn lemma_tab_round_trip(i: int, len: int)
    requires
        0 <= i < len <= usize::MAX,
    ensures
        next_control_of(Some(next_control_of(Some(i as usize), len, false) as usize), len, true)
            == i,
{
    if i + 1 == len {
        assert((i + 1) % len == 0) by (nonlinear_arith)
            requires
                i + 1 == len,
                len > 0,
        ;
        assert((0 + len - 1) % len == len - 1) by (nonlinear_arith)
            requires
                len > 0,
        ;
    } else {
        assert((i + 1) % len == i + 1) by (nonlinear_arith)
            requires
                0 <= i,
                i + 1 < len,
        ;
        assert((i + 1 + len - 1) % len == i) by (nonlinear_arith)
            requires
                0 <= i < len,
        ;
    }
}

// ---------------------------------------------------------------------------
// The catalog menu
// ---------------------------------------------------------------------------

/// The search text and highlighted row of the open catalog menu.
pub struct CatalogMenuState {
    pub query: WorldTextInputState,
    pub selected: usize,
}

/// What a key press in the catalog menu asks the editor to do.
#[derive(Clone, Copy, Debug, PartialEq, Eq, Structural)]
pub enum CatalogKeyEffect {
    /// Close the menu.
    Close,
    /// Create the node of this row (item, pin), then close the menu.
    Choose(usize, Option<usize>),
    /// Keep the menu open.
    Stay,
}

/// The result of a key press in the catalog menu.
#[derive(Clone, Copy, Debug, PartialEq, Eq, Structural)]
pub struct CatalogKeyOutcome {
    pub effect: CatalogKeyEffect,
    /// The key was consumed by the editor rather than left to the platform's
    /// text input (composition keys the editor did not handle stay with the
    /// platform).
    pub consumed: bool,
}

pub open spec fn saturating_pred(n: int) -> int {
    if n > 0 {
        n - 1
    } else {
        0
    }
}

pub open spec fn min_of(a: int, b: int) -> int {
    if a <= b {
        a
    } else {
        b
    }
}

pub open spec fn composition_key(key: Seq<char>) -> bool {
    key == "process"@ || key == "unidentified"@ || key == "dead"@
}

/// Number of menu rows for a query.
pub open spec fn row_total<T: PortType>(
    catalog: Seq<NodeCatalogItem<T>>,
    query: Seq<char>,
    origin: Option<CatalogOrigin<T>>,
) -> int {
    entry_rows(catalog, origin, filtered_indices(catalog, query, origin)).len() as int
}

/// The row under the highlight, if the highlight is on a row.
pub open spec fn highlighted_row<T: PortType>(
    catalog: Seq<NodeCatalogItem<T>>,
    query: Seq<char>,
    origin: Option<CatalogOrigin<T>>,
    selected: int,
) -> Option<(usize, Option<usize>)> {
    let rows = entry_rows(catalog, origin, filtered_indices(catalog, query, origin));
    if 0 <= selected < rows.len() {
        Some(rows[selected])
    } else {
        None
    }
}

proof fn lemma_menu_keys_are_not_composition(key: Seq<char>)
    requires
        key == "enter"@ || key == "up"@ || key == "down"@,
    ensures
        !composition_key(key),
{
    reveal_strlit("enter");
    reveal_strlit("up");
    reveal_strlit("down");
    reveal_strlit("process");
    reveal_strlit("unidentified");
    reveal_strlit("dead");
    assert("enter"@.len() == 5);
    assert("up"@.len() == 2);
    assert("down"@.len() == 4);
    assert("process"@.len() == 7);
    assert("unidentified"@.len() == 12);
    assert("dead"@.len() == 4);
    if key == "down"@ {
        assert(key[1] != "dead"@[1]);
    }
}

fn str_is_composition_key(key: &str) -> (r: bool)
    ensures
        r == composition_key(key@),
{
    str_eq(key, "process") || str_eq(key, "unidentified") || str_eq(key, "dead")
}

fn sat_pred(n: usize) -> (r: usize)
    ensures
        r == saturating_pred(n as int),
{
    if n > 0 {
        n - 1
    } else {
        0
    }
}

fn min_usize(a: usize, b: usize) -> (r: usize)
    ensures
        r == min_of(a as int, b as int),
{
    if a <= b {
        a
    } else {
        b
    }
}

/// React to a key in the open catalog menu. Escape and Tab close it; Enter
/// chooses the highlighted row; Up and Down move the highlight within the
/// rows; every other key edits the search text, and a change of the text
/// moves the highlight back to the first row. The highlight always ends on a
/// row of the (new) result list, or at 0 when the list is empty.
pub fn catalog_menu_key<T: PortType>(
    menu: &mut CatalogMenuState,
    catalog: &Vec<NodeCatalogItem<T>>,
    origin: Option<&CatalogOrigin<T>>,
    key: &str,
    character: Option<&str>,
    command: bool,
    shift: bool,
    paste: Option<&str>,
) -> (r: CatalogKeyOutcome)
    requires
        fits(old(menu).query.text@),
        character matches Some(c) ==> utf16_units(old(menu).query.text@) + utf16_units(c@)
            <= usize::MAX,
        paste matches Some(p) ==> utf16_units(old(menu).query.text@) + utf16_units(p@)
            <= usize::MAX,
    ensures
        ({
            let o = opt_origin(origin);
            let q0 = old(menu).query@;
            let s0 = old(menu).selected as int;
            let before = row_total(catalog@, q0.text, o);
            if key@ == "escape"@ || key@ == "tab"@ {
                &&& r.effect == CatalogKeyEffect::Close
                &&& r.consumed
                &&& final(menu).query@ == q0
            } else if key@ == "enter"@ {
                &&& r.effect == match highlighted_row(catalog@, q0.text, o, s0) {
                    Some((i, p)) => CatalogKeyEffect::Choose(i, p),
                    None => CatalogKeyEffect::Stay,
                }
                &&& r.consumed
                &&& final(menu).query@ == q0
                &&& final(menu).selected == min_of(s0, saturating_pred(before))
            } else if key@ == "up"@ {
                &&& r.effect == CatalogKeyEffect::Stay
                &&& r.consumed
                &&& final(menu).query@ == q0
                &&& final(menu).selected == min_of(
                    saturating_pred(s0),
                    saturating_pred(before),
                )
            } else if key@ == "down"@ {
                &&& r.effect == CatalogKeyEffect::Stay
                &&& r.consumed
                &&& final(menu).query@ == q0
                &&& final(menu).selected == min_of(s0 + 1, saturating_pred(before))
            } else {
                let (handled, q1) = edit_key_view(
                    q0,
                    key@,
                    match character {
                        Some(c) => Some(c@),
                        None => None,
                    },
                    command,
                    shift,
                    match paste {
                        Some(p) => Some(p@),
                        None => None,
                    },
                );
                &&& r.effect == CatalogKeyEffect::Stay
                &&& r.consumed == (handled || !composition_key(key@))
                &&& final(menu).query@ == q1
                &&& final(menu).selected == min_of(
                    if q1.text != q0.text {
                        0
                    } else {
                        s0
                    },
                    saturating_pred(row_total(catalog@, q1.text, o)),
                )
            }
        }),
{
    proof {
        reveal_strlit("enter");
        reveal_strlit("up");
        reveal_strlit("down");
        reveal_strlit("process");
        reveal_strlit("unidentified");
        reveal_strlit("dead");
    }
    let before = filtered_catalog_entries(catalog, menu.query.text.as_str(), origin);
    if str_eq(key, "escape") || str_eq(key, "tab") {
        return CatalogKeyOutcome { effect: CatalogKeyEffect::Close, consumed: true };
    }
    let mut effect = CatalogKeyEffect::Stay;
    let mut text_handled = false;
    if str_eq(key, "enter") {
        proof {
            lemma_menu_keys_are_not_composition(key@);
        }
        if menu.selected < before.len() {
            let (i, p) = before[menu.selected];
            effect = CatalogKeyEffect::Choose(i, p);
        }
    } else if str_eq(key, "up") {
        proof {
            lemma_menu_keys_are_not_composition(key@);
        }
        menu.selected = sat_pred(menu.selected);
    } else if str_eq(key, "down") {
        proof {
            lemma_menu_keys_are_not_composition(key@);
        }
        let last = sat_pred(before.len());
        menu.selected = if menu.selected < last {
            menu.selected + 1
        } else {
            last
        };
    } else {
        let old_text = menu.query.text.clone();
        text_handled = edit_text_key(&mut menu.query, key, character, command, shift, paste);
        if !(menu.query.text == old_text) {
            menu.selected = 0;
        }
    }
    let after = filtered_catalog_entries(catalog, menu.query.text.as_str(), origin);
    menu.selected = min_usize(menu.selected, sat_pred(after.len()));
    let consumed = text_handled || !str_is_composition_key(key);
    CatalogKeyOutcome { effect, consumed }
}

// ---------------------------------------------------------------------------
// The group label editor
// ---------------------------------------------------------------------------

/// Unicode `White_Space` characters.
pub open spec fn is_white_space(c: char) -> bool {
    let v = c as u32;
    ||| 0x09 <= v <= 0x0d
    ||| v == 0x20
    ||| v == 0x85
    ||| v == 0xa0
    ||| v == 0x1680
    ||| 0x2000 <= v <= 0x200a
    ||| v == 0x2028
    ||| v == 0x2029
    ||| v == 0x202f
    ||| v == 0x205f
    ||| v == 0x3000
}

/// Whether `c` is white space in the sense of `char::is_whitespace`.
pub fn is_white_space_char(c: char) -> (r: bool)
    ensures
        r == is_white_space(c),
{
    let v = c as u32;
    (0x09 <= v && v <= 0x0d) || v == 0x20 || v == 0x85 || v == 0xa0 || v == 0x1680 || (0x2000 <= v
        && v <= 0x200a) || v == 0x2028 || v == 0x2029 || v == 0x202f || v == 0x205f || v == 0x3000
}

/// `s` without its leading and trailing white space.
pub open spec fn trimmed(s: Seq<char>) -> Seq<char> {
    let a = leading_ws(s, 0);
    let b = trailing_end(s, s.len() as int);
    if a >= b {
        Seq::<char>::empty()
    } else {
        s.subrange(a, b)
    }
}

/// Index of the first non-white character at or after `i`.
pub open spec fn leading_ws(s: Seq<char>, i: int) -> int
    decreases s.len() - i,
{
    if i < 0 || i >= s.len() {
        s.len() as int
    } else if is_white_space(s[i]) {
        leading_ws(s, i + 1)
    } else {
        i
    }
}

/// One past the last non-white character before `j`.
pub open spec fn trailing_end(s: Seq<char>, j: int) -> int
    decreases j,
{
    if j <= 0 || j > s.len() {
        0
    } else if is_white_space(s[j - 1]) {
        trailing_end(s, j - 1)
    } else {
        j
    }
}

/// The label that committing the group editor assigns: the trimmed text,
/// unless it is empty.
pub fn committed_group_label(text: &str) -> (r: Option<String>)
    ensures
        match r {
            Some(l) => l@ == trimmed(text@) && l@.len() > 0,
            None => trimmed(text@).len() == 0,
        },
{
    let chars = crate::text_input::text_chars(text);
    let n = chars.len();
    let mut a: usize = 0;
    while a < n && is_white_space_char(chars[a])
        invariant
            chars@ == text@,
            n == chars@.len(),
            a <= n,
            leading_ws(chars@, 0) == leading_ws(chars@, a as int),
        decreases n - a,
    {
        a = a + 1;
    }
    let mut b: usize = n;
    while b > 0 && is_white_space_char(chars[b - 1])
        invariant
            chars@ == text@,
            n == chars@.len(),
            b <= n,
            trailing_end(chars@, n as int) == trailing_end(chars@, b as int),
        decreases b,
    {
        b = b - 1;
    }
    if a >= b {
        return None;
    }
    let mut out = String::new();
    let mut i = a;
    while i < b
        invariant
            chars@ == text@,
            a <= i <= b <= n,
            n == chars@.len(),
            out@ == chars@.subrange(a as int, i as int),
        decreases b - i,
    {
        crate::text_input::push_char_to(&mut out, chars[i]);
        assert(chars@.subrange(a as int, i + 1) =~= chars@.subrange(a as int, i as int).push(
            chars@[i as int],
        ));
        i = i + 1;
    }
    Some(out)
}

// ---------------------------------------------------------------------------
// Focused world controls and routing
// ---------------------------------------------------------------------------

/// A key pressed while a world control has focus is left to the platform's
/// text input, rather than consumed by the editor, when a text input is
/// active and the key types a character without the command modifier, is
/// the paste shortcut, or is a composition key.
pub open spec fn world_key_to_platform(
    text_input_active: bool,
    key: Seq<char>,
    has_key_char: bool,
    command: bool,
) -> bool {
    text_input_active && ((!command && has_key_char) || (command && key == "v"@)
        || composition_key(key))
}

/// Whether a key pressed on a focused world control goes on to the
/// platform's text input; see [`world_key_to_platform`].
pub fn world_key_passes_to_platform(
    text_input_active: bool,
    key: &str,
    has_key_char: bool,
    command: bool,
) -> (r: bool)
    ensures
        r == world_key_to_platform(text_input_active, key@, has_key_char, command),
{
    text_input_active && ((!command && has_key_char) || (command && str_eq(key, "v"))
        || str_is_composition_key(key))
}

/// How connections are routed, without the router's tuning.
#[derive(Clone, Copy, Debug, PartialEq, Eq, Structural)]
pub enum RoutingStyle {
    SimpleOrthogonal,
    Bezier,
    Subway,
}

pub open spec fn next_routing(style: RoutingStyle) -> RoutingStyle {
    match style {
        RoutingStyle::Subway => RoutingStyle::Bezier,
        RoutingStyle::Bezier => RoutingStyle::SimpleOrthogonal,
        RoutingStyle::SimpleOrthogonal => RoutingStyle::Subway,
    }
}

/// The routing that the R key switches to: subway, then Bezier, then simple
/// orthogonal, then subway again (with default tuning).
pub fn next_routing_style(style: RoutingStyle) -> (r: RoutingStyle)
    ensures
        r == next_routing(style),
{
    match style {
        RoutingStyle::Subway => RoutingStyle::Bezier,
        RoutingStyle::Bezier => RoutingStyle::SimpleOrthogonal,
        RoutingStyle::SimpleOrthogonal => RoutingStyle::Subway,
    }
}

/// Pressing R three times comes back to the same routing, and every press
/// changes it.
pub proof fn lemma_routing_cycle(style: RoutingStyle)
    ensures
        next_routing(next_routing(next_routing(style))) == style,
        next_routing(style) != style,
{
}

} // verus!
