use node_graph::catalog::NodeCatalogItem;
use node_graph::graph_core::PortType;
use node_graph::keys::{catalog_menu_key, CatalogKeyEffect, CatalogMenuState};
use node_graph::text_input::{
    clamp_world_text_state, edit_text_key, move_text_cursor, move_text_selection,
    replace_text_state, selected_text, text_boundaries, text_for_range, text_with_caret,
    utf16_len, utf16_to_byte, WorldTextInputState,
};

#[derive(Clone, Debug, PartialEq)]
struct Kind;
impl PortType for Kind {
    fn spec_compatible(_: &Self, _: &Self) -> bool {
        true
    }
    fn compatible(_: &Self, _: &Self) -> bool {
        true
    }
}

fn state(text: &str, start: usize, end: usize) -> WorldTextInputState {
    WorldTextInputState::new(text.to_string(), start..end)
}

#[test]
fn world_text_input_uses_utf16_selection_and_marked_replacement() {
    let mut state = WorldTextInputState {
        text: "a💡b".into(),
        selection: 1..3,
        selection_reversed: false,
        marked: None,
    };
    assert_eq!(utf16_len("a💡b"), 4);
    assert_eq!(utf16_to_byte("a💡b", 2), (1, 1));
    replace_text_state(&mut state, None, "é", None);
    assert_eq!(state.text, "aéb");
    assert_eq!(state.selection, 2..2);

    replace_text_state(&mut state, None, "漢", Some(0..1));
    assert_eq!(state.text, "aé漢b");
    assert_eq!(state.marked, Some(2..3));
    assert_eq!(state.selection, 2..3);
    replace_text_state(&mut state, None, "字", None);
    assert_eq!(state.text, "aé字b");
    assert_eq!(state.marked, None);
    assert_eq!(state.selection, 3..3);
}

#[test]
fn catalog_search_supports_caret_selection_and_resets_highlight() {
    let catalog: Vec<NodeCatalogItem<Kind>> = Vec::new();
    let mut menu = CatalogMenuState {
        query: WorldTextInputState::new("abc".to_string(), 1..2),
        selected: 4,
    };
    let outcome = catalog_menu_key(&mut menu, &catalog, None, "z", Some("Z"), false, false, None);
    assert_eq!(outcome.effect, CatalogKeyEffect::Stay);
    assert!(outcome.consumed);
    assert_eq!(menu.query.text, "aZc");
    assert_eq!(menu.query.selection, 2..2);
    assert_eq!(menu.selected, 0);

    assert!(catalog_menu_key(&mut menu, &catalog, None, "left", None, false, false, None).consumed);
    assert!(
        catalog_menu_key(&mut menu, &catalog, None, "backspace", None, false, false, None)
            .consumed
    );
    assert_eq!(menu.query.text, "Zc");
}

#[test]
fn utf16_offsets_count_surrogate_pairs_twice() {
    assert_eq!(utf16_len(""), 0);
    assert_eq!(utf16_len("abc"), 3);
    assert_eq!(utf16_len("é漢💡"), 4);
    assert_eq!(text_boundaries("a💡b"), vec![0, 1, 3, 4]);
    assert_eq!(text_boundaries(""), vec![0]);
}

#[test]
fn utf16_to_byte_rounds_down_into_utf8_offsets() {
    assert_eq!(utf16_to_byte("aé漢💡b", 0), (0, 0));
    assert_eq!(utf16_to_byte("aé漢💡b", 1), (1, 1));
    assert_eq!(utf16_to_byte("aé漢💡b", 2), (3, 2));
    assert_eq!(utf16_to_byte("aé漢💡b", 3), (6, 3));
    assert_eq!(utf16_to_byte("aé漢💡b", 4), (6, 3));
    assert_eq!(utf16_to_byte("aé漢💡b", 5), (10, 5));
    assert_eq!(utf16_to_byte("aé漢💡b", 99), (11, 6));
}

#[test]
fn clamp_orders_and_bounds_both_ranges() {
    let mut s = WorldTextInputState {
        text: "abc".into(),
        selection: 9..1,
        selection_reversed: false,
        marked: Some(7..2),
    };
    clamp_world_text_state(&mut s);
    assert_eq!(s.selection, 1..3);
    assert!(s.selection_reversed);
    assert_eq!(s.marked, Some(2..3));
    let before = s.clone();
    clamp_world_text_state(&mut s);
    assert_eq!(s, before);
}

#[test]
fn cursor_moves_over_whole_scalars() {
    let mut s = state("a💡b", 1, 1);
    move_text_cursor(&mut s, true, false);
    assert_eq!(s.selection, 3..3);
    move_text_cursor(&mut s, false, false);
    assert_eq!(s.selection, 1..1);
    move_text_cursor(&mut s, true, true);
    assert_eq!(s.selection, 1..3);
    assert!(!s.selection_reversed);
    move_text_cursor(&mut s, false, false);
    assert_eq!(s.selection, 1..1);
}

#[test]
fn shift_extension_past_the_anchor_reverses_the_selection() {
    let mut s = state("abcd", 2, 2);
    move_text_selection(&mut s, 0, true);
    assert_eq!(s.selection, 0..2);
    assert!(s.selection_reversed);
    move_text_cursor(&mut s, true, true);
    assert_eq!(s.selection, 1..2);
    assert!(s.selection_reversed);
    move_text_selection(&mut s, 99, false);
    assert_eq!(s.selection, 4..4);
}

#[test]
fn selection_text_caret_and_ranges() {
    let s = state("aé漢b", 1, 3);
    assert_eq!(selected_text(&s), Some("é漢".to_string()));
    assert_eq!(selected_text(&state("ab", 1, 1)), None);
    assert_eq!(text_with_caret(&s), "aé漢▏b");
    let (text, range) = text_for_range(&state("a💡b", 0, 0), 2..4);
    assert_eq!(text, "💡b");
    assert_eq!(range, 1..4);
}

#[test]
fn backspace_and_delete_remove_one_scalar() {
    let mut s = state("a💡b", 3, 3);
    assert!(edit_text_key(&mut s, "backspace", None, false, false, None));
    assert_eq!(s.text, "ab");
    assert_eq!(s.selection, 1..1);
    assert!(edit_text_key(&mut s, "delete", None, false, false, None));
    assert_eq!(s.text, "a");
    assert_eq!(s.selection, 1..1);
    assert!(edit_text_key(&mut s, "delete", None, false, false, None));
    assert_eq!(s.text, "a");
    let mut t = state("abc", 0, 0);
    assert!(edit_text_key(&mut t, "backspace", None, false, false, None));
    assert_eq!(t.text, "abc");
}

#[test]
fn command_keys_select_cut_and_paste() {
    let mut s = state("hello", 0, 0);
    assert!(edit_text_key(&mut s, "a", None, true, false, None));
    assert_eq!(s.selection, 0..5);
    assert!(edit_text_key(&mut s, "c", None, true, false, None));
    assert_eq!(s.text, "hello");
    assert!(edit_text_key(&mut s, "x", None, true, false, None));
    assert_eq!(s.text, "");
    assert!(edit_text_key(&mut s, "v", None, true, false, Some("hi")));
    assert_eq!(s.text, "hi");
    assert_eq!(s.selection, 2..2);
    assert!(edit_text_key(&mut s, "end", None, false, false, None));
    assert!(edit_text_key(&mut s, "home", None, false, true, None));
    assert_eq!(s.selection, 0..2);
    assert!(s.selection_reversed);
}

#[test]
fn control_characters_and_unknown_command_keys_are_not_handled() {
    let mut s = state("ab", 1, 1);
    assert!(!edit_text_key(&mut s, "x", Some("\u{7}"), false, false, None));
    assert!(!edit_text_key(&mut s, "x", Some(""), false, false, None));
    assert!(!edit_text_key(&mut s, "x", None, false, false, None));
    assert!(!edit_text_key(&mut s, "q", Some("q"), true, false, None));
    assert_eq!(s.text, "ab");
    assert!(edit_text_key(&mut s, "x", Some("é"), false, false, None));
    assert_eq!(s.text, "aéb");
}

#[test]
fn at_end_places_the_caret_after_the_text() {
    let s = WorldTextInputState::at_end("a💡".to_string());
    assert_eq!(s.selection, 3..3);
    assert_eq!(s.marked, None);
}
