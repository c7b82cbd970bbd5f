use node_graph::world::{AccessibleControlRole, TextLines};

#[test]
fn from_text_keeps_a_trailing_empty_line() {
    let lines = TextLines::from_text("first line\nsecond line\n");
    assert_eq!(lines.as_slice(), ["first line", "second line", ""]);
    assert_eq!(lines.len(), 3);
    assert!(!lines.is_empty());
}

#[test]
fn empty_text_is_one_empty_line_and_no_lines_is_empty() {
    assert_eq!(TextLines::from_text("").as_slice(), [""]);
    assert_eq!(TextLines::from_text("\n\n").len(), 3);
    assert!(TextLines::new(Vec::new()).is_empty());
    let lines = TextLines::new(vec!["a".to_string(), "b".to_string()]);
    assert_eq!(lines.as_slice(), ["a", "b"]);
}

#[test]
fn joining_lines_restores_the_text() {
    for text in ["", "one", "a\nb", "a\n\nb\n", "💡\n漢"] {
        assert_eq!(TextLines::from_text(text).as_slice().join("\n"), text);
    }
}

#[test]
fn accessible_role_defaults_to_button() {
    assert_eq!(AccessibleControlRole::default(), AccessibleControlRole::Button);
}
