use node_graph::catalog::{CatalogPort, NodeCatalogItem};
use node_graph::graph_core::{PortDirection, PortType};
use node_graph::keys::{
    canvas_command, catalog_menu_key, committed_group_label, escape_effect, next_control_index,
    next_routing_style, world_key_passes_to_platform, CanvasCommand, CatalogKeyEffect,
    CatalogMenuState, EscapeEffect, RoutingStyle,
};
use node_graph::text_input::WorldTextInputState;

#[derive(Clone, Debug, PartialEq)]
struct Kind;
impl PortType for Kind {
    fn spec_compatible(_: &Self, _: &Self) -> bool {
        true
    }
    fn compatible(_: &Self, _: &Self) -> bool {
        true
    }
}

fn entry(id: &str, label: &str) -> NodeCatalogItem<Kind> {
    NodeCatalogItem {
        id: id.into(),
        label: label.into(),
        category: "Core".into(),
        description: String::new(),
        keywords: Vec::new(),
        ports: vec![CatalogPort {
            id: "in".into(),
            label: "In".into(),
            direction: PortDirection::Input,
            kind: Kind,
        }],
    }
}

#[test]
fn group_label_editor_commits_when_focus_moves_away() {
    let query = WorldTextInputState::at_end("Renamed".to_string());
    assert_eq!(committed_group_label(&query.text).as_deref(), Some("Renamed"));
}

#[test]
fn group_labels_are_trimmed_and_blank_labels_are_ignored() {
    assert_eq!(
        committed_group_label("  Mixer\u{3000}\n").as_deref(),
        Some("Mixer")
    );
    assert_eq!(committed_group_label(" \t "), None);
    assert_eq!(committed_group_label(""), None);
    assert_eq!(committed_group_label("a b").as_deref(), Some("a b"));
}

#[test]
fn canvas_key_map() {
    assert_eq!(canvas_command("tab", false, false, true), Some(CanvasCommand::OpenCatalog));
    assert_eq!(canvas_command("tab", false, false, false), None);
    assert_eq!(canvas_command("backspace", false, false, false), Some(CanvasCommand::DeleteSelection));
    assert_eq!(canvas_command("a", true, false, false), Some(CanvasCommand::SelectAll));
    assert_eq!(canvas_command("a", false, false, false), None);
    assert_eq!(canvas_command("r", false, false, false), Some(CanvasCommand::CycleRouting));
    assert_eq!(canvas_command("f", true, false, false), None);
    assert_eq!(canvas_command("escape", true, true, false), Some(CanvasCommand::Cancel));
    assert_eq!(canvas_command("z", true, true, false), Some(CanvasCommand::Redo));
    assert_eq!(canvas_command("z", true, false, false), Some(CanvasCommand::Undo));
    assert_eq!(canvas_command("g", true, true, false), Some(CanvasCommand::UngroupSelection));
    assert_eq!(canvas_command("g", true, false, false), Some(CanvasCommand::GroupSelection));
    assert_eq!(canvas_command("c", true, false, false), Some(CanvasCommand::CopySelection));
    assert_eq!(canvas_command("v", true, false, false), Some(CanvasCommand::Paste));
}

#[test]
fn escape_cancels_innermost_first() {
    assert_eq!(escape_effect(true, true), EscapeEffect::CloseAnchorMenu);
    assert_eq!(escape_effect(false, true), EscapeEffect::DismissEscapeOverlays);
    assert_eq!(
        escape_effect(false, false),
        EscapeEffect::CancelGesturesAndClearSelection
    );
}

#[test]
fn tab_focus_cycles_through_world_controls() {
    assert_eq!(next_control_index(None, 3, false), 0);
    assert_eq!(next_control_index(None, 3, true), 2);
    assert_eq!(next_control_index(Some(2), 3, false), 0);
    assert_eq!(next_control_index(Some(0), 3, true), 2);
    assert_eq!(next_control_index(Some(1), 3, true), 0);
    for i in 0..5 {
        let forward = next_control_index(Some(i), 5, false);
        assert_eq!(next_control_index(Some(forward), 5, true), i);
    }
}

#[test]
fn catalog_menu_arrows_stay_on_rows_and_enter_chooses() {
    let catalog = vec![entry("a", "Alpha"), entry("b", "Beta"), entry("c", "Gamma")];
    let mut menu = CatalogMenuState {
        query: WorldTextInputState::at_end(String::new()),
        selected: 0,
    };
    catalog_menu_key(&mut menu, &catalog, None, "up", None, false, false, None);
    assert_eq!(menu.selected, 0);
    for _ in 0..5 {
        catalog_menu_key(&mut menu, &catalog, None, "down", None, false, false, None);
    }
    assert_eq!(menu.selected, 2);
    let outcome = catalog_menu_key(&mut menu, &catalog, None, "enter", None, false, false, None);
    assert_eq!(outcome.effect, CatalogKeyEffect::Choose(2, None));
    catalog_menu_key(&mut menu, &catalog, None, "b", Some("b"), false, false, None);
    assert_eq!(menu.query.text, "b");
    assert_eq!(menu.selected, 0);
    let outcome = catalog_menu_key(&mut menu, &catalog, None, "enter", None, false, false, None);
    assert_eq!(outcome.effect, CatalogKeyEffect::Choose(1, None));
    catalog_menu_key(&mut menu, &catalog, None, "q", Some("q"), false, false, None);
    let outcome = catalog_menu_key(&mut menu, &catalog, None, "enter", None, false, false, None);
    assert_eq!(outcome.effect, CatalogKeyEffect::Stay);
    assert_eq!(
        catalog_menu_key(&mut menu, &catalog, None, "escape", None, false, false, None).effect,
        CatalogKeyEffect::Close
    );
}

#[test]
fn unhandled_composition_keys_stay_with_the_platform() {
    let catalog: Vec<NodeCatalogItem<Kind>> = Vec::new();
    let mut menu = CatalogMenuState {
        query: WorldTextInputState::at_end(String::new()),
        selected: 0,
    };
    let outcome = catalog_menu_key(&mut menu, &catalog, None, "dead", None, false, false, None);
    assert!(!outcome.consumed);
    let outcome = catalog_menu_key(&mut menu, &catalog, None, "dead", Some("´"), false, false, None);
    assert!(outcome.consumed);
    assert_eq!(menu.query.text, "´");
}

#[test]
fn focused_world_controls_leave_typing_to_the_platform() {
    assert!(world_key_passes_to_platform(true, "a", true, false));
    assert!(world_key_passes_to_platform(true, "v", true, true));
    assert!(world_key_passes_to_platform(true, "dead", false, false));
    assert!(!world_key_passes_to_platform(true, "a", true, true));
    assert!(!world_key_passes_to_platform(true, "tab", false, false));
    assert!(!world_key_passes_to_platform(false, "a", true, false));
}

#[test]
fn routing_cycles_through_three_styles() {
    assert_eq!(next_routing_style(RoutingStyle::Subway), RoutingStyle::Bezier);
    assert_eq!(next_routing_style(RoutingStyle::Bezier), RoutingStyle::SimpleOrthogonal);
    assert_eq!(next_routing_style(RoutingStyle::SimpleOrthogonal), RoutingStyle::Subway);
}
