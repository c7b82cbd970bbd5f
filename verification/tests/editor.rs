use node_graph::editor::{
    port_paint_roles, port_visual_state, MutationMode, NodeDrop, PortColorRole,
    PortPresentation,
};
use node_graph::overlay::{opposite_overlay_side, OverlayAlign, OverlaySide};
use node_graph::style::{resolved_node_cursor, AnchorLayout, Cursor, DotShape};

#[test]
fn node_drop_preserves_the_consumer_catalog_id() {
    assert_eq!(NodeDrop::new("color_source".into()).item_id, "color_source");
}

#[test]
fn node_cursor_style_tracks_idle_drag_and_global_resize_state() {
    let (idle, dragging, resize) = (Cursor::Crosshair, Cursor::Grabbing, Cursor::EwResize);
    assert_eq!(resolved_node_cursor(idle, dragging, resize, false, false), Cursor::Crosshair);
    assert_eq!(resolved_node_cursor(idle, dragging, resize, true, false), Cursor::Grabbing);
    // A resize can outrun its narrow handle, so it claims every shell.
    assert_eq!(resolved_node_cursor(idle, dragging, resize, false, true), Cursor::EwResize);
    assert_eq!(resolved_node_cursor(idle, dragging, resize, true, true), Cursor::EwResize);
}

#[test]
fn port_paint_consumes_state_colors_glow_and_incompatible_opacity() {
    let idle = port_paint_roles(false, false, false, false, false);
    assert_eq!(idle.color, PortColorRole::Idle);
    assert!(!idle.filled && !idle.glow && !idle.dimmed && !idle.label_compatible);
    let connected = port_paint_roles(true, false, false, false, false);
    assert_eq!(connected.color, PortColorRole::Connected);
    assert!(connected.filled);
    let compatible = port_paint_roles(false, false, false, true, true);
    assert_eq!(compatible.color, PortColorRole::Compatible);
    assert!(compatible.filled && compatible.glow && compatible.label_compatible);
    assert!(!compatible.dimmed);
    let snapped = port_paint_roles(false, false, true, false, true);
    assert!(!snapped.glow && !snapped.dimmed);
    let incompatible = port_paint_roles(true, false, false, false, true);
    assert!(incompatible.dimmed);
    assert_eq!(incompatible.color, PortColorRole::Connected);
}

#[test]
fn draft_marks_every_other_port_incompatible() {
    assert!(port_visual_state(false, true, false, false, false).incompatible);
    assert!(!port_visual_state(false, true, true, false, false).incompatible);
    assert!(!port_visual_state(false, false, false, false, false).incompatible);
}

#[test]
fn overlays_flip_to_the_opposite_side() {
    for side in [OverlaySide::Top, OverlaySide::Right, OverlaySide::Bottom, OverlaySide::Left] {
        assert_ne!(opposite_overlay_side(side), side);
        assert_eq!(opposite_overlay_side(opposite_overlay_side(side)), side);
    }
    assert_eq!(opposite_overlay_side(OverlaySide::Right), OverlaySide::Left);
}

#[test]
fn defaults_match_the_theme() {
    assert_eq!(OverlaySide::default(), OverlaySide::Right);
    assert_eq!(OverlayAlign::default(), OverlayAlign::Start);
    assert_eq!(AnchorLayout::default(), AnchorLayout::Columns);
    assert_eq!(DotShape::default(), DotShape::Circle);
    assert_eq!(PortPresentation::default(), PortPresentation::DefaultOverlay);
    assert_eq!(MutationMode::default(), MutationMode::Uncontrolled);
}
