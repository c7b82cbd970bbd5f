use node_graph::dismissal::OverlayDismissals;

#[test]
fn overlay_escape_and_outside_dismiss_policies_are_independent() {
    let mut editor = OverlayDismissals::new();
    assert!(editor.activate_overlay("escape", true, false, false));
    assert!(editor.activate_overlay("outside", false, true, false));
    assert_eq!(editor.active_overlay_count(), 2);

    let dismissed = editor.dismiss_escape_overlays();
    assert_eq!(dismissed, vec![String::from("escape")]);
    assert!(editor.is_overlay_dismissed("escape"));
    assert!(!editor.is_overlay_dismissed("outside"));
    assert_eq!(editor.active_overlay_count(), 1);

    let dismissed = editor.dismiss_outside_overlays();
    assert_eq!(dismissed, vec![String::from("outside")]);
    assert!(editor.is_overlay_dismissed("outside"));
    assert_eq!(editor.active_overlay_count(), 0);
}

#[test]
fn dismissed_overlays_stay_hidden_until_reopened() {
    let mut editor = OverlayDismissals::new();
    assert!(editor.dismiss_overlay("panel"));
    assert!(!editor.dismiss_overlay("panel"));
    assert!(!editor.activate_overlay("panel", true, true, true));
    assert_eq!(editor.active_overlay_count(), 0);
    assert!(editor.reopen_overlay("panel"));
    assert!(!editor.reopen_overlay("panel"));
    assert!(!editor.is_overlay_dismissed("panel"));
    assert!(editor.activate_overlay("panel", true, false, false));
    assert_eq!(editor.active_overlay_count(), 1);
}

#[test]
fn overlays_without_a_dismissal_behaviour_are_not_counted() {
    let mut editor = OverlayDismissals::new();
    assert!(editor.activate_overlay("plain", false, false, false));
    assert!(editor.activate_overlay("backdrop", false, false, true));
    assert!(editor.activate_overlay("backdrop", false, false, true));
    assert_eq!(editor.active_overlay_count(), 1);
    assert!(editor.dismiss_escape_overlays().is_empty());
    assert!(editor.dismiss_outside_overlays().is_empty());
    editor.clear_active_overlays();
    assert_eq!(editor.active_overlay_count(), 0);
}

#[test]
fn an_overlay_dismissed_by_either_policy_leaves_both() {
    let mut editor = OverlayDismissals::new();
    assert!(editor.activate_overlay("both", true, true, false));
    assert_eq!(editor.dismiss_escape_overlays(), vec![String::from("both")]);
    assert!(editor.dismiss_outside_overlays().is_empty());
    assert!(editor.is_overlay_dismissed("both"));
}
