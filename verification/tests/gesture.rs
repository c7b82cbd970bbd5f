use node_graph::editor::MutationMode;
use node_graph::gesture::{
    box_selection, cancel_gestures, delete_selection, press_canvas, finish_draft, release_left_gesture, DeleteMutation, DragRelease,
    DragView, DraftRelease, DraftView, GestureState, ResizeRelease, ResizeView,
};

fn idle() -> GestureState {
    GestureState { panning: false, resize: None, drag: None, selecting: false, draft: None }
}

fn texts() -> Vec<(u64, String)> {
    (0..1000u64).map(|id| (id, format!("{id:?}"))).collect()
}

#[test]
fn a_moved_resize_is_requested_and_rolled_back_when_controlled() {
    let g = GestureState { resize: Some(ResizeView { node: 7, moved: true, node_present: true }), ..idle() };
    let (after, effects) = release_left_gesture(&g, MutationMode::Controlled, false);
    assert_eq!(after, idle());
    assert!(effects.rollback_resize);
    assert_eq!(effects.resize, ResizeRelease::Request(7));
    let (_, effects) = release_left_gesture(&g, MutationMode::Uncontrolled, false);
    assert!(!effects.rollback_resize);
    assert_eq!(effects.resize, ResizeRelease::Report(7));
}

#[test]
fn an_unmoved_resize_or_a_vanished_node_sends_nothing() {
    let still = GestureState { resize: Some(ResizeView { node: 7, moved: false, node_present: true }), ..idle() };
    let (after, effects) = release_left_gesture(&still, MutationMode::Controlled, false);
    assert_eq!(after, idle());
    assert_eq!(effects.resize, ResizeRelease::Nothing);
    let gone = GestureState { resize: Some(ResizeView { node: 7, moved: true, node_present: false }), ..idle() };
    let (_, effects) = release_left_gesture(&gone, MutationMode::Controlled, false);
    assert_eq!(effects.resize, ResizeRelease::Nothing);
    assert!(!effects.rollback_resize);
}

#[test]
fn a_drag_is_requested_as_one_batch_or_reported() {
    let g = GestureState { drag: Some(DragView { moved: true, alter_groups: true }), ..idle() };
    let (_, effects) = release_left_gesture(&g, MutationMode::Controlled, false);
    assert!(effects.rollback_drag);
    assert!(effects.update_groups);
    assert_eq!(effects.drag, DragRelease::Request { moves: true });
    let regroup = GestureState { drag: Some(DragView { moved: false, alter_groups: true }), ..idle() };
    let (_, effects) = release_left_gesture(&regroup, MutationMode::Uncontrolled, false);
    assert!(!effects.rollback_drag);
    assert_eq!(effects.drag, DragRelease::Report { moves: false });
    let click = GestureState { drag: Some(DragView { moved: false, alter_groups: false }), ..idle() };
    let (after, effects) = release_left_gesture(&click, MutationMode::Controlled, false);
    assert_eq!(after, idle());
    assert_eq!(effects.drag, DragRelease::Nothing);
    assert!(!effects.update_groups);
}

#[test]
fn the_draft_is_finished_dropped_or_kept() {
    let snapped = DraftView { origin: 1, moved: true, snap: Some(2) };
    let g = GestureState { selecting: true, draft: Some(snapped), ..idle() };
    let (after, effects) = release_left_gesture(&g, MutationMode::Controlled, false);
    assert_eq!(effects.draft, DraftRelease::Finish(2));
    assert_eq!(after.draft, Some(snapped));
    assert!(!after.selecting);

    let loose = DraftView { origin: 1, moved: true, snap: None };
    let g = GestureState { draft: Some(loose), ..idle() };
    let (after, effects) = release_left_gesture(&g, MutationMode::Controlled, false);
    assert_eq!(effects.draft, DraftRelease::Drop);
    assert_eq!(after.draft, None);
    let (after, effects) = release_left_gesture(&g, MutationMode::Controlled, true);
    assert_eq!(effects.draft, DraftRelease::Keep);
    assert_eq!(after.draft, Some(loose));

    let clicked = DraftView { origin: 1, moved: false, snap: None };
    let g = GestureState { draft: Some(clicked), ..idle() };
    assert_eq!(release_left_gesture(&g, MutationMode::Uncontrolled, false).1.draft, DraftRelease::Keep);
}

#[test]
fn a_pan_release_leaves_the_draft_alone() {
    let snapped = DraftView { origin: 1, moved: true, snap: Some(2) };
    let g = GestureState { panning: true, draft: Some(snapped), ..idle() };
    let (after, effects) = release_left_gesture(&g, MutationMode::Controlled, false);
    assert_eq!(effects.draft, DraftRelease::Keep);
    assert_eq!(after, GestureState { draft: Some(snapped), ..idle() });
}

#[test]
fn a_second_release_sends_nothing() {
    let g = GestureState {
        resize: Some(ResizeView { node: 3, moved: true, node_present: true }),
        drag: Some(DragView { moved: true, alter_groups: false }),
        draft: Some(DraftView { origin: 1, moved: true, snap: None }),
        ..idle()
    };
    let (once, _) = release_left_gesture(&g, MutationMode::Controlled, false);
    let (twice, effects) = release_left_gesture(&once, MutationMode::Controlled, false);
    assert_eq!(twice, once);
    assert_eq!(effects.resize, ResizeRelease::Nothing);
    assert_eq!(effects.drag, DragRelease::Nothing);
    assert!(!effects.rollback_resize && !effects.rollback_drag && !effects.update_groups);
}

#[test]
fn finishing_a_draft_asks_for_the_connection_once() {
    let g = GestureState { draft: Some(DraftView { origin: 11, moved: true, snap: Some(10) }), ..idle() };
    let (after, ask) = finish_draft(&g, Some((10, 11)), MutationMode::Controlled);
    assert_eq!(after.draft, None);
    let ask = ask.unwrap();
    assert_eq!((ask.source, ask.target, ask.request), (10, 11, true));
    let (_, ask) = finish_draft(&g, Some((10, 11)), MutationMode::Uncontrolled);
    assert!(!ask.unwrap().request);
    let (after, ask) = finish_draft(&g, None, MutationMode::Controlled);
    assert_eq!(after, g);
    assert!(ask.is_none());
    let (after, ask) = finish_draft(&idle(), Some((10, 11)), MutationMode::Controlled);
    assert_eq!(after, idle());
    assert!(ask.is_none());
}

#[test]
fn deleting_the_selection_sorts_by_the_hosts_texts() {
    let deletion = delete_selection(&vec![9, 10], &vec![3, 20], MutationMode::Controlled, &texts(), &texts());
    assert_eq!(
        deletion.batch,
        vec![
            DeleteMutation::RemoveConnection(10),
            DeleteMutation::RemoveConnection(9),
            DeleteMutation::DeleteNodes(vec![20, 3]),
        ]
    );
    assert!(deletion.connections.is_empty() && deletion.nodes.is_empty());
    let only_edges = delete_selection(&vec![9], &vec![], MutationMode::Controlled, &texts(), &texts());
    assert_eq!(only_edges.batch, vec![DeleteMutation::RemoveConnection(9)]);
    let nothing = delete_selection(&vec![], &vec![], MutationMode::Controlled, &texts(), &texts());
    assert!(nothing.batch.is_empty());
    let local = delete_selection(&vec![9, 10], &vec![3, 20], MutationMode::Uncontrolled, &texts(), &texts());
    assert!(local.batch.is_empty());
    assert_eq!(local.connections, vec![10, 9]);
    assert_eq!(local.nodes, vec![20, 3]);
}

#[test]
fn the_selection_box_adds_to_the_baseline() {
    let outcome = box_selection(&vec![4, 5, 4], &vec![5, 9], &vec![30], &vec![9]);
    assert_eq!(outcome.nodes, vec![4, 5, 9]);
    assert_eq!(outcome.connections, vec![30]);
    assert!(outcome.changed);
    let again = box_selection(&vec![5], &vec![9, 4], &vec![], &vec![4, 5, 9]);
    assert!(!again.changed);
    assert!(again.connections.is_empty());
}

#[test]
fn escape_cancels_every_gesture_and_rolls_back_what_moved() {
    let g = GestureState {
        panning: true,
        resize: Some(ResizeView { node: 2, moved: true, node_present: true }),
        drag: Some(DragView { moved: false, alter_groups: true }),
        selecting: true,
        draft: Some(DraftView { origin: 1, moved: false, snap: None }),
    };
    let (after, effects) = cancel_gestures(&g);
    assert_eq!(after, idle());
    assert!(effects.rollback_resize);
    assert!(!effects.rollback_drag);
}

#[test]
fn a_canvas_press_toggles_selects_or_starts_a_box() {
    let toggled = press_canvas(Some(30), true, &vec![1], &vec![30, 31]);
    assert_eq!(toggled.nodes, vec![1]);
    assert_eq!(toggled.connections, vec![31]);
    assert!(toggled.box_baseline.is_none());
    assert!(toggled.changed);
    let added = press_canvas(Some(32), true, &vec![1], &vec![31]);
    assert_eq!(added.connections, vec![31, 32]);
    let only = press_canvas(Some(31), false, &vec![1], &vec![31]);
    assert!(only.nodes.is_empty());
    assert_eq!(only.connections, vec![31]);
    assert!(only.changed);
    let kept = press_canvas(None, true, &vec![1], &vec![31]);
    assert_eq!(kept.nodes, vec![1]);
    assert_eq!(kept.box_baseline, Some((vec![], vec![31])));
    assert!(!kept.changed);
    let cleared = press_canvas(None, false, &vec![1], &vec![31]);
    assert!(cleared.nodes.is_empty() && cleared.connections.is_empty());
    assert_eq!(cleared.box_baseline, Some((vec![], vec![])));
    assert!(cleared.changed);
    assert!(!press_canvas(None, false, &vec![], &vec![]).changed);
}
