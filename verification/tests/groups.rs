use node_graph::editor::MutationMode;
use node_graph::groups::{sort_texts, text_le_exec, GraphGroup, GroupTable};
use node_graph::id_order::{order_by_text, text_for};

const A: u64 = 1;
const B: u64 = 2;

fn group(id: &str, nodes: Vec<u64>) -> GraphGroup {
    GraphGroup { id: id.into(), label: Some("Group".into()), error: false, nodes }
}

fn ids(groups: &[GraphGroup]) -> Vec<String> {
    groups.iter().map(|g| g.id.clone()).collect()
}

#[test]
fn selected_groups_are_deterministic_for_ungroup_transactions() {
    let editor = GroupTable::new(vec![group("group", vec![A, B])]);
    assert!(editor.selected_group_ids(&[]).is_empty());
    assert_eq!(editor.selected_group_ids(&[A]), vec![String::from("group")]);
}

#[test]
fn selected_group_ids_are_sorted_whatever_the_group_order() {
    let forward = GroupTable::new(vec![
        group("zeta", vec![A]),
        group("alpha", vec![B]),
        group("mid", vec![A, B]),
        group("idle", vec![3]),
    ]);
    let backward = GroupTable::new(vec![
        group("idle", vec![3]),
        group("mid", vec![B, A]),
        group("alpha", vec![B]),
        group("zeta", vec![A]),
    ]);
    let expected = vec![String::from("alpha"), String::from("mid"), String::from("zeta")];
    assert_eq!(forward.selected_group_ids(&[A, B]), expected);
    assert_eq!(backward.selected_group_ids(&[B, A]), expected);
}

/// The host's debug text of each node id the tests use.
fn texts() -> Vec<(u64, String)> {
    (0..1000u64).map(|id| (id, format!("{id:?}"))).collect()
}

#[test]
fn detached_memberships_follow_the_hosts_id_texts() {
    let mut editor = GroupTable::new(vec![group("g", vec![9, A, 10, 100])]);
    let changes = editor.detach_node_from_groups(A, MutationMode::Controlled, &texts());
    // "10" < "100" < "9" as texts.
    assert_eq!(changes[0].node_ids, vec![10, 100, 9]);
    let named = vec![(9u64, String::from("a")), (10u64, String::from("c")), (100u64, String::from("b"))];
    let changes = editor.detach_node_from_groups(A, MutationMode::Controlled, &named);
    assert_eq!(changes[0].node_ids, vec![9, 100, 10]);
}

#[test]
fn alt_drag_detaches_only_the_primary_node_immediately() {
    let mut editor = GroupTable::new(vec![group("group", vec![A, B])]);
    let changes = editor.detach_node_from_groups(A, MutationMode::Uncontrolled, &texts());
    assert_eq!(changes.len(), 1);
    assert_eq!(changes[0].group_id, "group");
    assert_eq!(changes[0].node_ids, vec![B]);
    assert_eq!(editor.groups()[0].nodes, vec![B]);
}

#[test]
fn controlled_detach_only_requests_memberships() {
    let mut editor = GroupTable::new(vec![
        group("first", vec![5, A, 3]),
        group("other", vec![B]),
        group("second", vec![A]),
    ]);
    let changes = editor.detach_node_from_groups(A, MutationMode::Controlled, &texts());
    assert_eq!(changes.len(), 2);
    assert_eq!(changes[0].group_id, "first");
    assert_eq!(changes[0].node_ids, vec![3, 5]);
    assert_eq!(changes[1].group_id, "second");
    assert!(changes[1].node_ids.is_empty());
    assert_eq!(editor.groups()[0].nodes, vec![5, A, 3]);
    assert!(editor.detach_node_from_groups(99, MutationMode::Uncontrolled, &texts()).is_empty());
}

#[test]
fn ungrouping_requests_or_removes_the_selected_groups() {
    let mut controlled = GroupTable::new(vec![group("b", vec![A]), group("a", vec![A]), group("c", vec![B])]);
    assert_eq!(
        controlled.ungroup_selection(&[A], MutationMode::Controlled),
        vec![String::from("a"), String::from("b")]
    );
    assert_eq!(controlled.groups().len(), 3);

    let mut local = GroupTable::new(vec![group("b", vec![A]), group("a", vec![A]), group("c", vec![B])]);
    assert_eq!(
        local.ungroup_selection(&[A], MutationMode::Uncontrolled),
        vec![String::from("a"), String::from("b")]
    );
    assert_eq!(ids(local.groups()), vec![String::from("c")]);
    assert!(local.ungroup_selection(&[A], MutationMode::Uncontrolled).is_empty());
    assert_eq!(local.groups().len(), 1);
}

#[test]
fn group_errors_are_marked_and_follow_the_groups() {
    let mut editor = GroupTable::new(vec![group("one", vec![A]), group("two", vec![B])]);
    assert!(editor.set_group_error("one", true));
    assert!(!editor.set_group_error("one", true));
    assert!(editor.set_group_error("two", true));
    assert!(editor.group_has_error("one"));
    assert!(editor.set_group_error("two", false));
    assert!(!editor.set_group_error("two", false));
    assert!(!editor.group_has_error("two"));
    editor.set_groups(vec![group("two", vec![B])]);
    assert!(!editor.group_has_error("one"));
    assert_eq!(ids(editor.groups()), vec![String::from("two")]);
}

#[test]
fn upserting_replaces_by_id_or_appends() {
    let mut editor = GroupTable::new(vec![group("one", vec![A])]);
    editor.upsert_group(group("one", vec![B]));
    assert_eq!(editor.groups().len(), 1);
    assert_eq!(editor.groups()[0].nodes, vec![B]);
    editor.upsert_group(group("two", vec![A]));
    assert_eq!(ids(editor.groups()), vec![String::from("one"), String::from("two")]);
}

#[test]
fn texts_and_ids_sort_like_std() {
    let words: Vec<String> = vec!["b".into(), "ab".into(), "a".into(), "B".into(), "é".into(), "".into()];
    let mut expected = words.clone();
    expected.sort();
    assert_eq!(sort_texts(&words), expected);
    assert_eq!(order_by_text(&vec![3, 1, 2, 1], &texts()), vec![1, 1, 2, 3]);
    let named = vec![(1u64, String::from("b")), (2u64, String::from("a")), (1u64, String::from("z"))];
    assert_eq!(text_for(&named, 1), "b");
    assert_eq!(text_for(&named, 7), "");
    assert_eq!(order_by_text(&vec![1, 7, 2], &named), vec![7, 2, 1]);
    assert!(text_le_exec("a", "ab"));
    assert!(!text_le_exec("ab", "a"));
    assert!(text_le_exec("same", "same"));
}
