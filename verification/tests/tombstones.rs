use node_graph::editor::MutationMode;
use node_graph::graph_core::{Connection, PortDirection, PortType};
use node_graph::catalog::RegistryError;
use node_graph::tombstones::reconcile::{DesiredPort, PortOrders};
use node_graph::tombstones::refresh::{NodePorts, PendingChanges};
use node_graph::tombstones::{
    anchor_choice, AnchorChoice, AnchorMenuItem, AnchorMenuAction, ConnectionLedger, DanglingConnection, DraftStart, PortEntry,
};

#[derive(Clone, Debug, PartialEq)]
struct Kind;
impl PortType for Kind {
    fn spec_compatible(_: &Self, _: &Self) -> bool {
        true
    }
    fn compatible(_: &Self, _: &Self) -> bool {
        true
    }
}

/// A kind that only connects to itself.
#[derive(Clone, Debug, PartialEq)]
enum Typed {
    Number,
    Text,
}
impl PortType for Typed {
    fn spec_compatible(a: &Self, b: &Self) -> bool {
        a == b
    }
    fn compatible(a: &Self, b: &Self) -> bool {
        a == b
    }
}

const NODE_A: u64 = 1;
const NODE_B: u64 = 2;
const OUT: u64 = 10;
const IN: u64 = 11;
const WIRE: u64 = 100;

fn out_port() -> PortEntry<Kind> {
    PortEntry { label: "Out".into(), id: OUT, node: NODE_A, direction: PortDirection::Output, kind: Kind }
}

fn in_port() -> PortEntry<Kind> {
    PortEntry { label: "In".into(), id: IN, node: NODE_B, direction: PortDirection::Input, kind: Kind }
}

fn wire() -> Connection<u64, u64> {
    Connection { id: WIRE, source: OUT, target: IN }
}

/// Node `a` with output `out`, node `b` with input `in`, and `wire` between them.
fn interactive_graph() -> ConnectionLedger<Kind> {
    let mut ledger = ConnectionLedger::new();
    assert!(ledger.add_port(out_port()));
    assert!(ledger.add_port(in_port()));
    assert!(ledger.insert_connection(wire()));
    ledger
}

/// The host's debug text of each connection id the tests use.
fn texts() -> Vec<(u64, String)> {
    (0..1000u64).map(|id| (id, format!("{id:?}"))).collect()
}

fn ids(connections: &[Connection<u64, u64>]) -> Vec<u64> {
    connections.iter().map(|c| c.id).collect()
}

#[test]
fn dynamic_port_removal_uses_transient_tombstones_and_keeps_graph_strict() {
    let mut editor = interactive_graph();
    let removed = editor.remove_port_to_tombstones(OUT, &texts()).unwrap();
    assert_eq!(removed, vec![WIRE]);
    assert!(!editor.has_port(OUT));
    assert!(!editor.has_connection(WIRE));
    assert_eq!(editor.dangling_connections().len(), 1);
    assert_eq!(editor.dangling_connections()[0].missing_port, OUT);
    assert!(editor.add_port(out_port()));
    assert_eq!(editor.restore_tombstones_for_port(OUT), vec![WIRE]);
    assert!(editor.dangling_connections().is_empty());
    assert!(editor.has_connection(WIRE));
}

#[test]
fn controlled_tombstones_survive_host_reconciliation_until_restored() {
    let mut editor = interactive_graph();
    editor.capture_tombstones_for_port(OUT, &texts());
    assert_eq!(editor.dangling_connections().len(), 1);
    assert!(editor.has_connection(WIRE));

    assert!(editor.remove_connection(WIRE));
    assert_eq!(editor.remove_port_to_tombstones(OUT, &texts()), Some(vec![]));
    editor.prune_resolved_tombstones();
    assert_eq!(editor.dangling_connections().len(), 1);

    assert!(editor.add_port(out_port()));
    let restorable = editor.restorable_tombstone_connections(OUT);
    assert_eq!(ids(&restorable), vec![WIRE]);
    assert_eq!((restorable[0].source, restorable[0].target), (OUT, IN));
    assert!(editor.insert_connection(wire()));
    editor.prune_resolved_tombstones();
    assert!(editor.dangling_connections().is_empty());
}

#[test]
fn default_anchor_menu_tracks_live_and_broken_connections() {
    let mut editor = interactive_graph();
    let items = editor.anchor_menu_items(OUT);
    assert!(items[0].enabled);
    assert!(!items[1].enabled);
    editor.remove_port_to_tombstones(IN, &texts()).unwrap();
    let items = editor.anchor_menu_items(OUT);
    assert!(items[0].enabled);
    assert!(items[1].enabled);
}

#[test]
fn anchor_menu_has_two_labelled_entries_and_none_for_a_missing_port() {
    let editor = interactive_graph();
    let items = editor.anchor_menu_items(IN);
    assert_eq!(items.len(), 2);
    assert_eq!(items[0].label, "Remove connections");
    assert_eq!(items[0].action, AnchorMenuAction::RemoveConnections);
    assert_eq!(items[1].label, "Remove broken connections");
    assert_eq!(items[1].action, AnchorMenuAction::RemoveBrokenConnections);
    assert!(editor.anchor_menu_items(999).is_empty());
}

#[test]
fn removing_an_unknown_port_changes_nothing() {
    let mut editor = interactive_graph();
    assert_eq!(editor.remove_port_to_tombstones(999, &texts()), None);
    assert_eq!(editor.remove_port_with_tombstones(999, MutationMode::Controlled, &texts()), None);
    assert!(editor.has_connection(WIRE));
    assert!(editor.dangling_connections().is_empty());
}

#[test]
fn ports_and_connections_refuse_taken_ids_and_invalid_ends() {
    let mut editor = interactive_graph();
    assert!(!editor.add_port(out_port()));
    // Same id again.
    assert!(!editor.insert_connection(wire()));
    // Input to output.
    assert!(!editor.insert_connection(Connection { id: 101, source: IN, target: OUT }));
    // Missing end.
    assert!(!editor.insert_connection(Connection { id: 102, source: OUT, target: 999 }));
    // Two ports of one node.
    assert!(editor.add_port(PortEntry {
        label: String::new(),
        id: 12,
        node: NODE_A,
        direction: PortDirection::Input,
        kind: Kind,
    }));
    assert!(!editor.insert_connection(Connection { id: 103, source: OUT, target: 12 }));
}

#[test]
fn incompatible_kinds_never_connect_or_restore() {
    let mut ledger: ConnectionLedger<Typed> = ConnectionLedger::new();
    assert!(ledger.add_port(PortEntry {
        label: String::new(),
        id: OUT,
        node: NODE_A,
        direction: PortDirection::Output,
        kind: Typed::Number,
    }));
    assert!(ledger.add_port(PortEntry {
        label: String::new(),
        id: IN,
        node: NODE_B,
        direction: PortDirection::Input,
        kind: Typed::Number,
    }));
    assert!(ledger.insert_connection(wire()));
    assert_eq!(ledger.remove_port_to_tombstones(OUT, &texts()), Some(vec![WIRE]));
    // The port comes back with another kind: the wire stays broken.
    assert!(ledger.add_port(PortEntry {
        label: String::new(),
        id: OUT,
        node: NODE_A,
        direction: PortDirection::Output,
        kind: Typed::Text,
    }));
    assert!(ledger.restore_tombstones_for_port(OUT).is_empty());
    assert!(ledger.restorable_tombstone_connections(OUT).is_empty());
    assert_eq!(ledger.dangling_connections().len(), 1);
    assert!(!ledger.has_connection(WIRE));
}

#[test]
fn removal_round_trip_restores_every_connection_of_the_port() {
    let mut editor = interactive_graph();
    assert!(editor.add_port(PortEntry { label: String::new(), id: 20, node: 3, direction: PortDirection::Input, kind: Kind }));
    assert!(editor.insert_connection(Connection { id: 200, source: OUT, target: 20 }));
    assert!(editor.add_port(PortEntry { label: String::new(), id: 21, node: 3, direction: PortDirection::Output, kind: Kind }));
    assert!(editor.insert_connection(Connection { id: 201, source: 21, target: IN }));

    let removed = editor.remove_port_to_tombstones(OUT, &texts()).unwrap();
    assert_eq!(removed, vec![WIRE, 200]);
    assert!(editor.has_connection(201));
    let missing: Vec<u64> = editor.dangling_connections().iter().map(|d| d.missing_port).collect();
    assert_eq!(missing, vec![OUT, OUT]);

    assert!(editor.add_port(out_port()));
    assert_eq!(editor.restore_tombstones_for_port(OUT), removed);
    assert!(editor.dangling_connections().is_empty());
    for id in [WIRE, 200, 201] {
        assert!(editor.has_connection(id));
    }
}

#[test]
fn a_new_tombstone_replaces_the_captured_one() {
    let mut editor = interactive_graph();
    editor.capture_tombstones_for_port(IN, &texts());
    assert_eq!(editor.dangling_connections()[0].missing_port, IN);
    editor.remove_port_to_tombstones(OUT, &texts()).unwrap();
    assert_eq!(
        editor.dangling_connections(),
        &[DanglingConnection { id: WIRE, source: OUT, target: IN, missing_port: OUT }]
    );
}

#[test]
fn controlled_port_removal_only_captures_and_requests() {
    let mut editor = interactive_graph();
    assert_eq!(editor.remove_port_with_tombstones(OUT, MutationMode::Controlled, &texts()), Some(vec![WIRE]));
    assert!(editor.has_port(OUT));
    assert!(editor.has_connection(WIRE));
    assert_eq!(editor.dangling_connections().len(), 1);

    let mut local = interactive_graph();
    assert_eq!(local.remove_port_with_tombstones(OUT, MutationMode::Uncontrolled, &texts()), Some(vec![WIRE]));
    assert!(!local.has_port(OUT));
    assert!(!local.has_connection(WIRE));
}

#[test]
fn restoring_by_mode_requests_or_applies() {
    let mut editor = interactive_graph();
    editor.remove_port_to_tombstones(OUT, &texts()).unwrap();
    assert!(editor.add_port(out_port()));
    let requested = editor.restore_tombstoned_connections(OUT, MutationMode::Controlled);
    assert_eq!(ids(&requested), vec![WIRE]);
    assert!(!editor.has_connection(WIRE));
    assert_eq!(editor.dangling_connections().len(), 1);

    let restored = editor.restore_tombstoned_connections(OUT, MutationMode::Uncontrolled);
    assert_eq!(ids(&restored), vec![WIRE]);
    assert!(editor.has_connection(WIRE));
    assert!(editor.dangling_connections().is_empty());
}

#[test]
fn menu_removal_of_live_and_broken_connections() {
    let mut editor = interactive_graph();
    assert!(editor.add_port(PortEntry { label: String::new(), id: 20, node: 3, direction: PortDirection::Input, kind: Kind }));
    assert!(editor.insert_connection(Connection { id: 200, source: OUT, target: 20 }));
    editor.remove_port_to_tombstones(20, &texts()).unwrap();

    // Controlled: the live wire is requested, the broken one dropped here.
    let mut controlled = interactive_graph();
    assert!(controlled.add_port(PortEntry { label: String::new(), id: 20, node: 3, direction: PortDirection::Input, kind: Kind }));
    assert!(controlled.insert_connection(Connection { id: 200, source: OUT, target: 20 }));
    controlled.remove_port_to_tombstones(20, &texts()).unwrap();
    let outcome = controlled.remove_anchor_connections(OUT, false, MutationMode::Controlled, &texts());
    assert_eq!(outcome.requested, vec![WIRE]);
    assert_eq!(outcome.removed, vec![200]);
    assert!(controlled.has_connection(WIRE));
    assert!(controlled.dangling_connections().is_empty());

    // Uncontrolled, broken only: the live wire stays.
    let mut broken_only = interactive_graph();
    assert!(broken_only.add_port(PortEntry { label: String::new(), id: 20, node: 3, direction: PortDirection::Input, kind: Kind }));
    assert!(broken_only.insert_connection(Connection { id: 200, source: OUT, target: 20 }));
    broken_only.remove_port_to_tombstones(20, &texts()).unwrap();
    let outcome = broken_only.remove_anchor_connections(OUT, true, MutationMode::Uncontrolled, &texts());
    assert!(outcome.requested.is_empty());
    assert_eq!(outcome.removed, vec![200]);
    assert!(broken_only.has_connection(WIRE));

    // Uncontrolled: everything goes, and the menu is disabled afterwards.
    let outcome = editor.remove_anchor_connections(OUT, false, MutationMode::Uncontrolled, &texts());
    assert_eq!(outcome.removed, vec![WIRE, 200]);
    assert!(!editor.has_connection(WIRE));
    assert!(editor.dangling_connections().is_empty());
    let items = editor.anchor_menu_items(OUT);
    assert!(!items[0].enabled);
    assert!(!items[1].enabled);
}

#[test]
fn a_captured_connection_is_removed_once() {
    let mut editor = interactive_graph();
    editor.capture_tombstones_for_port(OUT, &texts());
    let outcome = editor.remove_anchor_connections(OUT, false, MutationMode::Uncontrolled, &texts());
    assert_eq!(outcome.removed, vec![WIRE]);
    assert!(!editor.has_connection(WIRE));
    assert!(editor.dangling_connections().is_empty());
}

#[test]
fn clearing_forgets_every_tombstone() {
    let mut editor = interactive_graph();
    editor.remove_port_to_tombstones(OUT, &texts()).unwrap();
    editor.clear_dangling_connections();
    assert!(editor.dangling_connections().is_empty());
    assert!(editor.add_port(out_port()));
    assert!(editor.restore_tombstones_for_port(OUT).is_empty());
}

#[test]
fn occupied_input_reroute_detaches_immediately() {
    let mut editor = interactive_graph();
    let start = editor.begin_draft(IN, MutationMode::Uncontrolled).unwrap();
    assert!(!editor.has_connection(WIRE));
    assert_eq!(start.origin, OUT);
    // The connection was removed here: the host reports `ConnectionRemoved`.
    assert_eq!(start, DraftStart { origin: OUT, detached: None });
}

#[test]
fn controlled_reroute_hides_the_detached_snapshot_edge() {
    let mut editor = interactive_graph();
    let start = editor.begin_draft(IN, MutationMode::Controlled).unwrap();
    assert!(editor.has_connection(WIRE));
    assert_eq!(start.detached, Some(WIRE));
    assert_eq!(start.origin, OUT);
}

#[test]
fn grabbing_an_output_or_a_free_input_drafts_from_the_port() {
    let mut editor = interactive_graph();
    assert_eq!(
        editor.begin_draft(OUT, MutationMode::Uncontrolled),
        Some(DraftStart { origin: OUT, detached: None })
    );
    assert!(editor.has_connection(WIRE));
    assert!(editor.add_port(PortEntry { label: String::new(), id: 20, node: 3, direction: PortDirection::Input, kind: Kind }));
    assert_eq!(
        editor.begin_draft(20, MutationMode::Uncontrolled),
        Some(DraftStart { origin: 20, detached: None })
    );
    assert_eq!(editor.begin_draft(999, MutationMode::Uncontrolled), None);
}

#[test]
fn drafts_normalize_to_output_first_from_either_end() {
    let mut editor = interactive_graph();
    assert_eq!(editor.normalized_connection(OUT, IN), Some((OUT, IN)));
    assert_eq!(editor.normalized_connection(IN, OUT), Some((OUT, IN)));
    assert_eq!(editor.normalized_connection(OUT, OUT), None);
    assert_eq!(editor.normalized_connection(OUT, 999), None);
    assert!(editor.add_port(PortEntry { label: String::new(), id: 12, node: NODE_A, direction: PortDirection::Input, kind: Kind }));
    assert_eq!(editor.normalized_connection(OUT, 12), None);
    assert!(editor.add_port(PortEntry { label: String::new(), id: 13, node: 3, direction: PortDirection::Output, kind: Kind }));
    assert_eq!(editor.normalized_connection(OUT, 13), None);

    let mut typed: ConnectionLedger<Typed> = ConnectionLedger::new();
    assert!(typed.add_port(PortEntry { label: String::new(), id: OUT, node: NODE_A, direction: PortDirection::Output, kind: Typed::Number }));
    assert!(typed.add_port(PortEntry { label: String::new(), id: IN, node: NODE_B, direction: PortDirection::Input, kind: Typed::Text }));
    assert_eq!(typed.normalized_connection(IN, OUT), None);
}

fn out_spec(label: &str) -> DesiredPort<Kind> {
    DesiredPort {
        key: "out".into(),
        id: OUT,
        label: label.into(),
        direction: PortDirection::Output,
        kind: Kind,
    }
}

#[test]
fn registry_dynamic_port_shrink_and_grow_restores_strict_connection() {
    let mut editor = interactive_graph();
    let node_type = String::from("a");
    // The type asks for the port the node already has: nothing changes.
    let plan = editor.plan_node_ports(&node_type, NODE_A, &vec![out_spec("Out")], None, &vec![]).unwrap();
    assert_eq!(plan.desired_ids, vec![OUT]);
    assert!(plan.remove.is_empty());
    assert!(plan.upsert.is_empty());

    // The dynamic port goes away.
    let plan = editor.plan_node_ports(&node_type, NODE_A, &vec![], Some(&vec![OUT]), &vec![]).unwrap();
    assert_eq!(plan.remove, vec![OUT]);
    let outcome = editor.apply_port_plan(NODE_A, vec![], &plan, &texts());
    assert_eq!(outcome.removed, vec![WIRE]);
    assert!(!editor.has_port(OUT));
    assert!(!editor.has_connection(WIRE));
    assert_eq!(editor.dangling_connections().len(), 1);

    // It comes back.
    let plan = editor
        .plan_node_ports(&node_type, NODE_A, &vec![out_spec("Out")], Some(&vec![]), &vec![])
        .unwrap();
    assert_eq!(plan.upsert, vec![0]);
    let outcome = editor.apply_port_plan(NODE_A, vec![out_spec("Out")], &plan, &texts());
    assert_eq!(outcome.restored, vec![WIRE]);
    assert!(editor.has_port(OUT));
    assert!(editor.has_connection(WIRE));
    assert!(editor.dangling_connections().is_empty());
}

#[test]
fn a_relabelled_port_keeps_its_connections() {
    let mut editor = interactive_graph();
    let plan = editor
        .plan_node_ports(&String::from("a"), NODE_A, &vec![out_spec("Renamed")], None, &vec![])
        .unwrap();
    assert_eq!(plan.upsert, vec![0]);
    let outcome = editor.apply_port_plan(NODE_A, vec![out_spec("Renamed")], &plan, &texts());
    assert!(outcome.removed.is_empty());
    assert!(outcome.restored.is_empty());
    assert!(editor.has_connection(WIRE));
}

#[test]
fn a_port_that_changes_direction_sends_its_connections_to_tombstones() {
    let mut editor = interactive_graph();
    let flipped = DesiredPort {
        key: "out".into(),
        id: OUT,
        label: "Out".into(),
        direction: PortDirection::Input,
        kind: Kind,
    };
    let plan = editor.plan_node_ports(&String::from("a"), NODE_A, &vec![flipped], None, &vec![]).unwrap();
    assert_eq!(plan.upsert, vec![0]);
    let flipped = DesiredPort {
        key: "out".into(),
        id: OUT,
        label: "Out".into(),
        direction: PortDirection::Input,
        kind: Kind,
    };
    let outcome = editor.apply_port_plan(NODE_A, vec![flipped], &plan, &texts());
    assert_eq!(outcome.removed, vec![WIRE]);
    assert!(outcome.restored.is_empty());
    assert!(editor.has_port(OUT));
    assert!(!editor.has_connection(WIRE));
    assert_eq!(editor.dangling_connections()[0].missing_port, OUT);
}

#[test]
fn refused_desired_ports_name_the_first_fault() {
    let editor = interactive_graph();
    let node_type = String::from("a");
    let mut empty = out_spec("Out");
    empty.key = String::new();
    assert_eq!(
        editor.plan_node_ports(&node_type, NODE_A, &vec![empty], None, &vec![]).unwrap_err(),
        RegistryError::EmptyPortKey { node_type: "a".into() }
    );
    let mut twin = out_spec("Twin");
    twin.id = 50;
    assert_eq!(
        editor
            .plan_node_ports(&node_type, NODE_A, &vec![out_spec("Out"), twin], None, &vec![])
            .unwrap_err(),
        RegistryError::DuplicatePortKey { node_type: "a".into(), key: "out".into() }
    );
    // Generated earlier in the same refresh.
    assert_eq!(
        editor.plan_node_ports(&node_type, NODE_A, &vec![out_spec("Out")], None, &vec![OUT]).unwrap_err(),
        RegistryError::PortIdCollision
    );
    // The id belongs to a port of another node.
    assert_eq!(
        editor.plan_node_ports(&node_type, NODE_B, &vec![out_spec("Out")], None, &vec![]).unwrap_err(),
        RegistryError::PortIdCollision
    );
}

/// Output `out` wired to inputs `in` (connection 9) and 12 (connection 10).
fn fanned_graph() -> ConnectionLedger<Kind> {
    let mut ledger = ConnectionLedger::new();
    assert!(ledger.add_port(out_port()));
    assert!(ledger.add_port(in_port()));
    let other_in = PortEntry { label: "In 2".into(), id: 12, node: NODE_B, direction: PortDirection::Input, kind: Kind };
    assert!(ledger.add_port(other_in));
    assert!(ledger.insert_connection(Connection { id: 9, source: OUT, target: IN }));
    assert!(ledger.insert_connection(Connection { id: 10, source: OUT, target: 12 }));
    ledger
}

#[test]
fn removals_follow_the_hosts_connection_id_texts() {
    // "10" comes before "9" as text.
    let mut controlled = fanned_graph();
    assert_eq!(controlled.remove_port_with_tombstones(OUT, MutationMode::Controlled, &texts()), Some(vec![10, 9]));
    let mut local = fanned_graph();
    assert_eq!(local.remove_port_to_tombstones(OUT, &texts()), Some(vec![10, 9]));
    let mut menu = fanned_graph();
    let outcome = menu.remove_anchor_connections(OUT, false, MutationMode::Uncontrolled, &texts());
    assert_eq!(outcome.removed, vec![10, 9]);
    let mut requested = fanned_graph();
    let outcome = requested.remove_anchor_connections(OUT, false, MutationMode::Controlled, &texts());
    assert_eq!(outcome.requested, vec![10, 9]);
    let mut numeric = fanned_graph();
    let by_number = vec![(9u64, String::from("09")), (10u64, String::from("10"))];
    assert_eq!(numeric.remove_port_to_tombstones(OUT, &by_number), Some(vec![9, 10]));
}

/// A kind whose `==` looks at its name only; the tag tells values apart.
#[derive(Clone, Debug)]
struct Tagged {
    name: &'static str,
    tag: u32,
}
impl PartialEq for Tagged {
    fn eq(&self, other: &Self) -> bool {
        self.name == other.name
    }
}
impl PortType for Tagged {
    fn spec_compatible(_: &Self, _: &Self) -> bool {
        true
    }
    fn compatible(_: &Self, _: &Self) -> bool {
        true
    }
}

#[test]
fn an_equal_kind_replaces_the_ports_kind_value_and_keeps_its_connections() {
    let mut editor: ConnectionLedger<Tagged> = ConnectionLedger::new();
    let kind = |tag| Tagged { name: "n", tag };
    assert!(editor.add_port(PortEntry { label: "Out".into(), id: OUT, node: NODE_A, direction: PortDirection::Output, kind: kind(1) }));
    assert!(editor.add_port(PortEntry { label: "In".into(), id: IN, node: NODE_B, direction: PortDirection::Input, kind: kind(1) }));
    assert!(editor.insert_connection(wire()));
    let spec = |label: &str| DesiredPort { key: "out".into(), id: OUT, label: label.into(), direction: PortDirection::Output, kind: kind(2) };
    let plan = editor.plan_node_ports(&String::from("a"), NODE_A, &vec![spec("Next")], None, &vec![]).unwrap();
    assert_eq!(plan.upsert, vec![0]);
    let outcome = editor.apply_port_plan(NODE_A, vec![spec("Next")], &plan, &texts());
    assert!(outcome.removed.is_empty());
    assert!(editor.has_connection(WIRE));
    let port = editor.port(OUT).unwrap();
    assert_eq!(port.label, "Next");
    assert_eq!(port.kind.tag, 2);
    assert!(editor.port(999).is_none());
}

#[test]
fn choosing_a_menu_entry_runs_it_only_when_enabled() {
    let mut editor = interactive_graph();
    let items = editor.anchor_menu_items(OUT);
    assert_eq!(anchor_choice(&items, 0), AnchorChoice::Remove(false));
    // No broken connection yet: the second entry is disabled.
    assert_eq!(anchor_choice(&items, 1), AnchorChoice::Nothing);
    assert_eq!(anchor_choice(&items, 5), AnchorChoice::Nothing);
    let custom = vec![AnchorMenuItem { label: "Inspect".into(), action: AnchorMenuAction::Custom(3), enabled: true }];
    assert_eq!(anchor_choice(&custom, 0), AnchorChoice::Custom(3));
    editor.remove_port_to_tombstones(IN, &texts()).unwrap();
    assert!(editor.add_port(in_port()));
    let items = editor.anchor_menu_items(OUT);
    assert_eq!(anchor_choice(&items, 1), AnchorChoice::Remove(true));
}

#[test]
fn tombstones_are_kept_and_restored_in_the_hosts_id_text_order() {
    let mut editor = fanned_graph();
    assert_eq!(editor.remove_port_to_tombstones(OUT, &texts()), Some(vec![10, 9]));
    let order: Vec<u64> = editor.dangling_connections().iter().map(|d| d.id).collect();
    assert_eq!(order, vec![10, 9]);
    assert!(editor.add_port(out_port()));
    let back = editor.restore_tombstoned_connections(OUT, MutationMode::Uncontrolled);
    assert_eq!(ids(&back), vec![10, 9]);
    let mut controlled = fanned_graph();
    controlled.capture_tombstones_for_port(OUT, &texts());
    let order: Vec<u64> = controlled.dangling_connections().iter().map(|d| d.id).collect();
    assert_eq!(order, vec![10, 9]);
}

#[test]
fn a_requested_plan_keeps_the_table_and_records_tombstones() {
    let mut editor = fanned_graph();
    let plan = editor.plan_node_ports(&String::from("a"), NODE_A, &vec![], Some(&vec![OUT]), &vec![]).unwrap();
    assert_eq!(plan.remove, vec![OUT]);
    editor.request_port_plan(&plan, &texts());
    assert!(editor.has_port(OUT));
    assert!(editor.has_connection(9) && editor.has_connection(10));
    let order: Vec<u64> = editor.dangling_connections().iter().map(|d| d.id).collect();
    assert_eq!(order, vec![10, 9]);
    assert!(editor.dangling_connections().iter().all(|d| d.missing_port == OUT));
}

#[test]
fn port_orders_remember_the_last_order_per_node() {
    let mut orders = PortOrders::new();
    assert!(orders.get(NODE_A).is_none());
    orders.remember(NODE_A, vec![OUT]);
    orders.remember(NODE_B, vec![IN]);
    orders.remember(NODE_A, vec![OUT, 12]);
    assert_eq!(orders.get(NODE_A), Some(&vec![OUT, 12]));
    assert_eq!(orders.get(NODE_B), Some(&vec![IN]));
    let editor = interactive_graph();
    assert!(editor.has_all_ports(&vec![OUT, IN]));
    assert!(!editor.has_all_ports(&vec![OUT, 12]));
    // The remembered order feeds the next plan: a port no longer asked for goes.
    let plan = editor
        .plan_node_ports(&String::from("a"), NODE_A, &vec![], orders.get(NODE_A), &vec![])
        .unwrap();
    assert_eq!(plan.remove, vec![OUT]);
}

fn node_a(desired: Vec<DesiredPort<Kind>>) -> Vec<NodePorts<Kind>> {
    vec![NodePorts { node: NODE_A, node_type: "a".into(), desired }]
}

#[test]
fn refreshing_a_dynamic_port_away_and_back_restores_the_wire() {
    let mut editor = interactive_graph();
    let mut orders = PortOrders::new();
    let mut pending = PendingChanges::new();
    let mode = MutationMode::Uncontrolled;
    let first = editor.refresh_node_ports(node_a(vec![out_spec("Out")]), &mut orders, &mut pending, mode, &texts()).unwrap();
    assert!(!first.changed);
    assert_eq!(orders.get(NODE_A), Some(&vec![OUT]));

    let gone = editor.refresh_node_ports(node_a(vec![]), &mut orders, &mut pending, mode, &texts()).unwrap();
    assert!(gone.changed);
    assert!(!editor.has_port(OUT));
    assert!(!editor.has_connection(WIRE));
    assert_eq!(editor.dangling_connections().len(), 1);
    assert_eq!(gone.reconciled.len(), 1);
    assert_eq!(gone.reconciled[0].removed, vec![WIRE]);

    let back = editor.refresh_node_ports(node_a(vec![out_spec("Out")]), &mut orders, &mut pending, mode, &texts()).unwrap();
    assert!(back.changed);
    assert!(editor.has_port(OUT));
    assert!(editor.has_connection(WIRE));
    assert!(editor.dangling_connections().is_empty());
    assert_eq!(back.reconciled[0].restored, vec![WIRE]);
    assert!(back.requested.is_empty());
}

#[test]
fn controlled_refresh_is_atomic_and_deduplicated() {
    let mut editor = interactive_graph();
    let mut orders = PortOrders::new();
    let mut pending = PendingChanges::new();
    assert!(!editor.refresh_node_ports(node_a(vec![out_spec("Out")]), &mut orders, &mut pending, MutationMode::Uncontrolled, &texts()).unwrap().changed);

    let mode = MutationMode::Controlled;
    let asked = editor.refresh_node_ports(node_a(vec![]), &mut orders, &mut pending, mode, &texts()).unwrap();
    assert!(asked.changed);
    assert_eq!(asked.requested, vec![NODE_A]);
    assert!(editor.has_port(OUT));
    assert!(editor.has_connection(WIRE));
    assert_eq!(editor.dangling_connections().len(), 1);
    assert_eq!(pending.get(NODE_A).unwrap().remove, vec![OUT]);
    let again = editor.refresh_node_ports(node_a(vec![]), &mut orders, &mut pending, mode, &texts()).unwrap();
    assert!(!again.changed);
    assert!(again.requested.is_empty());

    // The host applies the change and sends its graph back.
    assert!(editor.remove_connection(WIRE));
    assert_eq!(editor.remove_port_to_tombstones(OUT, &texts()), Some(vec![]));
    pending.clear();
    let settled = editor.refresh_node_ports(node_a(vec![]), &mut orders, &mut pending, mode, &texts()).unwrap();
    assert!(!settled.changed);
    assert_eq!(orders.get(NODE_A), Some(&vec![]));
    assert!(pending.get(NODE_A).is_none());
}

#[test]
fn a_refused_node_stops_the_refresh_before_any_change() {
    let mut editor = interactive_graph();
    let mut orders = PortOrders::new();
    orders.remember(NODE_A, vec![OUT]);
    let mut pending = PendingChanges::new();
    let taken = DesiredPort { key: "x".into(), id: IN, label: "X".into(), direction: PortDirection::Output, kind: Kind };
    let nodes = vec![
        NodePorts { node: NODE_A, node_type: "a".into(), desired: vec![] },
        NodePorts { node: 3, node_type: "c".into(), desired: vec![taken] },
    ];
    let r = editor.refresh_node_ports(nodes, &mut orders, &mut pending, MutationMode::Uncontrolled, &texts());
    assert!(matches!(r, Err(RegistryError::PortIdCollision)));
    assert!(editor.has_port(OUT));
    assert!(editor.has_connection(WIRE));
    assert_eq!(orders.get(NODE_A), Some(&vec![OUT]));
}
