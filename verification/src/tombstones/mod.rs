//! The strict connection table of an editor, and the tombstones of the
//! connections whose port went away.
//!
//! A port can disappear while connections still lead to it: a node type that
//! produces its ports dynamically may drop one and bring it back later. The
//! connections of a removed port leave the strict table and are remembered as
//! dangling connections, keyed by the port that went missing. When the port
//! comes back, every dangling connection that is valid again is restored.
//! Ports and connections are keyed by integers; the host maps its own
//! identifiers onto them.

use crate::editor::MutationMode;
use crate::id_order::{lemma_insert_at, lemma_sort_keyed, order_by_text, sort_by_text, sort_keyed, text_for, text_of};
use crate::groups::{text_le, text_le_exec};
use crate::graph_core::{Connection, PortDirection, PortType};
use crate::seq_facts::{
    lemma_filter_take_step, lemma_filter_unique, lemma_permutation_unique, lemma_remove_unique, unique_by,
};
use vstd::prelude::*;

pub mod laws;
pub mod reconcile;
pub mod refresh;

verus! {

/// A port as the connection table sees it: its id, its node, its label, its
/// direction and the data kind it carries. Its position is the host's.
#[derive(Debug)]
pub struct PortEntry<T> {
    pub id: u64,
    pub node: u64,
    pub label: String,
    pub direction: PortDirection,
    pub kind: T,
}

/// A connection that left the strict graph because `missing_port` went away.
#[derive(Clone, Copy, Debug, PartialEq, Eq)]
pub struct DanglingConnection<P, C> {
    pub id: C,
    pub source: P,
    pub target: P,
    pub missing_port: P,
}


/// What an entry of a port's context menu does.
#[derive(Clone, Copy, Debug, PartialEq, Eq, Structural)]
pub enum AnchorMenuAction {
    /// Remove the live and the broken connections of the port.
    RemoveConnections,
    /// Remove only the broken connections of the port.
    RemoveBrokenConnections,
    /// An action of the host; the number is the host's handle for it.
    Custom(usize),
}

/// One entry of a port's context menu.
#[derive(Clone, Debug)]
pub struct AnchorMenuItem {
    pub label: String,
    pub action: AnchorMenuAction,
    pub enabled: bool,
}

/// What removing a port's connections from its menu did. `requested` holds
/// the live connections the host is asked to remove (controlled mode);
/// `removed` the connections removed here, one `ConnectionRemoved` each.
#[derive(Clone, Debug)]
pub struct AnchorRemoval {
    pub requested: Vec<u64>,
    pub removed: Vec<u64>,
}


/// What choosing entry `index` of an open port menu does; the menu closes
/// either way.
#[derive(Clone, Copy, Debug, PartialEq, Eq, Structural)]
pub enum AnchorChoice {
    /// No such entry, or a disabled one: nothing.
    Nothing,
    /// Run the host's action with this handle.
    Custom(usize),
    /// Remove the port's connections; only the broken ones when `true`.
    Remove(bool),
}

/// The effect of choosing the entry at `index`, when it exists and is enabled.
pub open spec fn anchor_choice_spec(items: Seq<AnchorMenuItem>, index: int) -> AnchorChoice {
    if 0 <= index < items.len() && items[index].enabled {
        match items[index].action {
            AnchorMenuAction::Custom(h) => AnchorChoice::Custom(h),
            AnchorMenuAction::RemoveConnections => AnchorChoice::Remove(false),
            AnchorMenuAction::RemoveBrokenConnections => AnchorChoice::Remove(true),
        }
    } else {
        AnchorChoice::Nothing
    }
}

/// Choose the entry at `index` of a port menu; see [`anchor_choice_spec`].
/// A `Remove` goes on with [`ConnectionLedger::remove_anchor_connections`].
pub fn anchor_choice(items: &Vec<AnchorMenuItem>, index: usize) -> (r: AnchorChoice)
    ensures
        r == anchor_choice_spec(items@, index as int),
{
    if index < items.len() && items[index].enabled {
        match items[index].action {
            AnchorMenuAction::Custom(h) => AnchorChoice::Custom(h),
            AnchorMenuAction::RemoveConnections => AnchorChoice::Remove(false),
            AnchorMenuAction::RemoveBrokenConnections => AnchorChoice::Remove(true),
        }
    } else {
        AnchorChoice::Nothing
    }
}

/// Where a connection draft grabbed at a port starts: the port itself, or,
/// for an occupied input, the output at the other end of its connection,
/// which is detached. `detached` names that connection when the host is
/// asked to remove it (controlled mode).
#[derive(Clone, Copy, Debug, PartialEq, Eq, Structural)]
pub struct DraftStart {
    pub origin: u64,
    pub detached: Option<u64>,
}

/// The mathematical content of a [`ConnectionLedger`].
pub ghost struct LedgerView<T> {
    pub ports: Seq<PortEntry<T>>,
    pub connections: Seq<Connection<u64, u64>>,
    pub dangling: Seq<DanglingConnection<u64, u64>>,
}

/// Ports, the strict connections between them, and the dangling connections
/// of ports that went away.
pub struct ConnectionLedger<T> {
    ports: Vec<PortEntry<T>>,
    connections: Vec<Connection<u64, u64>>,
    dangling: Vec<DanglingConnection<u64, u64>>,
}

impl<T> View for ConnectionLedger<T> {
    type V = LedgerView<T>;

    closed spec fn view(&self) -> LedgerView<T> {
        LedgerView { ports: self.ports@, connections: self.connections@, dangling: self.dangling@ }
    }
}

// ---------------------------------------------------------------------------
// The strict graph.
pub open spec fn port_key<T>() -> spec_fn(PortEntry<T>) -> u64 {
    |p: PortEntry<T>| p.id
}

pub open spec fn connection_key() -> spec_fn(Connection<u64, u64>) -> u64 {
    |c: Connection<u64, u64>| c.id
}

pub open spec fn dangling_key() -> spec_fn(DanglingConnection<u64, u64>) -> u64 {
    |d: DanglingConnection<u64, u64>| d.id
}

/// A connection from `source` to `target` is valid: an output joins an input
/// of another node, and the output's kind is compatible with the input's.
pub open spec fn endpoints_connect<T: PortType>(source: PortEntry<T>, target: PortEntry<T>) -> bool {
    &&& source.direction == PortDirection::Output
    &&& target.direction == PortDirection::Input
    &&& source.node != target.node
    &&& T::spec_compatible(&source.kind, &target.kind)
}

/// Some port has the id `id`.
pub open spec fn has_port<T>(ports: Seq<PortEntry<T>>, id: u64) -> bool {
    exists|i: int| 0 <= i < ports.len() && ports[i].id == id
}

/// Ports with the ids `source` and `target` exist and may be connected.
pub open spec fn joins<T: PortType>(ports: Seq<PortEntry<T>>, source: u64, target: u64) -> bool {
    exists|i: int, j: int|
        #![trigger ports[i], ports[j]]
        0 <= i < ports.len() && 0 <= j < ports.len() && ports[i].id == source && ports[j].id
            == target && endpoints_connect(ports[i], ports[j])
}

/// Some live connection has the id `id`.
pub open spec fn has_connection(connections: Seq<Connection<u64, u64>>, id: u64) -> bool {
    exists|i: int| 0 <= i < connections.len() && connections[i].id == id
}

/// Every id is used once, and every live connection joins two existing ports
/// that may be connected.
pub open spec fn ledger_wf<T: PortType>(v: LedgerView<T>) -> bool {
    &&& unique_by(v.ports, port_key())
    &&& unique_by(v.connections, connection_key())
    &&& unique_by(v.dangling, dangling_key())
    &&& forall|k: int|
        0 <= k < v.connections.len() ==> #[trigger] joins(
            v.ports,
            v.connections[k].source,
            v.connections[k].target,
        )
}


/// The position of the port with id `id`.
pub open spec fn port_index<T>(ports: Seq<PortEntry<T>>, id: u64) -> int {
    choose|i: int| 0 <= i < ports.len() && ports[i].id == id
}

/// The connection touches `port` at one of its ends.
pub open spec fn touches(c: Connection<u64, u64>, port: u64) -> bool {
    c.source == port || c.target == port
}

pub open spec fn touching(port: u64) -> spec_fn(Connection<u64, u64>) -> bool {
    |c: Connection<u64, u64>| touches(c, port)
}

pub open spec fn avoiding(port: u64) -> spec_fn(Connection<u64, u64>) -> bool {
    |c: Connection<u64, u64>| !touches(c, port)
}

pub open spec fn other_than(id: u64) -> spec_fn(Connection<u64, u64>) -> bool {
    |c: Connection<u64, u64>| c.id != id
}

/// The ids of the connections, in order.
pub open spec fn connection_ids(cs: Seq<Connection<u64, u64>>) -> Seq<u64> {
    cs.map_values(connection_key())
}

/// The tombstone of connection `c` whose port `port` went away.
pub open spec fn tombstone(c: Connection<u64, u64>, port: u64) -> DanglingConnection<u64, u64> {
    DanglingConnection { id: c.id, source: c.source, target: c.target, missing_port: port }
}

pub open spec fn tombstones(cs: Seq<Connection<u64, u64>>, port: u64) -> Seq<
    DanglingConnection<u64, u64>,
> {
    cs.map_values(|c: Connection<u64, u64>| tombstone(c, port))
}

/// Dangling connections whose id is not among `ids`.
pub open spec fn unlisted(ids: Seq<u64>) -> spec_fn(DanglingConnection<u64, u64>) -> bool {
    |d: DanglingConnection<u64, u64>| !ids.contains(d.id)
}

/// The tombstones once the connections `cut` of `port` are buried: older
/// tombstones of the same connections give way to the new ones, which come
/// last, in the order of `cut`.
pub open spec fn bury(
    dangling: Seq<DanglingConnection<u64, u64>>,
    cut: Seq<Connection<u64, u64>>,
    port: u64,
) -> Seq<DanglingConnection<u64, u64>> {
    dangling.filter(unlisted(connection_ids(cut))) + tombstones(cut, port)
}

/// The connections of `port`, sorted by the host's texts of their ids: the
/// order in which they are buried and listed.
#[verifier::opaque]
pub open spec fn cut_of<T>(texts: Seq<(u64, String)>, v: LedgerView<T>, port: u64) -> Seq<
    Connection<u64, u64>,
> {
    sort_keyed(texts, connection_key(), v.connections.filter(touching(port)))
}

/// The table after the port `id` went away with its connections.
pub open spec fn remove_port_view<T>(texts: Seq<(u64, String)>, v: LedgerView<T>, id: u64) -> LedgerView<T> {
    LedgerView {
        ports: v.ports.remove(port_index(v.ports, id)),
        connections: v.connections.filter(avoiding(id)),
        dangling: bury(v.dangling, cut_of(texts, v, id), id),
    }
}

/// The sorted connections of `port` are those of the table that touch it,
/// each once.
pub proof fn lemma_cut_of<T: PortType>(texts: Seq<(u64, String)>, v: LedgerView<T>, port: u64)
    requires
        ledger_wf(v),
    ensures
        cut_of(texts, v, port).to_multiset() == v.connections.filter(touching(port)).to_multiset(),
        unique_by(cut_of(texts, v, port), connection_key()),
        forall|k: int|
            0 <= k < cut_of(texts, v, port).len() ==> v.connections.contains(
                #[trigger] cut_of(texts, v, port)[k],
            ) && touches(cut_of(texts, v, port)[k], port),
{
    broadcast use vstd::seq_lib::group_to_multiset_ensures;

    reveal(cut_of);
    let raw = v.connections.filter(touching(port));
    let cut = cut_of(texts, v, port);
    lemma_sort_keyed(texts, connection_key(), raw);
    lemma_filter_unique(v.connections, touching(port), connection_key());
    lemma_permutation_unique(raw, cut, connection_key());
    assert forall|k: int| 0 <= k < cut.len() implies v.connections.contains(#[trigger] cut[k])
        && touches(cut[k], port) by {
        assert(cut.to_multiset().contains(cut[k]));
        assert(raw.contains(cut[k]));
        v.connections.lemma_filter_contains_rev(touching(port), cut[k]);
        let m = choose|m: int| 0 <= m < raw.len() && raw[m] == cut[k];
        v.connections.lemma_filter_pred(touching(port), m);
    }
}

/// Adding a port keeps every connection valid.
pub proof fn lemma_joins_push<T: PortType>(ports: Seq<PortEntry<T>>, p: PortEntry<T>, s: u64, t: u64)
    requires
        joins(ports, s, t),
    ensures
        joins(ports.push(p), s, t),
{
    let q = ports.push(p);
    let (a, b) = choose|a: int, b: int|
        #![trigger ports[a], ports[b]]
        0 <= a < ports.len() && 0 <= b < ports.len() && ports[a].id == s && ports[b].id == t
            && endpoints_connect(ports[a], ports[b]);
    assert(q[a] == ports[a] && q[b] == ports[b]);
}

/// Removing a port other than both ends keeps a connection valid.
pub proof fn lemma_joins_remove<T: PortType>(ports: Seq<PortEntry<T>>, i: int, s: u64, t: u64)
    requires
        joins(ports, s, t),
        0 <= i < ports.len(),
        ports[i].id != s,
        ports[i].id != t,
    ensures
        joins(ports.remove(i), s, t),
{
    let q = ports.remove(i);
    let (a, b) = choose|a: int, b: int|
        #![trigger ports[a], ports[b]]
        0 <= a < ports.len() && 0 <= b < ports.len() && ports[a].id == s && ports[b].id == t
            && endpoints_connect(ports[a], ports[b]);
    let a1 = if a < i { a } else { a - 1 };
    let b1 = if b < i { b } else { b - 1 };
    assert(q[a1] == ports[a] && q[b1] == ports[b]);
}

/// The tombstones of distinct connections are distinct, and none of them is
/// kept from before.
pub proof fn lemma_bury_unique(
    dangling: Seq<DanglingConnection<u64, u64>>,
    cut: Seq<Connection<u64, u64>>,
    port: u64,
)
    requires
        unique_by(dangling, dangling_key()),
        unique_by(cut, connection_key()),
    ensures
        unique_by(bury(dangling, cut, port), dangling_key()),
{
    let ids = connection_ids(cut);
    let kept = dangling.filter(unlisted(ids));
    let fresh = tombstones(cut, port);
    lemma_filter_unique(dangling, unlisted(ids), dangling_key());
    let all = kept + fresh;
    assert forall|a: int, b: int| 0 <= a < all.len() && 0 <= b < all.len() && a != b implies all[
        a].id != all[b].id by {
        if a < kept.len() && b < kept.len() {
            assert(all[a] == kept[a] && all[b] == kept[b]);
        } else if a >= kept.len() && b >= kept.len() {
            assert(all[a] == fresh[a - kept.len()] && all[b] == fresh[b - kept.len()]);
            assert(cut[a - kept.len()].id != cut[b - kept.len()].id);
        } else if a < kept.len() {
            assert(all[a] == kept[a]);
            dangling.lemma_filter_pred(unlisted(ids), a);
            assert(all[b] == fresh[b - kept.len()]);
            assert(ids[b - kept.len()] == all[b].id);
        } else {
            assert(all[b] == kept[b]);
            dangling.lemma_filter_pred(unlisted(ids), b);
            assert(all[a] == fresh[a - kept.len()]);
            assert(ids[a - kept.len()] == all[a].id);
        }
    }
}

/// A connection kept after its port's removal was valid before and does not
/// touch the port, so it stays valid.
pub proof fn lemma_remove_port_strict<T: PortType>(texts: Seq<(u64, String)>, v: LedgerView<T>, id: u64)
    requires
        ledger_wf(v),
        has_port(v.ports, id),
    ensures
        ledger_wf(remove_port_view(texts, v, id)),
{
    let w = remove_port_view(texts, v, id);
    let i = port_index(v.ports, id);
    lemma_remove_unique(v.ports, i, port_key());
    lemma_filter_unique(v.connections, avoiding(id), connection_key());
    lemma_filter_unique(v.connections, touching(id), connection_key());
    lemma_cut_of(texts, v, id);
    lemma_bury_unique(v.dangling, cut_of(texts, v, id), id);
    assert forall|k: int| 0 <= k < w.connections.len() implies #[trigger] joins(
        w.ports,
        w.connections[k].source,
        w.connections[k].target,
    ) by {
        let c = w.connections[k];
        v.connections.lemma_filter_pred(avoiding(id), k);
        assert(w.connections.contains(c));
        v.connections.lemma_filter_contains_rev(avoiding(id), c);
        let m = choose|m: int| 0 <= m < v.connections.len() && v.connections[m] == c;
        assert(joins(v.ports, v.connections[m].source, v.connections[m].target));
        lemma_joins_remove(v.ports, i, c.source, c.target);
    }
}

/// The ids of the tombstones, in order.
pub open spec fn dangling_ids(ds: Seq<DanglingConnection<u64, u64>>) -> Seq<u64> {
    ds.map_values(dangling_key())
}

/// The live connection a tombstone stands for.
pub open spec fn as_connection(d: DanglingConnection<u64, u64>) -> Connection<u64, u64> {
    Connection { id: d.id, source: d.source, target: d.target }
}

pub open spec fn as_connections(ds: Seq<DanglingConnection<u64, u64>>) -> Seq<Connection<u64, u64>> {
    ds.map_values(|d: DanglingConnection<u64, u64>| as_connection(d))
}

/// The tombstone names `port` as missing and its ends exist again and may be
/// connected.
pub open spec fn returnable<T: PortType>(
    ports: Seq<PortEntry<T>>,
    d: DanglingConnection<u64, u64>,
    port: u64,
) -> bool {
    d.missing_port == port && joins(ports, d.source, d.target)
}

pub open spec fn returnable_in<T: PortType>(ports: Seq<PortEntry<T>>, port: u64) -> spec_fn(
    DanglingConnection<u64, u64>,
) -> bool {
    |d: DanglingConnection<u64, u64>| returnable(ports, d, port)
}

/// The tombstone can be restored now: it is returnable and its connection is
/// not live.
pub open spec fn restorable<T: PortType>(
    v: LedgerView<T>,
    d: DanglingConnection<u64, u64>,
    port: u64,
) -> bool {
    returnable(v.ports, d, port) && !has_connection(v.connections, d.id)
}

pub open spec fn restorable_in<T: PortType>(v: LedgerView<T>, port: u64) -> spec_fn(
    DanglingConnection<u64, u64>,
) -> bool {
    |d: DanglingConnection<u64, u64>| restorable(v, d, port)
}

pub open spec fn staying_in<T: PortType>(v: LedgerView<T>, port: u64) -> spec_fn(
    DanglingConnection<u64, u64>,
) -> bool {
    |d: DanglingConnection<u64, u64>| !restorable(v, d, port)
}

/// The tombstones of `port` that are restored now, in tombstone order.
pub open spec fn restored_of<T: PortType>(v: LedgerView<T>, port: u64) -> Seq<
    DanglingConnection<u64, u64>,
> {
    v.dangling.filter(restorable_in(v, port))
}

/// The table after the tombstones of `port` that are valid again came back:
/// their connections join the strict table after the live ones, and the
/// other tombstones stay, in order.
pub open spec fn restore_view<T: PortType>(v: LedgerView<T>, port: u64) -> LedgerView<T> {
    LedgerView {
        ports: v.ports,
        connections: v.connections + as_connections(restored_of(v, port)),
        dangling: v.dangling.filter(staying_in(v, port)),
    }
}

pub open spec fn unresolved_in(connections: Seq<Connection<u64, u64>>) -> spec_fn(
    DanglingConnection<u64, u64>,
) -> bool {
    |d: DanglingConnection<u64, u64>| !has_connection(connections, d.id)
}

/// Restoring keeps the table well formed.
pub proof fn lemma_restore_wf<T: PortType>(v: LedgerView<T>, port: u64)
    requires
        ledger_wf(v),
    ensures
        ledger_wf(restore_view(v, port)),
{
    let back = restored_of(v, port);
    let w = restore_view(v, port);
    lemma_filter_unique(v.dangling, restorable_in(v, port), dangling_key());
    lemma_filter_unique(v.dangling, staying_in(v, port), dangling_key());
    let extra = as_connections(back);
    let all = w.connections;
    assert forall|a: int, b: int| 0 <= a < all.len() && 0 <= b < all.len() && a != b implies all[
        a].id != all[b].id by {
        let n = v.connections.len();
        if a < n && b < n {
            assert(all[a] == v.connections[a] && all[b] == v.connections[b]);
        } else if a >= n && b >= n {
            assert(all[a] == extra[a - n] && all[b] == extra[b - n]);
            assert(back[a - n].id != back[b - n].id);
        } else if a < n {
            assert(all[a] == v.connections[a]);
            assert(all[b] == extra[b - n]);
            v.dangling.lemma_filter_pred(restorable_in(v, port), b - n);
        } else {
            assert(all[b] == v.connections[b]);
            assert(all[a] == extra[a - n]);
            v.dangling.lemma_filter_pred(restorable_in(v, port), a - n);
        }
    }
    assert forall|k: int| 0 <= k < all.len() implies #[trigger] joins(
        w.ports,
        all[k].source,
        all[k].target,
    ) by {
        let n = v.connections.len();
        if k < n {
            assert(all[k] == v.connections[k]);
        } else {
            assert(all[k] == extra[k - n]);
            v.dangling.lemma_filter_pred(restorable_in(v, port), k - n);
        }
    }
}

/// The tombstone touches `port` at one of its ends.
pub open spec fn dangling_touches(d: DanglingConnection<u64, u64>, port: u64) -> bool {
    d.source == port || d.target == port
}

pub open spec fn dangling_touching(port: u64) -> spec_fn(DanglingConnection<u64, u64>) -> bool {
    |d: DanglingConnection<u64, u64>| dangling_touches(d, port)
}

/// Live connections whose id is not among `ids`.
pub open spec fn unlisted_connection(ids: Seq<u64>) -> spec_fn(Connection<u64, u64>) -> bool {
    |c: Connection<u64, u64>| !ids.contains(c.id)
}

pub open spec fn not_among(ids: Seq<u64>) -> spec_fn(u64) -> bool {
    |x: u64| !ids.contains(x)
}

/// Some live connection touches `port`.
pub open spec fn has_live_connection(cs: Seq<Connection<u64, u64>>, port: u64) -> bool {
    exists|k: int| 0 <= k < cs.len() && touches(cs[k], port)
}

/// Some tombstone touches `port`.
pub open spec fn has_broken_connection(ds: Seq<DanglingConnection<u64, u64>>, port: u64) -> bool {
    exists|k: int| 0 <= k < ds.len() && dangling_touches(ds[k], port)
}

/// The live connections of `port` that its menu removes: none when only the
/// broken ones go.
pub open spec fn menu_live_ids<T>(v: LedgerView<T>, port: u64, broken_only: bool) -> Seq<u64> {
    if broken_only {
        Seq::empty()
    } else {
        connection_ids(v.connections.filter(touching(port)))
    }
}

/// The broken connections of `port`.
pub open spec fn menu_broken_ids<T>(v: LedgerView<T>, port: u64) -> Seq<u64> {
    dangling_ids(v.dangling.filter(dangling_touching(port)))
}

/// Every connection id the menu removes in uncontrolled mode, each once.
pub open spec fn menu_all_ids<T>(v: LedgerView<T>, port: u64, broken_only: bool) -> Seq<u64> {
    let live = menu_live_ids(v, port, broken_only);
    live + menu_broken_ids(v, port).filter(not_among(live))
}

/// Dropping connections keeps the rest valid.
pub proof fn lemma_filter_connections_wf<T: PortType>(
    v: LedgerView<T>,
    p: spec_fn(Connection<u64, u64>) -> bool,
    q: spec_fn(DanglingConnection<u64, u64>) -> bool,
)
    requires
        ledger_wf(v),
    ensures
        ledger_wf(
            LedgerView { ports: v.ports, connections: v.connections.filter(p), dangling: v.dangling.filter(q) },
        ),
{
    lemma_filter_unique(v.connections, p, connection_key());
    lemma_filter_unique(v.dangling, q, dangling_key());
    let cs = v.connections.filter(p);
    assert forall|k: int| 0 <= k < cs.len() implies #[trigger] joins(
        v.ports,
        cs[k].source,
        cs[k].target,
    ) by {
        assert(cs.contains(cs[k]));
        v.connections.lemma_filter_contains_rev(p, cs[k]);
        let m = choose|m: int| 0 <= m < v.connections.len() && v.connections[m] == cs[k];
        assert(joins(v.ports, v.connections[m].source, v.connections[m].target));
    }
}

pub open spec fn targeting(port: u64) -> spec_fn(Connection<u64, u64>) -> bool {
    |c: Connection<u64, u64>| c.target == port
}

/// The port `port` exists and is an input.
pub open spec fn is_input<T>(ports: Seq<PortEntry<T>>, port: u64) -> bool {
    exists|i: int| 0 <= i < ports.len() && ports[i].id == port && ports[i].direction == PortDirection::Input
}

/// The connection a draft grabbed at `port` detaches: for an input, the
/// first live connection into it, in table order.
pub open spec fn occupant<T>(v: LedgerView<T>, port: u64) -> Option<Connection<u64, u64>> {
    if is_input(v.ports, port) && v.connections.filter(targeting(port)).len() > 0 {
        Some(v.connections.filter(targeting(port))[0])
    } else {
        None
    }
}

/// The port with id `id`, when there is one.
pub open spec fn port_of<T>(ports: Seq<PortEntry<T>>, id: u64) -> Option<PortEntry<T>> {
    if has_port(ports, id) {
        Some(ports[port_index(ports, id)])
    } else {
        None
    }
}

/// A draft between ports `first` and `second`, in either order, as the
/// connection it would request: `(source, target)` with the output first,
/// when both exist on different nodes, face opposite ways and the output's
/// kind is compatible with the input's.
pub open spec fn normalized_pair<T: PortType>(
    ports: Seq<PortEntry<T>>,
    first: u64,
    second: u64,
) -> Option<(u64, u64)> {
    match (port_of(ports, first), port_of(ports, second)) {
        (Some(a), Some(b)) => {
            if a.node == b.node || a.direction == b.direction {
                None
            } else {
                let (s, t) = if a.direction == PortDirection::Output {
                    (a, b)
                } else {
                    (b, a)
                };
                if T::spec_compatible(&s.kind, &t.kind) {
                    Some((s.id, t.id))
                } else {
                    None
                }
            }
        },
        _ => None,
    }
}

/// The connections that avoid `port`, and those that touch it.
fn split_connections(cs: &Vec<Connection<u64, u64>>, port: u64) -> (r: (
    Vec<Connection<u64, u64>>,
    Vec<Connection<u64, u64>>,
))
    ensures
        r.0@ == cs@.filter(avoiding(port)),
        r.1@ == cs@.filter(touching(port)),
{
    let mut kept: Vec<Connection<u64, u64>> = Vec::new();
    let mut cut: Vec<Connection<u64, u64>> = Vec::new();
    let mut i: usize = 0;
    while i < cs.len()
        invariant
            i <= cs@.len(),
            kept@ == cs@.take(i as int).filter(avoiding(port)),
            cut@ == cs@.take(i as int).filter(touching(port)),
        decreases cs@.len() - i,
    {
        let c = &cs[i];
        proof {
            lemma_filter_take_step(cs@, avoiding(port), i as int);
            lemma_filter_take_step(cs@, touching(port), i as int);
        }
        let copy = Connection { id: c.id, source: c.source, target: c.target };
        if c.source == port || c.target == port {
            cut.push(copy);
        } else {
            kept.push(copy);
        }
        i = i + 1;
    }
    assert(cs@.take(i as int) =~= cs@);
    (kept, cut)
}

/// The ids of the connections, in order.
fn ids_of(cs: &Vec<Connection<u64, u64>>) -> (r: Vec<u64>)
    ensures
        r@ == connection_ids(cs@),
{
    let mut ids: Vec<u64> = Vec::new();
    let mut i: usize = 0;
    while i < cs.len()
        invariant
            i <= cs@.len(),
            ids@ == connection_ids(cs@.take(i as int)),
        decreases cs@.len() - i,
    {
        ids.push(cs[i].id);
        i = i + 1;
        assert(ids@ =~= connection_ids(cs@.take(i as int)));
    }
    assert(cs@.take(i as int) =~= cs@);
    ids
}

/// Whether `id` is among `ids`.
fn ids_contain(ids: &Vec<u64>, id: u64) -> (r: bool)
    ensures
        r == ids@.contains(id),
{
    let mut i: usize = 0;
    while i < ids.len()
        invariant
            i <= ids@.len(),
            forall|k: int| 0 <= k < i ==> ids@[k] != id,
        decreases ids@.len() - i,
    {
        if ids[i] == id {
            return true;
        }
        i = i + 1;
    }
    false
}

/// The connections whose id is not among `ids`.
fn drop_listed_connections(cs: &Vec<Connection<u64, u64>>, ids: &Vec<u64>) -> (r: Vec<
    Connection<u64, u64>,
>)
    ensures
        r@ == cs@.filter(unlisted_connection(ids@)),
{
    let mut out: Vec<Connection<u64, u64>> = Vec::new();
    let mut i: usize = 0;
    while i < cs.len()
        invariant
            i <= cs@.len(),
            out@ == cs@.take(i as int).filter(unlisted_connection(ids@)),
        decreases cs@.len() - i,
    {
        let c = &cs[i];
        proof {
            lemma_filter_take_step(cs@, unlisted_connection(ids@), i as int);
        }
        if !ids_contain(ids, c.id) {
            out.push(Connection { id: c.id, source: c.source, target: c.target });
        }
        i = i + 1;
    }
    assert(cs@.take(i as int) =~= cs@);
    out
}

/// The tombstones whose id is not among `ids`.
fn drop_listed_dangling(ds: &Vec<DanglingConnection<u64, u64>>, ids: &Vec<u64>) -> (r: Vec<
    DanglingConnection<u64, u64>,
>)
    ensures
        r@ == ds@.filter(unlisted(ids@)),
{
    let mut out: Vec<DanglingConnection<u64, u64>> = Vec::new();
    let mut i: usize = 0;
    while i < ds.len()
        invariant
            i <= ds@.len(),
            out@ == ds@.take(i as int).filter(unlisted(ids@)),
        decreases ds@.len() - i,
    {
        let d = ds[i];
        proof {
            lemma_filter_take_step(ds@, unlisted(ids@), i as int);
        }
        if !ids_contain(ids, d.id) {
            out.push(d);
        }
        i = i + 1;
    }
    assert(ds@.take(i as int) =~= ds@);
    out
}

/// The ids of the tombstones that touch `port`, in order.
fn touching_dangling_ids(ds: &Vec<DanglingConnection<u64, u64>>, port: u64) -> (r: Vec<u64>)
    ensures
        r@ == dangling_ids(ds@.filter(dangling_touching(port))),
{
    let mut out: Vec<u64> = Vec::new();
    let ghost found: Seq<DanglingConnection<u64, u64>> = Seq::empty();
    let mut i: usize = 0;
    while i < ds.len()
        invariant
            i <= ds@.len(),
            found == ds@.take(i as int).filter(dangling_touching(port)),
            out@ == dangling_ids(found),
        decreases ds@.len() - i,
    {
        let d = ds[i];
        proof {
            lemma_filter_take_step(ds@, dangling_touching(port), i as int);
        }
        if d.source == port || d.target == port {
            out.push(d.id);
            proof {
                found = found.push(d);
            }
            assert(out@ =~= dangling_ids(found));
        }
        i = i + 1;
    }
    assert(ds@.take(i as int) =~= ds@);
    out
}

/// `first` followed by the ids of `second` that `first` lacks.
fn merge_ids(first: &Vec<u64>, second: &Vec<u64>) -> (r: Vec<u64>)
    ensures
        r@ == first@ + second@.filter(not_among(first@)),
{
    let mut out: Vec<u64> = Vec::new();
    let mut i: usize = 0;
    while i < first.len()
        invariant
            i <= first@.len(),
            out@ == first@.take(i as int),
        decreases first@.len() - i,
    {
        out.push(first[i]);
        i = i + 1;
        assert(out@ =~= first@.take(i as int));
    }
    assert(first@.take(i as int) =~= first@);
    let mut j: usize = 0;
    while j < second.len()
        invariant
            j <= second@.len(),
            out@ == first@ + second@.take(j as int).filter(not_among(first@)),
        decreases second@.len() - j,
    {
        let x = second[j];
        proof {
            lemma_filter_take_step(second@, not_among(first@), j as int);
        }
        if !ids_contain(first, x) {
            out.push(x);
        }
        j = j + 1;
    }
    assert(second@.take(j as int) =~= second@);
    out
}

/// The connections sorted by the host's texts of their ids; see
/// [`sort_keyed`].
fn order_connections(cs: &Vec<Connection<u64, u64>>, texts: &Vec<(u64, String)>) -> (r: Vec<
    Connection<u64, u64>,
>)
    ensures
        r@ == sort_keyed(texts@, connection_key(), cs@),
{
    let mut out: Vec<Connection<u64, u64>> = Vec::new();
    let mut i: usize = 0;
    while i < cs.len()
        invariant
            i <= cs@.len(),
            out@ == sort_keyed(texts@, connection_key(), cs@.take(i as int)),
        decreases cs@.len() - i,
    {
        let c = &cs[i];
        let x = Connection { id: c.id, source: c.source, target: c.target };
        assert(x == cs@[i as int]);
        let xt = text_for(texts, x.id);
        let mut pos: usize = 0;
        while pos < out.len() && text_le_exec(text_for(texts, out[pos].id), xt)
            invariant
                pos <= out@.len(),
                xt@ == text_of(texts@, connection_key()(x)),
                forall|j: int|
                    0 <= j < pos ==> text_le(
                        text_of(texts@, connection_key()(#[trigger] out@[j])),
                        xt@,
                    ),
            decreases out@.len() - pos,
        {
            pos = pos + 1;
        }
        let ghost before = out@;
        proof {
            lemma_insert_at(texts@, connection_key(), before, x, pos as int);
            assert(cs@.take(i + 1).drop_last() =~= cs@.take(i as int));
        }
        out.insert(pos, x);
        i = i + 1;
    }
    assert(cs@.take(i as int) =~= cs@);
    out
}

/// The tombstones once the connections `cut` of `port` are buried.
fn bury_exec(
    dangling: &Vec<DanglingConnection<u64, u64>>,
    cut: &Vec<Connection<u64, u64>>,
    port: u64,
) -> (r: Vec<DanglingConnection<u64, u64>>)
    ensures
        r@ == bury(dangling@, cut@, port),
{
    let ids = ids_of(cut);
    let mut out: Vec<DanglingConnection<u64, u64>> = Vec::new();
    let mut i: usize = 0;
    while i < dangling.len()
        invariant
            i <= dangling@.len(),
            ids@ == connection_ids(cut@),
            out@ == dangling@.take(i as int).filter(unlisted(ids@)),
        decreases dangling@.len() - i,
    {
        let d = dangling[i];
        proof {
            lemma_filter_take_step(dangling@, unlisted(ids@), i as int);
        }
        if !ids_contain(&ids, d.id) {
            out.push(d);
        }
        i = i + 1;
    }
    assert(dangling@.take(i as int) =~= dangling@);
    let ghost kept = out@;
    let mut j: usize = 0;
    while j < cut.len()
        invariant
            j <= cut@.len(),
            out@ == kept + tombstones(cut@.take(j as int), port),
        decreases cut@.len() - j,
    {
        let c = &cut[j];
        out.push(DanglingConnection { id: c.id, source: c.source, target: c.target, missing_port: port });
        j = j + 1;
        assert(tombstones(cut@.take(j as int), port) =~= tombstones(cut@.take(j - 1), port).push(
            tombstone(cut@[j - 1], port),
        ));
        assert(out@ =~= kept + tombstones(cut@.take(j as int), port));
    }
    assert(cut@.take(j as int) =~= cut@);
    out
}

impl<T: PortType> ConnectionLedger<T> {
    /// Well-formedness: see [`ledger_wf`].
    pub open spec fn wf(&self) -> bool {
        ledger_wf(self@)
    }

    /// An empty table.
    pub fn new() -> (r: Self)
        ensures
            r.wf(),
            r@.ports.len() == 0,
            r@.connections.len() == 0,
            r@.dangling.len() == 0,
    {
        ConnectionLedger { ports: Vec::new(), connections: Vec::new(), dangling: Vec::new() }
    }

    /// Position of the port with id `id`.
    fn find_port(&self, id: u64) -> (r: Option<usize>)
        ensures
            match r {
                Some(i) => i < self@.ports.len() && self@.ports[i as int].id == id,
                None => !has_port(self@.ports, id),
            },
    {
        let mut i: usize = 0;
        while i < self.ports.len()
            invariant
                i <= self.ports@.len(),
                forall|k: int| 0 <= k < i ==> self.ports@[k].id != id,
            decreases self.ports@.len() - i,
        {
            if self.ports[i].id == id {
                return Some(i);
            }
            i = i + 1;
        }
        None
    }

    /// The port with id `id`, if there is one.
    pub fn port(&self, id: u64) -> (r: Option<&PortEntry<T>>)
        requires
            self.wf(),
        ensures
            r is None <==> !has_port(self@.ports, id),
            r is Some ==> Some(*r->0) == port_of(self@.ports, id),
    {
        match self.find_port(id) {
            Some(i) => {
                proof {
                    let pi = port_index(self@.ports, id);
                    assert(self@.ports[pi].id == id);
                    assert(pi == i as int);
                }
                Some(&self.ports[i])
            },
            None => None,
        }
    }

    /// Whether a port with id `id` exists.
    pub fn has_port(&self, id: u64) -> (r: bool)
        ensures
            r == has_port(self@.ports, id),
    {
        self.find_port(id).is_some()
    }

    /// Whether a live connection with id `id` exists.
    pub fn has_connection(&self, id: u64) -> (r: bool)
        ensures
            r == has_connection(self@.connections, id),
    {
        let mut i: usize = 0;
        while i < self.connections.len()
            invariant
                i <= self.connections@.len(),
                forall|k: int| 0 <= k < i ==> self.connections@[k].id != id,
            decreases self.connections@.len() - i,
        {
            if self.connections[i].id == id {
                return true;
            }
            i = i + 1;
        }
        false
    }


    /// Add a port. Refused, and nothing changes, when the id is taken.
    pub fn add_port(&mut self, port: PortEntry<T>) -> (r: bool)
        requires
            old(self).wf(),
        ensures
            final(self).wf(),
            r == !has_port(old(self)@.ports, port.id),
            final(self)@ == (if r {
                LedgerView { ports: old(self)@.ports.push(port), ..old(self)@ }
            } else {
                old(self)@
            }),
    {
        if self.find_port(port.id).is_some() {
            return false;
        }
        let ghost before = self@;
        self.ports.push(port);
        proof {
            let q = self@.ports;
            assert forall|a: int, b: int| 0 <= a < q.len() && 0 <= b < q.len() && a != b implies q[
                a].id != q[b].id by {
                if a < before.ports.len() && b < before.ports.len() {
                    assert(q[a] == before.ports[a] && q[b] == before.ports[b]);
                } else if a < before.ports.len() {
                    assert(q[a] == before.ports[a]);
                } else {
                    assert(q[b] == before.ports[b]);
                }
            }
            assert forall|k: int| 0 <= k < self@.connections.len() implies #[trigger] joins(
                self@.ports,
                self@.connections[k].source,
                self@.connections[k].target,
            ) by {
                lemma_joins_push(
                    before.ports,
                    port,
                    before.connections[k].source,
                    before.connections[k].target,
                );
            }
        }
        true
    }

    /// Add a live connection. Refused, and nothing changes, when its id is
    /// taken or its ends do not exist or may not be connected.
    pub fn insert_connection(&mut self, connection: Connection<u64, u64>) -> (r: bool)
        requires
            old(self).wf(),
        ensures
            final(self).wf(),
            r == (!has_connection(old(self)@.connections, connection.id) && joins(
                old(self)@.ports,
                connection.source,
                connection.target,
            )),
            final(self)@ == (if r {
                LedgerView { connections: old(self)@.connections.push(connection), ..old(self)@ }
            } else {
                old(self)@
            }),
    {
        if self.has_connection(connection.id) || !self.joins_exec(
            connection.source,
            connection.target,
        ) {
            return false;
        }
        let ghost before = self@;
        self.connections.push(connection);
        proof {
            let q = self@.connections;
            assert forall|a: int, b: int| 0 <= a < q.len() && 0 <= b < q.len() && a != b implies q[
                a].id != q[b].id by {
                if a < before.connections.len() && b < before.connections.len() {
                    assert(q[a] == before.connections[a] && q[b] == before.connections[b]);
                } else if a < before.connections.len() {
                    assert(q[a] == before.connections[a]);
                } else {
                    assert(q[b] == before.connections[b]);
                }
            }
            assert forall|k: int| 0 <= k < q.len() implies #[trigger] joins(
                self@.ports,
                q[k].source,
                q[k].target,
            ) by {
                if k < before.connections.len() {
                    assert(q[k] == before.connections[k]);
                }
            }
        }
        true
    }

    /// Remove the live connection `id`. Tombstones are left alone.
    pub fn remove_connection(&mut self, id: u64) -> (r: bool)
        requires
            old(self).wf(),
        ensures
            final(self).wf(),
            r == has_connection(old(self)@.connections, id),
            final(self)@ == (LedgerView {
                connections: old(self)@.connections.filter(other_than(id)),
                ..old(self)@
            }),
    {
        let ghost before = self@;
        let r = self.has_connection(id);
        let mut kept: Vec<Connection<u64, u64>> = Vec::new();
        let mut i: usize = 0;
        while i < self.connections.len()
            invariant
                i <= self.connections@.len(),
                kept@ == self.connections@.take(i as int).filter(other_than(id)),
            decreases self.connections@.len() - i,
        {
            let c = &self.connections[i];
            proof {
                lemma_filter_take_step(self.connections@, other_than(id), i as int);
            }
            if c.id != id {
                kept.push(Connection { id: c.id, source: c.source, target: c.target });
            }
            i = i + 1;
        }
        assert(self.connections@.take(i as int) =~= self.connections@);
        self.connections = kept;
        proof {
            lemma_filter_unique(before.connections, other_than(id), connection_key());
            assert forall|k: int| 0 <= k < self@.connections.len() implies #[trigger] joins(
                self@.ports,
                self@.connections[k].source,
                self@.connections[k].target,
            ) by {
                let c = self@.connections[k];
                assert(self@.connections.contains(c));
                before.connections.lemma_filter_contains_rev(other_than(id), c);
                let m = choose|m: int|
                    0 <= m < before.connections.len() && before.connections[m] == c;
                assert(joins(before.ports, before.connections[m].source, before.connections[m].target));
            }
        }
        r
    }


    /// Remove the port `id`. Its connections leave the strict table and are
    /// kept as tombstones that name `id` as the missing port, replacing any
    /// older tombstone of the same connection. The tombstones are added, and
    /// the ids of those connections returned, in the order of the host's
    /// texts of connection ids (`texts`; see [`crate::id_order`]); `None`,
    /// with nothing changed, when the port does not exist.
    pub fn remove_port_to_tombstones(&mut self, id: u64, texts: &Vec<(u64, String)>) -> (r: Option<
        Vec<u64>,
    >)
        requires
            old(self).wf(),
        ensures
            final(self).wf(),
            match r {
                None => !has_port(old(self)@.ports, id) && final(self)@ == old(self)@,
                Some(ids) => {
                    &&& has_port(old(self)@.ports, id)
                    &&& final(self)@ == remove_port_view(texts@, old(self)@, id)
                    &&& ids@ == connection_ids(cut_of(texts@, old(self)@, id))
                },
            },
    {
        let idx = match self.find_port(id) {
            Some(i) => i,
            None => return None,
        };
        let ghost before = self@;
        let (kept, raw) = split_connections(&self.connections, id);
        let cut = order_connections(&raw, texts);
        proof {
            reveal(cut_of);
        }
        let ids = ids_of(&cut);
        let buried = bury_exec(&self.dangling, &cut, id);
        self.ports.remove(idx);
        self.connections = kept;
        self.dangling = buried;
        proof {
            let pi = port_index(before.ports, id);
            assert(before.ports[pi].id == id);
            assert(pi == idx);
            lemma_remove_port_strict(texts@, before, id);
        }
        Some(ids)
    }

    /// Record tombstones for the connections of `port` while they stay in the
    /// strict table: the host is asked to remove them and the tombstones show
    /// them until it has. Older tombstones of the same connections give way;
    /// the new ones follow the host's texts of connection ids (`texts`).
    pub fn capture_tombstones_for_port(&mut self, port: u64, texts: &Vec<(u64, String)>)
        requires
            old(self).wf(),
        ensures
            final(self).wf(),
            final(self)@ == (LedgerView {
                dangling: bury(old(self)@.dangling, cut_of(texts@, old(self)@, port), port),
                ..old(self)@
            }),
    {
        let (_, raw) = split_connections(&self.connections, port);
        let cut = order_connections(&raw, texts);
        proof {
            reveal(cut_of);
        }
        let buried = bury_exec(&self.dangling, &cut, port);
        proof {
            lemma_cut_of(texts@, self@, port);
            lemma_bury_unique(self@.dangling, cut@, port);
        }
        self.dangling = buried;
    }


    /// Bring back the tombstones of `port` that are valid again: they name
    /// `port` as missing, their connection is not live, and their ends exist
    /// and may be connected. Returns the ids of the restored connections.
    pub fn restore_tombstones_for_port(&mut self, port: u64) -> (r: Vec<u64>)
        requires
            old(self).wf(),
        ensures
            final(self).wf(),
            final(self)@ == restore_view(old(self)@, port),
            r@ == dangling_ids(restored_of(old(self)@, port)),
    {
        let ghost before = self@;
        let mut back: Vec<DanglingConnection<u64, u64>> = Vec::new();
        let mut stay: Vec<DanglingConnection<u64, u64>> = Vec::new();
        let mut ids: Vec<u64> = Vec::new();
        let mut i: usize = 0;
        while i < self.dangling.len()
            invariant
                self@ == before,
                self.wf(),
                i <= before.dangling.len(),
                back@ == before.dangling.take(i as int).filter(restorable_in(before, port)),
                stay@ == before.dangling.take(i as int).filter(staying_in(before, port)),
                ids@ == dangling_ids(back@),
            decreases before.dangling.len() - i,
        {
            let d = self.dangling[i];
            proof {
                lemma_filter_take_step(before.dangling, restorable_in(before, port), i as int);
                lemma_filter_take_step(before.dangling, staying_in(before, port), i as int);
            }
            if d.missing_port == port && self.joins_exec(d.source, d.target)
                && !self.has_connection(d.id) {
                back.push(d);
                ids.push(d.id);
                assert(ids@ =~= dangling_ids(back@));
            } else {
                stay.push(d);
            }
            i = i + 1;
        }
        assert(before.dangling.take(i as int) =~= before.dangling);
        let mut j: usize = 0;
        while j < back.len()
            invariant
                j <= back@.len(),
                back@ == restored_of(before, port),
                self.ports@ == before.ports,
                self.dangling@ == before.dangling,
                self.connections@ == before.connections + as_connections(back@.take(j as int)),
            decreases back@.len() - j,
        {
            let d = back[j];
            self.connections.push(Connection { id: d.id, source: d.source, target: d.target });
            j = j + 1;
            assert(as_connections(back@.take(j as int)) =~= as_connections(back@.take(j - 1)).push(
                as_connection(back@[j - 1]),
            ));
            assert(self.connections@ =~= before.connections + as_connections(
                back@.take(j as int),
            ));
        }
        assert(back@.take(j as int) =~= back@);
        self.dangling = stay;
        proof {
            lemma_restore_wf(before, port);
        }
        ids
    }

    /// The connections that restoring `port` would bring back if none of
    /// them were live: the tombstones that name `port` as missing and whose
    /// ends exist and may be connected, in tombstone order.
    pub fn restorable_tombstone_connections(&self, port: u64) -> (r: Vec<Connection<u64, u64>>)
        requires
            self.wf(),
        ensures
            r@ == as_connections(self@.dangling.filter(returnable_in(self@.ports, port))),
    {
        let mut out: Vec<Connection<u64, u64>> = Vec::new();
        let ghost found: Seq<DanglingConnection<u64, u64>> = Seq::empty();
        let mut i: usize = 0;
        while i < self.dangling.len()
            invariant
                self.wf(),
                i <= self@.dangling.len(),
                found == self@.dangling.take(i as int).filter(returnable_in(self@.ports, port)),
                out@ == as_connections(found),
            decreases self@.dangling.len() - i,
        {
            let d = self.dangling[i];
            proof {
                lemma_filter_take_step(self@.dangling, returnable_in(self@.ports, port), i as int);
            }
            if d.missing_port == port && self.joins_exec(d.source, d.target) {
                out.push(Connection { id: d.id, source: d.source, target: d.target });
                proof {
                    found = found.push(d);
                }
                assert(out@ =~= as_connections(found));
            }
            i = i + 1;
        }
        assert(self@.dangling.take(i as int) =~= self@.dangling);
        out
    }

    /// Drop the tombstones whose connection is live again.
    pub fn prune_resolved_tombstones(&mut self)
        requires
            old(self).wf(),
        ensures
            final(self).wf(),
            final(self)@ == (LedgerView {
                dangling: old(self)@.dangling.filter(unresolved_in(old(self)@.connections)),
                ..old(self)@
            }),
    {
        let ghost before = self@;
        let mut stay: Vec<DanglingConnection<u64, u64>> = Vec::new();
        let mut i: usize = 0;
        while i < self.dangling.len()
            invariant
                self@ == before,
                i <= before.dangling.len(),
                stay@ == before.dangling.take(i as int).filter(unresolved_in(before.connections)),
            decreases before.dangling.len() - i,
        {
            let d = self.dangling[i];
            proof {
                lemma_filter_take_step(before.dangling, unresolved_in(before.connections), i as int);
            }
            if !self.has_connection(d.id) {
                stay.push(d);
            }
            i = i + 1;
        }
        assert(before.dangling.take(i as int) =~= before.dangling);
        self.dangling = stay;
        proof {
            lemma_filter_unique(before.dangling, unresolved_in(before.connections), dangling_key());
        }
    }

    /// Forget every tombstone.
    pub fn clear_dangling_connections(&mut self)
        requires
            old(self).wf(),
        ensures
            final(self).wf(),
            final(self)@ == (LedgerView { dangling: Seq::empty(), ..old(self)@ }),
    {
        self.dangling = Vec::new();
    }

    /// The tombstones, in the order they were made.
    pub fn dangling_connections(&self) -> (r: &[DanglingConnection<u64, u64>])
        ensures
            r@ == self@.dangling,
    {
        self.dangling.as_slice()
    }


    /// Remove the port `id` in the given mode. `None`, with nothing changed,
    /// when the port does not exist. Uncontrolled: the port goes away with
    /// its connections, which become tombstones, and their ids are returned
    /// (one `ConnectionRemoved` each). Controlled: the table stays, the
    /// connections get tombstones, and their ids are returned as the removals
    /// to request from the host, followed by the port's own removal. Either
    /// way the ids are sorted by the host's texts of connection ids.
    pub fn remove_port_with_tombstones(
        &mut self,
        id: u64,
        mode: MutationMode,
        texts: &Vec<(u64, String)>,
    ) -> (r: Option<Vec<u64>>)
        requires
            old(self).wf(),
        ensures
            final(self).wf(),
            r is None <==> !has_port(old(self)@.ports, id),
            r is None ==> final(self)@ == old(self)@,
            r is Some ==> r->0@ == connection_ids(cut_of(texts@, old(self)@, id)),
            r is Some && mode == MutationMode::Uncontrolled ==> final(self)@ == remove_port_view(
                texts@,
                old(self)@,
                id,
            ),
            r is Some && mode == MutationMode::Controlled ==> final(self)@ == (LedgerView {
                dangling: bury(old(self)@.dangling, cut_of(texts@, old(self)@, id), id),
                ..old(self)@
            }),
    {
        if !self.has_port(id) {
            return None;
        }
        match mode {
            MutationMode::Controlled => {
                let (_, raw) = split_connections(&self.connections, id);
                let cut = order_connections(&raw, texts);
                proof {
                    reveal(cut_of);
                }
                self.capture_tombstones_for_port(id, texts);
                Some(ids_of(&cut))
            },
            MutationMode::Uncontrolled => self.remove_port_to_tombstones(id, texts),
        }
    }

    /// Restore the connections of `port` in the given mode. Controlled: the
    /// table stays and the restorable connections are returned, to request
    /// from the host. Uncontrolled: the valid tombstones come back and their
    /// connections are returned (one `DanglingConnectionRestored` each).
    pub fn restore_tombstoned_connections(&mut self, port: u64, mode: MutationMode) -> (r: Vec<
        Connection<u64, u64>,
    >)
        requires
            old(self).wf(),
        ensures
            final(self).wf(),
            mode == MutationMode::Controlled ==> final(self)@ == old(self)@ && r@ == as_connections(
                old(self)@.dangling.filter(returnable_in(old(self)@.ports, port)),
            ),
            mode == MutationMode::Uncontrolled ==> final(self)@ == restore_view(old(self)@, port)
                && r@ == as_connections(restored_of(old(self)@, port)),
    {
        match mode {
            MutationMode::Controlled => self.restorable_tombstone_connections(port),
            MutationMode::Uncontrolled => {
                let ghost before = self@;
                let start = self.connections.len();
                self.restore_tombstones_for_port(port);
                let mut out: Vec<Connection<u64, u64>> = Vec::new();
                let mut k: usize = start;
                while k < self.connections.len()
                    invariant
                        self.wf(),
                        self@ == restore_view(before, port),
                        start == before.connections.len(),
                        start <= k <= self@.connections.len(),
                        out@ == self@.connections.subrange(start as int, k as int),
                    decreases self@.connections.len() - k,
                {
                    let c = &self.connections[k];
                    out.push(Connection { id: c.id, source: c.source, target: c.target });
                    k = k + 1;
                    assert(out@ =~= self@.connections.subrange(start as int, k as int));
                }
                assert(self@.connections.subrange(start as int, k as int) =~= as_connections(
                    restored_of(before, port),
                ));
                out
            },
        }
    }

    /// The built-in context menu of `port`: empty when the port does not
    /// exist; otherwise "Remove connections", enabled when a live or broken
    /// connection touches the port, and "Remove broken connections", enabled
    /// when a broken one does.
    pub fn anchor_menu_items(&self, port: u64) -> (r: Vec<AnchorMenuItem>)
        requires
            self.wf(),
        ensures
            !has_port(self@.ports, port) ==> r@.len() == 0,
            has_port(self@.ports, port) ==> {
                &&& r@.len() == 2
                &&& r@[0].label@ == "Remove connections"@
                &&& r@[0].action == AnchorMenuAction::RemoveConnections
                &&& r@[0].enabled == (has_live_connection(self@.connections, port)
                    || has_broken_connection(self@.dangling, port))
                &&& r@[1].label@ == "Remove broken connections"@
                &&& r@[1].action == AnchorMenuAction::RemoveBrokenConnections
                &&& r@[1].enabled == has_broken_connection(self@.dangling, port)
            },
    {
        if !self.has_port(port) {
            return Vec::new();
        }
        let mut live = false;
        let mut i: usize = 0;
        while i < self.connections.len()
            invariant
                i <= self@.connections.len(),
                live == exists|k: int| 0 <= k < i && touches(self@.connections[k], port),
            decreases self@.connections.len() - i,
        {
            let c = &self.connections[i];
            if c.source == port || c.target == port {
                live = true;
            }
            i = i + 1;
        }
        let mut broken = false;
        let mut j: usize = 0;
        while j < self.dangling.len()
            invariant
                j <= self@.dangling.len(),
                broken == exists|k: int| 0 <= k < j && dangling_touches(self@.dangling[k], port),
            decreases self@.dangling.len() - j,
        {
            let d = self.dangling[j];
            if d.source == port || d.target == port {
                broken = true;
            }
            j = j + 1;
        }
        let mut items: Vec<AnchorMenuItem> = Vec::new();
        items.push(
            AnchorMenuItem {
                label: "Remove connections".to_owned(),
                action: AnchorMenuAction::RemoveConnections,
                enabled: live || broken,
            },
        );
        items.push(
            AnchorMenuItem {
                label: "Remove broken connections".to_owned(),
                action: AnchorMenuAction::RemoveBrokenConnections,
                enabled: broken,
            },
        );
        items
    }

    /// Carry out a built-in menu entry of `port`: remove its live and broken
    /// connections, or only its broken ones. Controlled: the live ones are
    /// requested from the host and the broken ones are dropped here.
    /// Uncontrolled: every listed connection is removed here, live or broken,
    /// each id once. The returned lists are sorted by the host's texts of
    /// connection ids (`texts`; see [`crate::id_order`]).
    pub fn remove_anchor_connections(
        &mut self,
        port: u64,
        broken_only: bool,
        mode: MutationMode,
        texts: &Vec<(u64, String)>,
    ) -> (r: AnchorRemoval)
        requires
            old(self).wf(),
        ensures
            final(self).wf(),
            mode == MutationMode::Controlled ==> {
                &&& r.requested@ == sort_by_text(texts@, menu_live_ids(old(self)@, port, broken_only))
                &&& r.removed@ == sort_by_text(texts@, menu_broken_ids(old(self)@, port))
                &&& final(self)@ == (LedgerView {
                    dangling: old(self)@.dangling.filter(
                        unlisted(menu_broken_ids(old(self)@, port)),
                    ),
                    ..old(self)@
                })
            },
            mode == MutationMode::Uncontrolled ==> {
                &&& r.requested@.len() == 0
                &&& r.removed@ == sort_by_text(texts@, menu_all_ids(old(self)@, port, broken_only))
                &&& final(self)@ == (LedgerView {
                    ports: old(self)@.ports,
                    connections: old(self)@.connections.filter(
                        unlisted_connection(menu_all_ids(old(self)@, port, broken_only)),
                    ),
                    dangling: old(self)@.dangling.filter(
                        unlisted(menu_all_ids(old(self)@, port, broken_only)),
                    ),
                })
            },
    {
        let ghost before = self@;
        let live = if broken_only {
            Vec::new()
        } else {
            let (_, cut) = split_connections(&self.connections, port);
            ids_of(&cut)
        };
        let broken = touching_dangling_ids(&self.dangling, port);
        match mode {
            MutationMode::Controlled => {
                let rest = drop_listed_dangling(&self.dangling, &broken);
                self.dangling = rest;
                proof {
                    lemma_filter_unique(before.dangling, unlisted(broken@), dangling_key());
                }
                AnchorRemoval {
                    requested: order_by_text(&live, texts),
                    removed: order_by_text(&broken, texts),
                }
            },
            MutationMode::Uncontrolled => {
                let all = merge_ids(&live, &broken);
                let cs = drop_listed_connections(&self.connections, &all);
                let ds = drop_listed_dangling(&self.dangling, &all);
                self.connections = cs;
                self.dangling = ds;
                proof {
                    lemma_filter_connections_wf(before, unlisted_connection(all@), unlisted(all@));
                }
                AnchorRemoval { requested: Vec::new(), removed: order_by_text(&all, texts) }
            },
        }
    }


    /// Start a connection draft at `port`. `None`, with nothing changed, when
    /// the port does not exist. Grabbing an occupied input detaches its
    /// connection and drafts from that connection's output: removed here
    /// (uncontrolled), or named in `detached` for the host to remove
    /// (controlled).
    pub fn begin_draft(&mut self, port: u64, mode: MutationMode) -> (r: Option<DraftStart>)
        requires
            old(self).wf(),
        ensures
            final(self).wf(),
            r is None <==> !has_port(old(self)@.ports, port),
            r is None ==> final(self)@ == old(self)@,
            r is Some ==> match occupant(old(self)@, port) {
                None => r->0 == (DraftStart { origin: port, detached: None }) && final(self)@
                    == old(self)@,
                Some(c) => {
                    &&& r->0.origin == c.source
                    &&& mode == MutationMode::Controlled ==> r->0.detached == Some(c.id)
                        && final(self)@ == old(self)@
                    &&& mode == MutationMode::Uncontrolled ==> r->0.detached == None::<u64>
                        && final(self)@ == (LedgerView {
                        connections: old(self)@.connections.filter(other_than(c.id)),
                        ..old(self)@
                    })
                },
            },
    {
        let idx = match self.find_port(port) {
            Some(i) => i,
            None => return None,
        };
        let ghost v = self@;
        let input = self.ports[idx].direction == PortDirection::Input;
        proof {
            if is_input(v.ports, port) {
                let i = choose|i: int|
                    0 <= i < v.ports.len() && v.ports[i].id == port && v.ports[i].direction
                        == PortDirection::Input;
                assert(v.ports[i].id == v.ports[idx as int].id);
            }
        }
        if !input {
            return Some(DraftStart { origin: port, detached: None });
        }
        let mut k: usize = 0;
        while k < self.connections.len()
            invariant
                self@ == v,
                old(self)@ == v,
                ledger_wf(v),
                has_port(v.ports, port),
                is_input(v.ports, port),
                k <= v.connections.len(),
                v.connections.take(k as int).filter(targeting(port)) == Seq::<
                    Connection<u64, u64>,
                >::empty(),
            decreases v.connections.len() - k,
        {
            proof {
                lemma_filter_take_step(v.connections, targeting(port), k as int);
            }
            if self.connections[k].target == port {
                let c = Connection {
                    id: self.connections[k].id,
                    source: self.connections[k].source,
                    target: self.connections[k].target,
                };
                proof {
                    let cs = v.connections;
                    let head = cs.take(k + 1);
                    let tail = cs.skip(k + 1);
                    assert(cs =~= head + tail);
                    Seq::filter_distributes_over_add(head, tail, targeting(port));
                    assert(head.filter(targeting(port)) =~= seq![c]);
                    assert(cs.filter(targeting(port))[0] == c);
                }
                match mode {
                    MutationMode::Controlled => {
                        return Some(DraftStart { origin: c.source, detached: Some(c.id) });
                    },
                    MutationMode::Uncontrolled => {
                        self.remove_connection(c.id);
                        return Some(DraftStart { origin: c.source, detached: None });
                    },
                }
            }
            k = k + 1;
        }
        assert(v.connections.take(k as int) =~= v.connections);
        Some(DraftStart { origin: port, detached: None })
    }


    /// The connection a draft between `first` and `second` requests, output
    /// first; see [`normalized_pair`]. Finishing a draft, and snapping it to
    /// a port, go by this.
    pub fn normalized_connection(&self, first: u64, second: u64) -> (r: Option<(u64, u64)>)
        requires
            self.wf(),
        ensures
            r == normalized_pair(self@.ports, first, second),
    {
        let ia = self.find_port(first);
        let ib = self.find_port(second);
        proof {
            let ports = self@.ports;
            if let Some(i) = ia {
                let k = port_index(ports, first);
                assert(ports[k].id == first);
                assert(k == i as int);
            }
            if let Some(j) = ib {
                let k = port_index(ports, second);
                assert(ports[k].id == second);
                assert(k == j as int);
            }
        }
        match (ia, ib) {
            (Some(i), Some(j)) => {
                let a = &self.ports[i];
                let b = &self.ports[j];
                if a.node == b.node || a.direction == b.direction {
                    return None;
                }
                let (s, t) = if a.direction == PortDirection::Output {
                    (a, b)
                } else {
                    (b, a)
                };
                if T::compatible(&s.kind, &t.kind) {
                    Some((s.id, t.id))
                } else {
                    None
                }
            },
            _ => None,
        }
    }

    /// Whether every live connection at `port` joins two existing ports that
    /// may be connected.
    fn touching_still_join(&self, port: u64) -> (r: bool)
        requires
            unique_by(self@.ports, port_key()),
        ensures
            r == forall|c: int|
                0 <= c < self@.connections.len() && touches(self@.connections[c], port)
                    ==> #[trigger] joins(
                    self@.ports,
                    self@.connections[c].source,
                    self@.connections[c].target,
                ),
    {
        let mut i: usize = 0;
        while i < self.connections.len()
            invariant
                i <= self@.connections.len(),
                unique_by(self@.ports, port_key()),
                forall|c: int|
                    0 <= c < i && touches(self@.connections[c], port) ==> #[trigger] joins(
                        self@.ports,
                        self@.connections[c].source,
                        self@.connections[c].target,
                    ),
            decreases self@.connections.len() - i,
        {
            let c = &self.connections[i];
            if (c.source == port || c.target == port) && !self.joins_exec(c.source, c.target) {
                return false;
            }
            i = i + 1;
        }
        true
    }

    /// Whether ports `source` and `target` exist and may be connected.
    fn joins_exec(&self, source: u64, target: u64) -> (r: bool)
        requires
            unique_by(self@.ports, port_key()),
        ensures
            r == joins(self@.ports, source, target),
    {
        let si = self.find_port(source);
        let ti = self.find_port(target);
        match (si, ti) {
            (Some(i), Some(j)) => {
                let s = &self.ports[i];
                let t = &self.ports[j];
                let ok = s.direction == PortDirection::Output && t.direction
                    == PortDirection::Input && s.node != t.node && T::compatible(&s.kind, &t.kind);
                proof {
                    let ports = self@.ports;
                    if joins(ports, source, target) {
                        let (a, b) = choose|a: int, b: int|
                            #![trigger ports[a], ports[b]]
                            0 <= a < ports.len() && 0 <= b < ports.len() && ports[a].id == source
                                && ports[b].id == target && endpoints_connect(ports[a], ports[b]);
                        assert(a == i as int);
                        assert(b == j as int);
                    }
                    if ok {
                        assert(ports[i as int] == *s && ports[j as int] == *t);
                    }
                }
                ok
            },
            _ => false,
        }
    }
}

} // verus!
