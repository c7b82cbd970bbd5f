//! What removing and restoring a port's connections undo.

use super::{
    as_connection, dangling_key, lemma_joins_push, lemma_remove_port_strict, lemma_restore_wf, as_connections, avoiding, connection_ids, connection_key, dangling_ids, dangling_touches,
    dangling_touching, endpoints_connect, has_broken_connection, has_connection,
    has_live_connection, has_port, joins, ledger_wf, menu_all_ids,
    menu_broken_ids, menu_live_ids, not_among, port_index, remove_port_view, restorable_in,
    restore_view, restored_of, staying_in, tombstones, touches, touching, unlisted, cut_of, lemma_cut_of,
    unlisted_connection, normalized_pair, port_of, LedgerView, PortEntry,
};
use super::reconcile::{
    apply_view, desired_entry, removal_step, removals_view, upsert_step, upserts_view, DesiredPort,
};
use crate::graph_core::{Connection, PortDirection, PortType};
use crate::seq_facts::{lemma_filter_keeps_all, lemma_filter_keeps_none, lemma_unique_key_same_entry};
use vstd::prelude::*;

verus! {

/// The connections that avoid a port and those that touch it are, together,
/// all the connections.
pub proof fn lemma_partition_multiset(cs: Seq<Connection<u64, u64>>, port: u64)
    ensures
        (cs.filter(avoiding(port)) + cs.filter(touching(port))).to_multiset() =~= cs.to_multiset(),
    decreases cs.len(),
{
    broadcast use vstd::seq_lib::group_to_multiset_ensures;
    broadcast use vstd::multiset::group_multiset_axioms;

    reveal(Seq::filter);
    if cs.len() > 0 {
        let r = cs.drop_last();
        lemma_partition_multiset(r, port);
        vstd::seq_lib::lemma_multiset_commutative(cs.filter(avoiding(port)), cs.filter(touching(port)));
        vstd::seq_lib::lemma_multiset_commutative(r.filter(avoiding(port)), r.filter(touching(port)));
        assert(r.push(cs.last()) =~= cs);
    } else {
        assert(cs.filter(avoiding(port)) + cs.filter(touching(port)) =~= cs);
    }
}

/// A tombstone keeps its connection's id and ends.
pub proof fn lemma_tombstones_keep_connections(cut: Seq<Connection<u64, u64>>, port: u64)
    ensures
        dangling_ids(tombstones(cut, port)) == connection_ids(cut),
        as_connections(tombstones(cut, port)) == cut,
{
    assert(dangling_ids(tombstones(cut, port)) =~= connection_ids(cut));
    assert(as_connections(tombstones(cut, port)) =~= cut);
}

/// The port `i` of `v` taken out, and `e`, with its id, put in at the end.
pub open spec fn port_put_back_as<T: PortType>(
    texts: Seq<(u64, String)>,
    v: LedgerView<T>,
    i: int,
    e: PortEntry<T>,
) -> LedgerView<T> {
    let removed = remove_port_view(texts, v, v.ports[i].id);
    LedgerView { ports: removed.ports.push(e), ..removed }
}

/// The port `i` of `v`, taken out and put back at the end.
pub open spec fn port_put_back<T: PortType>(texts: Seq<(u64, String)>, v: LedgerView<T>, i: int) -> LedgerView<T> {
    port_put_back_as(texts, v, i, v.ports[i])
}

/// `e` can stand for the port `i`: it has its id, and every live connection
/// at the port stays valid when `e` replaces it.
#[verifier::opaque]
pub open spec fn fits<T: PortType>(v: LedgerView<T>, i: int, e: PortEntry<T>) -> bool {
    forall|c: int|
        0 <= c < v.connections.len() && touches(v.connections[c], v.ports[i].id) ==> #[trigger] joins(
            v.ports.update(i, e),
            v.connections[c].source,
            v.connections[c].target,
        )
}

/// A port fits in its own place.
proof fn lemma_fits_itself<T: PortType>(v: LedgerView<T>, i: int)
    requires
        ledger_wf(v),
        0 <= i < v.ports.len(),
    ensures
        fits(v, i, v.ports[i]),
{
    reveal(fits);
    assert(v.ports.update(i, v.ports[i]) =~= v.ports);
}

proof fn lemma_put_back_ports<T: PortType>(texts: Seq<(u64, String)>, v: LedgerView<T>, i: int)
    requires
        ledger_wf(v),
        0 <= i < v.ports.len(),
    ensures
        port_index(v.ports, v.ports[i].id) == i,
        !has_port(remove_port_view(texts, v, v.ports[i].id).ports, v.ports[i].id),
        port_put_back(texts, v, i).ports.to_multiset() == v.ports.to_multiset(),
{
    broadcast use vstd::seq_lib::group_to_multiset_ensures;
    broadcast use vstd::multiset::group_multiset_axioms;

    let id = v.ports[i].id;
    let pi = port_index(v.ports, id);
    assert(v.ports[pi].id == id);
    assert(pi == i);
    let removed = v.ports.remove(i);
    if has_port(removed, id) {
        let k = choose|k: int| 0 <= k < removed.len() && removed[k].id == id;
        let k0 = if k < i { k } else { k + 1 };
        assert(removed[k] == v.ports[k0]);
    }
    assert(port_put_back(texts, v, i).ports.to_multiset() =~= v.ports.to_multiset());
}

proof fn lemma_put_back_dangling<T: PortType>(
    texts: Seq<(u64, String)>,
    v: LedgerView<T>,
    i: int,
    e: PortEntry<T>,
)
    requires
        ledger_wf(v),
        0 <= i < v.ports.len(),
        forall|k: int|
            0 <= k < v.dangling.len() ==> !has_connection(v.connections, (#[trigger] v.dangling[k]).id),
    ensures
        port_put_back_as(texts, v, i, e).dangling == v.dangling + tombstones(
            cut_of(texts, v, v.ports[i].id),
            v.ports[i].id,
        ),
{
    let id = v.ports[i].id;
    let cut = cut_of(texts, v, id);
    let ids = connection_ids(cut);
    lemma_cut_of(texts, v, id);
    assert forall|k: int| 0 <= k < v.dangling.len() implies #[trigger] unlisted(ids)(
        v.dangling[k],
    ) by {
        if ids.contains(v.dangling[k].id) {
            let m = choose|m: int| 0 <= m < ids.len() && ids[m] == v.dangling[k].id;
            assert(v.connections.contains(cut[m]));
            let n = choose|n: int| 0 <= n < v.connections.len() && v.connections[n] == cut[m];
            assert(has_connection(v.connections, v.dangling[k].id));
        }
    }
    lemma_filter_keeps_all(v.dangling, unlisted(ids));
}

proof fn lemma_put_back_restorable<T: PortType>(
    texts: Seq<(u64, String)>,
    v: LedgerView<T>,
    i: int,
    e: PortEntry<T>,
    k: int,
)
    requires
        ledger_wf(v),
        0 <= i < v.ports.len(),
        e.id == v.ports[i].id,
        fits(v, i, e),
        0 <= k < cut_of(texts, v, v.ports[i].id).len(),
    ensures
        restorable_in(port_put_back_as(texts, v, i, e), v.ports[i].id)(
            tombstones(cut_of(texts, v, v.ports[i].id), v.ports[i].id)[k],
        ),
{
    reveal(fits);
    let id = v.ports[i].id;
    let back = port_put_back_as(texts, v, i, e);
    let cut = cut_of(texts, v, id);
    let kept = v.connections.filter(avoiding(id));
    let c = cut[k];
    lemma_cut_of(texts, v, id);
    assert(v.connections.contains(c) && touches(c, id));
    let n = choose|n: int| 0 <= n < v.connections.len() && v.connections[n] == c;
    let u = v.ports.update(i, e);
    assert(joins(u, v.connections[n].source, v.connections[n].target));
    let (a, b) = choose|a: int, b: int|
        #![trigger u[a], u[b]]
        0 <= a < u.len() && 0 <= b < u.len() && u[a].id == c.source
            && u[b].id == c.target && endpoints_connect(u[a], u[b]);
    lemma_put_back_ports(texts, v, i);
    let q = back.ports;
    let last = q.len() - 1;
    let a1 = if a == i { last } else if a < i { a } else { a - 1 };
    let b1 = if b == i { last } else if b < i { b } else { b - 1 };
    assert(q[a1] == u[a] && q[b1] == u[b]);
    assert(joins(q, c.source, c.target));
    if has_connection(kept, c.id) {
        let m = choose|m: int| 0 <= m < kept.len() && kept[m].id == c.id;
        assert(kept.contains(kept[m]));
        v.connections.lemma_filter_contains_rev(avoiding(id), kept[m]);
        v.connections.lemma_filter_pred(avoiding(id), m);
        lemma_unique_key_same_entry(v.connections, connection_key(), kept[m], c);
    }
}

proof fn lemma_put_back_restored<T: PortType>(
    texts: Seq<(u64, String)>,
    v: LedgerView<T>,
    i: int,
    e: PortEntry<T>,
)
    requires
        ledger_wf(v),
        0 <= i < v.ports.len(),
        e.id == v.ports[i].id,
        fits(v, i, e),
        forall|k: int| 0 <= k < v.dangling.len() ==> (#[trigger] v.dangling[k]).missing_port != v.ports[i].id,
        forall|k: int|
            0 <= k < v.dangling.len() ==> !has_connection(v.connections, (#[trigger] v.dangling[k]).id),
    ensures
        restored_of(port_put_back_as(texts, v, i, e), v.ports[i].id) == tombstones(
            cut_of(texts, v, v.ports[i].id),
            v.ports[i].id,
        ),
        port_put_back_as(texts, v, i, e).dangling.filter(
            staying_in(port_put_back_as(texts, v, i, e), v.ports[i].id),
        ) == v.dangling,
{
    let id = v.ports[i].id;
    let back = port_put_back_as(texts, v, i, e);
    let tombs = tombstones(cut_of(texts, v, id), id);
    lemma_put_back_dangling(texts, v, i, e);
    assert(back.dangling == v.dangling + tombs);
    assert forall|k: int| 0 <= k < tombs.len() implies #[trigger] restorable_in(back, id)(
        tombs[k],
    ) by {
        lemma_put_back_restorable(texts, v, i, e, k);
    }
    assert forall|k: int| 0 <= k < tombs.len() implies !#[trigger] staying_in(back, id)(
        tombs[k],
    ) by {
        lemma_put_back_restorable(texts, v, i, e, k);
    }
    assert forall|k: int| 0 <= k < v.dangling.len() implies !#[trigger] restorable_in(back, id)(
        v.dangling[k],
    ) by {
    }
    assert forall|k: int| 0 <= k < v.dangling.len() implies #[trigger] staying_in(back, id)(
        v.dangling[k],
    ) by {
    }
    Seq::filter_distributes_over_add(v.dangling, tombs, restorable_in(back, id));
    Seq::filter_distributes_over_add(v.dangling, tombs, staying_in(back, id));
    lemma_filter_keeps_none(v.dangling, restorable_in(back, id));
    lemma_filter_keeps_all(tombs, restorable_in(back, id));
    lemma_filter_keeps_all(v.dangling, staying_in(back, id));
    lemma_filter_keeps_none(tombs, staying_in(back, id));
    assert(v.dangling + Seq::empty() =~= v.dangling);
    assert(Seq::empty() + tombs =~= tombs);
}

/// The connections that avoid a port and its sorted connections are,
/// together, all the connections.
proof fn lemma_kept_and_cut<T: PortType>(texts: Seq<(u64, String)>, v: LedgerView<T>, id: u64)
    requires
        ledger_wf(v),
    ensures
        (v.connections.filter(avoiding(id)) + cut_of(texts, v, id)).to_multiset()
            == v.connections.to_multiset(),
{
    let kept = v.connections.filter(avoiding(id));
    lemma_partition_multiset(v.connections, id);
    lemma_cut_of(texts, v, id);
    vstd::seq_lib::lemma_multiset_commutative(kept, cut_of(texts, v, id));
    vstd::seq_lib::lemma_multiset_commutative(kept, v.connections.filter(touching(id)));
}

/// Taking a port out and putting the same port back undoes nothing but the
/// order: when no tombstone names the port as missing and none stands for a
/// live connection, removing the port to tombstones, adding it again and
/// restoring its tombstones brings back exactly the connections that were
/// removed, in the order they were removed in (that of the host's texts of
/// their ids), and leaves the ports, the live connections and the
/// tombstones as they were, up to order.
pub proof fn lemma_remove_restore_round_trip<T: PortType>(
    texts: Seq<(u64, String)>,
    v: LedgerView<T>,
    i: int,
)
    requires
        ledger_wf(v),
        0 <= i < v.ports.len(),
        forall|k: int| 0 <= k < v.dangling.len() ==> (#[trigger] v.dangling[k]).missing_port != v.ports[i].id,
        forall|k: int|
            0 <= k < v.dangling.len() ==> !has_connection(v.connections, (#[trigger] v.dangling[k]).id),
    ensures
        !has_port(remove_port_view(texts, v, v.ports[i].id).ports, v.ports[i].id),
        dangling_ids(restored_of(port_put_back(texts, v, i), v.ports[i].id)) == connection_ids(
            cut_of(texts, v, v.ports[i].id),
        ),
        restore_view(port_put_back(texts, v, i), v.ports[i].id).ports.to_multiset()
            == v.ports.to_multiset(),
        restore_view(port_put_back(texts, v, i), v.ports[i].id).connections.to_multiset()
            == v.connections.to_multiset(),
        restore_view(port_put_back(texts, v, i), v.ports[i].id).dangling == v.dangling,
{
    let id = v.ports[i].id;
    let back = port_put_back(texts, v, i);
    assert(!has_port(remove_port_view(texts, v, id).ports, id)
        && back.ports.to_multiset() == v.ports.to_multiset()) by {
        lemma_put_back_ports(texts, v, i);
    }
    assert(restore_view(back, id).ports == back.ports);
    lemma_fits_itself(v, i);
    lemma_round_trip_as(texts, v, i, v.ports[i]);
}

/// After a port's menu removed its connections here (uncontrolled), no
/// broken connection touches the port, and, unless only the broken ones were
/// asked for, no live one either: both built-in entries of its menu are then
/// disabled.
pub proof fn lemma_menu_removal_clears_port<T: PortType>(v: LedgerView<T>, port: u64, broken_only: bool)
    requires
        ledger_wf(v),
    ensures
        !broken_only ==> !has_live_connection(
            v.connections.filter(unlisted_connection(menu_all_ids(v, port, broken_only))),
            port,
        ),
        !has_broken_connection(
            v.dangling.filter(unlisted(menu_all_ids(v, port, broken_only))),
            port,
        ),
{
    let all = menu_all_ids(v, port, broken_only);
    let live = menu_live_ids(v, port, broken_only);
    let broken = menu_broken_ids(v, port);
    let cs = v.connections.filter(unlisted_connection(all));
    let ds = v.dangling.filter(unlisted(all));
    if !broken_only && has_live_connection(cs, port) {
        let k = choose|k: int| 0 <= k < cs.len() && touches(cs[k], port);
        let c = cs[k];
        assert(cs.contains(c));
        v.connections.lemma_filter_contains_rev(unlisted_connection(all), c);
        v.connections.lemma_filter_pred(unlisted_connection(all), k);
        let m = choose|m: int| 0 <= m < v.connections.len() && v.connections[m] == c;
        v.connections.lemma_filter_contains(touching(port), m);
        let cut = v.connections.filter(touching(port));
        let n = choose|n: int| 0 <= n < cut.len() && cut[n] == c;
        assert(live[n] == c.id);
        assert(all[n] == c.id);
    }
    if has_broken_connection(ds, port) {
        let k = choose|k: int| 0 <= k < ds.len() && dangling_touches(ds[k], port);
        let d = ds[k];
        assert(ds.contains(d));
        v.dangling.lemma_filter_contains_rev(unlisted(all), d);
        v.dangling.lemma_filter_pred(unlisted(all), k);
        let m = choose|m: int| 0 <= m < v.dangling.len() && v.dangling[m] == d;
        v.dangling.lemma_filter_contains(dangling_touching(port), m);
        let mine = v.dangling.filter(dangling_touching(port));
        let n = choose|n: int| 0 <= n < mine.len() && mine[n] == d;
        assert(broken[n] == d.id);
        if live.contains(d.id) {
            let j = choose|j: int| 0 <= j < live.len() && live[j] == d.id;
            assert(all[j] == d.id);
        } else {
            broken.lemma_filter_contains(not_among(live), n);
            let extra = broken.filter(not_among(live));
            let j = choose|j: int| 0 <= j < extra.len() && extra[j] == d.id;
            assert(all[live.len() + j] == d.id);
        }
    }
}

/// A draft is accepted or refused alike whichever end it started from, and
/// asks for the same connection.
pub proof fn lemma_normalized_symmetric<T: PortType>(
    ports: Seq<PortEntry<T>>,
    first: u64,
    second: u64,
)
    ensures
        normalized_pair(ports, first, second) == normalized_pair(ports, second, first),
{
}

/// A draft between two ports is accepted exactly when the ports exist on
/// different nodes, one is an output and the other an input, and the
/// output's kind may feed the input's: then, in either order of the ports,
/// the connection runs from the output to the input. Whether the input's
/// kind could feed the output's plays no part.
pub proof fn lemma_normalized_exact<T: PortType>(v: LedgerView<T>, first: u64, second: u64)
    requires
        ledger_wf(v),
    ensures
        ({
            let ports = v.ports;
            let a = port_of(ports, first);
            let b = port_of(ports, second);
            &&& (a matches Some(p) && b matches Some(q) && p.node != q.node
                && p.direction == PortDirection::Output && q.direction == PortDirection::Input
                && T::spec_compatible(&p.kind, &q.kind)) ==> normalized_pair(ports, first, second)
                == Some((first, second)) && normalized_pair(ports, second, first) == Some((first, second))
            &&& normalized_pair(ports, first, second) matches Some((s, t)) ==> {
                &&& (s == first && t == second) || (s == second && t == first)
                &&& port_of(ports, s) matches Some(o) && port_of(ports, t) matches Some(i)
                    && o.direction == PortDirection::Output && i.direction == PortDirection::Input
                    && o.node != i.node && T::spec_compatible(&o.kind, &i.kind)
            }
        }),
{
    let ports = v.ports;
    if has_port(ports, first) {
        let i = port_index(ports, first);
        assert(ports[i].id == first);
    }
    if has_port(ports, second) {
        let j = port_index(ports, second);
        assert(ports[j].id == second);
    }
}

/// The connection a finished draft requests is one the strict table accepts:
/// its ends exist and may be connected.
pub proof fn lemma_normalized_joins<T: PortType>(
    v: LedgerView<T>,
    first: u64,
    second: u64,
)
    requires
        ledger_wf(v),
    ensures
        match normalized_pair(v.ports, first, second) {
            Some((source, target)) => joins(v.ports, source, target),
            None => true,
        },
{
    let ports = v.ports;
    let i = port_index(ports, first);
    let j = port_index(ports, second);
    if normalized_pair(ports, first, second) is Some {
        assert(ports[i].id == first);
        assert(ports[j].id == second);
        if ports[i].direction == PortDirection::Output {
            assert(endpoints_connect(ports[i], ports[j]));
        } else {
            assert(endpoints_connect(ports[j], ports[i]));
        }
    }
}

/// After the round trip, the live connections are those of before.
proof fn lemma_round_trip_connections<T: PortType>(
    texts: Seq<(u64, String)>,
    v: LedgerView<T>,
    i: int,
    e: PortEntry<T>,
)
    requires
        ledger_wf(v),
        0 <= i < v.ports.len(),
        e.id == v.ports[i].id,
        fits(v, i, e),
        forall|k: int| 0 <= k < v.dangling.len() ==> (#[trigger] v.dangling[k]).missing_port != v.ports[i].id,
        forall|k: int|
            0 <= k < v.dangling.len() ==> !has_connection(v.connections, (#[trigger] v.dangling[k]).id),
    ensures
        restore_view(port_put_back_as(texts, v, i, e), v.ports[i].id).connections.to_multiset()
            == v.connections.to_multiset(),
{
    let id = v.ports[i].id;
    let back = port_put_back_as(texts, v, i, e);
    let cut = cut_of(texts, v, id);
    assert(restored_of(back, id) == tombstones(cut, id)) by {
        lemma_put_back_restored(texts, v, i, e);
    }
    lemma_tombstones_keep_connections(cut, id);
    assert((back.connections + cut).to_multiset() == v.connections.to_multiset()) by {
        lemma_kept_and_cut(texts, v, id);
    }
    lemma_restore_parts(back, id, cut, v.connections);
}

/// Restoring the tombstones of `cut`, the only ones that come back, after
/// the connections that stayed gives the connections that stayed and `cut`.
proof fn lemma_restore_parts<T: PortType>(
    back: LedgerView<T>,
    id: u64,
    cut: Seq<Connection<u64, u64>>,
    all: Seq<Connection<u64, u64>>,
)
    requires
        restored_of(back, id) == tombstones(cut, id),
        as_connections(tombstones(cut, id)) == cut,
        dangling_ids(tombstones(cut, id)) == connection_ids(cut),
        (back.connections + cut).to_multiset() == all.to_multiset(),
    ensures
        restore_view(back, id).connections.to_multiset() == all.to_multiset(),
        dangling_ids(restored_of(back, id)) == connection_ids(cut),
{
    assert(restore_view(back, id).connections == back.connections + cut);
}

/// The table with the port `i` taken out and `e`, of the same id, put in
/// at the end is well formed.
proof fn lemma_put_back_wf<T: PortType>(texts: Seq<(u64, String)>, v: LedgerView<T>, i: int, e: PortEntry<T>)
    requires
        ledger_wf(v),
        0 <= i < v.ports.len(),
        e.id == v.ports[i].id,
    ensures
        ledger_wf(port_put_back_as(texts, v, i, e)),
{
    let id = v.ports[i].id;
    let removed = remove_port_view(texts, v, id);
    let put = port_put_back_as(texts, v, i, e);
    assert(has_port(v.ports, id));
    lemma_remove_port_strict(texts, v, id);
    lemma_put_back_ports(texts, v, i);
    let q = put.ports;
    assert forall|a: int, b: int| 0 <= a < q.len() && 0 <= b < q.len() && a != b implies q[a].id
        != q[b].id by {
        if a < removed.ports.len() && b < removed.ports.len() {
            assert(q[a] == removed.ports[a] && q[b] == removed.ports[b]);
        } else if a < removed.ports.len() {
            assert(q[a] == removed.ports[a]);
        } else if b < removed.ports.len() {
            assert(q[b] == removed.ports[b]);
        }
    }
    assert forall|c: int| 0 <= c < put.connections.len() implies #[trigger] joins(
        q,
        put.connections[c].source,
        put.connections[c].target,
    ) by {
        assert(joins(removed.ports, removed.connections[c].source, removed.connections[c].target));
        lemma_joins_push(removed.ports, e, put.connections[c].source, put.connections[c].target);
    }
}

/// A connection cut when the port `i` went comes back when `e` takes its
/// place, and no tombstone of it is left.
proof fn lemma_cut_connection_returns<T: PortType>(
    texts: Seq<(u64, String)>,
    v: LedgerView<T>,
    i: int,
    e: PortEntry<T>,
    c: Connection<u64, u64>,
)
    requires
        ledger_wf(v),
        0 <= i < v.ports.len(),
        e.id == v.ports[i].id,
        fits(v, i, e),
        v.connections.contains(c),
        touches(c, v.ports[i].id),
    ensures
        restore_view(port_put_back_as(texts, v, i, e), v.ports[i].id).connections.contains(c),
        dangling_ids(restored_of(port_put_back_as(texts, v, i, e), v.ports[i].id)).contains(c.id),
        forall|m: int|
            0 <= m < restore_view(port_put_back_as(texts, v, i, e), v.ports[i].id).dangling.len()
                ==> (#[trigger] restore_view(port_put_back_as(texts, v, i, e), v.ports[i].id).dangling[m]).id
                != c.id,
{
    broadcast use vstd::seq_lib::group_to_multiset_ensures;

    let id = v.ports[i].id;
    let put = port_put_back_as(texts, v, i, e);
    let raw = v.connections.filter(touching(id));
    let cut = cut_of(texts, v, id);
    let tombs = tombstones(cut, id);
    let older = v.dangling.filter(unlisted(connection_ids(cut)));
    assert(raw.contains(c)) by {
        let n = choose|n: int| 0 <= n < v.connections.len() && v.connections[n] == c;
        v.connections.lemma_filter_contains(touching(id), n);
    }
    lemma_cut_of(texts, v, id);
    assert(cut.to_multiset().contains(c));
    let m = choose|m: int| 0 <= m < cut.len() && cut[m] == c;
    let tomb = tombs[m];
    assert(tomb.id == c.id && tomb.source == c.source && tomb.target == c.target);
    lemma_put_back_restorable(texts, v, i, e, m);
    assert(put.dangling == older + tombs);
    assert(put.dangling[older.len() + m] == tomb);
    assert(put.dangling.contains(tomb));
    let back = restored_of(put, id);
    assert(back.contains(tomb)) by {
        put.dangling.lemma_filter_contains(restorable_in(put, id), older.len() + m);
    }
    let k = choose|k: int| 0 <= k < back.len() && back[k] == tomb;
    let w = restore_view(put, id);
    assert(w.connections[put.connections.len() + k] == as_connection(tomb));
    assert(as_connection(tomb) == c);
    assert(w.connections.contains(c));
    assert(dangling_ids(back)[k] == c.id);
    lemma_put_back_wf(texts, v, i, e);
    assert forall|j: int| 0 <= j < w.dangling.len() implies (#[trigger] w.dangling[j]).id != c.id by {
        let d = w.dangling[j];
        put.dangling.lemma_filter_pred(staying_in(put, id), j);
        assert(w.dangling.contains(d));
        put.dangling.lemma_filter_contains_rev(staying_in(put, id), d);
        if d.id == c.id {
            lemma_unique_key_same_entry(put.dangling, dangling_key(), d, tomb);
        }
    }
}

/// Whatever else a node's type asks for, a port that one refresh removes
/// and a later one brings back, with the same id and a kind with which its
/// connections stay valid, gets every connection that was cut when it went:
/// each is live again with its id and ends, is among the restored ones, and
/// has no tombstone left. Older tombstones of the port, and tombstones of
/// live connections, change nothing of this.
pub proof fn lemma_returning_port_restores_its_connections<T: PortType>(
    texts: Seq<(u64, String)>,
    v: LedgerView<T>,
    i: int,
    node: u64,
    before: Seq<DesiredPort<T>>,
    after: Seq<DesiredPort<T>>,
    k: usize,
)
    requires
        ledger_wf(v),
        0 <= i < v.ports.len(),
        k < after.len(),
        after[k as int].id == v.ports[i].id,
        fits(v, i, desired_entry(node, after[k as int])),
    ensures
        ({
            let id = v.ports[i].id;
            let shrunk = apply_view(texts, v, node, before, seq![id], Seq::empty());
            let grown = apply_view(texts, shrunk.0, node, after, Seq::empty(), seq![k]);
            &&& shrunk.1 == connection_ids(cut_of(texts, v, id))
            &&& ledger_wf(grown.0)
            &&& has_port(grown.0.ports, id)
            &&& forall|c: Connection<u64, u64>|
                #[trigger] v.connections.contains(c) && touches(c, id) ==> {
                    &&& grown.0.connections.contains(c)
                    &&& grown.2.contains(c.id)
                    &&& forall|m: int|
                        0 <= m < grown.0.dangling.len() ==> (#[trigger] grown.0.dangling[m]).id != c.id
                }
        }),
{
    let id = v.ports[i].id;
    let p = after[k as int];
    let e = desired_entry(node, p);
    let removed = remove_port_view(texts, v, id);
    let put = port_put_back_as(texts, v, i, e);
    assert(has_port(v.ports, id));
    lemma_shrink_view(texts, v, node, before, id);
    lemma_put_back_ports(texts, v, i);
    assert(port_of(removed.ports, p.id) is None);
    lemma_grow_view(texts, removed, node, after, k);
    assert(LedgerView { ports: removed.ports.push(e), ..removed } == put);
    assert(ledger_wf(restore_view(put, id))) by {
        lemma_put_back_wf(texts, v, i, e);
        lemma_restore_wf(put, id);
    }
    assert(put.ports[put.ports.len() - 1].id == id);
    assert(has_port(restore_view(put, id).ports, id));
    assert forall|c: Connection<u64, u64>|
        #[trigger] v.connections.contains(c) && touches(c, id) implies {
            &&& restore_view(put, id).connections.contains(c)
            &&& dangling_ids(restored_of(put, id)).contains(c.id)
            &&& forall|m: int|
                0 <= m < restore_view(put, id).dangling.len() ==> (#[trigger] restore_view(
                    put,
                    id,
                ).dangling[m]).id != c.id
        } by {
        lemma_cut_connection_returns(texts, v, i, e, c);
    }
}

/// A node type that drops a port and asks for it again gets its
/// connections back: a plan that removes the port, then a plan that adds a
/// port with the same id again, with any label and a kind with which every
/// connection of the port stays valid, restore exactly the connections that
/// went, in the order they went (that of the host's texts of their ids).
/// The live connections and the tombstones are then as they were, when no
/// tombstone names the port as missing and none stands for a live
/// connection.
pub proof fn lemma_shrink_then_grow_restores<T: PortType>(
    texts: Seq<(u64, String)>,
    v: LedgerView<T>,
    i: int,
    node: u64,
    p: DesiredPort<T>,
)
    requires
        ledger_wf(v),
        0 <= i < v.ports.len(),
        p.id == v.ports[i].id,
        fits(v, i, desired_entry(node, p)),
        forall|k: int| 0 <= k < v.dangling.len() ==> (#[trigger] v.dangling[k]).missing_port != v.ports[i].id,
        forall|k: int|
            0 <= k < v.dangling.len() ==> !has_connection(v.connections, (#[trigger] v.dangling[k]).id),
    ensures
        ({
            let shrunk = apply_view(texts, v, node, Seq::empty(), seq![p.id], Seq::empty());
            let grown = apply_view(texts, shrunk.0, node, seq![p], Seq::empty(), seq![0usize]);
            &&& grown.2 == shrunk.1
            &&& grown.0.ports == v.ports.remove(i).push(desired_entry(node, p))
            &&& grown.0.connections.to_multiset() == v.connections.to_multiset()
            &&& grown.0.dangling == v.dangling
        }),
{
    let id = v.ports[i].id;
    let e = desired_entry(node, p);
    let removed = remove_port_view(texts, v, id);
    lemma_round_trip_as(texts, v, i, e);
    lemma_shrink_view(texts, v, node, Seq::empty(), id);
    lemma_put_back_ports(texts, v, i);
    assert(port_of(removed.ports, p.id) is None);
    lemma_grow_view(texts, removed, node, seq![p], 0);
    assert(seq![p][0] == p);
    assert(LedgerView { ports: removed.ports.push(e), ..removed } == port_put_back_as(texts, v, i, e));
}

/// Taking the port `i` out to tombstones and putting `e` in its place,
/// then restoring its tombstones, brings back exactly the connections that
/// went, in order, and the tombstones as they were.
proof fn lemma_round_trip_as<T: PortType>(
    texts: Seq<(u64, String)>,
    v: LedgerView<T>,
    i: int,
    e: PortEntry<T>,
)
    requires
        ledger_wf(v),
        0 <= i < v.ports.len(),
        e.id == v.ports[i].id,
        fits(v, i, e),
        forall|k: int| 0 <= k < v.dangling.len() ==> (#[trigger] v.dangling[k]).missing_port != v.ports[i].id,
        forall|k: int|
            0 <= k < v.dangling.len() ==> !has_connection(v.connections, (#[trigger] v.dangling[k]).id),
    ensures
        dangling_ids(restored_of(port_put_back_as(texts, v, i, e), v.ports[i].id)) == connection_ids(
            cut_of(texts, v, v.ports[i].id),
        ),
        restore_view(port_put_back_as(texts, v, i, e), v.ports[i].id).connections.to_multiset()
            == v.connections.to_multiset(),
        restore_view(port_put_back_as(texts, v, i, e), v.ports[i].id).dangling == v.dangling,
{
    let id = v.ports[i].id;
    let back = port_put_back_as(texts, v, i, e);
    let cut = cut_of(texts, v, id);
    assert(restore_view(back, id).dangling == v.dangling) by {
        lemma_put_back_restored(texts, v, i, e);
    }
    assert(dangling_ids(restored_of(back, id)) == connection_ids(cut)) by {
        lemma_put_back_restored(texts, v, i, e);
        lemma_tombstones_keep_connections(cut, id);
    }
    lemma_round_trip_connections(texts, v, i, e);
}


/// A plan that only removes the existing port `id` removes it to tombstones.
proof fn lemma_shrink_view<T: PortType>(
    texts: Seq<(u64, String)>,
    v: LedgerView<T>,
    node: u64,
    d: Seq<DesiredPort<T>>,
    id: u64,
)
    requires
        has_port(v.ports, id),
    ensures
        apply_view(texts, v, node, d, seq![id], Seq::empty()) == (
            remove_port_view(texts, v, id),
            connection_ids(cut_of(texts, v, id)),
            Seq::<u64>::empty(),
        ),
{
    let ids = seq![id];
    let cut = connection_ids(cut_of(texts, v, id));
    assert(ids.drop_last() =~= Seq::<u64>::empty());
    assert(ids.last() == id);
    assert(removals_view(texts, v, ids.drop_last()) == (v, Seq::<u64>::empty()));
    assert(removals_view(texts, v, ids) == removal_step(texts, (v, Seq::<u64>::empty()), id));
    assert(Seq::<u64>::empty() + cut =~= cut);
    assert(removals_view(texts, v, ids) == (remove_port_view(texts, v, id), cut));
    let s0 = (remove_port_view(texts, v, id), cut, Seq::<u64>::empty());
    assert(upserts_view(texts, s0, node, d, Seq::<usize>::empty()) == s0);
}

/// A plan that only upserts the desired port at `k`, which does not exist
/// yet, puts it last and restores its tombstones.
proof fn lemma_grow_view<T: PortType>(
    texts: Seq<(u64, String)>,
    w: LedgerView<T>,
    node: u64,
    d: Seq<DesiredPort<T>>,
    k: usize,
)
    requires
        k < d.len(),
        port_of(w.ports, d[k as int].id) is None,
    ensures
        ({
            let p = d[k as int];
            let put = LedgerView { ports: w.ports.push(desired_entry(node, p)), ..w };
            apply_view(texts, w, node, d, Seq::empty(), seq![k]) == (
                restore_view(put, p.id),
                Seq::<u64>::empty(),
                dangling_ids(restored_of(put, p.id)),
            )
        }),
{
    let p = d[k as int];
    let positions = seq![k];
    assert(positions.drop_last() =~= Seq::<usize>::empty());
    assert(positions.last() == k);
    let put = LedgerView { ports: w.ports.push(desired_entry(node, p)), ..w };
    let restored = dangling_ids(restored_of(put, p.id));
    assert(removals_view(texts, w, Seq::<u64>::empty()) == (w, Seq::<u64>::empty()));
    let s0 = (w, Seq::<u64>::empty(), Seq::<u64>::empty());
    assert(upserts_view(texts, s0, node, d, positions.drop_last()) == s0);
    assert(upserts_view(texts, s0, node, d, positions) == upsert_step(texts, s0, node, p));
    assert(Seq::<u64>::empty() + Seq::<u64>::empty() =~= Seq::<u64>::empty());
    assert(Seq::<u64>::empty() + restored =~= restored);
    assert(upsert_step(texts, s0, node, p) == (restore_view(put, p.id), Seq::<u64>::empty(), restored));
}
} // verus!
