//! Bringing a node's ports in line with its type: the ports the type asks
//! for are checked, compared with the node's current ports, and the
//! difference is applied through the tombstones, so that connections of a
//! port that goes away come back when it does.

use super::{
    touches, cut_of, bury, connection_ids, dangling_ids, endpoints_connect, has_port, joins, ledger_wf, port_index,
    port_of, remove_port_view, restore_view, restored_of, ConnectionLedger, LedgerView,
    PortEntry,
};
use crate::catalog::{key_fault, RegistryError};
use crate::graph_core::{PortDirection, PortType};
use crate::seq_facts::lemma_filter_take_step;
use vstd::prelude::*;
use vstd::std_specs::cmp::PartialEqSpec;

verus! {

/// A port that a node's type asks for: its key within the type, the id the
/// host's id function gives it on this node, and its label, direction and
/// kind.
#[derive(Debug)]
pub struct DesiredPort<T> {
    pub key: String,
    pub id: u64,
    pub label: String,
    pub direction: PortDirection,
    pub kind: T,
}

/// How a node's ports change to match its type: the ids of the ports the
/// type asks for, in order; the managed ports that go away; and the
/// positions, among the desired ports, of those to add or update.
#[derive(Debug)]
pub struct PortPlan {
    pub desired_ids: Vec<u64>,
    pub remove: Vec<u64>,
    pub upsert: Vec<usize>,
}

/// The keys of the desired ports, in order.
pub open spec fn desired_keys<T>(d: Seq<DesiredPort<T>>) -> Seq<Seq<char>> {
    d.map_values(|p: DesiredPort<T>| p.key@)
}

/// The ids of the desired ports, in order.
pub open spec fn desired_ids<T>(d: Seq<DesiredPort<T>>) -> Seq<u64> {
    d.map_values(|p: DesiredPort<T>| p.id)
}

/// The id of desired port `i` is taken: by an earlier node of the same
/// refresh, by an earlier port of this node, or by a port of another node.
pub open spec fn id_taken<T>(
    ports: Seq<PortEntry<T>>,
    node: u64,
    generated: Seq<u64>,
    d: Seq<DesiredPort<T>>,
    i: int,
) -> bool {
    ||| generated.contains(d[i].id)
    ||| exists|j: int| 0 <= j < i && d[j].id == d[i].id
    ||| has_port(ports, d[i].id) && ports[port_index(ports, d[i].id)].node != node
}

/// Desired port `i` is refused: its key is empty or repeated, or its id is
/// taken.
pub open spec fn desired_fault<T>(
    ports: Seq<PortEntry<T>>,
    node: u64,
    generated: Seq<u64>,
    d: Seq<DesiredPort<T>>,
    i: int,
) -> bool {
    key_fault(desired_keys(d), i) || id_taken(ports, node, generated, d, i)
}

/// The first refused desired port at or after `i`.
pub open spec fn first_desired_fault<T>(
    ports: Seq<PortEntry<T>>,
    node: u64,
    generated: Seq<u64>,
    d: Seq<DesiredPort<T>>,
    i: int,
) -> Option<int>
    decreases d.len() - i,
{
    if i < 0 || i >= d.len() {
        None
    } else if desired_fault(ports, node, generated, d, i) {
        Some(i)
    } else {
        first_desired_fault(ports, node, generated, d, i + 1)
    }
}

/// The port `id` exists and belongs to `node`.
pub open spec fn owned_by<T>(ports: Seq<PortEntry<T>>, node: u64) -> spec_fn(u64) -> bool {
    |id: u64| has_port(ports, id) && ports[port_index(ports, id)].node == node
}

/// The ports a refresh manages on the node: those its type defined last
/// time, or, the first time, the desired ports the node already has.
pub open spec fn managed_ids<T>(
    ports: Seq<PortEntry<T>>,
    node: u64,
    d: Seq<DesiredPort<T>>,
    managed: Option<Seq<u64>>,
) -> Seq<u64> {
    match managed {
        Some(m) => m,
        None => desired_ids(d).filter(owned_by(ports, node)),
    }
}

/// A managed port goes away when the type no longer asks for it and it
/// still exists.
pub open spec fn going<T>(ports: Seq<PortEntry<T>>, d: Seq<DesiredPort<T>>) -> spec_fn(u64) -> bool {
    |id: u64| !desired_ids(d).contains(id) && has_port(ports, id)
}

/// The desired port must be added, or the existing port with its id
/// updated: there is none, or it differs in node, label, direction or kind.
pub open spec fn needs_upsert<T: PortType>(
    ports: Seq<PortEntry<T>>,
    node: u64,
    p: DesiredPort<T>,
) -> bool {
    match port_of(ports, p.id) {
        None => true,
        Some(q) => q.node != node || q.label@ != p.label@ || q.direction != p.direction
            || !q.kind.eq_spec(&p.kind),
    }
}

/// Positions, in order, of the first `n` desired ports that need an upsert.
pub open spec fn upsert_positions<T: PortType>(
    ports: Seq<PortEntry<T>>,
    node: u64,
    d: Seq<DesiredPort<T>>,
    n: int,
) -> Seq<usize>
    decreases n,
{
    if n <= 0 {
        Seq::<usize>::empty()
    } else {
        let prev = upsert_positions(ports, node, d, n - 1);
        if needs_upsert(ports, node, d[n - 1]) {
            prev.push((n - 1) as usize)
        } else {
            prev
        }
    }
}

/// The verdict on a node's desired ports: the error of the first refused
/// one, or the plan.
pub open spec fn plan_verdict<T: PortType>(
    v: LedgerView<T>,
    node_type: Seq<char>,
    node: u64,
    generated: Seq<u64>,
    d: Seq<DesiredPort<T>>,
    managed: Option<Seq<u64>>,
    r: Result<PortPlan, RegistryError>,
) -> bool {
    match first_desired_fault(v.ports, node, generated, d, 0) {
        Some(i) => if d[i].key@.len() == 0 {
            r matches Err(RegistryError::EmptyPortKey { node_type: t }) && t@ == node_type
        } else if key_fault(desired_keys(d), i) {
            r matches Err(RegistryError::DuplicatePortKey { node_type: t, key: k }) && t@
                == node_type && k@ == d[i].key@
        } else {
            r matches Err(RegistryError::PortIdCollision)
        },
        None => r matches Ok(plan) && plan.desired_ids@ == desired_ids(d) && plan.remove@
            == managed_ids(v.ports, node, d, managed).filter(going(v.ports, d)),
    }
}

/// What applying a plan did: the connections it removed, one
/// `ConnectionRemoved` each, and those it restored, one
/// `DanglingConnectionRestored` each.
#[derive(Debug)]
pub struct PlanOutcome {
    pub removed: Vec<u64>,
    pub restored: Vec<u64>,
}

/// Removing the port `id`, when it exists, to tombstones; the removed
/// connections are added to those already removed.
pub open spec fn removal_step<T>(
    texts: Seq<(u64, String)>,
    s: (LedgerView<T>, Seq<u64>),
    id: u64,
) -> (LedgerView<T>, Seq<u64>) {
    if has_port(s.0.ports, id) {
        (remove_port_view(texts, s.0, id), s.1 + connection_ids(cut_of(texts, s.0, id)))
    } else {
        s
    }
}

/// Removing the ports `ids`, in order.
pub open spec fn removals_view<T>(texts: Seq<(u64, String)>, v: LedgerView<T>, ids: Seq<u64>) -> (
    LedgerView<T>,
    Seq<u64>,
)
    decreases ids.len(),
{
    if ids.len() == 0 {
        (v, Seq::empty())
    } else {
        removal_step(texts, removals_view(texts, v, ids.drop_last()), ids.last())
    }
}

/// The desired port as an entry of `node`.
pub open spec fn desired_entry<T>(node: u64, p: DesiredPort<T>) -> PortEntry<T> {
    PortEntry { id: p.id, node, label: p.label, direction: p.direction, kind: p.kind }
}

/// The ports once the port with the id of `p` is replaced by `p` as an
/// entry of `node`.
pub open spec fn replaced_ports<T>(ports: Seq<PortEntry<T>>, node: u64, p: DesiredPort<T>) -> Seq<
    PortEntry<T>,
> {
    ports.update(port_index(ports, p.id), desired_entry(node, p))
}

/// The existing port `q` can take the desired port in place: same node and
/// direction, a kind that compares equal, and every live connection at the
/// port stays valid with the new kind.
pub open spec fn keeps_meaning<T: PortType>(
    v: LedgerView<T>,
    q: PortEntry<T>,
    node: u64,
    p: DesiredPort<T>,
) -> bool {
    &&& q.node == node
    &&& q.direction == p.direction
    &&& q.kind.eq_spec(&p.kind)
    &&& forall|c: int|
        0 <= c < v.connections.len() && touches(v.connections[c], p.id) ==> #[trigger] joins(
            replaced_ports(v.ports, node, p),
            v.connections[c].source,
            v.connections[c].target,
        )
}

/// Adding or updating the desired port `p` of `node`: a port with its id
/// that keeps its meaning (see [`keeps_meaning`]) is replaced in place; any
/// other is removed to tombstones and replaced; then the tombstones of the port that are valid
/// again are restored. The removed and restored connections are added to
/// those of earlier steps.
pub open spec fn upsert_step<T: PortType>(
    texts: Seq<(u64, String)>,
    s: (LedgerView<T>, Seq<u64>, Seq<u64>),
    node: u64,
    p: DesiredPort<T>,
) -> (LedgerView<T>, Seq<u64>, Seq<u64>) {
    let v = s.0;
    let (placed, cut) = match port_of(v.ports, p.id) {
        Some(q) => if keeps_meaning(v, q, node, p) {
            (LedgerView { ports: replaced_ports(v.ports, node, p), ..v }, Seq::<u64>::empty())
        } else {
            let w = remove_port_view(texts, v, p.id);
            (
                LedgerView { ports: w.ports.push(desired_entry(node, p)), ..w },
                connection_ids(cut_of(texts, v, p.id)),
            )
        },
        None => (LedgerView { ports: v.ports.push(desired_entry(node, p)), ..v }, Seq::<u64>::empty()),
    };
    (restore_view(placed, p.id), s.1 + cut, s.2 + dangling_ids(restored_of(placed, p.id)))
}

/// Adding or updating the desired ports at `positions`, in order.
pub open spec fn upserts_view<T: PortType>(
    texts: Seq<(u64, String)>,
    s: (LedgerView<T>, Seq<u64>, Seq<u64>),
    node: u64,
    d: Seq<DesiredPort<T>>,
    positions: Seq<usize>,
) -> (LedgerView<T>, Seq<u64>, Seq<u64>)
    decreases positions.len(),
{
    if positions.len() == 0 {
        s
    } else {
        upsert_step(
            texts,
            upserts_view(texts, s, node, d, positions.drop_last()),
            node,
            d[positions.last() as int],
        )
    }
}

/// The table after a plan: its removals, then its upserts; with the removed
/// and the restored connections, in the order they happened.
pub open spec fn apply_view<T: PortType>(
    texts: Seq<(u64, String)>,
    v: LedgerView<T>,
    node: u64,
    d: Seq<DesiredPort<T>>,
    remove: Seq<u64>,
    upsert: Seq<usize>,
) -> (LedgerView<T>, Seq<u64>, Seq<u64>) {
    let (w, removed) = removals_view(texts, v, remove);
    upserts_view(texts, (w, removed, Seq::<u64>::empty()), node, d, upsert)
}

/// A port replaced in place, with its id, keeps the connections that do not
/// touch it valid; so when those that touch it stay valid, the table stays
/// well formed.
proof fn lemma_replace_keeps_wf<T: PortType>(v: LedgerView<T>, k: int, e: PortEntry<T>)
    requires
        ledger_wf(v),
        0 <= k < v.ports.len(),
        e.id == v.ports[k].id,
        forall|c: int|
            0 <= c < v.connections.len() && touches(v.connections[c], e.id) ==> #[trigger] joins(
                v.ports.update(k, e),
                v.connections[c].source,
                v.connections[c].target,
            ),
    ensures
        ledger_wf(LedgerView { ports: v.ports.update(k, e), ..v }),
{
    let q = v.ports.update(k, e);
    assert forall|a: int, b: int| 0 <= a < q.len() && 0 <= b < q.len() && a != b implies q[a].id
        != q[b].id by {
        assert(q[a].id == v.ports[a].id && q[b].id == v.ports[b].id);
    }
    assert forall|c: int| 0 <= c < v.connections.len() implies #[trigger] joins(
        q,
        v.connections[c].source,
        v.connections[c].target,
    ) by {
        if !touches(v.connections[c], e.id) {
            assert(joins(v.ports, v.connections[c].source, v.connections[c].target));
            let (i, j) = choose|i: int, j: int|
                #![trigger v.ports[i], v.ports[j]]
                0 <= i < v.ports.len() && 0 <= j < v.ports.len() && v.ports[i].id
                    == v.connections[c].source && v.ports[j].id == v.connections[c].target
                    && endpoints_connect(v.ports[i], v.ports[j]);
            assert(i != k && j != k);
            assert(q[i] == v.ports[i] && q[j] == v.ports[j]);
        }
    }
}

/// Tombstones recorded for the connections of port `id`, which stay live
/// until the host has removed them.
pub open spec fn capture_step<T>(texts: Seq<(u64, String)>, v: LedgerView<T>, id: u64) -> LedgerView<T> {
    LedgerView { dangling: bury(v.dangling, cut_of(texts, v, id), id), ..v }
}

/// Tombstones recorded for the connections of the ports `ids`, in order.
pub open spec fn captures_view<T>(texts: Seq<(u64, String)>, v: LedgerView<T>, ids: Seq<u64>) -> LedgerView<T>
    decreases ids.len(),
{
    if ids.len() == 0 {
        v
    } else {
        capture_step(texts, captures_view(texts, v, ids.drop_last()), ids.last())
    }
}

/// Whether `x` is among the numbers.
fn includes(v: &Vec<u64>, x: u64) -> (r: bool)
    ensures
        r == v@.contains(x),
{
    let mut i: usize = 0;
    while i < v.len()
        invariant
            i <= v@.len(),
            forall|k: int| 0 <= k < i ==> v@[k] != x,
        decreases v@.len() - i,
    {
        if v[i] == x {
            return true;
        }
        i = i + 1;
    }
    false
}

/// Append the numbers of `more`.
pub(crate) fn append_ids(v: &mut Vec<u64>, more: &Vec<u64>)
    ensures
        final(v)@ == old(v)@ + more@,
        forall|k: int| 0 <= k < old(v)@.len() ==> final(v)@[k] == old(v)@[k],
{
    let ghost start = v@;
    let mut i: usize = 0;
    while i < more.len()
        invariant
            i <= more@.len(),
            v@ == start + more@.take(i as int),
        decreases more@.len() - i,
    {
        v.push(more[i]);
        i = i + 1;
        assert(v@ =~= start + more@.take(i as int));
    }
    assert(more@.take(i as int) =~= more@);
}

impl<T: PortType> ConnectionLedger<T> {
    /// Check the ports that a node's type asks for, in order, and plan the
    /// change of the node's ports. Refused with the error of the first
    /// desired port whose key is empty (`EmptyPortKey`) or repeated
    /// (`DuplicatePortKey`), or whose id is taken (`PortIdCollision`); see
    /// [`plan_verdict`]. `generated` holds the ids given to earlier nodes of
    /// the same refresh; `managed`, the ports the type defined on the node
    /// last time (see [`PortOrders`]). Upserts list the desired ports that are new or differ from
    /// the port with their id; the kinds are compared with their `==`, so the
    /// list is exact when that follows its specification.
    pub fn plan_node_ports(
        &self,
        node_type: &String,
        node: u64,
        desired: &Vec<DesiredPort<T>>,
        managed: Option<&Vec<u64>>,
        generated: &Vec<u64>,
    ) -> (r: Result<PortPlan, RegistryError>)
        requires
            self.wf(),
        ensures
            plan_verdict(
                self@,
                node_type@,
                node,
                generated@,
                desired@,
                match managed {
                    Some(m) => Some(m@),
                    None => None,
                },
                r,
            ),
            r matches Ok(plan) ==> {
                &&& forall|k: int| 0 <= k < plan.upsert@.len() ==> #[trigger] plan.upsert@[k] < desired@.len()
                &&& forall|a: int, b: int| 0 <= a < b < plan.upsert@.len() ==> #[trigger] plan.upsert@[a] < #[trigger] plan.upsert@[b]
                &&& T::obeys_eq_spec() ==> plan.upsert@ == upsert_positions(self@.ports, node, desired@, desired@.len() as int)
            },
    {
        let ghost ports = self@.ports;
        let ghost d = desired@;
        let ghost keys = desired_keys(d);
        let mut i: usize = 0;
        while i < desired.len()
            invariant
                self.wf(),
                ports == self@.ports,
                d == desired@,
                keys == desired_keys(d),
                i <= d.len(),
                first_desired_fault(ports, node, generated@, d, 0) == first_desired_fault(
                    ports,
                    node,
                    generated@,
                    d,
                    i as int,
                ),
            decreases d.len() - i,
        {
            let p = &desired[i];
            assert(keys[i as int] == p.key@);
            if p.key.as_str().is_empty() {
                assert(desired_fault(ports, node, generated@, d, i as int));
                return Err(RegistryError::EmptyPortKey { node_type: node_type.clone() });
            }
            let mut j: usize = 0;
            while j < i
                invariant
                    j <= i < d.len(),
                    d == desired@,
                    keys == desired_keys(d),
                    keys[i as int].len() > 0,
                    ports == self@.ports,
                    first_desired_fault(ports, node, generated@, d, 0) == first_desired_fault(
                        ports,
                        node,
                        generated@,
                        d,
                        i as int,
                    ),
                    forall|m: int| 0 <= m < j ==> keys[m] != keys[i as int],
                decreases i - j,
            {
                if desired[j].key == desired[i].key {
                    assert(keys[j as int] == keys[i as int]);
                    assert(key_fault(keys, i as int));
                    return Err(
                        RegistryError::DuplicatePortKey {
                            node_type: node_type.clone(),
                            key: desired[i].key.clone(),
                        },
                    );
                }
                j = j + 1;
            }
            assert(!key_fault(keys, i as int));
            let mut taken = includes(generated, p.id);
            let mut j: usize = 0;
            while j < i && !taken
                invariant
                    j <= i < d.len(),
                    d == desired@,
                    p.id == d[i as int].id,
                    taken ==> id_taken(ports, node, generated@, d, i as int),
                    !taken ==> !generated@.contains(d[i as int].id),
                    !taken ==> forall|m: int| 0 <= m < j ==> d[m].id != d[i as int].id,
                decreases i - j,
            {
                if desired[j].id == p.id {
                    taken = true;
                }
                j = j + 1;
            }
            if !taken {
                match self.find_port(p.id) {
                    Some(k) => {
                        proof {
                            let pi = port_index(ports, p.id);
                            assert(ports[pi].id == p.id);
                            assert(pi == k as int);
                        }
                        if self.ports[k].node != node {
                            taken = true;
                        }
                    },
                    None => {},
                }
            }
            if taken {
                assert(desired_fault(ports, node, generated@, d, i as int));
                return Err(RegistryError::PortIdCollision);
            }
            assert(!desired_fault(ports, node, generated@, d, i as int));
            i = i + 1;
        }
        // The desired ids, in order.
        let mut ids: Vec<u64> = Vec::new();
        let mut k: usize = 0;
        while k < desired.len()
            invariant
                d == desired@,
                k <= d.len(),
                ids@ == desired_ids(d.take(k as int)),
            decreases d.len() - k,
        {
            ids.push(desired[k].id);
            k = k + 1;
            assert(ids@ =~= desired_ids(d.take(k as int)));
        }
        assert(d.take(k as int) =~= d);
        // The managed ports.
        let mut owned: Vec<u64> = Vec::new();
        match managed {
            Some(m) => {
                let mut k: usize = 0;
                while k < m.len()
                    invariant
                        k <= m@.len(),
                        owned@ == m@.take(k as int),
                    decreases m@.len() - k,
                {
                    owned.push(m[k]);
                    k = k + 1;
                    assert(owned@ =~= m@.take(k as int));
                }
                assert(m@.take(k as int) =~= m@);
            },
            None => {
                let mut k: usize = 0;
                while k < ids.len()
                    invariant
                        self.wf(),
                        ports == self@.ports,
                        k <= ids@.len(),
                        owned@ == ids@.take(k as int).filter(owned_by(ports, node)),
                    decreases ids@.len() - k,
                {
                    proof {
                        lemma_filter_take_step(ids@, owned_by(ports, node), k as int);
                    }
                    let id = ids[k];
                    match self.find_port(id) {
                        Some(x) => {
                            proof {
                                let pi = port_index(ports, id);
                                assert(ports[pi].id == id);
                                assert(pi == x as int);
                            }
                            if self.ports[x].node == node {
                                owned.push(id);
                            }
                        },
                        None => {},
                    }
                    k = k + 1;
                }
                assert(ids@.take(k as int) =~= ids@);
            },
        }
        // The managed ports that go away.
        let mut remove: Vec<u64> = Vec::new();
        let mut k: usize = 0;
        while k < owned.len()
            invariant
                self.wf(),
                ports == self@.ports,
                ids@ == desired_ids(d),
                k <= owned@.len(),
                remove@ == owned@.take(k as int).filter(going(ports, d)),
            decreases owned@.len() - k,
        {
            proof {
                lemma_filter_take_step(owned@, going(ports, d), k as int);
            }
            let id = owned[k];
            if !includes(&ids, id) && self.has_port(id) {
                remove.push(id);
            }
            k = k + 1;
        }
        assert(owned@.take(k as int) =~= owned@);
        // The desired ports to add or update.
        let mut upsert: Vec<usize> = Vec::new();
        let mut k: usize = 0;
        while k < desired.len()
            invariant
                self.wf(),
                ports == self@.ports,
                d == desired@,
                k <= d.len(),
                forall|a: int| 0 <= a < upsert@.len() ==> #[trigger] upsert@[a] < k,
                forall|a: int, b: int| 0 <= a < b < upsert@.len() ==> #[trigger] upsert@[a] < #[trigger] upsert@[b],
                T::obeys_eq_spec() ==> upsert@ == upsert_positions(ports, node, d, k as int),
            decreases d.len() - k,
        {
            let p = &desired[k];
            let needed = match self.find_port(p.id) {
                Some(x) => {
                    proof {
                        let pi = port_index(ports, p.id);
                        assert(ports[pi].id == p.id);
                        assert(pi == x as int);
                    }
                    let q = &self.ports[x];
                    q.node != node || q.label != p.label || q.direction != p.direction || !(q.kind
                        == p.kind)
                },
                None => true,
            };
            if needed {
                upsert.push(k);
            }
            k = k + 1;
        }
        Ok(PortPlan { desired_ids: ids, remove, upsert })
    }

    /// Ask the host to apply a plan of a node's ports (controlled): the
    /// table stays as it is until the host answers, and the connections of
    /// each port the plan removes get tombstones now, port by port, so that
    /// they come back if the port does.
    pub fn request_port_plan(&mut self, plan: &PortPlan, texts: &Vec<(u64, String)>)
        requires
            old(self).wf(),
        ensures
            final(self).wf(),
            final(self)@ == captures_view(texts@, old(self)@, plan.remove@),
    {
        let ghost v0 = self@;
        let mut k: usize = 0;
        while k < plan.remove.len()
            invariant
                self.wf(),
                k <= plan.remove@.len(),
                self@ == captures_view(texts@, v0, plan.remove@.take(k as int)),
            decreases plan.remove@.len() - k,
        {
            proof {
                assert(plan.remove@.take(k + 1).drop_last() =~= plan.remove@.take(k as int));
            }
            self.capture_tombstones_for_port(plan.remove[k], texts);
            k = k + 1;
        }
        assert(plan.remove@.take(k as int) =~= plan.remove@);
    }

    /// Apply a plan of a node's ports (uncontrolled): remove the ports that
    /// go away to tombstones, then add or update the desired ports at the
    /// upsert positions, restoring their tombstones; see [`apply_view`],
    /// which this follows exactly when the kinds' `==` follows its
    /// specification. A port whose kind compares equal takes the new kind
    /// value in place, keeping its connections, when they stay valid with it.
    /// Removed connections are listed by port, each port's sorted by the
    /// host's texts of connection ids (`texts`). Whatever the kinds, the
    /// removals come first and end as [`removals_view`] says, and a plan
    /// with no upserts does nothing more.
    pub fn apply_port_plan(
        &mut self,
        node: u64,
        desired: Vec<DesiredPort<T>>,
        plan: &PortPlan,
        texts: &Vec<(u64, String)>,
    ) -> (r: PlanOutcome)
        requires
            old(self).wf(),
            forall|k: int| 0 <= k < plan.upsert@.len() ==> #[trigger] plan.upsert@[k] < desired@.len(),
            forall|a: int, b: int|
                0 <= a < b < plan.upsert@.len() ==> #[trigger] plan.upsert@[a] < #[trigger] plan.upsert@[b],
        ensures
            final(self).wf(),
            T::obeys_eq_spec() ==> (final(self)@, r.removed@, r.restored@) == apply_view(
                texts@,
                old(self)@,
                node,
                desired@,
                plan.remove@,
                plan.upsert@,
            ),
            ({
                let (w, cut) = removals_view(texts@, old(self)@, plan.remove@);
                &&& cut.len() <= r.removed@.len()
                &&& r.removed@.take(cut.len() as int) == cut
                &&& plan.upsert@.len() == 0 ==> final(self)@ == w && r.removed@ == cut
                    && r.restored@.len() == 0
            }),
    {
        let ghost v0 = self@;
        let ghost d = desired@;
        let mut removed: Vec<u64> = Vec::new();
        let mut restored: Vec<u64> = Vec::new();
        let mut k: usize = 0;
        while k < plan.remove.len()
            invariant
                self.wf(),
                k <= plan.remove@.len(),
                (self@, removed@) == removals_view(texts@, v0, plan.remove@.take(k as int)),
                restored@.len() == 0,
            decreases plan.remove@.len() - k,
        {
            let id = plan.remove[k];
            let ghost before = (self@, removed@);
            proof {
                assert(plan.remove@.take(k + 1).drop_last() =~= plan.remove@.take(k as int));
            }
            match self.remove_port_to_tombstones(id, texts) {
                Some(ids) => {
                    append_ids(&mut removed, &ids);
                },
                None => {},
            }
            k = k + 1;
        }
        assert(plan.remove@.take(k as int) =~= plan.remove@);
        let ghost after_removals = (self@, removed@);
        let mut rest = desired;
        let mut pos: usize = 0;
        let mut u: usize = 0;
        let n = rest.len();
        while rest.len() > 0
            invariant
                self.wf(),
                n == d.len(),
                pos <= d.len(),
                rest@ == d.skip(pos as int),
                u <= plan.upsert@.len(),
                forall|a: int| 0 <= a < u ==> #[trigger] plan.upsert@[a] < pos,
                forall|a: int| u <= a < plan.upsert@.len() ==> #[trigger] plan.upsert@[a] >= pos,
                forall|k: int| 0 <= k < plan.upsert@.len() ==> #[trigger] plan.upsert@[k] < d.len(),
                forall|a: int, b: int|
                    0 <= a < b < plan.upsert@.len() ==> #[trigger] plan.upsert@[a] < #[trigger] plan.upsert@[b],
                after_removals.1.len() <= removed@.len(),
                forall|k: int| 0 <= k < after_removals.1.len() ==> removed@[k] == after_removals.1[k],
                u == 0 ==> self@ == after_removals.0 && removed@ == after_removals.1
                    && restored@.len() == 0,
                T::obeys_eq_spec() ==> (self@, removed@, restored@) == upserts_view(
                    texts@,
                    (after_removals.0, after_removals.1, Seq::<u64>::empty()),
                    node,
                    d,
                    plan.upsert@.take(u as int),
                ),
            decreases rest@.len(),
        {
            let p = rest.remove(0);
            assert(p == d[pos as int]);
            if u < plan.upsert.len() && plan.upsert[u] == pos {
                proof {
                    assert(plan.upsert@.take(u + 1).drop_last() =~= plan.upsert@.take(u as int));
                    assert(plan.upsert@.take(u + 1).last() == pos);
                }
                let ghost s0 = (self@, removed@, restored@);
                let pid = p.id;
                match self.find_port(pid) {
                    Some(x) => {
                        proof {
                            let pi = port_index(self@.ports, pid);
                            assert(self@.ports[pi].id == pid);
                            assert(pi == x as int);
                        }
                        let same = self.ports[x].node == node && self.ports[x].direction
                            == p.direction && self.ports[x].kind == p.kind;
                        if same {
                            let ghost v = self@;
                            let old_entry = self.ports.remove(x);
                            let entry = PortEntry {
                                id: old_entry.id,
                                node: old_entry.node,
                                label: p.label,
                                direction: old_entry.direction,
                                kind: p.kind,
                            };
                            self.ports.insert(x, entry);
                            proof {
                                assert(self@.ports =~= v.ports.update(x as int, entry));
                                assert(self@.ports =~= replaced_ports(v.ports, node, p));
                                assert forall|a: int, b: int|
                                    0 <= a < self@.ports.len() && 0 <= b < self@.ports.len() && a
                                        != b implies self@.ports[a].id != self@.ports[b].id by {
                                    assert(self@.ports[a].id == v.ports[a].id);
                                    assert(self@.ports[b].id == v.ports[b].id);
                                }
                            }
                            if self.touching_still_join(pid) {
                                proof {
                                    assert(self@.connections == v.connections);
                                    assert(self@.ports == v.ports.update(x as int, entry));
                                    assert(entry.id == pid);
                                    lemma_replace_keeps_wf(v, x as int, entry);
                                    assert(self@ == LedgerView { ports: replaced_ports(v.ports, node, p), ..v });
                                }
                            } else {
                                let fresh = self.ports.remove(x);
                                self.ports.insert(x, old_entry);
                                proof {
                                    assert(self@.ports =~= v.ports);
                                    assert(self@ == v);
                                }
                                let cut = self.remove_port_to_tombstones(pid, texts);
                                match cut {
                                    Some(ids) => append_ids(&mut removed, &ids),
                                    None => {},
                                }
                                self.add_port(fresh);
                            }
                        } else {
                            let cut = self.remove_port_to_tombstones(pid, texts);
                            match cut {
                                Some(ids) => append_ids(&mut removed, &ids),
                                None => {},
                            }
                            let entry = PortEntry {
                                id: p.id,
                                node,
                                label: p.label,
                                direction: p.direction,
                                kind: p.kind,
                            };
                            self.add_port(entry);
                        }
                    },
                    None => {
                        let entry = PortEntry {
                            id: p.id,
                            node,
                            label: p.label,
                            direction: p.direction,
                            kind: p.kind,
                        };
                        self.add_port(entry);
                    },
                }
                let back = self.restore_tombstones_for_port(pid);
                append_ids(&mut restored, &back);
                u = u + 1;
            }
            pos = pos + 1;
            proof {
                assert(rest@ =~= d.skip(pos as int));
            }
        }
        proof {
            if u < plan.upsert@.len() {
                assert(plan.upsert@[u as int] >= pos);
            }
            assert(plan.upsert@.take(u as int) =~= plan.upsert@);
            assert(removed@.take(after_removals.1.len() as int) =~= after_removals.1);
        }
        PlanOutcome { removed, restored }
    }
}

/// The order of the ports a node's type defined on it at the last refresh,
/// by node: what [`ConnectionLedger::plan_node_ports`] takes as `managed`.
pub struct PortOrders {
    entries: Vec<(u64, Vec<u64>)>,
}

/// The order remembered for `node`: that of its first entry.
pub open spec fn order_of(entries: Seq<(u64, Vec<u64>)>, node: u64) -> Option<Seq<u64>>
    decreases entries.len(),
{
    if entries.len() == 0 {
        None
    } else if entries[0].0 == node {
        Some(entries[0].1@)
    } else {
        order_of(entries.drop_first(), node)
    }
}

/// The entry `e` put at `i`: in place of the entry there, or at the end.
pub open spec fn placed(entries: Seq<(u64, Vec<u64>)>, i: int, e: (u64, Vec<u64>)) -> Seq<(u64, Vec<u64>)> {
    if i < entries.len() {
        entries.update(i, e)
    } else {
        entries.push(e)
    }
}

/// Replacing the entry at `i`, the first of `node`, changes the order of
/// `node` only; adding an entry at the end changes nothing already there.
proof fn lemma_order_of_update(entries: Seq<(u64, Vec<u64>)>, i: int, e: (u64, Vec<u64>), node: u64)
    requires
        0 <= i <= entries.len(),
        forall|k: int| 0 <= k < i ==> (#[trigger] entries[k]).0 != node,
        i < entries.len() ==> entries[i].0 == node,
        e.0 == node,
    ensures
        forall|n: u64|
            #[trigger] order_of(placed(entries, i, e), n) == if n == node {
                Some(e.1@)
            } else {
                order_of(entries, n)
            },
    decreases entries.len(),
{
    let after = placed(entries, i, e);
    if i == 0 {
        assert(after.len() > 0);
        assert(after[0] == e);
        assert forall|n: u64| #[trigger] order_of(after, n) == if n == node {
            Some(e.1@)
        } else {
            order_of(entries, n)
        } by {
            if n == node {
                assert(order_of(after, n) == Some(after[0].1@));
            } else if entries.len() > 0 {
                assert(after.drop_first() =~= entries.drop_first());
                assert(order_of(after, n) == order_of(after.drop_first(), n));
                assert(order_of(entries, n) == order_of(entries.drop_first(), n));
            } else {
                assert(after.drop_first() =~= Seq::<(u64, Vec<u64>)>::empty());
                assert(order_of(after, n) == order_of(after.drop_first(), n));
                assert(order_of(after.drop_first(), n) is None);
            }
        }
    } else {
        let t = entries.drop_first();
        assert forall|k: int| 0 <= k < i - 1 implies (#[trigger] t[k]).0 != node by {
            assert(t[k] == entries[k + 1]);
        }
        if i < entries.len() {
            assert(t[i - 1] == entries[i]);
        }
        lemma_order_of_update(t, i - 1, e, node);
        let t_after = placed(t, i - 1, e);
        assert(after.drop_first() =~= t_after);
        assert(after[0] == entries[0]);
        assert(entries[0].0 != node);
        assert forall|n: u64| #[trigger] order_of(after, n) == if n == node {
            Some(e.1@)
        } else {
            order_of(entries, n)
        } by {
            assert(order_of(t_after, n) == if n == node {
                Some(e.1@)
            } else {
                order_of(t, n)
            });
        }
    }
}

impl PortOrders {
    /// The orders remembered, as `(node, order)` entries.
    pub closed spec fn entries(&self) -> Seq<(u64, Vec<u64>)> {
        self.entries@
    }

    /// Nothing remembered.
    pub fn new() -> (r: Self)
        ensures
            forall|n: u64| #[trigger] order_of(r.entries(), n) is None,
    {
        PortOrders { entries: Vec::new() }
    }

    /// The order remembered for `node`.
    pub fn get(&self, node: u64) -> (r: Option<&Vec<u64>>)
        ensures
            r is None <==> order_of(self.entries(), node) is None,
            r is Some ==> Some(r->0@) == order_of(self.entries(), node),
    {
        let mut i: usize = 0;
        assert(self.entries@.skip(0) =~= self.entries@);
        while i < self.entries.len()
            invariant
                i <= self.entries@.len(),
                order_of(self.entries@, node) == order_of(self.entries@.skip(i as int), node),
            decreases self.entries@.len() - i,
        {
            if self.entries[i].0 == node {
                assert(self.entries@.skip(i as int)[0] == self.entries@[i as int]);
                return Some(&self.entries[i].1);
            }
            assert(self.entries@.skip(i as int).drop_first() =~= self.entries@.skip(i + 1));
            i = i + 1;
        }
        assert(self.entries@.skip(i as int) =~= Seq::<(u64, Vec<u64>)>::empty());
        None
    }

    /// Remember `order` for `node`, in place of what was remembered for it.
    pub fn remember(&mut self, node: u64, order: Vec<u64>)
        ensures
            forall|n: u64|
                #[trigger] order_of(final(self).entries(), n) == if n == node {
                    Some(order@)
                } else {
                    order_of(old(self).entries(), n)
                },
    {
        let ghost before = self.entries@;
        let mut i: usize = 0;
        while i < self.entries.len() && self.entries[i].0 != node
            invariant
                i <= self.entries@.len(),
                self.entries@ == before,
                forall|k: int| 0 <= k < i ==> (#[trigger] before[k]).0 != node,
            decreases self.entries@.len() - i,
        {
            i = i + 1;
        }
        let ghost e = (node, order);
        proof {
            lemma_order_of_update(before, i as int, e, node);
        }
        if i < self.entries.len() {
            self.entries.set(i, (node, order));
        } else {
            self.entries.push((node, order));
        }
    }
}

impl<T: PortType> ConnectionLedger<T> {
    /// Whether every port of `ids` exists.
    pub fn has_all_ports(&self, ids: &Vec<u64>) -> (r: bool)
        ensures
            r == forall|k: int| 0 <= k < ids@.len() ==> has_port(self@.ports, #[trigger] ids@[k]),
    {
        let mut i: usize = 0;
        while i < ids.len()
            invariant
                i <= ids@.len(),
                forall|k: int| 0 <= k < i ==> has_port(self@.ports, #[trigger] ids@[k]),
            decreases ids@.len() - i,
        {
            if !self.has_port(ids[i]) {
                return false;
            }
            i = i + 1;
        }
        true
    }
}

} // verus!
