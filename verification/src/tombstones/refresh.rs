//! Refreshing the ports of every node at once: each node's ports are
//! checked and planned against the table as it is, before any of them
//! changes; then the plans are applied here (uncontrolled) or requested from
//! the host (controlled), and the order of each node's ports is remembered.

use super::reconcile::{
    append_ids, apply_view, captures_view, desired_ids, first_desired_fault, going, managed_ids,
    order_of, plan_verdict, upsert_positions, DesiredPort, PortOrders, PortPlan,
};
use super::laws::{fits, lemma_returning_port_restores_its_connections};
use super::reconcile::desired_entry;
use super::{has_port, ledger_wf, touches, ConnectionLedger, LedgerView};
use crate::graph_core::Connection;
use crate::catalog::RegistryError;
use crate::editor::MutationMode;
use crate::graph_core::PortType;
use vstd::prelude::*;
use vstd::std_specs::cmp::PartialEqSpec;

verus! {

/// One node of a refresh: its id, the name of its type, and the ports its
/// type asks for, in order (the type's own ports, then the dynamic ones).
pub struct NodePorts<T> {
    pub node: u64,
    pub node_type: String,
    pub desired: Vec<DesiredPort<T>>,
}

/// The ids given to the ports of the first `j` nodes.
pub open spec fn generated_before<T>(nodes: Seq<NodePorts<T>>, j: int) -> Seq<u64>
    decreases j,
{
    if j <= 0 {
        Seq::empty()
    } else {
        generated_before(nodes, j - 1) + desired_ids(nodes[j - 1].desired@)
    }
}

/// The ports node `j` asks for are refused; see [`plan_verdict`].
pub open spec fn refused<T: PortType>(v: LedgerView<T>, nodes: Seq<NodePorts<T>>, j: int) -> bool {
    first_desired_fault(v.ports, nodes[j].node, generated_before(nodes, j), nodes[j].desired@, 0) is Some
}

/// The ports the plan of node `n` removes.
pub open spec fn planned_remove<T>(
    v: LedgerView<T>,
    orders: Seq<(u64, Vec<u64>)>,
    n: NodePorts<T>,
) -> Seq<u64> {
    managed_ids(v.ports, n.node, n.desired@, order_of(orders, n.node)).filter(
        going(v.ports, n.desired@),
    )
}

/// The positions of the desired ports the plan of node `n` adds or updates.
pub open spec fn planned_upsert<T: PortType>(v: LedgerView<T>, n: NodePorts<T>) -> Seq<usize> {
    upsert_positions(v.ports, n.node, n.desired@, n.desired@.len() as int)
}

/// The plan of node `n` changes nothing.
pub open spec fn plan_empty<T: PortType>(
    v: LedgerView<T>,
    orders: Seq<(u64, Vec<u64>)>,
    n: NodePorts<T>,
) -> bool {
    planned_remove(v, orders, n).len() == 0 && planned_upsert(v, n).len() == 0
}

/// `plan` is the plan of node `n`: the ids of its desired ports, the ports
/// it removes, and, in increasing order, the positions of the desired ports
/// it adds or updates (those of [`planned_upsert`] when the kinds' `==`
/// follows its specification).
pub open spec fn plan_of<T: PortType>(
    v: LedgerView<T>,
    orders: Seq<(u64, Vec<u64>)>,
    n: NodePorts<T>,
    plan: PortPlan,
) -> bool {
    &&& plan.desired_ids@ == desired_ids(n.desired@)
    &&& plan.remove@ == planned_remove(v, orders, n)
    &&& forall|k: int| 0 <= k < plan.upsert@.len() ==> #[trigger] plan.upsert@[k] < n.desired@.len()
    &&& forall|a: int, b: int|
        0 <= a < b < plan.upsert@.len() ==> #[trigger] plan.upsert@[a] < #[trigger] plan.upsert@[b]
    &&& T::obeys_eq_spec() ==> plan.upsert@ == planned_upsert(v, n)
}

/// The first refused node's error, when some node is refused.
pub open spec fn refresh_refused<T: PortType>(
    v: LedgerView<T>,
    orders: Seq<(u64, Vec<u64>)>,
    nodes: Seq<NodePorts<T>>,
    e: RegistryError,
) -> bool {
    exists|j: int|
        0 <= j < nodes.len() && refused(v, nodes, j) && (forall|i: int|
            0 <= i < j ==> !refused(v, nodes, i)) && plan_verdict(
            v,
            nodes[j].node_type@,
            nodes[j].node,
            generated_before(nodes, j),
            nodes[j].desired@,
            order_of(orders, nodes[j].node),
            Err(e),
        )
}

impl<T: PortType> ConnectionLedger<T> {
    /// Plan the ports of every node against the table as it is, in order,
    /// each node's port ids checked against those of the nodes before it:
    /// the error of the first refused node, or one plan per node.
    pub fn plan_refresh(&self, nodes: &Vec<NodePorts<T>>, orders: &PortOrders) -> (r: Result<
        Vec<PortPlan>,
        RegistryError,
    >)
        requires
            self.wf(),
        ensures
            match r {
                Err(e) => refresh_refused(self@, orders.entries(), nodes@, e),
                Ok(plans) => plans@.len() == nodes@.len() && forall|j: int|
                    0 <= j < nodes@.len() ==> !refused(self@, nodes@, j) && plan_of(
                        self@,
                        orders.entries(),
                        #[trigger] nodes@[j],
                        plans@[j],
                    ),
            },
    {
        let mut plans: Vec<PortPlan> = Vec::new();
        let mut generated: Vec<u64> = Vec::new();
        let mut j: usize = 0;
        while j < nodes.len()
            invariant
                self.wf(),
                j <= nodes@.len(),
                generated@ == generated_before(nodes@, j as int),
                plans@.len() == j,
                forall|i: int|
                    0 <= i < j ==> !refused(self@, nodes@, i) && plan_of(
                        self@,
                        orders.entries(),
                        #[trigger] nodes@[i],
                        plans@[i],
                    ),
            decreases nodes@.len() - j,
        {
            let n = &nodes[j];
            let managed = orders.get(n.node);
            proof {
                assert(match managed {
                    Some(m) => Some(m@),
                    None => None,
                } == order_of(orders.entries(), n.node));
            }
            match self.plan_node_ports(&n.node_type, n.node, &n.desired, managed, &generated) {
                Ok(plan) => {
                    assert(!refused(self@, nodes@, j as int));
                    append_ids(&mut generated, &plan.desired_ids);
                    plans.push(plan);
                },
                Err(e) => {
                    assert(refresh_refused(self@, orders.entries(), nodes@, e)) by {
                        assert(refused(self@, nodes@, j as int));
                    }
                    return Err(e);
                },
            }
            j = j + 1;
        }
        Ok(plans)
    }
}

/// A node whose ports were reconciled here (uncontrolled): one
/// `NodePortsReconciled`, after the connections it removed and restored.
#[derive(Debug)]
pub struct NodeReconciled {
    pub node: u64,
    pub removed: Vec<u64>,
    pub restored: Vec<u64>,
}

/// What a refresh did. `changed`: something changed here (uncontrolled) or
/// was requested (controlled). `requested`: the nodes whose pending change
/// goes to the host in one batch (controlled). `reconciled`: the nodes
/// reconciled here, in order (uncontrolled).
#[derive(Debug)]
pub struct RefreshOutcome {
    pub changed: bool,
    pub requested: Vec<u64>,
    pub reconciled: Vec<NodeReconciled>,
}

/// The reconciled nodes as `(node, removed, restored)`.
pub open spec fn reconciled_view(s: Seq<NodeReconciled>) -> Seq<(u64, Seq<u64>, Seq<u64>)> {
    s.map_values(|r: NodeReconciled| (r.node, r.removed@, r.restored@))
}

/// Applying the plans of the first `j` nodes in order (uncontrolled), each
/// planned against the table `v` as it was before the refresh: the table,
/// whether anything changed (a port was added or updated, or one that a
/// plan removes still existed), and the reconciled nodes. Nodes whose plan
/// changes nothing are left out.
pub open spec fn reconcile_all<T: PortType>(
    texts: Seq<(u64, String)>,
    v: LedgerView<T>,
    orders: Seq<(u64, Vec<u64>)>,
    nodes: Seq<NodePorts<T>>,
    j: int,
) -> (LedgerView<T>, bool, Seq<(u64, Seq<u64>, Seq<u64>)>)
    decreases j,
{
    if j <= 0 {
        (v, false, Seq::empty())
    } else {
        let (s, changed, done) = reconcile_all(texts, v, orders, nodes, j - 1);
        let n = nodes[j - 1];
        let rm = planned_remove(v, orders, n);
        let up = planned_upsert(v, n);
        if rm.len() == 0 && up.len() == 0 {
            (s, changed, done)
        } else {
            let (s2, removed, restored) = apply_view(texts, s, n.node, n.desired@, rm, up);
            (
                s2,
                changed || up.len() > 0 || (exists|k: int| 0 <= k < rm.len() && has_port(s.ports, rm[k])),
                done.push((n.node, removed, restored)),
            )
        }
    }
}

/// The order remembered for `node` once the first `j` nodes remembered
/// the ids of their desired ports, `before` what was remembered first.
pub open spec fn remembered<T>(nodes: Seq<NodePorts<T>>, j: int, node: u64, before: Option<Seq<u64>>) -> Option<
    Seq<u64>,
>
    decreases j,
{
    if j <= 0 {
        before
    } else if nodes[j - 1].node == node {
        Some(desired_ids(nodes[j - 1].desired@))
    } else {
        remembered(nodes, j - 1, node, before)
    }
}

/// A copy of the numbers.
fn copy_ids(v: &Vec<u64>) -> (r: Vec<u64>)
    ensures
        r@ == v@,
{
    let mut out: Vec<u64> = Vec::new();
    append_ids(&mut out, v);
    assert(out@ =~= v@);
    out
}

impl<T: PortType> ConnectionLedger<T> {
    /// Whether some port of `ids` exists.
    pub fn has_any_port(&self, ids: &Vec<u64>) -> (r: bool)
        ensures
            r == exists|k: int| 0 <= k < ids@.len() && has_port(self@.ports, ids@[k]),
    {
        let mut i: usize = 0;
        while i < ids.len()
            invariant
                i <= ids@.len(),
                forall|k: int| 0 <= k < i ==> !has_port(self@.ports, #[trigger] ids@[k]),
            decreases ids@.len() - i,
        {
            if self.has_port(ids[i]) {
                return true;
            }
            i = i + 1;
        }
        false
    }

    /// Apply the plans of a refresh here (uncontrolled), node by node: each
    /// plan that changes something is applied (see [`Self::apply_port_plan`])
    /// and its node reported, and every node remembers the order of the
    /// ports its type asks for. See [`reconcile_all`], which this follows
    /// exactly when the kinds' `==` follows its specification.
    pub fn reconcile_refresh(
        &mut self,
        nodes: Vec<NodePorts<T>>,
        plans: &Vec<PortPlan>,
        orders: &mut PortOrders,
        texts: &Vec<(u64, String)>,
    ) -> (r: RefreshOutcome)
        requires
            old(self).wf(),
            plans@.len() == nodes@.len(),
            forall|j: int|
                0 <= j < nodes@.len() ==> plan_of(
                    old(self)@,
                    old(orders).entries(),
                    #[trigger] nodes@[j],
                    plans@[j],
                ),
        ensures
            final(self).wf(),
            r.requested@.len() == 0,
            forall|n: u64|
                #[trigger] order_of(final(orders).entries(), n) == remembered(
                    nodes@,
                    nodes@.len() as int,
                    n,
                    order_of(old(orders).entries(), n),
                ),
            T::obeys_eq_spec() ==> (final(self)@, r.changed, reconciled_view(r.reconciled@))
                == reconcile_all(texts@, old(self)@, old(orders).entries(), nodes@, nodes@.len() as int),
    {
        let ghost v0 = self@;
        let ghost o0 = orders.entries();
        let ghost all = nodes@;
        let mut changed = false;
        let mut reconciled: Vec<NodeReconciled> = Vec::new();
        let count = plans.len();
        let mut rest = nodes;
        let mut j: usize = 0;
        while rest.len() > 0
            invariant
                self.wf(),
                count == all.len(),
                j <= all.len(),
                rest@ == all.skip(j as int),
                plans@.len() == all.len(),
                forall|i: int| 0 <= i < all.len() ==> plan_of(v0, o0, #[trigger] all[i], plans@[i]),
                forall|n: u64|
                    #[trigger] order_of(orders.entries(), n) == remembered(all, j as int, n, order_of(o0, n)),
                T::obeys_eq_spec() ==> (self@, changed, reconciled_view(reconciled@)) == reconcile_all(
                    texts@,
                    v0,
                    o0,
                    all,
                    j as int,
                ),
            decreases rest@.len(),
        {
            assert(j < all.len());
            let n = rest.remove(0);
            assert(n == all[j as int]);
            let node = n.node;
            let plan = &plans[j];
            let ghost s0 = self@;
            let ghost before = reconciled@;
            if plan.remove.len() > 0 || plan.upsert.len() > 0 {
                let hit = self.has_any_port(&plan.remove);
                let out = self.apply_port_plan(node, n.desired, plan, texts);
                changed = changed || plan.upsert.len() > 0 || hit;
                reconciled.push(NodeReconciled { node, removed: out.removed, restored: out.restored });
                proof {
                    assert(reconciled_view(reconciled@) =~= reconciled_view(before).push(
                        (node, out.removed@, out.restored@),
                    ));
                }
            }
            let ghost o1 = orders.entries();
            orders.remember(node, copy_ids(&plan.desired_ids));
            proof {
                assert forall|m: u64| #[trigger] order_of(orders.entries(), m) == remembered(
                    all,
                    j + 1,
                    m,
                    order_of(o0, m),
                ) by {
                    assert(order_of(o1, m) == remembered(all, j as int, m, order_of(o0, m)));
                }
            }
            j = j + 1;
            assert(rest@ =~= all.skip(j as int));
        }
        assert(j == all.len()) by {
            assert(all.skip(j as int).len() == 0);
        }
        RefreshOutcome { changed, requested: Vec::new(), reconciled }
    }
}

/// A change of a node's ports requested from the host and not answered
/// yet: the ports it removes and the desired ports it adds or updates.
#[derive(Debug)]
pub struct PendingChange<T> {
    pub node: u64,
    pub remove: Vec<u64>,
    pub upsert: Vec<DesiredPort<T>>,
}

/// The changes requested from the host and not answered yet, at most one
/// per node.
pub struct PendingChanges<T> {
    changes: Vec<PendingChange<T>>,
}

/// The change pending for `node`: the last one recorded for it.
pub open spec fn pending_of<T>(s: Seq<PendingChange<T>>, node: u64) -> Option<PendingChange<T>>
    decreases s.len(),
{
    if s.len() == 0 {
        None
    } else if s.last().node == node {
        Some(s.last())
    } else {
        pending_of(s.drop_last(), node)
    }
}

/// The change pending for `node`, as the ports it removes and the desired
/// ports it adds or updates.
pub open spec fn pending_view<T>(s: Seq<PendingChange<T>>, node: u64) -> Option<(Seq<u64>, Seq<DesiredPort<T>>)> {
    match pending_of(s, node) {
        Some(c) => Some((c.remove@, c.upsert@)),
        None => None,
    }
}

impl<T> PendingChanges<T> {
    /// The changes, in the order they were recorded.
    pub closed spec fn changes(&self) -> Seq<PendingChange<T>> {
        self.changes@
    }

    /// No change pending.
    pub fn new() -> (r: Self)
        ensures
            forall|n: u64| #[trigger] pending_of(r.changes(), n) is None,
    {
        PendingChanges { changes: Vec::new() }
    }

    /// Forget every pending change (the host answered, or sent a new graph).
    pub fn clear(&mut self)
        ensures
            forall|n: u64| #[trigger] pending_of(final(self).changes(), n) is None,
    {
        self.changes = Vec::new();
    }

    /// The change pending for `node`.
    pub fn get(&self, node: u64) -> (r: Option<&PendingChange<T>>)
        ensures
            r is None <==> pending_of(self.changes(), node) is None,
            r is Some ==> Some(*r->0) == pending_of(self.changes(), node),
    {
        let mut i: usize = self.changes.len();
        assert(self.changes@.take(i as int) =~= self.changes@);
        while i > 0
            invariant
                i <= self.changes@.len(),
                pending_of(self.changes@, node) == pending_of(self.changes@.take(i as int), node),
            decreases i,
        {
            let ghost t = self.changes@.take(i as int);
            assert(t.last() == self.changes@[i - 1]);
            if self.changes[i - 1].node == node {
                return Some(&self.changes[i - 1]);
            }
            assert(t.drop_last() =~= self.changes@.take(i - 1));
            i = i - 1;
        }
        None
    }

    /// Record `change` as the one pending for its node, in place of the one
    /// pending before.
    pub fn record(&mut self, change: PendingChange<T>)
        ensures
            forall|n: u64|
                #[trigger] pending_of(final(self).changes(), n) == if n == change.node {
                    Some(change)
                } else {
                    pending_of(old(self).changes(), n)
                },
    {
        let ghost all = self.changes@;
        let node = change.node;
        let mut rest: Vec<PendingChange<T>> = Vec::new();
        std::mem::swap(&mut rest, &mut self.changes);
        let mut kept: Vec<PendingChange<T>> = Vec::new();
        let mut i: usize = 0;
        let n = rest.len();
        while rest.len() > 0
            invariant
                n == all.len(),
                i <= all.len(),
                rest@ == all.skip(i as int),
                pending_of(kept@, node) is None,
                forall|m: u64|
                    m != node ==> #[trigger] pending_of(kept@, m) == pending_of(all.take(i as int), m),
            decreases rest@.len(),
        {
            assert(i < all.len());
            let c = rest.remove(0);
            assert(c == all[i as int]);
            let ghost before = kept@;
            assert(all.take(i + 1).drop_last() =~= all.take(i as int));
            assert(all.take(i + 1).last() == c);
            let ghost t = all.take(i + 1);
            if c.node != node {
                kept.push(c);
                assert(kept@.drop_last() =~= before);
                assert(kept@.last() == c);
                assert(pending_of(kept@, node) == pending_of(before, node));
                assert forall|m: u64| m != node implies #[trigger] pending_of(kept@, m) == pending_of(t, m) by {
                    if c.node != m {
                        assert(pending_of(kept@, m) == pending_of(before, m));
                        assert(pending_of(t, m) == pending_of(t.drop_last(), m));
                    }
                }
            } else {
                assert forall|m: u64| m != node implies #[trigger] pending_of(kept@, m) == pending_of(t, m) by {
                    assert(pending_of(t, m) == pending_of(t.drop_last(), m));
                }
            }
            i = i + 1;
            assert(rest@ =~= all.skip(i as int));
        }
        assert(all.take(i as int) =~= all) by {
            assert(all.skip(i as int).len() == 0);
        }
        let ghost k0 = kept@;
        let ghost c = change;
        kept.push(change);
        assert(kept@.drop_last() =~= k0);
        assert(kept@.last() == c);
        self.changes = kept;
        assert forall|m: u64| #[trigger] pending_of(self.changes@, m) == if m == node {
            Some(c)
        } else {
            pending_of(all, m)
        } by {
            if m != node {
                assert(pending_of(self.changes@, m) == pending_of(k0, m));
            }
        }
    }
}

/// The desired ports at the positions `up`, in order.
pub open spec fn picked<T>(d: Seq<DesiredPort<T>>, up: Seq<usize>) -> Seq<DesiredPort<T>> {
    up.map_values(|k: usize| d[k as int])
}

/// Two desired ports give the same port: same id, label and direction, and
/// kinds that compare equal.
pub open spec fn same_port<T: PortType>(a: DesiredPort<T>, b: DesiredPort<T>) -> bool {
    a.id == b.id && a.label@ == b.label@ && a.direction == b.direction && a.kind.eq_spec(&b.kind)
}

/// The pending change `c` is the change that removes `rm` and adds or
/// updates `ups`.
pub open spec fn same_change<T: PortType>(
    c: PendingChange<T>,
    rm: Seq<u64>,
    ups: Seq<DesiredPort<T>>,
) -> bool {
    &&& c.remove@ == rm
    &&& c.upsert@.len() == ups.len()
    &&& forall|i: int| 0 <= i < ups.len() ==> same_port(#[trigger] c.upsert@[i], ups[i])
}

/// The plan of node `n` changes something, and is not the change already
/// pending for the node (controlled).
pub open spec fn fresh<T: PortType>(
    v: LedgerView<T>,
    orders: Seq<(u64, Vec<u64>)>,
    pending: Seq<PendingChange<T>>,
    n: NodePorts<T>,
) -> bool {
    &&& !plan_empty(v, orders, n)
    &&& !(pending_of(pending, n.node) matches Some(c) && same_change(
        c,
        planned_remove(v, orders, n),
        picked(n.desired@, planned_upsert(v, n)),
    ))
}

/// The nodes, among the first `j`, whose plan is fresh.
pub open spec fn fresh_nodes<T: PortType>(
    v: LedgerView<T>,
    orders: Seq<(u64, Vec<u64>)>,
    pending: Seq<PendingChange<T>>,
    nodes: Seq<NodePorts<T>>,
    j: int,
) -> Seq<u64>
    decreases j,
{
    if j <= 0 {
        Seq::empty()
    } else if fresh(v, orders, pending, nodes[j - 1]) {
        fresh_nodes(v, orders, pending, nodes, j - 1).push(nodes[j - 1].node)
    } else {
        fresh_nodes(v, orders, pending, nodes, j - 1)
    }
}

/// The table once the connections of the ports that the fresh plans among
/// the first `j` remove have tombstones.
pub open spec fn capture_all<T: PortType>(
    texts: Seq<(u64, String)>,
    v: LedgerView<T>,
    orders: Seq<(u64, Vec<u64>)>,
    pending: Seq<PendingChange<T>>,
    nodes: Seq<NodePorts<T>>,
    j: int,
) -> LedgerView<T>
    decreases j,
{
    if j <= 0 {
        v
    } else if fresh(v, orders, pending, nodes[j - 1]) {
        captures_view(
            texts,
            capture_all(texts, v, orders, pending, nodes, j - 1),
            planned_remove(v, orders, nodes[j - 1]),
        )
    } else {
        capture_all(texts, v, orders, pending, nodes, j - 1)
    }
}

/// The change pending for `node` once the fresh plans among the first `j`
/// are recorded.
pub open spec fn pending_after<T: PortType>(
    v: LedgerView<T>,
    orders: Seq<(u64, Vec<u64>)>,
    pending: Seq<PendingChange<T>>,
    nodes: Seq<NodePorts<T>>,
    j: int,
    node: u64,
) -> Option<(Seq<u64>, Seq<DesiredPort<T>>)>
    decreases j,
{
    if j <= 0 {
        pending_view(pending, node)
    } else if nodes[j - 1].node == node && fresh(v, orders, pending, nodes[j - 1]) {
        Some(
            (
                planned_remove(v, orders, nodes[j - 1]),
                picked(nodes[j - 1].desired@, planned_upsert(v, nodes[j - 1])),
            ),
        )
    } else {
        pending_after(v, orders, pending, nodes, j - 1, node)
    }
}

/// The order remembered for `node` once those of the first `j` nodes whose
/// desired ports all exist in `v` remembered them.
pub open spec fn remembered_present<T>(
    v: LedgerView<T>,
    nodes: Seq<NodePorts<T>>,
    j: int,
    node: u64,
    before: Option<Seq<u64>>,
) -> Option<Seq<u64>>
    decreases j,
{
    if j <= 0 {
        before
    } else if nodes[j - 1].node == node && (forall|k: int|
        0 <= k < nodes[j - 1].desired@.len() ==> has_port(
            v.ports,
            #[trigger] desired_ids(nodes[j - 1].desired@)[k],
        )) {
        Some(desired_ids(nodes[j - 1].desired@))
    } else {
        remembered_present(v, nodes, j - 1, node, before)
    }
}

/// Recording tombstones leaves the ports and the live connections alone.
pub proof fn lemma_captures_keep_table<T>(texts: Seq<(u64, String)>, v: LedgerView<T>, ids: Seq<u64>)
    ensures
        captures_view(texts, v, ids).ports == v.ports,
        captures_view(texts, v, ids).connections == v.connections,
    decreases ids.len(),
{
    if ids.len() > 0 {
        lemma_captures_keep_table(texts, v, ids.drop_last());
    }
}

/// Whether the numbers are the same, in the same order.
fn same_ids(a: &Vec<u64>, b: &Vec<u64>) -> (r: bool)
    ensures
        r == (a@ == b@),
{
    if a.len() != b.len() {
        return false;
    }
    let mut i: usize = 0;
    while i < a.len()
        invariant
            a@.len() == b@.len(),
            i <= a@.len(),
            forall|k: int| 0 <= k < i ==> a@[k] == b@[k],
        decreases a@.len() - i,
    {
        if a[i] != b[i] {
            return false;
        }
        i = i + 1;
    }
    assert(a@ =~= b@);
    true
}

/// Whether the pending change `c` removes `rm` and adds or updates the
/// desired ports at the positions `up`; exact when the kinds' `==` follows
/// its specification.
fn same_change_exec<T: PortType>(
    c: &PendingChange<T>,
    rm: &Vec<u64>,
    d: &Vec<DesiredPort<T>>,
    up: &Vec<usize>,
) -> (r: bool)
    requires
        forall|k: int| 0 <= k < up@.len() ==> #[trigger] up@[k] < d@.len(),
    ensures
        T::obeys_eq_spec() ==> r == same_change(*c, rm@, picked(d@, up@)),
{
    if !same_ids(&c.remove, rm) || c.upsert.len() != up.len() {
        return false;
    }
    let mut i: usize = 0;
    while i < up.len()
        invariant
            c.upsert@.len() == up@.len(),
            i <= up@.len(),
            forall|k: int| 0 <= k < up@.len() ==> #[trigger] up@[k] < d@.len(),
            T::obeys_eq_spec() ==> forall|k: int|
                0 <= k < i ==> same_port(#[trigger] c.upsert@[k], picked(d@, up@)[k]),
        decreases up@.len() - i,
    {
        let a = &c.upsert[i];
        let b = &d[up[i]];
        if a.id != b.id || a.label != b.label || a.direction != b.direction || !(a.kind == b.kind) {
            proof {
                assert(picked(d@, up@)[i as int] == *b);
            }
            return false;
        }
        proof {
            assert(picked(d@, up@)[i as int] == *b);
        }
        i = i + 1;
    }
    true
}

/// The desired ports at the positions `up`, taken out of `d`.
fn take_picked<T>(d: Vec<DesiredPort<T>>, up: &Vec<usize>) -> (r: Vec<DesiredPort<T>>)
    requires
        forall|k: int| 0 <= k < up@.len() ==> #[trigger] up@[k] < d@.len(),
        forall|a: int, b: int| 0 <= a < b < up@.len() ==> #[trigger] up@[a] < #[trigger] up@[b],
    ensures
        r@ == picked(d@, up@),
{
    let ghost all = d@;
    let mut rest = d;
    let mut out: Vec<DesiredPort<T>> = Vec::new();
    let mut pos: usize = 0;
    let mut u: usize = 0;
    let n = rest.len();
    while rest.len() > 0
        invariant
            n == all.len(),
            pos <= all.len(),
            rest@ == all.skip(pos as int),
            u <= up@.len(),
            forall|k: int| 0 <= k < up@.len() ==> #[trigger] up@[k] < all.len(),
            forall|a: int, b: int| 0 <= a < b < up@.len() ==> #[trigger] up@[a] < #[trigger] up@[b],
            forall|a: int| 0 <= a < u ==> #[trigger] up@[a] < pos,
            forall|a: int| u <= a < up@.len() ==> #[trigger] up@[a] >= pos,
            out@ == picked(all, up@.take(u as int)),
        decreases rest@.len(),
    {
        let p = rest.remove(0);
        assert(p == all[pos as int]);
        if u < up.len() && up[u] == pos {
            let ghost before = out@;
            out.push(p);
            proof {
                assert(up@.take(u + 1) =~= up@.take(u as int).push(up@[u as int]));
                assert(out@ =~= picked(all, up@.take(u + 1)));
            }
            u = u + 1;
        }
        pos = pos + 1;
        proof {
            assert(rest@ =~= all.skip(pos as int));
            if u < up@.len() {
                if up@[u as int] < pos {
                    assert(up@[u as int] == pos - 1 || up@[u as int] >= pos);
                }
            }
        }
    }
    proof {
        if u < up@.len() {
            assert(up@[u as int] >= pos);
        }
        assert(up@.take(u as int) =~= up@);
    }
    out
}

impl<T: PortType> ConnectionLedger<T> {
    /// Request the plans of a refresh from the host (controlled). A plan is
    /// fresh when it changes something and is not the change already pending
    /// for its node (see [`fresh`]; pending changes are compared as they were
    /// before the refresh). The table's ports and live connections stay; the
    /// connections of the ports each fresh plan removes get tombstones, in
    /// order; each fresh change becomes its node's pending change; and the
    /// fresh nodes are returned, their changes to send in one batch. When no
    /// plan is fresh, every node whose desired ports all exist remembers
    /// their order, and nothing is sent. Exact when the kinds' `==` follows
    /// its specification; whatever the kinds, the ports and live connections
    /// stay and the port orders change only when nothing is requested.
    pub fn request_refresh(
        &mut self,
        nodes: Vec<NodePorts<T>>,
        plans: &Vec<PortPlan>,
        orders: &mut PortOrders,
        pending: &mut PendingChanges<T>,
        texts: &Vec<(u64, String)>,
    ) -> (r: RefreshOutcome)
        requires
            old(self).wf(),
            plans@.len() == nodes@.len(),
            forall|j: int|
                0 <= j < nodes@.len() ==> plan_of(
                    old(self)@,
                    old(orders).entries(),
                    #[trigger] nodes@[j],
                    plans@[j],
                ),
        ensures
            final(self).wf(),
            final(self)@.ports == old(self)@.ports,
            final(self)@.connections == old(self)@.connections,
            r.reconciled@.len() == 0,
            r.changed == (r.requested@.len() > 0),
            r.requested@.len() > 0 ==> final(orders).entries() == old(orders).entries(),
            r.requested@.len() == 0 ==> forall|n: u64|
                #[trigger] order_of(final(orders).entries(), n) == remembered_present(
                    old(self)@,
                    nodes@,
                    nodes@.len() as int,
                    n,
                    order_of(old(orders).entries(), n),
                ),
            T::obeys_eq_spec() ==> {
                &&& r.requested@ == fresh_nodes(
                    old(self)@,
                    old(orders).entries(),
                    old(pending).changes(),
                    nodes@,
                    nodes@.len() as int,
                )
                &&& final(self)@ == capture_all(
                    texts@,
                    old(self)@,
                    old(orders).entries(),
                    old(pending).changes(),
                    nodes@,
                    nodes@.len() as int,
                )
                &&& forall|n: u64|
                    #[trigger] pending_view(final(pending).changes(), n) == pending_after(
                        old(self)@,
                        old(orders).entries(),
                        old(pending).changes(),
                        nodes@,
                        nodes@.len() as int,
                        n,
                    )
            },
    {
        let ghost v0 = self@;
        let ghost o0 = orders.entries();
        let ghost p0 = pending.changes();
        let ghost all = nodes@;
        let count = plans.len();
        let mut flags: Vec<bool> = Vec::new();
        let mut j: usize = 0;
        while j < nodes.len()
            invariant
                nodes@ == all,
                count == all.len(),
                plans@.len() == all.len(),
                pending.changes() == p0,
                j <= all.len(),
                flags@.len() == j,
                forall|i: int| 0 <= i < all.len() ==> plan_of(v0, o0, #[trigger] all[i], plans@[i]),
                T::obeys_eq_spec() ==> forall|i: int|
                    0 <= i < j ==> #[trigger] flags@[i] == fresh(v0, o0, p0, all[i]),
            decreases all.len() - j,
        {
            let n = &nodes[j];
            let plan = &plans[j];
            let changes = plan.remove.len() > 0 || plan.upsert.len() > 0;
            let same = match pending.get(n.node) {
                Some(c) => same_change_exec(c, &plan.remove, &n.desired, &plan.upsert),
                None => false,
            };
            flags.push(changes && !same);
            j = j + 1;
        }
        let mut requested: Vec<u64> = Vec::new();
        let mut node_ids: Vec<u64> = Vec::new();
        let mut rest = nodes;
        let mut j: usize = 0;
        while rest.len() > 0
            invariant
                self.wf(),
                count == all.len(),
                plans@.len() == all.len(),
                flags@.len() == all.len(),
                j <= all.len(),
                rest@ == all.skip(j as int),
                node_ids@.len() == j,
                forall|i: int| 0 <= i < j ==> #[trigger] node_ids@[i] == all[i].node,
                forall|i: int| 0 <= i < all.len() ==> plan_of(v0, o0, #[trigger] all[i], plans@[i]),
                self@.ports == v0.ports,
                self@.connections == v0.connections,
                orders.entries() == o0,
                requested@.len() == 0 ==> forall|i: int| 0 <= i < j ==> !#[trigger] flags@[i],
                T::obeys_eq_spec() ==> forall|i: int|
                    0 <= i < all.len() ==> #[trigger] flags@[i] == fresh(v0, o0, p0, all[i]),
                T::obeys_eq_spec() ==> {
                    &&& requested@ == fresh_nodes(v0, o0, p0, all, j as int)
                    &&& self@ == capture_all(texts@, v0, o0, p0, all, j as int)
                    &&& forall|m: u64|
                        #[trigger] pending_view(pending.changes(), m) == pending_after(
                            v0,
                            o0,
                            p0,
                            all,
                            j as int,
                            m,
                        )
                },
            decreases rest@.len(),
        {
            assert(j < all.len());
            let n = rest.remove(0);
            assert(n == all[j as int]);
            let node = n.node;
            let plan = &plans[j];
            node_ids.push(node);
            let ghost before_pending = pending.changes();
            if flags[j] {
                let ghost s0 = self@;
                self.request_port_plan(plan, texts);
                proof {
                    lemma_captures_keep_table(texts@, s0, plan.remove@);
                }
                let ups = take_picked(n.desired, &plan.upsert);
                let remove = copy_ids(&plan.remove);
                let ghost change_view = (remove@, ups@);
                pending.record(PendingChange { node, remove, upsert: ups });
                requested.push(node);
                proof {
                    assert forall|m: u64| #[trigger] pending_view(pending.changes(), m) == if m == node {
                        Some(change_view)
                    } else {
                        pending_view(before_pending, m)
                    } by {}
                }
            }
            j = j + 1;
            assert(rest@ =~= all.skip(j as int));
        }
        assert(j == all.len()) by {
            assert(all.skip(j as int).len() == 0);
        }
        if requested.len() == 0 {
            let mut k: usize = 0;
            while k < count
                invariant
                    self.wf(),
                    count == all.len(),
                    plans@.len() == all.len(),
                plans@.len() == all.len(),
                    k <= all.len(),
                    node_ids@.len() == all.len(),
                    forall|i: int| 0 <= i < all.len() ==> #[trigger] node_ids@[i] == all[i].node,
                    forall|i: int| 0 <= i < all.len() ==> plan_of(v0, o0, #[trigger] all[i], plans@[i]),
                    self@.ports == v0.ports,
                    forall|m: u64|
                        #[trigger] order_of(orders.entries(), m) == remembered_present(
                            v0,
                            all,
                            k as int,
                            m,
                            order_of(o0, m),
                        ),
                decreases all.len() - k,
            {
                let plan = &plans[k];
                let ghost o1 = orders.entries();
                if self.has_all_ports(&plan.desired_ids) {
                    orders.remember(node_ids[k], copy_ids(&plan.desired_ids));
                }
                proof {
                    assert forall|m: u64| #[trigger] order_of(orders.entries(), m) == remembered_present(
                        v0,
                        all,
                        k + 1,
                        m,
                        order_of(o0, m),
                    ) by {
                        assert(order_of(o1, m) == remembered_present(v0, all, k as int, m, order_of(o0, m)));
                    }
                }
                k = k + 1;
            }
        }
        let changed = requested.len() > 0;
        RefreshOutcome { changed, requested, reconciled: Vec::new() }
    }
}

impl<T: PortType> ConnectionLedger<T> {
    /// Refresh the ports of every node: plan them all against the table as
    /// it is (see [`Self::plan_refresh`]); when a node is refused, its error,
    /// with nothing changed. Otherwise apply the plans here (uncontrolled,
    /// see [`Self::reconcile_refresh`]) or request them from the host
    /// (controlled, see [`Self::request_refresh`]); `changed` says whether
    /// anything changed or was requested.
    pub fn refresh_node_ports(
        &mut self,
        nodes: Vec<NodePorts<T>>,
        orders: &mut PortOrders,
        pending: &mut PendingChanges<T>,
        mode: MutationMode,
        texts: &Vec<(u64, String)>,
    ) -> (r: Result<RefreshOutcome, RegistryError>)
        requires
            old(self).wf(),
        ensures
            final(self).wf(),
            match r {
                Err(e) => {
                    &&& refresh_refused(old(self)@, old(orders).entries(), nodes@, e)
                    &&& final(self)@ == old(self)@
                    &&& final(orders).entries() == old(orders).entries()
                    &&& final(pending).changes() == old(pending).changes()
                },
                Ok(out) => {
                    &&& forall|j: int| 0 <= j < nodes@.len() ==> !refused(old(self)@, nodes@, j)
                    &&& mode == MutationMode::Uncontrolled ==> {
                        &&& out.requested@.len() == 0
                        &&& final(pending).changes() == old(pending).changes()
                        &&& forall|n: u64|
                            #[trigger] order_of(final(orders).entries(), n) == remembered(
                                nodes@,
                                nodes@.len() as int,
                                n,
                                order_of(old(orders).entries(), n),
                            )
                        &&& T::obeys_eq_spec() ==> (final(self)@, out.changed, reconciled_view(
                            out.reconciled@,
                        )) == reconcile_all(
                            texts@,
                            old(self)@,
                            old(orders).entries(),
                            nodes@,
                            nodes@.len() as int,
                        )
                    }
                    &&& mode == MutationMode::Controlled ==> {
                        &&& final(self)@.ports == old(self)@.ports
                        &&& final(self)@.connections == old(self)@.connections
                        &&& out.reconciled@.len() == 0
                        &&& out.changed == (out.requested@.len() > 0)
                        &&& out.requested@.len() > 0 ==> final(orders).entries() == old(
                            orders,
                        ).entries()
                        &&& out.requested@.len() == 0 ==> forall|n: u64|
                            #[trigger] order_of(final(orders).entries(), n) == remembered_present(
                                old(self)@,
                                nodes@,
                                nodes@.len() as int,
                                n,
                                order_of(old(orders).entries(), n),
                            )
                        &&& T::obeys_eq_spec() ==> {
                            &&& out.requested@ == fresh_nodes(
                                old(self)@,
                                old(orders).entries(),
                                old(pending).changes(),
                                nodes@,
                                nodes@.len() as int,
                            )
                            &&& final(self)@ == capture_all(
                                texts@,
                                old(self)@,
                                old(orders).entries(),
                                old(pending).changes(),
                                nodes@,
                                nodes@.len() as int,
                            )
                            &&& forall|n: u64|
                                #[trigger] pending_view(final(pending).changes(), n)
                                    == pending_after(
                                    old(self)@,
                                    old(orders).entries(),
                                    old(pending).changes(),
                                    nodes@,
                                    nodes@.len() as int,
                                    n,
                                )
                        }
                    }
                },
            },
    {
        let plans = match self.plan_refresh(&nodes, orders) {
            Ok(plans) => plans,
            Err(e) => return Err(e),
        };
        match mode {
            MutationMode::Uncontrolled => Ok(self.reconcile_refresh(nodes, &plans, orders, texts)),
            MutationMode::Controlled => Ok(self.request_refresh(nodes, &plans, orders, pending, texts)),
        }
    }
}

/// A refresh that applies one node's plan gives the table, the change and
/// the report of that plan alone.
proof fn lemma_reconcile_one<T: PortType>(
    texts: Seq<(u64, String)>,
    v: LedgerView<T>,
    orders: Seq<(u64, Vec<u64>)>,
    n: NodePorts<T>,
)
    requires
        !plan_empty(v, orders, n),
    ensures
        ({
            let rm = planned_remove(v, orders, n);
            let up = planned_upsert(v, n);
            let (w, removed, restored) = apply_view(texts, v, n.node, n.desired@, rm, up);
            reconcile_all(texts, v, orders, seq![n], 1) == (
                w,
                up.len() > 0 || (exists|k: int| 0 <= k < rm.len() && has_port(v.ports, rm[k])),
                seq![(n.node, removed, restored)],
            )
        }),
{
    let nodes = seq![n];
    assert(nodes[0] == n);
    assert(reconcile_all(texts, v, orders, nodes, 0) == (v, false, Seq::<(u64, Seq<u64>, Seq<u64>)>::empty()));
    let rm = planned_remove(v, orders, n);
    let up = planned_upsert(v, n);
    let (w, removed, restored) = apply_view(texts, v, n.node, n.desired@, rm, up);
    assert(Seq::<(u64, Seq<u64>, Seq<u64>)>::empty().push((n.node, removed, restored)) =~= seq![
        (n.node, removed, restored),
    ]);
}

/// A node whose type stops asking for a port, refreshed, and then asks for
/// it again, refreshed again (uncontrolled), gets back every connection cut
/// when the port went: both refreshes report a change, and after the second
/// each such connection is live again with its id and ends, is among the
/// restored ones, and has no tombstone left; the table stays well formed.
/// The first refresh's plan is to remove only that port, the second's to
/// add only it back, with a kind with which its connections stay valid;
/// the node's other ports and the tombstones already there may be anything.
pub proof fn lemma_refresh_brings_connections_back<T: PortType>(
    texts: Seq<(u64, String)>,
    v: LedgerView<T>,
    i: int,
    first: NodePorts<T>,
    first_orders: Seq<(u64, Vec<u64>)>,
    second: NodePorts<T>,
    second_orders: Seq<(u64, Vec<u64>)>,
    k: usize,
)
    requires
        ledger_wf(v),
        0 <= i < v.ports.len(),
        first.node == second.node,
        planned_remove(v, first_orders, first) == seq![v.ports[i].id],
        planned_upsert(v, first).len() == 0,
        k < second.desired@.len(),
        second.desired@[k as int].id == v.ports[i].id,
        fits(v, i, desired_entry(second.node, second.desired@[k as int])),
        ({
            let shrunk = reconcile_all(texts, v, first_orders, seq![first], 1).0;
            &&& planned_remove(shrunk, second_orders, second).len() == 0
            &&& planned_upsert(shrunk, second) == seq![k]
        }),
    ensures
        ({
            let id = v.ports[i].id;
            let once = reconcile_all(texts, v, first_orders, seq![first], 1);
            let twice = reconcile_all(texts, once.0, second_orders, seq![second], 1);
            &&& once.1 && twice.1
            &&& ledger_wf(twice.0)
            &&& has_port(twice.0.ports, id)
            &&& forall|c: Connection<u64, u64>|
                #[trigger] v.connections.contains(c) && touches(c, id) ==> {
                    &&& twice.0.connections.contains(c)
                    &&& twice.2[0].2.contains(c.id)
                    &&& forall|m: int|
                        0 <= m < twice.0.dangling.len() ==> (#[trigger] twice.0.dangling[m]).id != c.id
                }
        }),
{
    let id = v.ports[i].id;
    lemma_reconcile_one(texts, v, first_orders, first);
    let rm = seq![id];
    assert(rm[0] == id);
    assert(has_port(v.ports, rm[0]));
    let once = reconcile_all(texts, v, first_orders, seq![first], 1);
    assert(planned_upsert(v, first) == Seq::<usize>::empty());
    lemma_reconcile_one(texts, once.0, second_orders, second);
    assert(planned_remove(once.0, second_orders, second) == Seq::<u64>::empty());
    lemma_returning_port_restores_its_connections(
        texts,
        v,
        i,
        second.node,
        first.desired@,
        second.desired@,
        k,
    );
}

} // verus!
