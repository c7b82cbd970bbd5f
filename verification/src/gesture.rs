//! What releasing the primary pointer button commits, and what deleting the
//! selection asks of the host.
//!
//! A left-button gesture may pan the canvas, resize a node, drag nodes, draw
//! a selection box, or draw a connection draft. Its geometry is the host's;
//! the decisions on release are here: what is rolled back, what is requested
//! from the host (controlled) or reported to it (uncontrolled), and what
//! becomes of the draft.

use crate::editor::MutationMode;
use crate::id_order::{in_text_order, lemma_sort_by_text, order_by_text, sort_by_text};
use vstd::prelude::*;

verus! {

/// A node resize under way: the node, whether the pointer moved, and
/// whether the node still exists.
#[derive(Clone, Copy, Debug, PartialEq, Eq, Structural)]
pub struct ResizeView {
    pub node: u64,
    pub moved: bool,
    pub node_present: bool,
}

/// A node drag under way: whether the pointer moved, and whether the drop
/// changes group memberships (a drag with the group modifier).
#[derive(Clone, Copy, Debug, PartialEq, Eq, Structural)]
pub struct DragView {
    pub moved: bool,
    pub alter_groups: bool,
}

/// A connection draft: the port it starts at, whether the pointer moved since
/// it began, and the port it snaps to, if any.
#[derive(Clone, Copy, Debug, PartialEq, Eq, Structural)]
pub struct DraftView {
    pub origin: u64,
    pub moved: bool,
    pub snap: Option<u64>,
}

/// The gestures of the primary button under way.
#[derive(Clone, Copy, Debug, PartialEq, Eq, Structural)]
pub struct GestureState {
    pub panning: bool,
    pub resize: Option<ResizeView>,
    pub drag: Option<DragView>,
    pub selecting: bool,
    pub draft: Option<DraftView>,
}

/// What a finished resize sends: a `ResizeNode` request with the node's
/// current size (controlled), or a `NodeResized` report (uncontrolled).
#[derive(Clone, Copy, Debug, PartialEq, Eq, Structural)]
pub enum ResizeRelease {
    Nothing,
    Request(u64),
    Report(u64),
}

/// What a finished drag sends. `Request`: one `MutationRequested` batch of a
/// `MoveNodes` when `moves`, then one `SetGroupMembership` per changed group,
/// sent only when it is not empty. `Report`: `NodesMoved` when `moves`, then
/// one `GroupMembershipChanged` per changed group.
#[derive(Clone, Copy, Debug, PartialEq, Eq, Structural)]
pub enum DragRelease {
    Nothing,
    Request { moves: bool },
    Report { moves: bool },
}

/// What becomes of the draft: finish it at the port it snaps to, drop it,
/// or keep it.
#[derive(Clone, Copy, Debug, PartialEq, Eq, Structural)]
pub enum DraftRelease {
    Finish(u64),
    Drop,
    Keep,
}

/// The effects of a release, in the order they happen: the resize is rolled
/// back to its start (controlled) and its message sent; the dragged nodes'
/// group memberships are worked out from where they were dropped, the drag
/// is rolled back (controlled) and its messages sent; the selection box
/// ends; then, unless the release ended a pan, the draft meets its fate.
#[derive(Clone, Copy, Debug, PartialEq, Eq, Structural)]
pub struct ReleaseEffects {
    pub rollback_resize: bool,
    pub update_groups: bool,
    pub rollback_drag: bool,
    pub resize: ResizeRelease,
    pub drag: DragRelease,
    pub draft: DraftRelease,
}

/// The resize ends in a change: the pointer moved and the node still exists.
pub open spec fn resize_done(g: GestureState) -> bool {
    g.resize matches Some(r) && r.moved && r.node_present
}

/// The drag ends in a change: the pointer moved or the groups are altered.
pub open spec fn drag_done(g: GestureState) -> bool {
    g.drag matches Some(d) && (d.moved || d.alter_groups)
}

/// The fate of the draft. A pan leaves it alone; otherwise a draft that
/// snaps to a port is finished there, and a draft the pointer moved is
/// dropped unless a click draft is being preserved.
pub open spec fn draft_release(g: GestureState, preserve_click_draft: bool) -> DraftRelease {
    if g.panning {
        DraftRelease::Keep
    } else {
        match g.draft {
            Some(d) => match d.snap {
                Some(t) => DraftRelease::Finish(t),
                None => if !preserve_click_draft && d.moved {
                    DraftRelease::Drop
                } else {
                    DraftRelease::Keep
                },
            },
            None => DraftRelease::Keep,
        }
    }
}

/// Releasing the primary button: every gesture but the draft ends; see
/// [`ReleaseEffects`]. A finished draft stays in the state for
/// [`finish_draft`] to decide on.
pub open spec fn release_spec(g: GestureState, mode: MutationMode, preserve_click_draft: bool) -> (
    GestureState,
    ReleaseEffects,
) {
    let controlled = mode == MutationMode::Controlled;
    let fate = draft_release(g, preserve_click_draft);
    let resize = if resize_done(g) {
        if controlled {
            ResizeRelease::Request(g.resize->0.node)
        } else {
            ResizeRelease::Report(g.resize->0.node)
        }
    } else {
        ResizeRelease::Nothing
    };
    let drag = if drag_done(g) {
        if controlled {
            DragRelease::Request { moves: g.drag->0.moved }
        } else {
            DragRelease::Report { moves: g.drag->0.moved }
        }
    } else {
        DragRelease::Nothing
    };
    (
        GestureState {
            panning: false,
            resize: None,
            drag: None,
            selecting: false,
            draft: if fate == DraftRelease::Drop {
                None
            } else {
                g.draft
            },
        },
        ReleaseEffects {
            rollback_resize: resize_done(g) && controlled,
            update_groups: drag_done(g) && g.drag->0.alter_groups,
            rollback_drag: drag_done(g) && controlled,
            resize,
            drag,
            draft: fate,
        },
    )
}

/// Release the primary button; see [`release_spec`].
pub fn release_left_gesture(g: &GestureState, mode: MutationMode, preserve_click_draft: bool) -> (r: (
    GestureState,
    ReleaseEffects,
))
    ensures
        r == release_spec(*g, mode, preserve_click_draft),
{
    let controlled = match mode {
        MutationMode::Controlled => true,
        MutationMode::Uncontrolled => false,
    };
    let (resize, rollback_resize) = match g.resize {
        Some(r) => if r.moved && r.node_present {
            if controlled {
                (ResizeRelease::Request(r.node), true)
            } else {
                (ResizeRelease::Report(r.node), false)
            }
        } else {
            (ResizeRelease::Nothing, false)
        },
        None => (ResizeRelease::Nothing, false),
    };
    let (drag, update_groups, rollback_drag) = match g.drag {
        Some(d) => if d.moved || d.alter_groups {
            if controlled {
                (DragRelease::Request { moves: d.moved }, d.alter_groups, true)
            } else {
                (DragRelease::Report { moves: d.moved }, d.alter_groups, false)
            }
        } else {
            (DragRelease::Nothing, false, false)
        },
        None => (DragRelease::Nothing, false, false),
    };
    let fate = if g.panning {
        DraftRelease::Keep
    } else {
        match g.draft {
            Some(d) => match d.snap {
                Some(t) => DraftRelease::Finish(t),
                None => if !preserve_click_draft && d.moved {
                    DraftRelease::Drop
                } else {
                    DraftRelease::Keep
                },
            },
            None => DraftRelease::Keep,
        }
    };
    let draft = match fate {
        DraftRelease::Drop => None,
        _ => g.draft,
    };
    (
        GestureState { panning: false, resize: None, drag: None, selecting: false, draft },
        ReleaseEffects { rollback_resize, update_groups, rollback_drag, resize, drag, draft: fate },
    )
}

/// The connection a finished draft asks for: `RequestConnection` inside a
/// `MutationRequested` batch (`request`, controlled) or `ConnectionRequested`
/// (uncontrolled).
#[derive(Clone, Copy, Debug, PartialEq, Eq, Structural)]
pub struct ConnectionAsk {
    pub source: u64,
    pub target: u64,
    pub request: bool,
}

/// Finish the draft at a port. `pair` is the draft's origin and the port,
/// oriented output first, when they may be connected (see
/// [`crate::tombstones::ConnectionLedger::normalized_connection`]). With no
/// draft, or no such pair, nothing changes and nothing is asked; otherwise
/// the draft ends and the connection is asked for.
pub fn finish_draft(g: &GestureState, pair: Option<(u64, u64)>, mode: MutationMode) -> (r: (
    GestureState,
    Option<ConnectionAsk>,
))
    ensures
        g.draft is None || pair is None ==> r == (*g, None::<ConnectionAsk>),
        g.draft is Some && pair is Some ==> r == (
            GestureState { draft: None, ..*g },
            Some(
                ConnectionAsk {
                    source: pair.unwrap().0,
                    target: pair.unwrap().1,
                    request: mode == MutationMode::Controlled,
                },
            ),
        ),
{
    match (g.draft, pair) {
        (Some(_), Some((source, target))) => {
            let request = match mode {
                MutationMode::Controlled => true,
                MutationMode::Uncontrolled => false,
            };
            (GestureState { draft: None, ..*g }, Some(ConnectionAsk { source, target, request }))
        },
        _ => (*g, None),
    }
}

/// What a release does, from the gestures under way: a drag that moved
/// sends its move (requested and rolled back when controlled, reported
/// otherwise); a drag that only regroups sends no move; a drag that did
/// neither sends nothing; the groups are worked out exactly when the drag
/// alters them. A resize that moved a node that still exists is requested
/// and rolled back (controlled) or reported, and any other sends nothing. A
/// pan leaves the draft alone; otherwise a draft snapped to a port is
/// finished there, a moved loose draft is dropped unless a click draft is
/// preserved, and any other draft stays. Every other gesture ends.
pub proof fn lemma_release_effects(g: GestureState, mode: MutationMode, preserve_click_draft: bool)
    ensures
        ({
            let (after, e) = release_spec(g, mode, preserve_click_draft);
            let controlled = mode == MutationMode::Controlled;
            let dragged = g.drag is Some && g.drag->0.moved;
            let regrouped = g.drag is Some && !g.drag->0.moved && g.drag->0.alter_groups;
            let resized = g.resize is Some && g.resize->0.moved && g.resize->0.node_present;
            let draft = g.draft->0;
            &&& !after.panning && after.resize is None && after.drag is None && !after.selecting
            &&& dragged ==> e.drag == (if controlled {
                DragRelease::Request { moves: true }
            } else {
                DragRelease::Report { moves: true }
            }) && e.rollback_drag == controlled
            &&& regrouped ==> e.drag == (if controlled {
                DragRelease::Request { moves: false }
            } else {
                DragRelease::Report { moves: false }
            }) && e.rollback_drag == controlled
            &&& !dragged && !regrouped ==> e.drag == DragRelease::Nothing && !e.rollback_drag
            &&& e.update_groups == (g.drag is Some && g.drag->0.alter_groups)
            &&& resized ==> e.resize == (if controlled {
                ResizeRelease::Request(g.resize->0.node)
            } else {
                ResizeRelease::Report(g.resize->0.node)
            }) && e.rollback_resize == controlled
            &&& !resized ==> e.resize == ResizeRelease::Nothing && !e.rollback_resize
            &&& g.panning ==> e.draft == DraftRelease::Keep && after.draft == g.draft
            &&& (!g.panning && g.draft is Some && draft.snap is Some) ==> e.draft
                == DraftRelease::Finish(draft.snap->0) && after.draft == g.draft
            &&& (!g.panning && g.draft is Some && draft.snap is None && draft.moved
                && !preserve_click_draft) ==> e.draft == DraftRelease::Drop && after.draft is None
            &&& (!g.panning && g.draft is Some && draft.snap is None && (!draft.moved
                || preserve_click_draft)) ==> e.draft == DraftRelease::Keep && after.draft == g.draft
            &&& g.draft is None ==> e.draft == DraftRelease::Keep && after.draft is None
        }),
{
}

/// Once released, nothing is left to release: a second release rolls back,
/// resizes and drags nothing, whatever the mode; after a release that was no
/// pan it also leaves the state and the draft as they are.
pub proof fn lemma_release_settles(g: GestureState, mode: MutationMode, preserve_click_draft: bool)
    ensures
        ({
            let once = release_spec(g, mode, preserve_click_draft).0;
            let (twice, effects) = release_spec(once, mode, preserve_click_draft);
            &&& !effects.rollback_resize && !effects.rollback_drag && !effects.update_groups
            &&& effects.resize == ResizeRelease::Nothing
            &&& effects.drag == DragRelease::Nothing
            &&& !g.panning ==> effects.draft != DraftRelease::Drop && twice == once
        }),
{
}

/// One message of a deletion: a connection's removal, or the removal of
/// nodes.
#[derive(Clone, Debug, PartialEq, Eq)]
pub enum DeleteMutation {
    RemoveConnection(u64),
    DeleteNodes(Vec<u64>),
}

/// The view of a deletion batch: a connection's id, or the ids of the nodes.
pub ghost enum DeleteMutationView {
    RemoveConnection(u64),
    DeleteNodes(Seq<u64>),
}

impl View for DeleteMutation {
    type V = DeleteMutationView;

    open spec fn view(&self) -> DeleteMutationView {
        match self {
            DeleteMutation::RemoveConnection(id) => DeleteMutationView::RemoveConnection(*id),
            DeleteMutation::DeleteNodes(ids) => DeleteMutationView::DeleteNodes(ids@),
        }
    }
}

/// The batch that deleting the selection requests (controlled): the removal
/// of each selected connection, then of the selected nodes when there are
/// any; empty when nothing is selected, and then nothing is sent.
pub open spec fn delete_batch(connections: Seq<u64>, nodes: Seq<u64>) -> Seq<DeleteMutationView> {
    connections.map_values(|id: u64| DeleteMutationView::RemoveConnection(id)) + if nodes.len()
        == 0 {
        Seq::empty()
    } else {
        seq![DeleteMutationView::DeleteNodes(nodes)]
    }
}

/// Deleting the selection in controlled mode sends one removal per
/// selected connection, in the order of the host's texts, then, when nodes
/// are selected, one deletion of all of them, also in that order; nothing
/// else, and nothing at all when nothing is selected.
pub proof fn lemma_delete_batch(
    connection_texts: Seq<(u64, String)>,
    node_texts: Seq<(u64, String)>,
    connections: Seq<u64>,
    nodes: Seq<u64>,
)
    ensures
        ({
            let cs = sort_by_text(connection_texts, connections);
            let ns = sort_by_text(node_texts, nodes);
            let batch = delete_batch(cs, ns);
            &&& cs.to_multiset() == connections.to_multiset()
            &&& ns.to_multiset() == nodes.to_multiset()
            &&& in_text_order(connection_texts, cs)
            &&& in_text_order(node_texts, ns)
            &&& batch.len() == connections.len() + if nodes.len() == 0 {
                0int
            } else {
                1int
            }
            &&& forall|i: int|
                0 <= i < connections.len() ==> #[trigger] batch[i] == DeleteMutationView::RemoveConnection(
                    cs[i],
                )
            &&& nodes.len() > 0 ==> batch[connections.len() as int] == DeleteMutationView::DeleteNodes(ns)
        }),
{
    broadcast use vstd::seq_lib::group_to_multiset_ensures;

    lemma_sort_by_text(connection_texts, connections);
    lemma_sort_by_text(node_texts, nodes);
    let cs = sort_by_text(connection_texts, connections);
    let ns = sort_by_text(node_texts, nodes);
    vstd::seq_lib::to_multiset_len(cs);
    vstd::seq_lib::to_multiset_len(connections);
    vstd::seq_lib::to_multiset_len(ns);
    vstd::seq_lib::to_multiset_len(nodes);
}

/// What deleting the selection does: `batch` is what is requested from the
/// host (controlled); `connections` and `nodes` are what is removed here
/// (uncontrolled), in that order, each connection with `ConnectionRemoved`
/// when it existed.
#[derive(Clone, Debug)]
pub struct Deletion {
    pub batch: Vec<DeleteMutation>,
    pub connections: Vec<u64>,
    pub nodes: Vec<u64>,
}

/// Delete the selected connections and nodes, each list sorted by the host's
/// texts of its ids (`connection_texts`, `node_texts`; see
/// [`crate::id_order`]). Controlled: one batch is requested and nothing is
/// removed here. Uncontrolled: the sorted lists are removed here. Either
/// way the selection is cleared after.
pub fn delete_selection(
    selected_connections: &Vec<u64>,
    selected_nodes: &Vec<u64>,
    mode: MutationMode,
    connection_texts: &Vec<(u64, String)>,
    node_texts: &Vec<(u64, String)>,
) -> (r: Deletion)
    ensures
        mode == MutationMode::Controlled ==> {
            &&& r.batch@.map_values(|m: DeleteMutation| m@) == delete_batch(
                sort_by_text(connection_texts@, selected_connections@),
                sort_by_text(node_texts@, selected_nodes@),
            )
            &&& r.connections@.len() == 0
            &&& r.nodes@.len() == 0
        },
        mode == MutationMode::Uncontrolled ==> {
            &&& r.batch@.len() == 0
            &&& r.connections@ == sort_by_text(connection_texts@, selected_connections@)
            &&& r.nodes@ == sort_by_text(node_texts@, selected_nodes@)
        },
{
    let connections = order_by_text(selected_connections, connection_texts);
    let nodes = order_by_text(selected_nodes, node_texts);
    match mode {
        MutationMode::Controlled => {
            let mut batch: Vec<DeleteMutation> = Vec::new();
            let mut i: usize = 0;
            while i < connections.len()
                invariant
                    i <= connections@.len(),
                    batch@.len() == i,
                    forall|k: int|
                        0 <= k < i ==> (#[trigger] batch@[k])@ == DeleteMutationView::RemoveConnection(
                            connections@[k],
                        ),
                decreases connections@.len() - i,
            {
                batch.push(DeleteMutation::RemoveConnection(connections[i]));
                i = i + 1;
            }
            assert(batch@.map_values(|m: DeleteMutation| m@) =~= connections@.map_values(
                |id: u64| DeleteMutationView::RemoveConnection(id),
            ));
            let ghost head = batch@.map_values(|m: DeleteMutation| m@);
            let n = nodes.len();
            if n > 0 {
                let ghost ids = nodes@;
                batch.push(DeleteMutation::DeleteNodes(nodes));
                assert(batch@.map_values(|m: DeleteMutation| m@) =~= head + seq![
                    DeleteMutationView::DeleteNodes(ids),
                ]);
            } else {
                assert(batch@.map_values(|m: DeleteMutation| m@) =~= head + Seq::empty());
            }
            Deletion { batch, connections: Vec::new(), nodes: Vec::new() }
        },
        MutationMode::Uncontrolled => Deletion { batch: Vec::new(), connections, nodes },
    }
}

/// Whether `x` is among the ids.
fn holds_id(v: &Vec<u64>, x: u64) -> (r: bool)
    ensures
        r == v@.contains(x),
{
    let mut i: usize = 0;
    while i < v.len()
        invariant
            i <= v@.len(),
            forall|k: int| 0 <= k < i ==> v@[k] != x,
        decreases v@.len() - i,
    {
        if v[i] == x {
            return true;
        }
        i = i + 1;
    }
    false
}

/// Whether every id of `a` is among those of `b`.
fn all_held(a: &Vec<u64>, b: &Vec<u64>) -> (r: bool)
    ensures
        r == (forall|k: int| 0 <= k < a@.len() ==> b@.contains(#[trigger] a@[k])),
{
    let mut i: usize = 0;
    while i < a.len()
        invariant
            i <= a@.len(),
            forall|k: int| 0 <= k < i ==> b@.contains(#[trigger] a@[k]),
        decreases a@.len() - i,
    {
        if !holds_id(b, a[i]) {
            return false;
        }
        i = i + 1;
    }
    true
}

/// Append the ids of `more` that are not there yet, each once.
fn add_missing(nodes: &mut Vec<u64>, more: &Vec<u64>)
    requires
        old(nodes)@.no_duplicates(),
    ensures
        final(nodes)@.no_duplicates(),
        final(nodes)@.to_set() == old(nodes)@.to_set() + more@.to_set(),
{
    let ghost start = nodes@;
    let mut i: usize = 0;
    while i < more.len()
        invariant
            i <= more@.len(),
            nodes@.no_duplicates(),
            nodes@.to_set() == start.to_set() + more@.take(i as int).to_set(),
        decreases more@.len() - i,
    {
        let x = more[i];
        let ghost before = nodes@;
        if !holds_id(nodes, x) {
            nodes.push(x);
            proof {
                assert(nodes@.to_set() =~= before.to_set().insert(x)) by {
                    assert forall|y: u64| nodes@.contains(y) <==> before.contains(y) || y == x by {
                        if nodes@.contains(y) {
                            let k = choose|k: int| 0 <= k < nodes@.len() && nodes@[k] == y;
                            if k < before.len() {
                                assert(before[k] == y);
                            }
                        }
                        if before.contains(y) {
                            let k = choose|k: int| 0 <= k < before.len() && before[k] == y;
                            assert(nodes@[k] == y);
                        }
                        if y == x {
                            assert(nodes@[before.len() as int] == x);
                        }
                    }
                }
            }
        } else {
            assert(before.to_set().contains(x));
        }
        proof {
            assert(more@.take(i + 1) =~= more@.take(i as int).push(x));
            more@.take(i as int).lemma_push_to_set_commute(x);
        }
        i = i + 1;
    }
    assert(more@.take(i as int) =~= more@);
}

/// The selection while a selection box is drawn: the nodes in the box and
/// those selected when it began, and the connections selected when it
/// began; `changed` tells whether the selected nodes differ from `before`,
/// in which case a `SelectionChanged` is sent.
#[derive(Clone, Debug)]
pub struct BoxSelection {
    pub nodes: Vec<u64>,
    pub connections: Vec<u64>,
    pub changed: bool,
}

/// The selection box moved: `in_box` are the nodes it now covers (the
/// host's geometry), `baseline_nodes` and `baseline_connections` what was
/// selected when it began, `before` the nodes selected until now. The nodes
/// come once each, those in the box first.
pub fn box_selection(
    in_box: &Vec<u64>,
    baseline_nodes: &Vec<u64>,
    baseline_connections: &Vec<u64>,
    before: &Vec<u64>,
) -> (r: BoxSelection)
    ensures
        r.nodes@.no_duplicates(),
        r.nodes@.to_set() == in_box@.to_set() + baseline_nodes@.to_set(),
        r.connections@ == baseline_connections@,
        r.changed == (r.nodes@.to_set() != before@.to_set()),
{
    let mut nodes: Vec<u64> = Vec::new();
    add_missing(&mut nodes, in_box);
    add_missing(&mut nodes, baseline_nodes);
    assert(nodes@.to_set() =~= in_box@.to_set() + baseline_nodes@.to_set());
    let same = all_held(&nodes, before) && all_held(before, &nodes);
    proof {
        if same {
            assert forall|x: u64| nodes@.to_set().contains(x) <==> before@.to_set().contains(x) by {
                if nodes@.contains(x) {
                    let k = choose|k: int| 0 <= k < nodes@.len() && nodes@[k] == x;
                    assert(before@.contains(nodes@[k]));
                }
                if before@.contains(x) {
                    let k = choose|k: int| 0 <= k < before@.len() && before@[k] == x;
                    assert(nodes@.contains(before@[k]));
                }
            }
            assert(nodes@.to_set() =~= before@.to_set());
        } else {
            if nodes@.to_set() == before@.to_set() {
                assert forall|k: int| 0 <= k < nodes@.len() implies before@.contains(#[trigger] nodes@[k]) by {
                    assert(nodes@.to_set().contains(nodes@[k]));
                }
                assert forall|k: int| 0 <= k < before@.len() implies nodes@.contains(#[trigger] before@[k]) by {
                    assert(before@.to_set().contains(before@[k]));
                }
            }
        }
    }
    let mut connections: Vec<u64> = Vec::new();
    let mut j: usize = 0;
    while j < baseline_connections.len()
        invariant
            j <= baseline_connections@.len(),
            connections@ == baseline_connections@.take(j as int),
        decreases baseline_connections@.len() - j,
    {
        connections.push(baseline_connections[j]);
        j = j + 1;
        assert(connections@ =~= baseline_connections@.take(j as int));
    }
    assert(baseline_connections@.take(j as int) =~= baseline_connections@);
    BoxSelection { nodes, connections, changed: !same }
}

/// What cancelling the gestures rolls back: a drag or a resize that moved
/// is put back where it began (the host's geometry); pan, draft and
/// selection box simply end.
#[derive(Clone, Copy, Debug, PartialEq, Eq, Structural)]
pub struct CancelEffects {
    pub rollback_drag: bool,
    pub rollback_resize: bool,
}

/// Cancel every gesture of the primary button, as Escape does when no menu
/// or overlay takes it (Escape then also clears the selection and sends
/// `SelectionChanged`). Every gesture ends, the draft included.
pub fn cancel_gestures(g: &GestureState) -> (r: (GestureState, CancelEffects))
    ensures
        r.0 == (GestureState { panning: false, resize: None, drag: None, selecting: false, draft: None }),
        r.1.rollback_drag == (g.drag matches Some(d) && d.moved),
        r.1.rollback_resize == (g.resize matches Some(z) && z.moved),
{
    let rollback_drag = match g.drag {
        Some(d) => d.moved,
        None => false,
    };
    let rollback_resize = match g.resize {
        Some(z) => z.moved,
        None => false,
    };
    (
        GestureState { panning: false, resize: None, drag: None, selecting: false, draft: None },
        CancelEffects { rollback_drag, rollback_resize },
    )
}

/// The selection after a press on the blank canvas or on a connection,
/// and the selection box it starts: `box_baseline` holds the nodes and
/// connections the box keeps while it is drawn, `None` when a connection
/// was hit and no box starts. `changed`: the selection differs from before,
/// and a `SelectionChanged` is sent.
#[derive(Clone, Debug)]
pub struct CanvasPress {
    pub nodes: Vec<u64>,
    pub connections: Vec<u64>,
    pub box_baseline: Option<(Vec<u64>, Vec<u64>)>,
    pub changed: bool,
}

/// The ids other than `x`, in order.
fn without_id(v: &Vec<u64>, x: u64) -> (r: Vec<u64>)
    ensures
        r@.to_set() == v@.to_set().remove(x),
{
    let mut out: Vec<u64> = Vec::new();
    let mut i: usize = 0;
    while i < v.len()
        invariant
            i <= v@.len(),
            out@.to_set() == v@.take(i as int).to_set().remove(x),
        decreases v@.len() - i,
    {
        let ghost before = out@;
        proof {
            assert(v@.take(i + 1) =~= v@.take(i as int).push(v@[i as int]));
            v@.take(i as int).lemma_push_to_set_commute(v@[i as int]);
        }
        if v[i] != x {
            out.push(v[i]);
            proof {
                before.lemma_push_to_set_commute(v@[i as int]);
                assert(out@.to_set() =~= v@.take(i + 1).to_set().remove(x));
            }
        } else {
            assert(out@.to_set() =~= v@.take(i + 1).to_set().remove(x));
        }
        i = i + 1;
    }
    assert(v@.take(i as int) =~= v@);
    out
}

/// A copy of the ids.
fn copy_list(v: &Vec<u64>) -> (r: Vec<u64>)
    ensures
        r@ == v@,
{
    let mut out: Vec<u64> = Vec::new();
    let mut i: usize = 0;
    while i < v.len()
        invariant
            i <= v@.len(),
            out@ == v@.take(i as int),
        decreases v@.len() - i,
    {
        out.push(v[i]);
        i = i + 1;
        assert(out@ =~= v@.take(i as int));
    }
    assert(v@.take(i as int) =~= v@);
    out
}

/// Whether the two lists hold the same ids.
fn same_set(a: &Vec<u64>, b: &Vec<u64>) -> (r: bool)
    ensures
        r == (a@.to_set() == b@.to_set()),
{
    let same = all_held(a, b) && all_held(b, a);
    proof {
        if same {
            assert forall|x: u64| a@.to_set().contains(x) <==> b@.to_set().contains(x) by {
                if a@.contains(x) {
                    let k = choose|k: int| 0 <= k < a@.len() && a@[k] == x;
                    assert(b@.contains(a@[k]));
                }
                if b@.contains(x) {
                    let k = choose|k: int| 0 <= k < b@.len() && b@[k] == x;
                    assert(a@.contains(b@[k]));
                }
            }
            assert(a@.to_set() =~= b@.to_set());
        } else if a@.to_set() == b@.to_set() {
            assert forall|k: int| 0 <= k < a@.len() implies b@.contains(#[trigger] a@[k]) by {
                assert(a@.to_set().contains(a@[k]));
            }
            assert forall|k: int| 0 <= k < b@.len() implies a@.contains(#[trigger] b@[k]) by {
                assert(b@.to_set().contains(b@[k]));
            }
        }
    }
    same
}

/// A press of the primary button on the canvas, `hit` the connection under
/// the pointer (the host's geometry). On a connection: Shift toggles it in
/// the selected connections; otherwise it alone is selected. On the blank
/// canvas a selection box starts: Shift keeps the selection, and the box
/// keeps the selected connections while it is drawn (its nodes replace the
/// selected ones once it moves); otherwise the selection is cleared and the
/// box keeps nothing.
pub fn press_canvas(hit: Option<u64>, shift: bool, nodes: &Vec<u64>, connections: &Vec<u64>) -> (r:
    CanvasPress)
    ensures
        match hit {
            Some(c) => {
                &&& r.box_baseline is None
                &&& shift ==> r.nodes@.to_set() == nodes@.to_set() && r.connections@.to_set() == (
                if connections@.contains(c) {
                    connections@.to_set().remove(c)
                } else {
                    connections@.to_set().insert(c)
                })
                &&& !shift ==> r.nodes@.len() == 0 && r.connections@ == seq![c]
            },
            None => {
                &&& r.box_baseline is Some
                &&& r.box_baseline.unwrap().0@.len() == 0
                &&& shift ==> r.nodes@ == nodes@ && r.connections@ == connections@
                    && r.box_baseline.unwrap().1@ == connections@
                &&& !shift ==> r.nodes@.len() == 0 && r.connections@.len() == 0
                    && r.box_baseline.unwrap().1@.len() == 0
            },
        },
        r.changed == !(r.nodes@.to_set() == nodes@.to_set() && r.connections@.to_set()
            == connections@.to_set()),
{
    let (new_nodes, new_connections, box_baseline) = match hit {
        Some(c) => {
            if shift {
                let toggled = if holds_id(connections, c) {
                    without_id(connections, c)
                } else {
                    let mut more = copy_list(connections);
                    let ghost before = more@;
                    more.push(c);
                    proof {
                        before.lemma_push_to_set_commute(c);
                    }
                    more
                };
                (copy_list(nodes), toggled, None)
            } else {
                let mut only: Vec<u64> = Vec::new();
                only.push(c);
                assert(only@ =~= seq![c]);
                (Vec::new(), only, None)
            }
        },
        None => {
            if shift {
                (copy_list(nodes), copy_list(connections), Some((Vec::new(), copy_list(connections))))
            } else {
                (Vec::new(), Vec::new(), Some((Vec::new(), Vec::new())))
            }
        },
    };
    let changed = !(same_set(&new_nodes, nodes) && same_set(&new_connections, connections));
    CanvasPress { nodes: new_nodes, connections: new_connections, box_baseline, changed }
}

} // verus!
