//! Node groups: their membership, their error marks, and the group
//! transactions started from the selection.
//!
//! Groups and their node lists are kept in the order the host gave them.
//! Lists handed back to the host are sorted, so that the same selection
//! always yields the same transaction: group ids in the order of `String`,
//! node ids in the order of the host's texts for them.

use crate::editor::MutationMode;
use crate::id_order::{order_by_text, sort_by_text};
use crate::name_set::{
    add_name, lemma_with_name_no_duplicates, names, names_contain, other_than_name, remove_name,
    with_name,
};
use crate::seq_facts::{lemma_filter_keeps_all, lemma_filter_no_duplicates, lemma_filter_take_step};
use crate::text_input::text_chars;
use vstd::prelude::*;

verus! {

// ---------------------------------------------------------------------------
// Orders
/// `a` comes before `b`, or equals it, in the order of `String`: character
/// by character, and a proper prefix first.
pub open spec fn text_le(a: Seq<char>, b: Seq<char>) -> bool
    decreases a.len(),
{
    if a.len() == 0 {
        true
    } else if b.len() == 0 {
        false
    } else if a[0] != b[0] {
        (a[0] as int) < (b[0] as int)
    } else {
        text_le(a.drop_first(), b.drop_first())
    }
}

/// The texts are in increasing order.
pub open spec fn texts_sorted(s: Seq<Seq<char>>) -> bool {
    forall|i: int, j: int| 0 <= i < j < s.len() ==> text_le(#[trigger] s[i], #[trigger] s[j])
}

/// Every text is ordered with itself.
pub proof fn lemma_text_le_reflexive(a: Seq<char>)
    ensures
        text_le(a, a),
    decreases a.len(),
{
    if a.len() > 0 {
        lemma_text_le_reflexive(a.drop_first());
    }
}

/// Any two texts are ordered one way or the other.
pub proof fn lemma_text_le_total(a: Seq<char>, b: Seq<char>)
    ensures
        text_le(a, b) || text_le(b, a),
    decreases a.len(),
{
    if a.len() > 0 && b.len() > 0 && a[0] == b[0] {
        lemma_text_le_total(a.drop_first(), b.drop_first());
    }
}

/// The order of texts is transitive.
pub proof fn lemma_text_le_transitive(a: Seq<char>, b: Seq<char>, c: Seq<char>)
    requires
        text_le(a, b),
        text_le(b, c),
    ensures
        text_le(a, c),
    decreases a.len(),
{
    if a.len() > 0 && b.len() > 0 && c.len() > 0 && a[0] == b[0] && b[0] == c[0] {
        lemma_text_le_transitive(a.drop_first(), b.drop_first(), c.drop_first());
    }
}

/// Texts ordered both ways are equal.
pub proof fn lemma_text_le_antisymmetric(a: Seq<char>, b: Seq<char>)
    requires
        text_le(a, b),
        text_le(b, a),
    ensures
        a == b,
    decreases a.len(),
{
    if a.len() > 0 {
        lemma_text_le_antisymmetric(a.drop_first(), b.drop_first());
        assert(a =~= seq![a[0]] + a.drop_first());
        assert(b =~= seq![b[0]] + b.drop_first());
    } else {
        assert(b.len() == 0);
        assert(a =~= b);
    }
}

/// After a common prefix, the order is decided by what follows it.
proof fn lemma_text_le_skip(a: Seq<char>, b: Seq<char>, i: int)
    requires
        0 <= i <= a.len(),
        i <= b.len(),
        forall|j: int| 0 <= j < i ==> a[j] == b[j],
    ensures
        text_le(a, b) == text_le(a.skip(i), b.skip(i)),
    decreases i,
{
    if i > 0 {
        assert(a[0] == b[0]);
        assert forall|j: int| 0 <= j < i - 1 implies a.drop_first()[j] == b.drop_first()[j] by {
            assert(a[j + 1] == b[j + 1]);
        }
        lemma_text_le_skip(a.drop_first(), b.drop_first(), i - 1);
        assert(a.drop_first().skip(i - 1) =~= a.skip(i));
        assert(b.drop_first().skip(i - 1) =~= b.skip(i));
    } else {
        assert(a.skip(0) =~= a);
        assert(b.skip(0) =~= b);
    }
}

/// Two sorted lists of the same texts are the same list. So the sorted ids
/// that [`GroupTable::selected_group_ids`] returns are fixed by the groups
/// that hold a selected node, whatever order the groups are kept in.
pub proof fn lemma_sorted_texts_unique(a: Seq<Seq<char>>, b: Seq<Seq<char>>)
    requires
        texts_sorted(a),
        texts_sorted(b),
        a.to_multiset() == b.to_multiset(),
    ensures
        a == b,
    decreases a.len(),
{
    broadcast use vstd::seq_lib::group_to_multiset_ensures;
    broadcast use vstd::multiset::group_multiset_axioms;

    vstd::seq_lib::to_multiset_len(a);
    vstd::seq_lib::to_multiset_len(b);
    assert(a.len() == b.len());
    if a.len() == 0 {
        assert(a =~= b);
    } else {
        assert(a.to_multiset().contains(a[0]));
        assert(b.contains(a[0]));
        let k = choose|k: int| 0 <= k < b.len() && b[k] == a[0];
        if k > 0 {
            assert(text_le(b[0], b[k]));
        } else {
            lemma_text_le_reflexive(b[0]);
        }
        assert(b.to_multiset().contains(b[0]));
        assert(a.contains(b[0]));
        let m = choose|m: int| 0 <= m < a.len() && a[m] == b[0];
        if m > 0 {
            assert(text_le(a[0], a[m]));
        } else {
            lemma_text_le_reflexive(a[0]);
        }
        lemma_text_le_antisymmetric(a[0], b[0]);
        let ra = a.drop_first();
        let rb = b.drop_first();
        assert(a.remove(0) =~= ra);
        assert(b.remove(0) =~= rb);
        assert(ra.to_multiset() == a.to_multiset().remove(a[0]));
        assert(rb.to_multiset() == b.to_multiset().remove(b[0]));
        assert forall|i: int, j: int| 0 <= i < j < ra.len() implies text_le(
            #[trigger] ra[i],
            #[trigger] ra[j],
        ) by {
            assert(ra[i] == a[i + 1] && ra[j] == a[j + 1]);
        }
        assert forall|i: int, j: int| 0 <= i < j < rb.len() implies text_le(
            #[trigger] rb[i],
            #[trigger] rb[j],
        ) by {
            assert(rb[i] == b[i + 1] && rb[j] == b[j + 1]);
        }
        lemma_sorted_texts_unique(ra, rb);
        assert(a =~= seq![a[0]] + ra);
        assert(b =~= seq![b[0]] + rb);
    }
}

/// Whether `a` comes before `b`, or equals it, in the order of `String`.
pub fn text_le_exec(a: &str, b: &str) -> (r: bool)
    ensures
        r == text_le(a@, b@),
{
    let x = text_chars(a);
    let y = text_chars(b);
    let mut i: usize = 0;
    while i < x.len() && i < y.len() && x[i] == y[i]
        invariant
            x@ == a@,
            y@ == b@,
            i <= x@.len(),
            i <= y@.len(),
            forall|j: int| 0 <= j < i ==> x@[j] == y@[j],
        decreases x@.len() - i,
    {
        i = i + 1;
    }
    proof {
        lemma_text_le_skip(a@, b@, i as int);
    }
    if i == x.len() {
        true
    } else if i == y.len() {
        false
    } else {
        x[i] < y[i]
    }
}

/// The texts, sorted in the order of `String`.
pub fn sort_texts(v: &Vec<String>) -> (r: Vec<String>)
    ensures
        texts_sorted(names(r@)),
        names(r@).to_multiset() == names(v@).to_multiset(),
{
    broadcast use vstd::seq_lib::group_to_multiset_ensures;

    let mut out: Vec<String> = Vec::new();
    let mut i: usize = 0;
    while i < v.len()
        invariant
            i <= v@.len(),
            texts_sorted(names(out@)),
            names(out@).to_multiset() == names(v@).take(i as int).to_multiset(),
        decreases v@.len() - i,
    {
        let s = v[i].clone();
        let mut pos: usize = 0;
        while pos < out.len() && text_le_exec(out[pos].as_str(), s.as_str())
            invariant
                pos <= out@.len(),
                s@ == v@[i as int]@,
                forall|j: int| 0 <= j < pos ==> text_le(#[trigger] out@[j]@, s@),
            decreases out@.len() - pos,
        {
            pos = pos + 1;
        }
        let ghost before = names(out@);
        out.insert(pos, s);
        proof {
            let now = names(out@);
            assert(now =~= before.insert(pos as int, v@[i as int]@));
            if pos < before.len() {
                lemma_text_le_total(before[pos as int], v@[i as int]@);
            }
            assert forall|a: int, b: int| 0 <= a < b < now.len() implies text_le(
                #[trigger] now[a],
                #[trigger] now[b],
            ) by {
                let p = pos as int;
                if b < p {
                    assert(now[a] == before[a] && now[b] == before[b]);
                } else if b == p {
                    assert(now[a] == before[a]);
                    assert(now[a] == out@[a]@);
                } else if a < p {
                    assert(now[a] == before[a] && now[b] == before[b - 1]);
                    assert(text_le(before[a], before[p]));
                    assert(text_le(before[p], before[b - 1])) by {
                        if p == b - 1 {
                            lemma_text_le_reflexive(before[p]);
                        }
                    }
                    lemma_text_le_transitive(before[a], before[p], before[b - 1]);
                } else if a == p {
                    assert(now[b] == before[b - 1]);
                    if p < b - 1 {
                        lemma_text_le_transitive(v@[i as int]@, before[p], before[b - 1]);
                    }
                } else {
                    assert(now[a] == before[a - 1] && now[b] == before[b - 1]);
                }
            }
            assert(names(v@).take(i + 1) =~= names(v@).take(i as int).push(v@[i as int]@));
            vstd::seq_lib::to_multiset_insert(before, pos as int, v@[i as int]@);
            vstd::seq_lib::to_multiset_build(names(v@).take(i as int), v@[i as int]@);
        }
        i = i + 1;
    }
    assert(names(v@).take(i as int) =~= names(v@));
    out
}

// ---------------------------------------------------------------------------
// Groups
/// A group of nodes, drawn as one box around them. Its colour is the host's.
#[derive(Debug)]
pub struct GraphGroup {
    pub id: String,
    /// `None` omits the built-in label and keeps the box and custom header.
    pub label: Option<String>,
    pub error: bool,
    pub nodes: Vec<u64>,
}

/// A group's new membership, as requested from the host or reported to it.
#[derive(Debug)]
pub struct GroupMembership {
    pub group_id: String,
    pub node_ids: Vec<u64>,
}

/// The mathematical content of a [`GroupTable`]: the groups in order, and
/// the ids of the groups marked as erroneous.
pub ghost struct GroupsView {
    pub groups: Seq<GraphGroup>,
    pub errors: Seq<Seq<char>>,
}

/// The groups of an editor and their error marks.
pub struct GroupTable {
    groups: Vec<GraphGroup>,
    errors: Vec<String>,
}

impl View for GroupTable {
    type V = GroupsView;

    closed spec fn view(&self) -> GroupsView {
        GroupsView { groups: self.groups@, errors: names(self.errors@) }
    }
}

/// The ids of the groups, in order.
pub open spec fn group_ids(gs: Seq<GraphGroup>) -> Seq<Seq<char>> {
    gs.map_values(|g: GraphGroup| g.id@)
}

/// Some node of the group is selected.
pub open spec fn holds_selected(g: GraphGroup, selected: Seq<u64>) -> bool {
    exists|k: int| 0 <= k < g.nodes@.len() && selected.contains(g.nodes@[k])
}

pub open spec fn touching_selection(selected: Seq<u64>) -> spec_fn(GraphGroup) -> bool {
    |g: GraphGroup| holds_selected(g, selected)
}

/// The ids of the groups that hold a selected node, in group order.
pub open spec fn selected_ids(gs: Seq<GraphGroup>, selected: Seq<u64>) -> Seq<Seq<char>> {
    group_ids(gs.filter(touching_selection(selected)))
}

pub open spec fn named_in(ids: Seq<Seq<char>>) -> spec_fn(Seq<char>) -> bool {
    |n: Seq<char>| ids.contains(n)
}

pub open spec fn group_not_in(ids: Seq<Seq<char>>) -> spec_fn(GraphGroup) -> bool {
    |g: GraphGroup| !ids.contains(g.id@)
}

pub open spec fn holding(node: u64) -> spec_fn(GraphGroup) -> bool {
    |g: GraphGroup| g.nodes@.contains(node)
}

pub open spec fn other_node(node: u64) -> spec_fn(u64) -> bool {
    |n: u64| n != node
}

/// Whether `x` is among the numbers.
fn ids_include(v: &Vec<u64>, x: u64) -> (r: bool)
    ensures
        r == v@.contains(x),
{
    let mut i: usize = 0;
    while i < v.len()
        invariant
            i <= v@.len(),
            forall|k: int| 0 <= k < i ==> v@[k] != x,
        decreases v@.len() - i,
    {
        if v[i] == x {
            return true;
        }
        i = i + 1;
    }
    false
}

/// The numbers other than `x`, in order.
fn ids_without(v: &Vec<u64>, x: u64) -> (r: Vec<u64>)
    ensures
        r@ == v@.filter(other_node(x)),
{
    let mut out: Vec<u64> = Vec::new();
    let mut i: usize = 0;
    while i < v.len()
        invariant
            i <= v@.len(),
            out@ == v@.take(i as int).filter(other_node(x)),
        decreases v@.len() - i,
    {
        proof {
            lemma_filter_take_step(v@, other_node(x), i as int);
        }
        if v[i] != x {
            out.push(v[i]);
        }
        i = i + 1;
    }
    assert(v@.take(i as int) =~= v@);
    out
}

/// Whether some number of `v` is among `selected`.
fn any_selected(v: &Vec<u64>, selected: &[u64]) -> (r: bool)
    ensures
        r == exists|k: int| 0 <= k < v@.len() && selected@.contains(v@[k]),
{
    let mut i: usize = 0;
    while i < v.len()
        invariant
            i <= v@.len(),
            forall|k: int| 0 <= k < i ==> !selected@.contains(v@[k]),
        decreases v@.len() - i,
    {
        let x = v[i];
        let mut j: usize = 0;
        while j < selected.len()
            invariant
                i < v@.len(),
                x == v@[i as int],
                j <= selected@.len(),
                forall|k: int| 0 <= k < j ==> selected@[k] != x,
            decreases selected@.len() - j,
        {
            if selected[j] == x {
                assert(selected@[j as int] == v@[i as int]);
                return true;
            }
            j = j + 1;
        }
        i = i + 1;
    }
    false
}

impl GroupTable {
    pub open spec fn wf(&self) -> bool {
        self@.errors.no_duplicates()
    }

    /// A table of the given groups, none marked as erroneous.
    pub fn new(groups: Vec<GraphGroup>) -> (r: Self)
        ensures
            r.wf(),
            r@.groups == groups@,
            r@.errors.len() == 0,
    {
        let r = GroupTable { groups, errors: Vec::new() };
        assert(r@.errors =~= Seq::<Seq<char>>::empty());
        r
    }

    /// Replace the groups. Error marks stay for the groups that still exist.
    pub fn set_groups(&mut self, groups: Vec<GraphGroup>)
        requires
            old(self).wf(),
        ensures
            final(self).wf(),
            final(self)@ == (GroupsView {
                groups: groups@,
                errors: old(self)@.errors.filter(named_in(group_ids(groups@))),
            }),
    {
        let ghost before = self@;
        let mut ids: Vec<String> = Vec::new();
        let mut i: usize = 0;
        while i < groups.len()
            invariant
                i <= groups@.len(),
                names(ids@) == group_ids(groups@.take(i as int)),
            decreases groups@.len() - i,
        {
            let id = groups[i].id.clone();
            let ghost prev = ids@;
            ids.push(id);
            assert(names(ids@) =~= names(prev).push(groups@[i as int].id@));
            assert(group_ids(groups@.take(i + 1)) =~= group_ids(groups@.take(i as int)).push(
                groups@[i as int].id@,
            ));
            i = i + 1;
        }
        assert(groups@.take(i as int) =~= groups@);
        let mut kept: Vec<String> = Vec::new();
        let mut k: usize = 0;
        while k < self.errors.len()
            invariant
                self@ == before,
                k <= self.errors@.len(),
                names(ids@) == group_ids(groups@),
                names(kept@) == names(self.errors@).take(k as int).filter(named_in(group_ids(groups@))),
            decreases self.errors@.len() - k,
        {
            proof {
                lemma_filter_take_step(names(self.errors@), named_in(group_ids(groups@)), k as int);
            }
            if names_contain(&ids, self.errors[k].as_str()) {
                let s = self.errors[k].clone();
                let ghost prev = kept@;
                kept.push(s);
                assert(names(kept@) =~= names(prev).push(self.errors@[k as int]@));
            }
            k = k + 1;
        }
        assert(names(self.errors@).take(k as int) =~= names(self.errors@));
        proof {
            lemma_filter_no_duplicates(before.errors, named_in(group_ids(groups@)));
        }
        self.groups = groups;
        self.errors = kept;
    }

    /// The groups, in order.
    pub fn groups(&self) -> (r: &[GraphGroup])
        ensures
            r@ == self@.groups,
    {
        self.groups.as_slice()
    }

    /// Mark or unmark the group `id` as erroneous; whether that changed.
    pub fn set_group_error(&mut self, id: &str, error: bool) -> (r: bool)
        requires
            old(self).wf(),
        ensures
            final(self).wf(),
            final(self)@.groups == old(self)@.groups,
            error ==> r == !old(self)@.errors.contains(id@) && final(self)@.errors == with_name(
                old(self)@.errors,
                id@,
            ),
            !error ==> r == old(self)@.errors.contains(id@) && final(self)@.errors
                == old(self)@.errors.filter(other_than_name(id@)),
    {
        let ghost before = self@;
        if error {
            proof {
                lemma_with_name_no_duplicates(before.errors, id@);
            }
            add_name(&mut self.errors, id)
        } else {
            let was = names_contain(&self.errors, id);
            let rest = remove_name(&self.errors, id);
            proof {
                lemma_filter_no_duplicates(before.errors, other_than_name(id@));
            }
            self.errors = rest;
            was
        }
    }

    /// Whether the group `id` is marked as erroneous.
    pub fn group_has_error(&self, id: &str) -> (r: bool)
        ensures
            r == self@.errors.contains(id@),
    {
        names_contain(&self.errors, id)
    }

    /// Replace the first group with the id of `group` by it, or add it last.
    pub fn upsert_group(&mut self, group: GraphGroup)
        requires
            old(self).wf(),
        ensures
            final(self).wf(),
            final(self)@.errors == old(self)@.errors,
            ({
                let gs = old(self)@.groups;
                ||| exists|k: int|
                    0 <= k < gs.len() && gs[k].id@ == group.id@ && (forall|j: int|
                        0 <= j < k ==> gs[j].id@ != group.id@) && final(self)@.groups == gs.update(
                        k,
                        group,
                    )
                ||| (forall|k: int| 0 <= k < gs.len() ==> gs[k].id@ != group.id@)
                    && final(self)@.groups == gs.push(group)
            }),
    {
        let mut k: usize = 0;
        while k < self.groups.len()
            invariant
                self@ == old(self)@,
                self@.errors.no_duplicates(),
                k <= self.groups@.len(),
                forall|j: int| 0 <= j < k ==> self.groups@[j].id@ != group.id@,
            decreases self.groups@.len() - k,
        {
            if crate::text_input::str_eq(self.groups[k].id.as_str(), group.id.as_str()) {
                self.groups.set(k, group);
                return;
            }
            k = k + 1;
        }
        self.groups.push(group);
    }

    /// The ids of the groups that hold a selected node, sorted in the order
    /// of `String`, so that the same selection always gives the same list.
    pub fn selected_group_ids(&self, selected: &[u64]) -> (r: Vec<String>)
        ensures
            texts_sorted(names(r@)),
            names(r@).to_multiset() == selected_ids(self@.groups, selected@).to_multiset(),
    {
        let mut ids: Vec<String> = Vec::new();
        let mut i: usize = 0;
        while i < self.groups.len()
            invariant
                i <= self@.groups.len(),
                names(ids@) == selected_ids(self@.groups.take(i as int), selected@),
            decreases self@.groups.len() - i,
        {
            proof {
                lemma_filter_take_step(self@.groups, touching_selection(selected@), i as int);
            }
            let g = &self.groups[i];
            if any_selected(&g.nodes, selected) {
                let ghost prev = ids@;
                ids.push(g.id.clone());
                assert(names(ids@) =~= names(prev).push(g.id@));
                assert(names(ids@) =~= selected_ids(self@.groups.take(i + 1), selected@));
            } else {
                assert(names(ids@) =~= selected_ids(self@.groups.take(i + 1), selected@));
            }
            i = i + 1;
        }
        assert(self@.groups.take(i as int) =~= self@.groups);
        sort_texts(&ids)
    }

    /// Ungroup the groups that hold a selected node: requested from the host
    /// (controlled) or removed here (uncontrolled, `GroupsRemoved`). Returns
    /// their ids, sorted; when there are none, nothing happens.
    pub fn ungroup_selection(&mut self, selected: &[u64], mode: MutationMode) -> (r: Vec<String>)
        requires
            old(self).wf(),
        ensures
            final(self).wf(),
            texts_sorted(names(r@)),
            names(r@).to_multiset() == selected_ids(old(self)@.groups, selected@).to_multiset(),
            final(self)@.errors == old(self)@.errors,
            mode == MutationMode::Controlled ==> final(self)@ == old(self)@,
            mode == MutationMode::Uncontrolled ==> final(self)@.groups == old(self)@.groups.filter(
                group_not_in(names(r@)),
            ),
    {
        let ids = self.selected_group_ids(selected);
        if ids.len() == 0 {
            proof {
                lemma_no_listed_keeps_all(self@.groups, names(ids@));
            }
            return ids;
        }
        match mode {
            MutationMode::Controlled => ids,
            MutationMode::Uncontrolled => {
                let ghost orig = self@.groups;
                let n = self.groups.len();
                let mut rest: Vec<GraphGroup> = Vec::new();
                std::mem::swap(&mut rest, &mut self.groups);
                let mut k: usize = 0;
                while rest.len() > 0
                    invariant
                        n == orig.len(),
                        k <= orig.len(),
                        rest@ == orig.skip(k as int),
                        self.groups@ == orig.take(k as int).filter(group_not_in(names(ids@))),
                        names(self.errors@) == old(self)@.errors,
                    decreases rest@.len(),
                {
                    proof {
                        lemma_filter_take_step(orig, group_not_in(names(ids@)), k as int);
                    }
                    let g = rest.remove(0);
                    assert(g == orig[k as int]);
                    if !names_contain(&ids, g.id.as_str()) {
                        self.groups.push(g);
                    }
                    k = k + 1;
                    assert(rest@ =~= orig.skip(k as int));
                }
                assert(orig.take(k as int) =~= orig);
                ids
            },
        }
    }

    /// Take `node` out of every group that holds it, for a drag that detaches
    /// it: returns, in group order, each such group's id and its other
    /// nodes, sorted by the host's texts of node ids (`texts`; see
    /// [`crate::id_order`]). Uncontrolled: the node leaves those groups here
    /// (`GroupMembershipChanged` each). Controlled: the groups stay, and the
    /// memberships are requested from the host.
    pub fn detach_node_from_groups(
        &mut self,
        node: u64,
        mode: MutationMode,
        texts: &Vec<(u64, String)>,
    ) -> (r: Vec<GroupMembership>)
        requires
            old(self).wf(),
        ensures
            final(self).wf(),
            final(self)@.errors == old(self)@.errors,
            r@.len() == old(self)@.groups.filter(holding(node)).len(),
            forall|i: int|
                0 <= i < r@.len() ==> {
                    let g = #[trigger] old(self)@.groups.filter(holding(node))[i];
                    &&& r@[i].group_id@ == g.id@
                    &&& r@[i].node_ids@ == sort_by_text(texts@, g.nodes@.filter(other_node(node)))
                },
            mode == MutationMode::Controlled ==> final(self)@ == old(self)@,
            mode == MutationMode::Uncontrolled ==> {
                &&& final(self)@.groups.len() == old(self)@.groups.len()
                &&& forall|i: int|
                    0 <= i < old(self)@.groups.len() ==> {
                        let (a, b) = (#[trigger] final(self)@.groups[i], old(self)@.groups[i]);
                        &&& a.id == b.id
                        &&& a.label == b.label
                        &&& a.error == b.error
                        &&& a.nodes@ == b.nodes@.filter(other_node(node))
                    }
            },
    {
        let ghost orig = self@.groups;
        let n = self.groups.len();
        let mut rest: Vec<GraphGroup> = Vec::new();
        std::mem::swap(&mut rest, &mut self.groups);
        let mut changes: Vec<GroupMembership> = Vec::new();
        let mut k: usize = 0;
        while rest.len() > 0
            invariant
                n == orig.len(),
                k <= orig.len(),
                rest@ == orig.skip(k as int),
                names(self.errors@) == old(self)@.errors,
                changes@.len() == orig.take(k as int).filter(holding(node)).len(),
                forall|i: int|
                    0 <= i < changes@.len() ==> {
                        let g = #[trigger] orig.take(k as int).filter(holding(node))[i];
                        &&& changes@[i].group_id@ == g.id@
                        &&& changes@[i].node_ids@ == sort_by_text(
                            texts@,
                            g.nodes@.filter(other_node(node)),
                        )
                    },
                self.groups@.len() == k,
                mode == MutationMode::Controlled ==> self.groups@ == orig.take(k as int),
                mode == MutationMode::Uncontrolled ==> forall|i: int|
                    0 <= i < k ==> {
                        let (a, b) = (#[trigger] self.groups@[i], orig[i]);
                        &&& a.id == b.id
                        &&& a.label == b.label
                        &&& a.error == b.error
                        &&& a.nodes@ == b.nodes@.filter(other_node(node))
                    },
            decreases rest@.len(),
        {
            proof {
                lemma_filter_take_step(orig, holding(node), k as int);
            }
            let g = rest.remove(0);
            assert(g == orig[k as int]);
            let others = ids_without(&g.nodes, node);
            if ids_include(&g.nodes, node) {
                let sorted = order_by_text(&others, texts);
                changes.push(GroupMembership { group_id: g.id.clone(), node_ids: sorted });
            }
            let ghost before_groups = self.groups@;
            match mode {
                MutationMode::Uncontrolled => {
                    self.groups.push(
                        GraphGroup { id: g.id, label: g.label, error: g.error, nodes: others },
                    );
                },
                MutationMode::Controlled => {
                    self.groups.push(g);
                },
            }
            proof {
                if mode == MutationMode::Controlled {
                    assert(self.groups@ =~= orig.take(k + 1));
                }
            }
            k = k + 1;
            assert(rest@ =~= orig.skip(k as int));
        }
        assert(orig.take(k as int) =~= orig);
        changes
    }
}

/// With no ids listed, no group is left out.
proof fn lemma_no_listed_keeps_all(gs: Seq<GraphGroup>, ids: Seq<Seq<char>>)
    requires
        ids.len() == 0,
    ensures
        gs.filter(group_not_in(ids)) == gs,
{
    lemma_filter_keeps_all(gs, group_not_in(ids));
}

} // verus!
