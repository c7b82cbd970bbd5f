//! Which node overlays are shown, and which of them Escape or a click outside
//! dismisses.
//!
//! An overlay with a dismissal behaviour is registered as active each time
//! the editor lays out its overlays, unless it was dismissed. Escape dismisses
//! the overlays that asked for it, a click outside dismisses those that asked
//! for that; the two policies are independent. A dismissed overlay stays
//! hidden until it is reopened.

use crate::name_set::{
    add_name, lemma_with_name_no_duplicates, names, names_contain, names_without, other_than_name,
    outside_of, remove_name, with_name,
};
use crate::seq_facts::lemma_filter_no_duplicates;
use vstd::prelude::*;

verus! {

/// The mathematical content of [`OverlayDismissals`]: the dismissed overlay
/// ids, and the ids of the active overlays that are dismissible at all, by
/// Escape, by a click outside, and that show a backdrop.
pub ghost struct DismissalView {
    pub dismissed: Seq<Seq<char>>,
    pub dismissible: Seq<Seq<char>>,
    pub escape: Seq<Seq<char>>,
    pub outside: Seq<Seq<char>>,
    pub backdrop: Seq<Seq<char>>,
}

/// Dismissed and active overlays of an editor, by id.
pub struct OverlayDismissals {
    dismissed: Vec<String>,
    dismissible: Vec<String>,
    escape: Vec<String>,
    outside: Vec<String>,
    backdrop: Vec<String>,
}

impl View for OverlayDismissals {
    type V = DismissalView;

    closed spec fn view(&self) -> DismissalView {
        DismissalView {
            dismissed: names(self.dismissed@),
            dismissible: names(self.dismissible@),
            escape: names(self.escape@),
            outside: names(self.outside@),
            backdrop: names(self.backdrop@),
        }
    }
}

/// Each id occurs once in each set.
pub open spec fn dismissals_wf(v: DismissalView) -> bool {
    &&& v.dismissed.no_duplicates()
    &&& v.dismissible.no_duplicates()
    &&& v.escape.no_duplicates()
    &&& v.outside.no_duplicates()
    &&& v.backdrop.no_duplicates()
}

/// The state once the overlays `ids` are dismissed: each joins the
/// dismissed ones, after those already there, and leaves every active set.
pub open spec fn dismiss_view(v: DismissalView, ids: Seq<Seq<char>>) -> DismissalView {
    DismissalView {
        dismissed: v.dismissed + ids.filter(outside_of(v.dismissed)),
        dismissible: v.dismissible.filter(outside_of(ids)),
        escape: v.escape.filter(outside_of(ids)),
        outside: v.outside.filter(outside_of(ids)),
        backdrop: v.backdrop.filter(outside_of(ids)),
    }
}

/// The state once Escape dismissed the overlays that asked for it.
pub open spec fn escape_view(v: DismissalView) -> DismissalView {
    dismiss_view(DismissalView { escape: Seq::empty(), ..v }, v.escape)
}

/// The state once a click outside dismissed the overlays that asked for it.
pub open spec fn outside_click_view(v: DismissalView) -> DismissalView {
    dismiss_view(DismissalView { outside: Seq::empty(), ..v }, v.outside)
}

/// Registering the overlay `id` as shown with the given behaviour: refused
/// (`false`, nothing changes) when it was dismissed; otherwise it joins the
/// sets its behaviour names, and the dismissible ones when it names any.
pub open spec fn activate_view(
    v: DismissalView,
    id: Seq<char>,
    on_escape: bool,
    on_outside_click: bool,
    backdrop: bool,
) -> (bool, DismissalView) {
    if v.dismissed.contains(id) {
        (false, v)
    } else {
        (
            true,
            DismissalView {
                dismissed: v.dismissed,
                dismissible: if on_escape || on_outside_click || backdrop {
                    with_name(v.dismissible, id)
                } else {
                    v.dismissible
                },
                escape: if on_escape {
                    with_name(v.escape, id)
                } else {
                    v.escape
                },
                outside: if on_outside_click {
                    with_name(v.outside, id)
                } else {
                    v.outside
                },
                backdrop: if backdrop {
                    with_name(v.backdrop, id)
                } else {
                    v.backdrop
                },
            },
        )
    }
}

/// The state once the overlay `id` is reopened.
pub open spec fn reopen_view(v: DismissalView, id: Seq<char>) -> DismissalView {
    DismissalView { dismissed: v.dismissed.filter(other_than_name(id)), ..v }
}

/// Escape and a click outside are independent: Escape leaves an overlay that
/// only a click outside dismisses shown and not dismissed, and a click
/// outside does the same for one that only Escape dismisses. Each dismisses
/// the overlays that asked for it, which then are no longer active.
pub proof fn lemma_dismiss_policies_independent(v: DismissalView, id: Seq<char>)
    ensures
        v.outside.contains(id) && !v.escape.contains(id) ==> {
            &&& escape_view(v).outside.contains(id)
            &&& escape_view(v).dismissed.contains(id) == v.dismissed.contains(id)
        },
        v.escape.contains(id) && !v.outside.contains(id) ==> {
            &&& outside_click_view(v).escape.contains(id)
            &&& outside_click_view(v).dismissed.contains(id) == v.dismissed.contains(id)
        },
        v.escape.contains(id) ==> {
            &&& escape_view(v).dismissed.contains(id)
            &&& !escape_view(v).dismissible.contains(id)
            &&& !escape_view(v).outside.contains(id)
        },
        v.outside.contains(id) ==> {
            &&& outside_click_view(v).dismissed.contains(id)
            &&& !outside_click_view(v).dismissible.contains(id)
            &&& !outside_click_view(v).escape.contains(id)
        },
{
    lemma_dismissed_after(DismissalView { escape: Seq::empty(), ..v }, v.escape, id);
    lemma_dismissed_after(DismissalView { outside: Seq::empty(), ..v }, v.outside, id);
    if v.outside.contains(id) && !v.escape.contains(id) {
        let k = choose|k: int| 0 <= k < v.outside.len() && v.outside[k] == id;
        v.outside.lemma_filter_contains(outside_of(v.escape), k);
    }
    if v.escape.contains(id) && !v.outside.contains(id) {
        let k = choose|k: int| 0 <= k < v.escape.len() && v.escape[k] == id;
        v.escape.lemma_filter_contains(outside_of(v.outside), k);
    }
}

/// What dismissing `ids` does to one overlay `id`: it is dismissed after
/// exactly when it was before or is among `ids`, and an overlay among `ids`
/// is in no active set.
pub proof fn lemma_dismissed_after(v: DismissalView, ids: Seq<Seq<char>>, id: Seq<char>)
    ensures
        dismiss_view(v, ids).dismissed.contains(id) == (v.dismissed.contains(id) || ids.contains(id)),
        ids.contains(id) ==> {
            &&& !dismiss_view(v, ids).dismissible.contains(id)
            &&& !dismiss_view(v, ids).escape.contains(id)
            &&& !dismiss_view(v, ids).outside.contains(id)
            &&& !dismiss_view(v, ids).backdrop.contains(id)
        },
{
    let w = dismiss_view(v, ids);
    let fresh = ids.filter(outside_of(v.dismissed));
    if w.dismissed.contains(id) {
        let k = choose|k: int| 0 <= k < w.dismissed.len() && w.dismissed[k] == id;
        if k >= v.dismissed.len() {
            assert(fresh[k - v.dismissed.len()] == id);
            assert(fresh.contains(id));
            ids.lemma_filter_contains_rev(outside_of(v.dismissed), id);
        } else {
            assert(v.dismissed[k] == id);
        }
    }
    if v.dismissed.contains(id) {
        let k = choose|k: int| 0 <= k < v.dismissed.len() && v.dismissed[k] == id;
        assert(w.dismissed[k] == id);
    } else if ids.contains(id) {
        let k = choose|k: int| 0 <= k < ids.len() && ids[k] == id;
        ids.lemma_filter_contains(outside_of(v.dismissed), k);
        let j = choose|j: int| 0 <= j < fresh.len() && fresh[j] == id;
        assert(w.dismissed[v.dismissed.len() + j] == id);
    }
    if ids.contains(id) {
        if w.dismissible.contains(id) {
            v.dismissible.lemma_filter_contains_rev(outside_of(ids), id);
            let k = choose|k: int| 0 <= k < w.dismissible.len() && w.dismissible[k] == id;
            v.dismissible.lemma_filter_pred(outside_of(ids), k);
        }
        if w.escape.contains(id) {
            let k = choose|k: int| 0 <= k < w.escape.len() && w.escape[k] == id;
            v.escape.lemma_filter_pred(outside_of(ids), k);
        }
        if w.outside.contains(id) {
            let k = choose|k: int| 0 <= k < w.outside.len() && w.outside[k] == id;
            v.outside.lemma_filter_pred(outside_of(ids), k);
        }
        if w.backdrop.contains(id) {
            let k = choose|k: int| 0 <= k < w.backdrop.len() && w.backdrop[k] == id;
            v.backdrop.lemma_filter_pred(outside_of(ids), k);
        }
    }
}

/// A dismissed overlay stays hidden until it is reopened: registering it is
/// refused after it was dismissed, and accepted again once it is reopened.
pub proof fn lemma_dismissed_until_reopened(
    v: DismissalView,
    ids: Seq<Seq<char>>,
    id: Seq<char>,
    on_escape: bool,
    on_outside_click: bool,
    backdrop: bool,
)
    ensures
        ids.contains(id) ==> !activate_view(
            dismiss_view(v, ids),
            id,
            on_escape,
            on_outside_click,
            backdrop,
        ).0,
        !activate_view(
            DismissalView { dismissed: with_name(v.dismissed, id), ..v },
            id,
            on_escape,
            on_outside_click,
            backdrop,
        ).0,
        activate_view(reopen_view(v, id), id, on_escape, on_outside_click, backdrop).0,
{
    lemma_dismissed_after(v, ids, id);
    if !v.dismissed.contains(id) {
        assert(v.dismissed.push(id)[v.dismissed.len() as int] == id);
    }
    let rest = v.dismissed.filter(other_than_name(id));
    if rest.contains(id) {
        let k = choose|k: int| 0 <= k < rest.len() && rest[k] == id;
        v.dismissed.lemma_filter_pred(other_than_name(id), k);
    }
}

/// Dismissing keeps every set free of duplicates.
pub proof fn lemma_dismiss_wf(v: DismissalView, ids: Seq<Seq<char>>)
    requires
        dismissals_wf(v),
        ids.no_duplicates(),
    ensures
        dismissals_wf(dismiss_view(v, ids)),
{
    let fresh = ids.filter(outside_of(v.dismissed));
    lemma_filter_no_duplicates(ids, outside_of(v.dismissed));
    lemma_filter_no_duplicates(v.dismissible, outside_of(ids));
    lemma_filter_no_duplicates(v.escape, outside_of(ids));
    lemma_filter_no_duplicates(v.outside, outside_of(ids));
    lemma_filter_no_duplicates(v.backdrop, outside_of(ids));
    let all = v.dismissed + fresh;
    assert forall|i: int, j: int| 0 <= i < all.len() && 0 <= j < all.len() && i != j implies all[i]
        != all[j] by {
        let n = v.dismissed.len();
        if i < n && j < n {
            assert(all[i] == v.dismissed[i] && all[j] == v.dismissed[j]);
        } else if i >= n && j >= n {
            assert(all[i] == fresh[i - n] && all[j] == fresh[j - n]);
        } else if i < n {
            assert(all[i] == v.dismissed[i]);
            assert(all[j] == fresh[j - n]);
            ids.lemma_filter_pred(outside_of(v.dismissed), j - n);
        } else {
            assert(all[j] == v.dismissed[j]);
            assert(all[i] == fresh[i - n]);
            ids.lemma_filter_pred(outside_of(v.dismissed), i - n);
        }
    }
}

impl OverlayDismissals {
    pub open spec fn wf(&self) -> bool {
        dismissals_wf(self@)
    }

    /// Nothing dismissed, nothing active.
    pub fn new() -> (r: Self)
        ensures
            r.wf(),
            r@.dismissed.len() == 0,
            r@.dismissible.len() == 0,
            r@.escape.len() == 0,
            r@.outside.len() == 0,
            r@.backdrop.len() == 0,
    {
        let r = OverlayDismissals {
            dismissed: Vec::new(),
            dismissible: Vec::new(),
            escape: Vec::new(),
            outside: Vec::new(),
            backdrop: Vec::new(),
        };
        assert(r@.dismissed =~= Seq::<Seq<char>>::empty());
        assert(r@.dismissible =~= Seq::<Seq<char>>::empty());
        assert(r@.escape =~= Seq::<Seq<char>>::empty());
        assert(r@.outside =~= Seq::<Seq<char>>::empty());
        assert(r@.backdrop =~= Seq::<Seq<char>>::empty());
        r
    }

    /// Dismiss the overlay `id` until it is reopened; whether it was shown.
    pub fn dismiss_overlay(&mut self, id: &str) -> (r: bool)
        requires
            old(self).wf(),
        ensures
            final(self).wf(),
            r == !old(self)@.dismissed.contains(id@),
            final(self)@ == (DismissalView {
                dismissed: with_name(old(self)@.dismissed, id@),
                ..old(self)@
            }),
    {
        proof {
            lemma_with_name_no_duplicates(self@.dismissed, id@);
        }
        add_name(&mut self.dismissed, id)
    }

    /// Whether the overlay `id` is dismissed.
    pub fn is_overlay_dismissed(&self, id: &str) -> (r: bool)
        ensures
            r == self@.dismissed.contains(id@),
    {
        names_contain(&self.dismissed, id)
    }

    /// How many shown overlays can be dismissed at all.
    pub fn active_overlay_count(&self) -> (r: usize)
        ensures
            r == self@.dismissible.len(),
    {
        self.dismissible.len()
    }

    /// Show the overlay `id` again; whether it was dismissed.
    pub fn reopen_overlay(&mut self, id: &str) -> (r: bool)
        requires
            old(self).wf(),
        ensures
            final(self).wf(),
            r == old(self)@.dismissed.contains(id@),
            final(self)@ == reopen_view(old(self)@, id@),
    {
        let was = names_contain(&self.dismissed, id);
        let ghost before = self@;
        let rest = remove_name(&self.dismissed, id);
        proof {
            lemma_filter_no_duplicates(before.dismissed, other_than_name(id@));
        }
        self.dismissed = rest;
        was
    }

    /// Forget which overlays are shown, before they are laid out again.
    pub fn clear_active_overlays(&mut self)
        requires
            old(self).wf(),
        ensures
            final(self).wf(),
            final(self)@ == (DismissalView {
                dismissed: old(self)@.dismissed,
                dismissible: Seq::empty(),
                escape: Seq::empty(),
                outside: Seq::empty(),
                backdrop: Seq::empty(),
            }),
    {
        self.dismissible = Vec::new();
        self.escape = Vec::new();
        self.outside = Vec::new();
        self.backdrop = Vec::new();
        assert(self@.dismissible =~= Seq::<Seq<char>>::empty());
        assert(self@.escape =~= Seq::<Seq<char>>::empty());
        assert(self@.outside =~= Seq::<Seq<char>>::empty());
        assert(self@.backdrop =~= Seq::<Seq<char>>::empty());
    }

    /// Register the overlay `id` as shown with its dismissal behaviour; see
    /// [`activate_view`]. `false` when it is dismissed and must stay hidden.
    pub fn activate_overlay(
        &mut self,
        id: &str,
        on_escape: bool,
        on_outside_click: bool,
        backdrop: bool,
    ) -> (r: bool)
        requires
            old(self).wf(),
        ensures
            final(self).wf(),
            (r, final(self)@) == activate_view(old(self)@, id@, on_escape, on_outside_click, backdrop),
    {
        if names_contain(&self.dismissed, id) {
            return false;
        }
        proof {
            lemma_with_name_no_duplicates(self@.dismissible, id@);
            lemma_with_name_no_duplicates(self@.escape, id@);
            lemma_with_name_no_duplicates(self@.outside, id@);
            lemma_with_name_no_duplicates(self@.backdrop, id@);
        }
        if on_escape || on_outside_click || backdrop {
            add_name(&mut self.dismissible, id);
        }
        if on_escape {
            add_name(&mut self.escape, id);
        }
        if on_outside_click {
            add_name(&mut self.outside, id);
        }
        if backdrop {
            add_name(&mut self.backdrop, id);
        }
        true
    }

    /// Dismiss the overlays `ids`, given without repetition.
    fn dismiss_ids(&mut self, ids: &Vec<String>)
        requires
            old(self).wf(),
            names(ids@).no_duplicates(),
        ensures
            final(self).wf(),
            final(self)@ == dismiss_view(old(self)@, names(ids@)),
    {
        let ghost before = self@;
        let fresh = names_without(ids, &self.dismissed);
        let mut k: usize = 0;
        while k < fresh.len()
            invariant
                k <= fresh@.len(),
                names(fresh@) == names(ids@).filter(outside_of(before.dismissed)),
                names(self.dismissible@) == before.dismissible,
                names(self.escape@) == before.escape,
                names(self.outside@) == before.outside,
                names(self.backdrop@) == before.backdrop,
                names(self.dismissed@) == before.dismissed + names(fresh@).take(k as int),
            decreases fresh@.len() - k,
        {
            let s = fresh[k].clone();
            let ghost prev = self.dismissed@;
            self.dismissed.push(s);
            k = k + 1;
            assert(names(self.dismissed@) =~= names(prev).push(fresh@[k - 1]@));
            assert(names(fresh@).take(k as int) =~= names(fresh@).take(k - 1).push(
                fresh@[k - 1]@,
            ));
        }
        assert(names(fresh@).take(k as int) =~= names(fresh@));
        self.dismissible = names_without(&self.dismissible, ids);
        self.escape = names_without(&self.escape, ids);
        self.outside = names_without(&self.outside, ids);
        self.backdrop = names_without(&self.backdrop, ids);
        proof {
            lemma_dismiss_wf(before, names(ids@));
        }
    }

    /// Escape: dismiss every shown overlay that asked for it. Returns their
    /// ids, for their dismissal callbacks and events.
    pub fn dismiss_escape_overlays(&mut self) -> (r: Vec<String>)
        requires
            old(self).wf(),
        ensures
            final(self).wf(),
            names(r@) == old(self)@.escape,
            final(self)@ == escape_view(old(self)@),
    {
        let mut ids: Vec<String> = Vec::new();
        std::mem::swap(&mut ids, &mut self.escape);
        assert(self@.escape =~= Seq::<Seq<char>>::empty());
        self.dismiss_ids(&ids);
        ids
    }

    /// A click outside: dismiss every shown overlay that asked for it.
    /// Returns their ids, for their dismissal callbacks and events.
    pub fn dismiss_outside_overlays(&mut self) -> (r: Vec<String>)
        requires
            old(self).wf(),
        ensures
            final(self).wf(),
            names(r@) == old(self)@.outside,
            final(self)@ == outside_click_view(old(self)@),
    {
        let mut ids: Vec<String> = Vec::new();
        std::mem::swap(&mut ids, &mut self.outside);
        assert(self@.outside =~= Seq::<Seq<char>>::empty());
        self.dismiss_ids(&ids);
        ids
    }
}

} // verus!
