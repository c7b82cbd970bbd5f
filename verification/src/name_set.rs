//! Sets of names kept as lists of strings, each name once, in the order
//! they were added.

use crate::seq_facts::lemma_filter_take_step;
use crate::text_input::str_eq;
use vstd::prelude::*;

verus! {

/// The texts of the strings, in order.
pub open spec fn names(v: Seq<String>) -> Seq<Seq<char>> {
    v.map_values(|s: String| s@)
}

pub open spec fn other_than_name(id: Seq<char>) -> spec_fn(Seq<char>) -> bool {
    |n: Seq<char>| n != id
}

pub open spec fn outside_of(ids: Seq<Seq<char>>) -> spec_fn(Seq<char>) -> bool {
    |n: Seq<char>| !ids.contains(n)
}

/// `set` with `id` added at the end unless it is there already.
pub open spec fn with_name(set: Seq<Seq<char>>, id: Seq<char>) -> Seq<Seq<char>> {
    if set.contains(id) {
        set
    } else {
        set.push(id)
    }
}

/// Adding a name keeps a sequence free of duplicates.
pub proof fn lemma_with_name_no_duplicates(set: Seq<Seq<char>>, id: Seq<char>)
    requires
        set.no_duplicates(),
    ensures
        with_name(set, id).no_duplicates(),
        with_name(set, id).contains(id),
{
    if !set.contains(id) {
        let g = set.push(id);
        assert(g[set.len() as int] == id);
        assert forall|i: int, j: int| 0 <= i < g.len() && 0 <= j < g.len() && i != j implies g[i]
            != g[j] by {
            if i < set.len() && j < set.len() {
                assert(g[i] == set[i] && g[j] == set[j]);
            } else if i < set.len() {
                assert(g[i] == set[i]);
            } else if j < set.len() {
                assert(g[j] == set[j]);
            }
        }
    }
}

/// Whether `id` is among the strings.
pub(crate) fn names_contain(v: &Vec<String>, id: &str) -> (r: bool)
    ensures
        r == names(v@).contains(id@),
{
    let mut i: usize = 0;
    while i < v.len()
        invariant
            i <= v@.len(),
            forall|k: int| 0 <= k < i ==> v@[k]@ != id@,
        decreases v@.len() - i,
    {
        if str_eq(v[i].as_str(), id) {
            assert(names(v@)[i as int] == id@);
            return true;
        }
        i = i + 1;
    }
    assert forall|k: int| 0 <= k < names(v@).len() implies names(v@)[k] != id@ by {
        assert(names(v@)[k] == v@[k]@);
    }
    false
}

/// The strings that are not among `ids`, in order.
pub(crate) fn names_without(v: &Vec<String>, ids: &Vec<String>) -> (r: Vec<String>)
    ensures
        names(r@) == names(v@).filter(outside_of(names(ids@))),
{
    let ghost p = outside_of(names(ids@));
    let mut out: Vec<String> = Vec::new();
    let mut i: usize = 0;
    while i < v.len()
        invariant
            i <= v@.len(),
            p == outside_of(names(ids@)),
            names(out@) == names(v@).take(i as int).filter(p),
        decreases v@.len() - i,
    {
        proof {
            lemma_filter_take_step(names(v@), p, i as int);
        }
        if !names_contain(ids, v[i].as_str()) {
            let s = v[i].clone();
            let ghost before = out@;
            out.push(s);
            assert(names(out@) =~= names(before).push(v@[i as int]@));
        }
        i = i + 1;
    }
    assert(names(v@).take(i as int) =~= names(v@));
    out
}

/// Add `id` to the strings unless it is there; whether it was added.
pub(crate) fn add_name(v: &mut Vec<String>, id: &str) -> (r: bool)
    ensures
        r == !names(old(v)@).contains(id@),
        names(final(v)@) == with_name(names(old(v)@), id@),
{
    if names_contain(v, id) {
        return false;
    }
    let ghost before = v@;
    v.push(id.to_owned());
    assert(names(v@) =~= names(before).push(id@));
    true
}

/// The strings other than `id`, in order.
pub(crate) fn remove_name(v: &Vec<String>, id: &str) -> (r: Vec<String>)
    ensures
        names(r@) == names(v@).filter(other_than_name(id@)),
{
    let mut gone: Vec<String> = Vec::new();
    gone.push(id.to_owned());
    proof {
        assert(names(gone@) =~= seq![id@]);
        assert(outside_of(names(gone@)) =~= other_than_name(id@)) by {
            assert forall|n: Seq<char>| #[trigger] outside_of(names(gone@))(n) == other_than_name(
                id@,
            )(n) by {
                if n == id@ {
                    assert(names(gone@)[0] == n);
                }
            }
        }
    }
    names_without(v, &gone)
}

} // verus!
