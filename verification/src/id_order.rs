//! The order in which lists of ids go out to the host.
//!
//! The host orders every list of its ids that it is asked for or told of by
//! the ids' debug text. The library keys ids by integers, so the host hands
//! it, next to a list to order, the text of each id: a list of `(id, text)`
//! entries.

use crate::groups::{lemma_text_le_total, lemma_text_le_transitive, text_le, text_le_exec};
use vstd::multiset::Multiset;
use vstd::prelude::*;

verus! {

/// The text the host gave for `id`: that of its first entry, or the empty
/// text when it has none.
pub open spec fn text_of(texts: Seq<(u64, String)>, id: u64) -> Seq<char>
    decreases texts.len(),
{
    if texts.len() == 0 {
        Seq::empty()
    } else if texts[0].0 == id {
        texts[0].1@
    } else {
        text_of(texts.drop_first(), id)
    }
}

/// The ids come in the order of their texts.
pub open spec fn in_text_order(texts: Seq<(u64, String)>, ids: Seq<u64>) -> bool {
    forall|i: int, j: int|
        0 <= i < j < ids.len() ==> text_le(
            text_of(texts, #[trigger] ids[i]),
            text_of(texts, #[trigger] ids[j]),
        )
}

/// The text the host gave for `id`.
pub fn text_for(texts: &Vec<(u64, String)>, id: u64) -> (r: &str)
    ensures
        r@ == text_of(texts@, id),
{
    let mut i: usize = 0;
    assert(texts@.skip(0) =~= texts@);
    while i < texts.len()
        invariant
            i <= texts@.len(),
            text_of(texts@, id) == text_of(texts@.skip(i as int), id),
        decreases texts@.len() - i,
    {
        if texts[i].0 == id {
            assert(texts@.skip(i as int)[0] == texts@[i as int]);
            return texts[i].1.as_str();
        }
        assert(texts@.skip(i as int).drop_first() =~= texts@.skip(i + 1));
        i = i + 1;
    }
    assert(texts@.skip(i as int) =~= Seq::<(u64, String)>::empty());
    let empty = "";
    proof {
        reveal_strlit("");
    }
    empty
}

/// The items come in the order of the texts of their keys.
pub open spec fn in_key_order<A>(texts: Seq<(u64, String)>, key: spec_fn(A) -> u64, s: Seq<A>) -> bool {
    forall|i: int, j: int|
        0 <= i < j < s.len() ==> text_le(
            text_of(texts, key(#[trigger] s[i])),
            text_of(texts, key(#[trigger] s[j])),
        )
}

/// `x` put into `s` after every item whose key's text comes before its own
/// or equals it, and before the first that does not.
pub open spec fn insert_keyed<A>(texts: Seq<(u64, String)>, key: spec_fn(A) -> u64, s: Seq<A>, x: A) -> Seq<A>
    decreases s.len(),
{
    if s.len() == 0 {
        seq![x]
    } else if text_le(text_of(texts, key(s[0])), text_of(texts, key(x))) {
        seq![s[0]] + insert_keyed(texts, key, s.drop_first(), x)
    } else {
        seq![x] + s
    }
}

/// The items sorted by the texts of their keys, stably: items whose keys
/// have equal texts keep the order they were given in.
pub open spec fn sort_keyed<A>(texts: Seq<(u64, String)>, key: spec_fn(A) -> u64, s: Seq<A>) -> Seq<A>
    decreases s.len(),
{
    if s.len() == 0 {
        Seq::empty()
    } else {
        insert_keyed(texts, key, sort_keyed(texts, key, s.drop_last()), s.last())
    }
}

/// An id is its own key.
pub open spec fn own_key() -> spec_fn(u64) -> u64 {
    |id: u64| id
}

/// The ids sorted by their texts, stably: ids of equal text keep the order
/// they were given in.
pub open spec fn sort_by_text(texts: Seq<(u64, String)>, s: Seq<u64>) -> Seq<u64> {
    sort_keyed(texts, own_key(), s)
}

/// Inserting after the items whose key's text comes first, at the first
/// that does not, is inserting at that position.
pub proof fn lemma_insert_at<A>(texts: Seq<(u64, String)>, key: spec_fn(A) -> u64, s: Seq<A>, x: A, pos: int)
    requires
        0 <= pos <= s.len(),
        forall|j: int| 0 <= j < pos ==> text_le(text_of(texts, key(#[trigger] s[j])), text_of(texts, key(x))),
        pos < s.len() ==> !text_le(text_of(texts, key(s[pos])), text_of(texts, key(x))),
    ensures
        insert_keyed(texts, key, s, x) == s.insert(pos, x),
    decreases s.len(),
{
    if s.len() == 0 {
        assert(s.insert(pos, x) =~= seq![x]);
    } else if pos == 0 {
        assert(s.insert(0, x) =~= seq![x] + s);
    } else {
        let t = s.drop_first();
        assert forall|j: int| 0 <= j < pos - 1 implies text_le(
            text_of(texts, key(#[trigger] t[j])),
            text_of(texts, key(x)),
        ) by {
            assert(t[j] == s[j + 1]);
        }
        if pos < s.len() {
            assert(t[pos - 1] == s[pos]);
        }
        lemma_insert_at(texts, key, t, x, pos - 1);
        assert(s.insert(pos, x) =~= seq![s[0]] + t.insert(pos - 1, x));
    }
}

/// Inserting into items in key order keeps them in key order and adds `x`.
proof fn lemma_insert_sorted<A>(texts: Seq<(u64, String)>, key: spec_fn(A) -> u64, s: Seq<A>, x: A)
    requires
        in_key_order(texts, key, s),
    ensures
        in_key_order(texts, key, insert_keyed(texts, key, s, x)),
        insert_keyed(texts, key, s, x).to_multiset() == s.to_multiset().insert(x),
    decreases s.len(),
{
    broadcast use vstd::seq_lib::group_to_multiset_ensures;

    let k = |a: A| text_of(texts, key(a));
    let r = insert_keyed(texts, key, s, x);
    if s.len() == 0 {
        assert(r =~= seq![x]);
        assert(seq![x] =~= Seq::<A>::empty().push(x));
    } else if text_le(k(s[0]), k(x)) {
        let t = s.drop_first();
        assert forall|i: int, j: int| 0 <= i < j < t.len() implies text_le(
            text_of(texts, key(#[trigger] t[i])),
            text_of(texts, key(#[trigger] t[j])),
        ) by {
            assert(t[i] == s[i + 1] && t[j] == s[j + 1]);
        }
        lemma_insert_sorted(texts, key, t, x);
        let rt = insert_keyed(texts, key, t, x);
        assert(r =~= seq![s[0]] + rt);
        assert(rt.to_multiset().contains(x));
        assert forall|m: int| 0 <= m < rt.len() implies text_le(k(s[0]), k(#[trigger] rt[m])) by {
            assert(rt.to_multiset().count(rt[m]) > 0);
            assert(rt.to_multiset() == t.to_multiset().insert(x));
            if rt[m] != x {
                assert(t.to_multiset().count(rt[m]) > 0);
                assert(t.contains(rt[m]));
                let n = choose|n: int| 0 <= n < t.len() && t[n] == rt[m];
                assert(s[n + 1] == t[n]);
            }
        }
        assert forall|i: int, j: int| 0 <= i < j < r.len() implies text_le(
            text_of(texts, key(#[trigger] r[i])),
            text_of(texts, key(#[trigger] r[j])),
        ) by {
            if i == 0 {
                assert(r[j] == rt[j - 1]);
            } else {
                assert(r[i] == rt[i - 1] && r[j] == rt[j - 1]);
            }
        }
        assert(s =~= seq![s[0]] + t);
        vstd::seq_lib::lemma_multiset_commutative(seq![s[0]], rt);
        vstd::seq_lib::lemma_multiset_commutative(seq![s[0]], t);
        assert(seq![s[0]].to_multiset() =~= Multiset::empty().insert(s[0])) by {
            assert(seq![s[0]] =~= Seq::<A>::empty().push(s[0]));
        }
    } else {
        assert(r =~= seq![x] + s);
        lemma_text_le_total(k(s[0]), k(x));
        assert forall|i: int, j: int| 0 <= i < j < r.len() implies text_le(
            text_of(texts, key(#[trigger] r[i])),
            text_of(texts, key(#[trigger] r[j])),
        ) by {
            if i == 0 {
                assert(r[j] == s[j - 1]);
                if j > 1 {
                    assert(text_le(k(s[0]), k(s[j - 1])));
                    lemma_text_le_transitive(k(x), k(s[0]), k(s[j - 1]));
                }
            } else {
                assert(r[i] == s[i - 1] && r[j] == s[j - 1]);
            }
        }
        vstd::seq_lib::lemma_multiset_commutative(seq![x], s);
        assert(seq![x].to_multiset() =~= Multiset::empty().insert(x)) by {
            assert(seq![x] =~= Seq::<A>::empty().push(x));
        }
    }
}

/// What sorting by the texts of the keys gives: the same items, each as
/// often, in key order.
pub proof fn lemma_sort_keyed<A>(texts: Seq<(u64, String)>, key: spec_fn(A) -> u64, s: Seq<A>)
    ensures
        in_key_order(texts, key, sort_keyed(texts, key, s)),
        sort_keyed(texts, key, s).to_multiset() == s.to_multiset(),
    decreases s.len(),
{
    broadcast use vstd::seq_lib::group_to_multiset_ensures;

    if s.len() > 0 {
        lemma_sort_keyed(texts, key, s.drop_last());
        lemma_insert_sorted(texts, key, sort_keyed(texts, key, s.drop_last()), s.last());
        assert(s =~= s.drop_last().push(s.last()));
    }
}

/// What sorting by text gives: the same ids, each as often, in the order
/// of their texts.
pub proof fn lemma_sort_by_text(texts: Seq<(u64, String)>, s: Seq<u64>)
    ensures
        in_text_order(texts, sort_by_text(texts, s)),
        sort_by_text(texts, s).to_multiset() == s.to_multiset(),
{
    lemma_sort_keyed(texts, own_key(), s);
    let r = sort_by_text(texts, s);
    assert forall|i: int, j: int| 0 <= i < j < r.len() implies text_le(
        text_of(texts, #[trigger] r[i]),
        text_of(texts, #[trigger] r[j]),
    ) by {
        assert(own_key()(r[i]) == r[i] && own_key()(r[j]) == r[j]);
    }
}

/// The ids sorted by their texts; see [`sort_by_text`].
pub fn order_by_text(ids: &Vec<u64>, texts: &Vec<(u64, String)>) -> (r: Vec<u64>)
    ensures
        r@ == sort_by_text(texts@, ids@),
        in_text_order(texts@, r@),
        r@.to_multiset() == ids@.to_multiset(),
{
    let mut out: Vec<u64> = Vec::new();
    let mut i: usize = 0;
    while i < ids.len()
        invariant
            i <= ids@.len(),
            out@ == sort_by_text(texts@, ids@.take(i as int)),
        decreases ids@.len() - i,
    {
        let x = ids[i];
        let xt = text_for(texts, x);
        let mut pos: usize = 0;
        while pos < out.len() && text_le_exec(text_for(texts, out[pos]), xt)
            invariant
                pos <= out@.len(),
                xt@ == text_of(texts@, x),
                forall|j: int| 0 <= j < pos ==> text_le(text_of(texts@, #[trigger] out@[j]), xt@),
            decreases out@.len() - pos,
        {
            pos = pos + 1;
        }
        let ghost before = out@;
        proof {
            assert(own_key()(x) == x);
            assert forall|j: int| 0 <= j < pos implies text_le(
                text_of(texts@, own_key()(#[trigger] before[j])),
                text_of(texts@, own_key()(x)),
            ) by {
                assert(own_key()(before[j]) == before[j]);
            }
            if pos < before.len() {
                assert(own_key()(before[pos as int]) == before[pos as int]);
            }
            lemma_insert_at(texts@, own_key(), before, x, pos as int);
            assert(ids@.take(i + 1).drop_last() =~= ids@.take(i as int));
        }
        out.insert(pos, x);
        i = i + 1;
    }
    assert(ids@.take(i as int) =~= ids@);
    proof {
        lemma_sort_by_text(texts@, ids@);
    }
    out
}

} // verus!
