//! The node catalog: registered node types, search, draft-compatible pins
//! and the creation request that a choice produces.

use crate::graph_core::{spec_ports_connect, ports_connect, PortDirection, PortType};
use crate::text_input::{str_eq, text_chars};
use vstd::prelude::*;

verus! {

/// One port of a catalog entry, keyed by a consumer-defined stable key.
#[derive(Debug)]
pub struct CatalogPort<T> {
    pub id: String,
    pub label: String,
    pub direction: PortDirection,
    pub kind: T,
}

/// One creatable node type as shown in the catalog.
#[derive(Debug)]
pub struct NodeCatalogItem<T> {
    pub id: String,
    pub label: String,
    pub category: String,
    pub description: String,
    pub keywords: Vec<String>,
    pub ports: Vec<CatalogPort<T>>,
}

/// A port that a node type produces from a node's own data.
#[derive(Debug)]
pub struct DynamicPort<T> {
    pub key: String,
    pub label: String,
    pub kind: T,
}

/// Why a registration or a port reconciliation was refused.
#[derive(Clone, Debug, PartialEq, Eq)]
pub enum RegistryError {
    DuplicateNodeType(String),
    DuplicatePortKey { node_type: String, key: String },
    EmptyPortKey { node_type: String },
    PortIdCollision,
}

/// The port a draft connection started from, as the catalog needs it.
#[derive(Debug)]
pub struct CatalogOrigin<T> {
    pub direction: PortDirection,
    pub kind: T,
}

// ---------------------------------------------------------------------------
// Text search
// ---------------------------------------------------------------------------

/// The lowercase mapping of a text, as the standard library computes it.
pub uninterp spec fn lowercase(s: Seq<char>) -> Seq<char>;

/// `str::to_lowercase`: the full Unicode lowercase mapping, independent of
/// locale. Its result is named `lowercase`; nothing else about it is stated.
#[verifier::external_body]
fn lowercase_text(s: &str) -> (r: String)
    ensures
        r@ == lowercase(s@),
{
    s.to_lowercase()
}

/// `needle` occurs in `haystack` as a contiguous run.
pub open spec fn is_substring(needle: Seq<char>, haystack: Seq<char>) -> bool {
    exists|i: int|
        0 <= i && i + needle.len() <= haystack.len() && #[trigger] haystack.subrange(
            i,
            i + needle.len(),
        ) == needle
}

/// Whether `needle` occurs in `haystack`.
pub fn text_contains(haystack: &str, needle: &str) -> (r: bool)
    ensures
        r == is_substring(needle@, haystack@),
{
    let h = text_chars(haystack);
    let n = text_chars(needle);
    if n.len() > h.len() {
        proof {
            assert forall|i: int|
                0 <= i && i + n@.len() <= h@.len() implies #[trigger] h@.subrange(
                i,
                i + n@.len(),
            ) != n@ by {}
        }
        return false;
    }
    let mut i: usize = 0;
    while i <= h.len() - n.len()
        invariant
            h@ == haystack@,
            n@ == needle@,
            n.len() <= h.len(),
            i <= h.len() - n.len() + 1,
            forall|k: int| 0 <= k < i ==> #[trigger] h@.subrange(k, k + n@.len()) != n@,
        decreases h.len() - n.len() + 1 - i,
    {
        let mut j: usize = 0;
        let mut same = true;
        while j < n.len()
            invariant
                h@ == haystack@,
                n@ == needle@,
                i + n.len() <= h.len(),
                j <= n.len(),
                same == (forall|m: int| 0 <= m < j ==> h@[i + m] == n@[m]),
            decreases n.len() - j,
        {
            if h[i + j] != n[j] {
                same = false;
            }
            j = j + 1;
        }
        if same {
            assert(h@.subrange(i as int, i + n@.len()) =~= n@);
            return true;
        }
        assert(h@.subrange(i as int, i + n@.len()) != n@) by {
            let m = choose|m: int| 0 <= m < n.len() && h@[i + m] != n@[m];
            assert(h@.subrange(i as int, i + n@.len())[m] == h@[i + m]);
        }
        i = i + 1;
    }
    proof {
        assert forall|k: int|
            0 <= k && k + n@.len() <= h@.len() implies #[trigger] h@.subrange(
            k,
            k + n@.len(),
        ) != n@ by {
            assert(k < i);
        }
    }
    false
}

/// A lowercase query matches an entry when it is empty or occurs in the
/// lowercase label, category, description or any keyword.
pub open spec fn query_matches<T>(item: NodeCatalogItem<T>, query: Seq<char>) -> bool {
    let q = lowercase(query);
    ||| q.len() == 0
    ||| is_substring(q, lowercase(item.label@))
    ||| is_substring(q, lowercase(item.category@))
    ||| is_substring(q, lowercase(item.description@))
    ||| exists|k: int|
        0 <= k < item.keywords@.len() && is_substring(q, lowercase(#[trigger] item.keywords@[k]@))
}

/// Whether any of `fields` (already lowercased) contains the lowercased
/// query, or the query is empty.
pub fn matches_lowered(query_lower: &str, fields_lower: &Vec<String>) -> (r: bool)
    ensures
        r == (query_lower@.len() == 0 || exists|k: int|
            0 <= k < fields_lower@.len() && is_substring(
                query_lower@,
                #[trigger] fields_lower@[k]@,
            )),
{
    if query_lower.is_empty() {
        return true;
    }
    let mut k: usize = 0;
    while k < fields_lower.len()
        invariant
            k <= fields_lower.len(),
            query_lower@.len() != 0,
            forall|m: int| 0 <= m < k ==> !is_substring(query_lower@, #[trigger] fields_lower@[m]@),
        decreases fields_lower.len() - k,
    {
        if text_contains(fields_lower[k].as_str(), query_lower) {
            return true;
        }
        k = k + 1;
    }
    false
}

pub open spec fn lowered_fields<T>(item: NodeCatalogItem<T>) -> Seq<Seq<char>> {
    seq![lowercase(item.label@), lowercase(item.category@), lowercase(item.description@)]
        + item.keywords@.map_values(|k: String| lowercase(k@))
}

proof fn lemma_lowered_fields_match<T>(item: NodeCatalogItem<T>, query: Seq<char>, f: Seq<Seq<char>>)
    requires
        f == lowered_fields(item),
    ensures
        query_matches(item, query) == (lowercase(query).len() == 0 || exists|k: int|
            0 <= k < f.len() && is_substring(lowercase(query), #[trigger] f[k])),
{
    let q = lowercase(query);
    assert(f[0] == lowercase(item.label@));
    assert(f[1] == lowercase(item.category@));
    assert(f[2] == lowercase(item.description@));
    assert forall|k: int| 0 <= k < item.keywords@.len() implies #[trigger] f[k + 3] == lowercase(
        item.keywords@[k]@,
    ) by {}
    if is_substring(q, lowercase(item.label@)) {
        assert(is_substring(q, f[0]));
    }
    if is_substring(q, lowercase(item.category@)) {
        assert(is_substring(q, f[1]));
    }
    if is_substring(q, lowercase(item.description@)) {
        assert(is_substring(q, f[2]));
    }
    if exists|k: int|
        0 <= k < item.keywords@.len() && is_substring(q, lowercase(#[trigger] item.keywords@[k]@)) {
        let k = choose|k: int|
            0 <= k < item.keywords@.len() && is_substring(
                q,
                lowercase(#[trigger] item.keywords@[k]@),
            );
        assert(f[k + 3] == lowercase(item.keywords@[k]@));
        assert(is_substring(q, f[k + 3]));
    }
    if exists|k: int| 0 <= k < f.len() && is_substring(q, #[trigger] f[k]) {
        let k = choose|k: int| 0 <= k < f.len() && is_substring(q, #[trigger] f[k]);
        if k >= 3 {
            assert(f[(k - 3) + 3] == lowercase(item.keywords@[k - 3]@));
            assert(is_substring(q, lowercase(item.keywords@[k - 3]@)));
        }
    }
}

/// Whether a catalog entry matches a search query (case-insensitively).
pub fn item_matches_query<T>(item: &NodeCatalogItem<T>, query: &str) -> (r: bool)
    ensures
        r == query_matches(*item, query@),
{
    let q = lowercase_text(query);
    let mut fields: Vec<String> = Vec::new();
    fields.push(lowercase_text(item.label.as_str()));
    fields.push(lowercase_text(item.category.as_str()));
    fields.push(lowercase_text(item.description.as_str()));
    let mut k: usize = 0;
    while k < item.keywords.len()
        invariant
            k <= item.keywords.len(),
            fields@.len() == 3 + k,
            fields@[0]@ == lowercase(item.label@),
            fields@[1]@ == lowercase(item.category@),
            fields@[2]@ == lowercase(item.description@),
            forall|m: int| 0 <= m < k ==> #[trigger] fields@[3 + m]@ == lowercase(item.keywords@[m]@),
        decreases item.keywords.len() - k,
    {
        fields.push(lowercase_text(item.keywords[k].as_str()));
        k = k + 1;
    }
    let r = matches_lowered(q.as_str(), &fields);
    proof {
        let f = lowered_fields(*item);
        assert(f.len() == fields@.len());
        assert forall|m: int| 0 <= m < f.len() implies #[trigger] f[m] == fields@[m]@ by {
            if m >= 3 {
                assert(fields@[3 + (m - 3)]@ == lowercase(item.keywords@[m - 3]@));
            }
        }
        lemma_lowered_fields_match(*item, query@, f);
        if r && q@.len() != 0 {
            let k = choose|k: int| 0 <= k < fields@.len() && is_substring(q@, #[trigger] fields@[k]@);
            assert(is_substring(q@, f[k]));
        }
        if !r && q@.len() != 0 {
            assert forall|k: int| 0 <= k < f.len() implies !is_substring(q@, #[trigger] f[k]) by {
                assert(f[k] == fields@[k]@);
            }
        }
    }
    r
}

// ---------------------------------------------------------------------------
// Draft compatibility
// ---------------------------------------------------------------------------

/// A catalog pin can complete a draft that started at `origin`.
pub open spec fn pin_connects<T: PortType>(origin: CatalogOrigin<T>, port: CatalogPort<T>) -> bool {
    spec_ports_connect(origin.direction, &origin.kind, port.direction, &port.kind)
}

/// Indices, in order, of the first `n` pins that can complete the draft.
pub open spec fn compatible_prefix<T: PortType>(
    ports: Seq<CatalogPort<T>>,
    origin: CatalogOrigin<T>,
    n: int,
) -> Seq<usize>
    decreases n,
{
    if n <= 0 {
        Seq::<usize>::empty()
    } else {
        let prev = compatible_prefix(ports, origin, n - 1);
        if pin_connects(origin, ports[n - 1]) {
            prev.push((n - 1) as usize)
        } else {
            prev
        }
    }
}

pub open spec fn compatible_pins<T: PortType>(item: NodeCatalogItem<T>, origin: CatalogOrigin<T>) -> Seq<
    usize,
> {
    compatible_prefix(item.ports@, origin, item.ports@.len() as int)
}

/// Every listed pin connects, the list is strictly increasing, and every
/// connecting pin is listed.
pub proof fn lemma_compatible_prefix_exact<T: PortType>(
    ports: Seq<CatalogPort<T>>,
    origin: CatalogOrigin<T>,
    n: int,
)
    requires
        0 <= n <= ports.len(),
        n <= usize::MAX,
    ensures
        forall|i: int|
            0 <= i < compatible_prefix(ports, origin, n).len() ==> {
                let p = #[trigger] compatible_prefix(ports, origin, n)[i];
                &&& p < n
                &&& pin_connects(origin, ports[p as int])
            },
        forall|i: int, j: int|
            0 <= i < j < compatible_prefix(ports, origin, n).len() ==> #[trigger] compatible_prefix(
                ports,
                origin,
                n,
            )[i] < #[trigger] compatible_prefix(ports, origin, n)[j],
        forall|p: int|
            0 <= p < n && pin_connects(origin, #[trigger] ports[p]) ==> compatible_prefix(
                ports,
                origin,
                n,
            ).contains(p as usize),
    decreases n,
{
    if n > 0 {
        lemma_compatible_prefix_exact(ports, origin, n - 1);
        let prev = compatible_prefix(ports, origin, n - 1);
        if pin_connects(origin, ports[n - 1]) {
            let cur = prev.push((n - 1) as usize);
            assert(cur[prev.len() as int] == (n - 1) as usize);
            assert forall|p: int|
                0 <= p < n && pin_connects(origin, #[trigger] ports[p]) implies cur.contains(
                p as usize,
            ) by {
                if p < n - 1 {
                    let k = choose|k: int| 0 <= k < prev.len() && prev[k] == p as usize;
                    assert(cur[k] == p as usize);
                } else {
                    assert(cur[prev.len() as int] == p as usize);
                }
            }
        }
    }
}

/// Indices of the pins of `item` that can complete a draft from `origin`.
pub fn compatible_catalog_port_indices<T: PortType>(
    item: &NodeCatalogItem<T>,
    origin: &CatalogOrigin<T>,
) -> (r: Vec<usize>)
    ensures
        r@ == compatible_pins(*item, *origin),
{
    let mut out: Vec<usize> = Vec::new();
    let mut i: usize = 0;
    while i < item.ports.len()
        invariant
            i <= item.ports.len(),
            out@ == compatible_prefix(item.ports@, *origin, i as int),
        decreases item.ports.len() - i,
    {
        let port = &item.ports[i];
        if ports_connect(origin.direction, &origin.kind, port.direction, &port.kind) {
            out.push(i);
        }
        i = i + 1;
    }
    out
}

// ---------------------------------------------------------------------------
// Filtering and entries
// ---------------------------------------------------------------------------

/// An entry is listed when it matches the query and, during a draft, has a
/// pin that can complete the draft.
pub open spec fn entry_listed<T: PortType>(
    item: NodeCatalogItem<T>,
    query: Seq<char>,
    origin: Option<CatalogOrigin<T>>,
) -> bool {
    &&& match origin {
        Some(o) => compatible_pins(item, o).len() > 0,
        None => true,
    }
    &&& query_matches(item, query)
}

pub open spec fn filtered_prefix<T: PortType>(
    catalog: Seq<NodeCatalogItem<T>>,
    query: Seq<char>,
    origin: Option<CatalogOrigin<T>>,
    n: int,
) -> Seq<usize>
    decreases n,
{
    if n <= 0 {
        Seq::<usize>::empty()
    } else {
        let prev = filtered_prefix(catalog, query, origin, n - 1);
        if entry_listed(catalog[n - 1], query, origin) {
            prev.push((n - 1) as usize)
        } else {
            prev
        }
    }
}

pub open spec fn filtered_indices<T: PortType>(
    catalog: Seq<NodeCatalogItem<T>>,
    query: Seq<char>,
    origin: Option<CatalogOrigin<T>>,
) -> Seq<usize> {
    filtered_prefix(catalog, query, origin, catalog.len() as int)
}

pub open spec fn opt_origin<T>(origin: Option<&CatalogOrigin<T>>) -> Option<CatalogOrigin<T>> {
    match origin {
        Some(o) => Some(*o),
        None => None,
    }
}

/// Indices of the catalog entries that the menu lists for `query`, in
/// catalog order.
pub fn filtered_catalog_indices<T: PortType>(
    catalog: &Vec<NodeCatalogItem<T>>,
    query: &str,
    origin: Option<&CatalogOrigin<T>>,
) -> (r: Vec<usize>)
    ensures
        r@ == filtered_indices(catalog@, query@, opt_origin(origin)),
{
    let mut out: Vec<usize> = Vec::new();
    let mut i: usize = 0;
    while i < catalog.len()
        invariant
            i <= catalog.len(),
            out@ == filtered_prefix(catalog@, query@, opt_origin(origin), i as int),
        decreases catalog.len() - i,
    {
        let item = &catalog[i];
        let pins_ok = match origin {
            Some(o) => compatible_catalog_port_indices(item, o).len() > 0,
            None => true,
        };
        if pins_ok && item_matches_query(item, query) {
            out.push(i);
        }
        i = i + 1;
    }
    out
}

/// The selectable rows of the menu: one per listed entry, or, during a
/// draft, one per compatible pin of each listed entry.
pub open spec fn entry_rows<T: PortType>(
    catalog: Seq<NodeCatalogItem<T>>,
    origin: Option<CatalogOrigin<T>>,
    listed: Seq<usize>,
) -> Seq<(usize, Option<usize>)>
    decreases listed.len(),
{
    if listed.len() == 0 {
        Seq::<(usize, Option<usize>)>::empty()
    } else {
        let prev = entry_rows(catalog, origin, listed.drop_last());
        let item_index = listed.last();
        match origin {
            Some(o) => prev + compatible_pins(catalog[item_index as int], o).map_values(
                |p: usize| (item_index, Some(p)),
            ),
            None => prev.push((item_index, None)),
        }
    }
}

/// Selectable rows for `query`; see [`entry_rows`].
pub fn filtered_catalog_entries<T: PortType>(
    catalog: &Vec<NodeCatalogItem<T>>,
    query: &str,
    origin: Option<&CatalogOrigin<T>>,
) -> (r: Vec<(usize, Option<usize>)>)
    ensures
        r@ == entry_rows(
            catalog@,
            opt_origin(origin),
            filtered_indices(catalog@, query@, opt_origin(origin)),
        ),
{
    let listed = filtered_catalog_indices(catalog, query, origin);
    let catalog_len = catalog.len();
    proof {
        lemma_filtered_in_range(catalog@, query@, opt_origin(origin), catalog@.len() as int);
    }
    let mut out: Vec<(usize, Option<usize>)> = Vec::new();
    let mut i: usize = 0;
    while i < listed.len()
        invariant
            i <= listed.len(),
            listed@ == filtered_indices(catalog@, query@, opt_origin(origin)),
            forall|k: int| 0 <= k < listed@.len() ==> #[trigger] listed@[k] < catalog@.len(),
            out@ == entry_rows(catalog@, opt_origin(origin), listed@.take(i as int)),
        decreases listed.len() - i,
    {
        let item_index = listed[i];
        assert(listed@.take(i + 1).drop_last() =~= listed@.take(i as int));
        match origin {
            Some(o) => {
                let pins = compatible_catalog_port_indices(&catalog[item_index], o);
                let ghost before = out@;
                let mut j: usize = 0;
                while j < pins.len()
                    invariant
                        j <= pins.len(),
                        out@ == before + pins@.take(j as int).map_values(
                            |p: usize| (item_index, Some(p)),
                        ),
                    decreases pins.len() - j,
                {
                    out.push((item_index, Some(pins[j])));
                    assert(pins@.take(j + 1).map_values(|p: usize| (item_index, Some(p)))
                        =~= pins@.take(j as int).map_values(|p: usize| (item_index, Some(p))).push(
                        (item_index, Some(pins@[j as int])),
                    ));
                    j = j + 1;
                }
                assert(pins@.take(pins@.len() as int) =~= pins@);
            },
            None => {
                out.push((item_index, None));
            },
        }
        i = i + 1;
    }
    assert(listed@.take(listed@.len() as int) =~= listed@);
    out
}

/// The children of the menu's scrolling list for the listed entries, in
/// order: a category header before each entry whose category differs from
/// the previous entry's, the entry's own row, and, during a draft, one row
/// per compatible pin. A child is `Some(n)` when it shows the `n`-th
/// selectable row (see [`entry_rows`]); headers, and during a draft the
/// entry rows, which are labels only, are `None`.
pub open spec fn menu_children<T: PortType>(
    catalog: Seq<NodeCatalogItem<T>>,
    origin: Option<CatalogOrigin<T>>,
    listed: Seq<usize>,
) -> Seq<Option<int>>
    decreases listed.len(),
{
    if listed.len() == 0 {
        Seq::<Option<int>>::empty()
    } else {
        let before = listed.drop_last();
        let item = catalog[listed.last() as int];
        let rows = entry_rows(catalog, origin, before).len() as int;
        let lead = if before.len() == 0 || catalog[before.last() as int].category@
            != item.category@ {
            menu_children(catalog, origin, before).push(None)
        } else {
            menu_children(catalog, origin, before)
        };
        match origin {
            None => lead.push(Some(rows)),
            Some(o) => lead.push(None) + Seq::new(
                compatible_pins(item, o).len(),
                |j: int| Some(rows + j),
            ),
        }
    }
}

/// Every child shows a row that exists.
proof fn lemma_menu_children_rows<T: PortType>(
    catalog: Seq<NodeCatalogItem<T>>,
    origin: Option<CatalogOrigin<T>>,
    listed: Seq<usize>,
)
    ensures
        forall|j: int|
            0 <= j < menu_children(catalog, origin, listed).len() ==> match #[trigger] menu_children(
                catalog,
                origin,
                listed,
            )[j] {
                Some(n) => 0 <= n < entry_rows(catalog, origin, listed).len(),
                None => true,
            },
    decreases listed.len(),
{
    if listed.len() > 0 {
        let before = listed.drop_last();
        lemma_menu_children_rows(catalog, origin, before);
        let prev = menu_children(catalog, origin, before);
        let cur = menu_children(catalog, origin, listed);
        assert forall|j: int| 0 <= j < cur.len() implies match #[trigger] cur[j] {
            Some(n) => 0 <= n < entry_rows(catalog, origin, listed).len(),
            None => true,
        } by {
            if j < prev.len() {
                assert(cur[j] == prev[j]);
            }
        }
    }
}

/// Every selectable row has its own child.
proof fn lemma_rows_within_children<T: PortType>(
    catalog: Seq<NodeCatalogItem<T>>,
    origin: Option<CatalogOrigin<T>>,
    listed: Seq<usize>,
)
    ensures
        entry_rows(catalog, origin, listed).len() <= menu_children(catalog, origin, listed).len(),
    decreases listed.len(),
{
    if listed.len() > 0 {
        lemma_rows_within_children(catalog, origin, listed.drop_last());
    }
}

/// The children of a shorter prefix of the listed entries come first.
proof fn lemma_menu_children_prefix<T: PortType>(
    catalog: Seq<NodeCatalogItem<T>>,
    origin: Option<CatalogOrigin<T>>,
    listed: Seq<usize>,
    m: int,
    n: int,
)
    requires
        0 <= m <= n <= listed.len(),
    ensures
        menu_children(catalog, origin, listed.take(m)).len() <= menu_children(
            catalog,
            origin,
            listed.take(n),
        ).len(),
        forall|j: int|
            0 <= j < menu_children(catalog, origin, listed.take(m)).len() ==> #[trigger] menu_children(
                catalog,
                origin,
                listed.take(n),
            )[j] == menu_children(catalog, origin, listed.take(m))[j],
    decreases n - m,
{
    if m < n {
        lemma_menu_children_prefix(catalog, origin, listed, m, n - 1);
        assert(listed.take(n).drop_last() =~= listed.take(n - 1));
    }
}

/// The entries listed for a query are listed entries.
proof fn lemma_filtered_listed<T: PortType>(
    catalog: Seq<NodeCatalogItem<T>>,
    query: Seq<char>,
    origin: Option<CatalogOrigin<T>>,
    n: int,
)
    requires
        0 <= n <= catalog.len(),
        n <= usize::MAX,
    ensures
        forall|k: int|
            0 <= k < filtered_prefix(catalog, query, origin, n).len() ==> entry_listed(
                catalog[#[trigger] filtered_prefix(catalog, query, origin, n)[k] as int],
                query,
                origin,
            ),
    decreases n,
{
    if n > 0 {
        lemma_filtered_listed(catalog, query, origin, n - 1);
        let prev = filtered_prefix(catalog, query, origin, n - 1);
        if entry_listed(catalog[n - 1], query, origin) {
            let cur = prev.push((n - 1) as usize);
            assert forall|k: int| 0 <= k < cur.len() implies entry_listed(
                catalog[#[trigger] cur[k] as int],
                query,
                origin,
            ) by {
                if k < prev.len() {
                    assert(cur[k] == prev[k]);
                }
            }
        }
    }
}

/// The position, among the children of the menu's scrolling list, of the
/// child that shows the selectable row `selected`: the child to scroll into
/// view. `None` when no child shows that row.
pub fn catalog_scroll_child<T: PortType>(
    catalog: &Vec<NodeCatalogItem<T>>,
    query: &str,
    origin: Option<&CatalogOrigin<T>>,
    selected: usize,
) -> (r: Option<usize>)
    requires
        menu_children(
            catalog@,
            opt_origin(origin),
            filtered_indices(catalog@, query@, opt_origin(origin)),
        ).len() <= usize::MAX,
    ensures
        ({
            let children = menu_children(
                catalog@,
                opt_origin(origin),
                filtered_indices(catalog@, query@, opt_origin(origin)),
            );
            match r {
                Some(k) => {
                    &&& k < children.len()
                    &&& children[k as int] == Some(selected as int)
                    &&& forall|j: int| 0 <= j < k ==> children[j] != Some(selected as int)
                },
                None => forall|j: int| 0 <= j < children.len() ==> children[j] != Some(selected as int),
            }
        }),
{
    let ghost o = opt_origin(origin);
    let listed = filtered_catalog_indices(catalog, query, origin);
    let catalog_len = catalog.len();
    proof {
        lemma_filtered_in_range(catalog@, query@, o, catalog@.len() as int);
        lemma_filtered_listed(catalog@, query@, o, catalog@.len() as int);
        assert(listed@.take(listed@.len() as int) =~= listed@);
    }
    let mut child: usize = 0;
    let mut entry: usize = 0;
    let mut i: usize = 0;
    while i < listed.len()
        invariant
            listed@ == filtered_indices(catalog@, query@, o),
            o == opt_origin(origin),
            forall|k: int| 0 <= k < listed@.len() ==> #[trigger] listed@[k] < catalog@.len(),
            forall|k: int|
                0 <= k < listed@.len() ==> entry_listed(
                    catalog@[#[trigger] listed@[k] as int],
                    query@,
                    o,
                ),
            listed@.take(listed@.len() as int) == listed@,
            menu_children(catalog@, o, listed@).len() <= usize::MAX,
            i <= listed.len(),
            child == menu_children(catalog@, o, listed@.take(i as int)).len(),
            entry == entry_rows(catalog@, o, listed@.take(i as int)).len(),
            entry <= selected,
        decreases listed.len() - i,
    {
        let item_index = listed[i];
        let item = &catalog[item_index];
        let header = if i == 0 {
            true
        } else {
            catalog[listed[i - 1]].category != item.category
        };
        let ghost upto = listed@.take(i + 1);
        proof {
            assert(upto.drop_last() =~= listed@.take(i as int));
            assert(upto.last() == item_index);
            if i > 0 {
                assert(upto.drop_last().last() == listed@[i - 1]);
            }
            lemma_menu_children_prefix(catalog@, o, listed@, i + 1, listed@.len() as int);
            lemma_menu_children_rows(catalog@, o, listed@.take(i as int));
            lemma_rows_within_children(catalog@, o, upto);
        }
        let at = if header {
            child + 1
        } else {
            child
        };
        let pins = match origin {
            Some(from) => compatible_catalog_port_indices(item, from).len(),
            None => 0,
        };
        let consumed = if pins > 1 {
            pins
        } else {
            1
        };
        proof {
            let children = menu_children(catalog@, o, upto);
            match o {
                Some(from) => {
                    assert(pins == compatible_pins(catalog@[item_index as int], from).len());
                    assert(pins >= 1);
                    assert(children.len() == at + 1 + pins);
                },
                None => {
                    assert(children.len() == at + 1);
                },
            }
            assert(entry_rows(catalog@, o, upto).len() == entry + consumed);
        }
        if selected < entry + consumed {
            let k = match origin {
                Some(_) => at + 1 + (selected - entry),
                None => at,
            };
            proof {
                let full = menu_children(catalog@, o, listed@);
                let children = menu_children(catalog@, o, upto);
                let prev = menu_children(catalog@, o, listed@.take(i as int));
                assert(full[k as int] == children[k as int]);
                assert(children[k as int] == Some(selected as int));
                assert forall|j: int| 0 <= j < k implies full[j] != Some(selected as int) by {
                    assert(full[j] == children[j]);
                    if j < prev.len() {
                        assert(children[j] == prev[j]);
                    }
                }
            }
            return Some(k);
        }
        entry = entry + consumed;
        child = match origin {
            Some(_) => at + 1 + pins,
            None => at + 1,
        };
        i = i + 1;
    }
    proof {
        lemma_menu_children_rows(catalog@, o, listed@);
    }
    None
}

proof fn lemma_filtered_in_range<T: PortType>(
    catalog: Seq<NodeCatalogItem<T>>,
    query: Seq<char>,
    origin: Option<CatalogOrigin<T>>,
    n: int,
)
    requires
        0 <= n <= catalog.len(),
        n <= usize::MAX,
    ensures
        forall|k: int|
            0 <= k < filtered_prefix(catalog, query, origin, n).len() ==> #[trigger] filtered_prefix(
                catalog,
                query,
                origin,
                n,
            )[k] < n,
    decreases n,
{
    if n > 0 {
        lemma_filtered_in_range(catalog, query, origin, n - 1);
        let prev = filtered_prefix(catalog, query, origin, n - 1);
        if entry_listed(catalog[n - 1], query, origin) {
            let cur = prev.push((n - 1) as usize);
            assert forall|k: int| 0 <= k < cur.len() implies #[trigger] cur[k] < n by {
                if k < prev.len() {
                    assert(cur[k] == prev[k]);
                }
            }
        }
    }
}

} // verus!

verus! {

// ---------------------------------------------------------------------------
// Choosing a row
// ---------------------------------------------------------------------------

/// What choosing a menu row requests: the node type to create and, during a
/// draft, the pin of the new node to connect and the direction the draft
/// started from.
#[derive(Clone, Debug, PartialEq, Eq)]
pub struct CatalogChoice {
    pub item_id: String,
    pub connect_to: Option<String>,
    pub connect_direction: Option<PortDirection>,
}

/// Whether choosing row `(item_index, port_index)` is valid, and what it
/// requests. During a draft only a compatible pin may be chosen; outside a
/// draft no pin may be named.
pub open spec fn choice_valid<T: PortType>(
    catalog: Seq<NodeCatalogItem<T>>,
    item_index: int,
    port_index: Option<usize>,
    origin: Option<CatalogOrigin<T>>,
) -> bool {
    &&& 0 <= item_index < catalog.len()
    &&& match origin {
        Some(o) => match port_index {
            Some(p) => compatible_pins(catalog[item_index], o).contains(p),
            None => false,
        },
        None => port_index is None,
    }
}

fn usize_vec_contains(v: &Vec<usize>, x: usize) -> (r: bool)
    ensures
        r == v@.contains(x),
{
    let mut i: usize = 0;
    while i < v.len()
        invariant
            i <= v.len(),
            forall|j: int| 0 <= j < i ==> v@[j] != x,
        decreases v.len() - i,
    {
        if v[i] == x {
            return true;
        }
        i = i + 1;
    }
    false
}

/// The creation request for choosing row `(item_index, port_index)`, or
/// `None` when the row is not a valid choice.
pub fn catalog_choice<T: PortType>(
    catalog: &Vec<NodeCatalogItem<T>>,
    item_index: usize,
    port_index: Option<usize>,
    origin: Option<&CatalogOrigin<T>>,
) -> (r: Option<CatalogChoice>)
    ensures
        r is Some <==> choice_valid(catalog@, item_index as int, port_index, opt_origin(origin)),
        r matches Some(c) ==> {
            &&& c.item_id@ == catalog@[item_index as int].id@
            &&& match (origin, port_index) {
                (Some(o), Some(p)) => c.connect_to matches Some(k) && k@
                    == catalog@[item_index as int].ports@[p as int].id@ && c.connect_direction
                    == Some(o.direction),
                _ => c.connect_to is None && c.connect_direction is None,
            }
        },
{
    if item_index >= catalog.len() {
        return None;
    }
    let item = &catalog[item_index];
    match origin {
        Some(o) => match port_index {
            Some(p) => {
                let pins = compatible_catalog_port_indices(item, o);
                if !usize_vec_contains(&pins, p) {
                    return None;
                }
                let n_ports = item.ports.len();
                proof {
                    lemma_compatible_prefix_exact(item.ports@, *o, n_ports as int);
                    let k = choose|k: int| 0 <= k < pins@.len() && pins@[k] == p;
                    assert(pins@[k] < item.ports@.len());
                }
                Some(
                    CatalogChoice {
                        item_id: item.id.clone(),
                        connect_to: Some(item.ports[p].id.clone()),
                        connect_direction: Some(o.direction),
                    },
                )
            },
            None => None,
        },
        None => match port_index {
            Some(_) => None,
            None => Some(
                CatalogChoice { item_id: item.id.clone(), connect_to: None, connect_direction: None },
            ),
        },
    }
}

// ---------------------------------------------------------------------------
// Node type definitions and their registry
// ---------------------------------------------------------------------------

/// The stable keys of a port list.
pub open spec fn port_keys<T>(ports: Seq<CatalogPort<T>>) -> Seq<Seq<char>> {
    ports.map_values(|p: CatalogPort<T>| p.id@)
}

/// Key `i` is empty or repeats an earlier key.
pub open spec fn key_fault(keys: Seq<Seq<char>>, i: int) -> bool {
    keys[i].len() == 0 || exists|j: int| 0 <= j < i && keys[j] == keys[i]
}

/// The first faulty key at or after `i`.
pub open spec fn first_fault_from(keys: Seq<Seq<char>>, i: int) -> Option<int>
    decreases keys.len() - i,
{
    if i < 0 || i >= keys.len() {
        None
    } else if key_fault(keys, i) {
        Some(i)
    } else {
        first_fault_from(keys, i + 1)
    }
}

/// The verdict on a port list: none for a valid list, else the error that
/// the first faulty key raises.
pub open spec fn keys_verdict(
    node_type: Seq<char>,
    keys: Seq<Seq<char>>,
    r: Result<(), RegistryError>,
) -> bool {
    match first_fault_from(keys, 0) {
        None => r is Ok,
        Some(i) => if keys[i].len() == 0 {
            r matches Err(RegistryError::EmptyPortKey { node_type: t }) && t@ == node_type
        } else {
            r matches Err(RegistryError::DuplicatePortKey { node_type: t, key: k }) && t@
                == node_type && k@ == keys[i]
        },
    }
}

proof fn lemma_first_fault_step(keys: Seq<Seq<char>>, i: int)
    requires
        0 <= i < keys.len(),
        !key_fault(keys, i),
    ensures
        first_fault_from(keys, i) == first_fault_from(keys, i + 1),
{
}

/// Every key of a list that passes is non-empty and unique.
pub proof fn lemma_valid_keys_unique(keys: Seq<Seq<char>>, i: int)
    requires
        0 <= i <= keys.len(),
        first_fault_from(keys, i) is None,
        forall|m: int| 0 <= m < i ==> !key_fault(keys, m),
    ensures
        forall|m: int| 0 <= m < keys.len() ==> #[trigger] keys[m].len() > 0,
        forall|a: int, b: int| 0 <= a < b < keys.len() ==> #[trigger] keys[a] != #[trigger] keys[b],
    decreases keys.len() - i,
{
    if i < keys.len() {
        assert(!key_fault(keys, i));
        lemma_valid_keys_unique(keys, i + 1);
    } else {
        assert forall|m: int| 0 <= m < keys.len() implies #[trigger] keys[m].len() > 0 by {
            assert(!key_fault(keys, m));
        }
        assert forall|a: int, b: int| 0 <= a < b < keys.len() implies #[trigger] keys[a]
            != #[trigger] keys[b] by {
            assert(!key_fault(keys, b));
        }
    }
}

/// Check a port list in order: the first empty or repeated key is refused.
pub fn validate_port_keys<T>(node_type: &String, ports: &Vec<CatalogPort<T>>) -> (r: Result<
    (),
    RegistryError,
>)
    ensures
        keys_verdict(node_type@, port_keys(ports@), r),
{
    let ghost keys = port_keys(ports@);
    let mut i: usize = 0;
    while i < ports.len()
        invariant
            i <= ports.len(),
            keys == port_keys(ports@),
            first_fault_from(keys, 0) == first_fault_from(keys, i as int),
        decreases ports.len() - i,
    {
        if ports[i].id.as_str().is_empty() {
            assert(key_fault(keys, i as int));
            return Err(RegistryError::EmptyPortKey { node_type: node_type.clone() });
        }
        assert(keys[i as int] == ports@[i as int].id@);
        assert(keys[i as int].len() > 0);
        assert(first_fault_from(keys, 0) == first_fault_from(keys, i as int));
        let mut j: usize = 0;
        while j < i
            invariant
                keys[i as int].len() > 0,
                first_fault_from(keys, 0) == first_fault_from(keys, i as int),
                j <= i < ports.len(),
                keys == port_keys(ports@),
                forall|m: int| 0 <= m < j ==> keys[m] != keys[i as int],
            decreases i - j,
        {
            assert(keys[j as int] == ports@[j as int].id@);
            assert(keys[i as int] == ports@[i as int].id@);
            if ports[j].id == ports[i].id {
                assert(keys[j as int] == ports@[j as int].id@);
                assert(keys[i as int] == ports@[i as int].id@);
                assert(keys[j as int] == keys[i as int]);
                assert(key_fault(keys, i as int));
                return Err(
                    RegistryError::DuplicatePortKey {
                        node_type: node_type.clone(),
                        key: ports[i].id.clone(),
                    },
                );
            }
            j = j + 1;
        }
        proof {
            assert(keys[i as int].len() > 0) by {
                assert(keys[i as int] == ports@[i as int].id@);
            }
            lemma_first_fault_step(keys, i as int);
        }
        i = i + 1;
    }
    Ok(())
}

/// A node type as registered: its catalog entry. Renderers and dynamic-port
/// producers are attached by the host next to it.
#[derive(Debug)]
pub struct NodeTypeDefinition<T> {
    pub item: NodeCatalogItem<T>,
}

/// Fluent construction of a node type definition.
pub struct NodeTypeBuilder<T> {
    definition: NodeTypeDefinition<T>,
}

impl<T> NodeTypeBuilder<T> {
    pub closed spec fn item(&self) -> NodeCatalogItem<T> {
        self.definition.item
    }

    /// A node type with the given id and label, no category, description,
    /// keywords or ports.
    pub fn new(id: String, label: String) -> (r: Self)
        ensures
            r.item().id == id,
            r.item().label == label,
            r.item().category@ == Seq::<char>::empty(),
            r.item().description@ == Seq::<char>::empty(),
            r.item().keywords@.len() == 0,
            r.item().ports@.len() == 0,
    {
        NodeTypeBuilder {
            definition: NodeTypeDefinition {
                item: NodeCatalogItem {
                    id,
                    label,
                    category: String::new(),
                    description: String::new(),
                    keywords: Vec::new(),
                    ports: Vec::new(),
                },
            },
        }
    }

    /// Set the category the catalog groups the type under.
    pub fn category(self, category: String) -> (r: Self)
        ensures
            r.item() == (NodeCatalogItem { category, ..self.item() }),
    {
        let mut s = self;
        s.definition.item.category = category;
        s
    }

    /// Set the description the catalog searches and shows.
    pub fn description(self, description: String) -> (r: Self)
        ensures
            r.item() == (NodeCatalogItem { description, ..self.item() }),
    {
        let mut s = self;
        s.definition.item.description = description;
        s
    }

    /// Set the extra words the catalog search matches.
    pub fn keywords(self, keywords: Vec<String>) -> (r: Self)
        ensures
            r.item() == (NodeCatalogItem { keywords, ..self.item() }),
    {
        let mut s = self;
        s.definition.item.keywords = keywords;
        s
    }

    /// Append an input port.
    pub fn input(self, key: String, label: String, kind: T) -> (r: Self)
        ensures
            r.item().ports@ == self.item().ports@.push(
                CatalogPort { id: key, label, direction: PortDirection::Input, kind },
            ),
            r.item().id == self.item().id,
            r.item().label == self.item().label,
            r.item().category == self.item().category,
            r.item().description == self.item().description,
            r.item().keywords == self.item().keywords,
    {
        let mut s = self;
        s.definition.item.ports.push(
            CatalogPort { id: key, label, direction: PortDirection::Input, kind },
        );
        s
    }

    /// Append an output port.
    pub fn output(self, key: String, label: String, kind: T) -> (r: Self)
        ensures
            r.item().ports@ == self.item().ports@.push(
                CatalogPort { id: key, label, direction: PortDirection::Output, kind },
            ),
            r.item().id == self.item().id,
            r.item().label == self.item().label,
            r.item().category == self.item().category,
            r.item().description == self.item().description,
            r.item().keywords == self.item().keywords,
    {
        let mut s = self;
        s.definition.item.ports.push(
            CatalogPort { id: key, label, direction: PortDirection::Output, kind },
        );
        s
    }

    /// Finish the definition; refused when a port key is empty or repeated.
    pub fn build(self) -> (r: Result<NodeTypeDefinition<T>, RegistryError>)
        ensures
            keys_verdict(
                self.item().id@,
                port_keys(self.item().ports@),
                match r {
                    Ok(_) => Ok(()),
                    Err(e) => Err(e),
                },
            ),
            r matches Ok(d) ==> d.item == self.item(),
    {
        match validate_port_keys(&self.definition.item.id, &self.definition.item.ports) {
            Ok(()) => Ok(self.definition),
            Err(e) => Err(e),
        }
    }
}

/// Registered node types in registration order, each id at most once.
pub struct NodeTypeRegistry<T> {
    definitions: Vec<NodeTypeDefinition<T>>,
}

impl<T> NodeTypeRegistry<T> {
    /// The registered definitions, in registration order.
    pub closed spec fn definitions(&self) -> Seq<NodeTypeDefinition<T>> {
        self.definitions@
    }

    pub open spec fn ids(&self) -> Seq<Seq<char>> {
        self.definitions().map_values(|d: NodeTypeDefinition<T>| d.item.id@)
    }

    /// No id is registered twice.
    pub open spec fn well_formed(&self) -> bool {
        forall|a: int, b: int|
            0 <= a < b < self.ids().len() ==> #[trigger] self.ids()[a] != #[trigger] self.ids()[b]
    }

    /// An empty registry.
    pub fn new() -> (r: Self)
        ensures
            r.definitions().len() == 0,
            r.well_formed(),
    {
        NodeTypeRegistry { definitions: Vec::new() }
    }

    fn position(&self, id: &str) -> (r: Option<usize>)
        ensures
            match r {
                Some(i) => i < self.ids().len() && self.ids()[i as int] == id@,
                None => !self.ids().contains(id@),
            },
    {
        let mut i: usize = 0;
        while i < self.definitions.len()
            invariant
                i <= self.definitions.len(),
                forall|j: int| 0 <= j < i ==> self.ids()[j] != id@,
            decreases self.definitions.len() - i,
        {
            if str_eq(self.definitions[i].item.id.as_str(), id) {
                return Some(i);
            }
            i = i + 1;
        }
        proof {
            if self.ids().contains(id@) {
                let j = choose|j: int| 0 <= j < self.ids().len() && self.ids()[j] == id@;
                assert(j < i);
            }
        }
        None
    }

    /// Register a definition; refused when its id is already registered.
    pub fn register(&mut self, definition: NodeTypeDefinition<T>) -> (r: Result<(), RegistryError>)
        requires
            old(self).well_formed(),
        ensures
            final(self).well_formed(),
            old(self).ids().contains(definition.item.id@) ==> {
                &&& r matches Err(RegistryError::DuplicateNodeType(id)) && id@
                    == definition.item.id@
                &&& final(self).definitions() == old(self).definitions()
            },
            !old(self).ids().contains(definition.item.id@) ==> {
                &&& r is Ok
                &&& final(self).definitions() == old(self).definitions().push(definition)
            },
    {
        match self.position(definition.item.id.as_str()) {
            Some(_) => {
                let id = definition.item.id.clone();
                Err(RegistryError::DuplicateNodeType(id))
            },
            None => {
                let ghost before = self.ids();
                let ghost new_id = definition.item.id@;
                self.definitions.push(definition);
                proof {
                    assert(self.ids() =~= before.push(new_id));
                    assert forall|a: int, b: int|
                        0 <= a < b < self.ids().len() implies #[trigger] self.ids()[a]
                        != #[trigger] self.ids()[b] by {
                        if b == before.len() {
                            assert(self.ids()[a] == before[a]);
                            assert(before.contains(before[a]));
                        } else {
                            assert(self.ids()[a] == before[a]);
                            assert(self.ids()[b] == before[b]);
                        }
                    }
                }
                Ok(())
            },
        }
    }

    /// The definition registered under `node_type`, if any.
    pub fn get(&self, node_type: &str) -> (r: Option<&NodeTypeDefinition<T>>)
        requires
            self.well_formed(),
        ensures
            match r {
                Some(d) => exists|i: int|
                    0 <= i < self.definitions().len() && self.definitions()[i] == *d && self.ids()[i]
                        == node_type@,
                None => !self.ids().contains(node_type@),
            },
    {
        match self.position(node_type) {
            Some(i) => Some(&self.definitions[i]),
            None => None,
        }
    }
}

} // verus!

verus! {

/// `b` is a copy of `a`: equal texts and directions, cloned kinds.
pub open spec fn port_copy<T: Clone>(a: CatalogPort<T>, b: CatalogPort<T>) -> bool {
    &&& b.id@ == a.id@
    &&& b.label@ == a.label@
    &&& b.direction == a.direction
    &&& cloned(a.kind, b.kind)
}

/// `b` is a copy of `a`, port by port.
pub open spec fn entry_copy<T: Clone>(a: NodeCatalogItem<T>, b: NodeCatalogItem<T>) -> bool {
    &&& b.id@ == a.id@
    &&& b.label@ == a.label@
    &&& b.category@ == a.category@
    &&& b.description@ == a.description@
    &&& b.keywords@.len() == a.keywords@.len()
    &&& forall|k: int| 0 <= k < a.keywords@.len() ==> #[trigger] b.keywords@[k]@ == a.keywords@[k]@
    &&& b.ports@.len() == a.ports@.len()
    &&& forall|k: int| 0 <= k < a.ports@.len() ==> port_copy(a.ports@[k], #[trigger] b.ports@[k])
}

impl<T: Clone> Clone for CatalogPort<T> {
    fn clone(&self) -> (r: Self)
        ensures
            port_copy(*self, r),
    {
        CatalogPort {
            id: self.id.clone(),
            label: self.label.clone(),
            direction: self.direction,
            kind: self.kind.clone(),
        }
    }
}

impl<T: Clone> Clone for NodeCatalogItem<T> {
    fn clone(&self) -> (r: Self)
        ensures
            entry_copy(*self, r),
    {
        let mut keywords: Vec<String> = Vec::new();
        let mut i: usize = 0;
        while i < self.keywords.len()
            invariant
                i <= self.keywords.len(),
                keywords@.len() == i,
                forall|k: int| 0 <= k < i ==> #[trigger] keywords@[k]@ == self.keywords@[k]@,
            decreases self.keywords.len() - i,
        {
            keywords.push(self.keywords[i].clone());
            i = i + 1;
        }
        let mut ports: Vec<CatalogPort<T>> = Vec::new();
        let mut j: usize = 0;
        while j < self.ports.len()
            invariant
                j <= self.ports.len(),
                ports@.len() == j,
                forall|k: int| 0 <= k < j ==> port_copy(self.ports@[k], #[trigger] ports@[k]),
            decreases self.ports.len() - j,
        {
            ports.push(self.ports[j].clone());
            j = j + 1;
        }
        NodeCatalogItem {
            id: self.id.clone(),
            label: self.label.clone(),
            category: self.category.clone(),
            description: self.description.clone(),
            keywords,
            ports,
        }
    }
}

impl<T: Clone> NodeTypeRegistry<T> {
    /// The catalog entries of every registered type, in registration order.
    pub fn catalog(&self) -> (r: Vec<NodeCatalogItem<T>>)
        ensures
            r@.len() == self.definitions().len(),
            forall|i: int|
                0 <= i < r@.len() ==> entry_copy(self.definitions()[i].item, #[trigger] r@[i]),
    {
        let mut out: Vec<NodeCatalogItem<T>> = Vec::new();
        let mut i: usize = 0;
        while i < self.definitions.len()
            invariant
                i <= self.definitions.len(),
                out@.len() == i,
                forall|k: int|
                    0 <= k < i ==> entry_copy(self.definitions()[k].item, #[trigger] out@[k]),
            decreases self.definitions.len() - i,
        {
            out.push(self.definitions[i].item.clone());
            i = i + 1;
        }
        out
    }
}

} // verus!
