//! The connection graph of the running agents: for each source agent, the
//! ordered list of `(target, source_handle, target_handle)` edges leaving it,
//! kept in an insertion-ordered `IndexMap` with the FNV hasher.

use vstd::prelude::*;
use crate::error::AgentError;
use crate::text::str_eq;
use crate::tracking::{has_key, keys_unique, lookup, names_view};

verus! {

/// A connection between two agent ports: a directed edge from an output
/// port of a source agent to an input port of a target agent.
#[derive(Clone, Debug, Default)]
pub struct ConnectionSpec {
    /// ID of the source agent.
    pub source: String,
    /// Output port name on the source agent.
    pub source_handle: String,
    /// ID of the target agent.
    pub target: String,
    /// Input port name on the target agent.
    pub target_handle: String,
}

/// One edge leaving a source agent: `(target, source_handle, target_handle)`,
/// by their characters.
pub type Edge = (Seq<char>, Seq<char>, Seq<char>);

/// A connection by its characters: `(source, target, source_handle,
/// target_handle)`.
pub type Link = (Seq<char>, Seq<char>, Seq<char>, Seq<char>);

/// The characters of a stored edge.
pub open spec fn edge_view(e: (String, String, String)) -> Edge {
    (e.0@, e.1@, e.2@)
}

/// The characters of a list of stored edges.
pub open spec fn edges_view(v: Vec<(String, String, String)>) -> Seq<Edge> {
    v@.map_values(|e: (String, String, String)| edge_view(e))
}

/// The edge a connection adds to its source's list.
pub open spec fn spec_edge(c: ConnectionSpec) -> Edge {
    (c.target@, c.source_handle@, c.target_handle@)
}

/// The characters of a connection.
pub open spec fn spec_link(c: ConnectionSpec) -> Link {
    (c.source@, c.target@, c.source_handle@, c.target_handle@)
}

/// Whether two connections have the same four fields.
pub open spec fn same_connection(a: ConnectionSpec, b: ConnectionSpec) -> bool {
    spec_link(a) == spec_link(b)
}

impl ConnectionSpec {
    /// Field-by-field equality of two connections.
    pub fn same_as(&self, other: &ConnectionSpec) -> (r: bool)
        ensures
            r == same_connection(*self, *other),
    {
        str_eq(self.source.as_str(), other.source.as_str()) && str_eq(
            self.source_handle.as_str(),
            other.source_handle.as_str(),
        ) && str_eq(self.target.as_str(), other.target.as_str()) && str_eq(
            self.target_handle.as_str(),
            other.target_handle.as_str(),
        )
    }
}

/// `fnv::FnvHasher`, the hasher state of the connection map.
#[verifier::external_type_specification]
#[verifier::external_body]
pub struct ExFnvHasher(fnv::FnvHasher);

/// `std::hash::BuildHasherDefault`, which builds the FNV hashers.
#[verifier::external_type_specification]
#[verifier::external_body]
#[verifier::reject_recursive_types(H)]
pub struct ExBuildHasherDefault<H>(std::hash::BuildHasherDefault<H>);

/// `indexmap::IndexMap`, an insertion-ordered hash map.
#[verifier::external_type_specification]
#[verifier::external_body]
#[verifier::reject_recursive_types(K)]
#[verifier::reject_recursive_types(V)]
#[verifier::reject_recursive_types(S)]
pub struct ExIndexMap<K, V, S>(indexmap::IndexMap<K, V, S>);

/// The map type that stores the edges: source agent id to its edge list.
pub type EdgeMap = indexmap::IndexMap<String, Vec<(String, String, String)>, fnv::FnvBuildHasher>;

/// What an edge map holds: its entries in the map's order, each a source
/// id with its edge list, by their characters.
pub uninterp spec fn edge_map_entries(m: EdgeMap) -> Seq<(Seq<char>, Seq<Edge>)>;

/// The position of `key` among the entries.
pub open spec fn key_index<T>(s: Seq<(Seq<char>, T)>, key: Seq<char>) -> int {
    choose|i: int| 0 <= i < s.len() && #[trigger] s[i].0 == key
}

/// The entries after `IndexMap::insert`: an existing key keeps its position
/// and gets the new value; a new key is appended last.
pub open spec fn inserted<T>(s: Seq<(Seq<char>, T)>, key: Seq<char>, value: T) -> Seq<
    (Seq<char>, T),
> {
    if has_key(s, key) {
        s.update(key_index(s, key), (key, value))
    } else {
        s.push((key, value))
    }
}

/// The entries after removing position `i` the way `Vec::swap_remove` does:
/// the last entry takes its place.
pub open spec fn swap_removed_at<T>(s: Seq<(Seq<char>, T)>, i: int) -> Seq<(Seq<char>, T)> {
    if i == s.len() - 1 {
        s.drop_last()
    } else {
        s.update(i, s.last()).drop_last()
    }
}

/// The entries after `IndexMap::swap_remove` of `key`.
pub open spec fn swap_removed<T>(s: Seq<(Seq<char>, T)>, key: Seq<char>) -> Seq<(Seq<char>, T)> {
    if has_key(s, key) {
        swap_removed_at(s, key_index(s, key))
    } else {
        s
    }
}

/// `IndexMap::default()`: an empty map.
#[verifier::external_body]
fn edge_map_new() -> (m: EdgeMap)
    ensures
        edge_map_entries(m) == Seq::<(Seq<char>, Seq<Edge>)>::empty(),
{
    indexmap::IndexMap::default()
}

/// `IndexMap::get` followed by a clone of the value: the edge list stored
/// under `key`, if any.
#[verifier::external_body]
fn edge_map_get(m: &EdgeMap, key: &str) -> (r: Option<Vec<(String, String, String)>>)
    requires
        keys_unique(edge_map_entries(*m)),
    ensures
        match r {
            Some(v) => lookup(edge_map_entries(*m), key@) == Some(edges_view(v)),
            None => !has_key(edge_map_entries(*m), key@),
        },
{
    m.get(key).cloned()
}

/// `IndexMap::insert`: replaces the value of an existing key in place, or
/// appends a new entry last.
#[verifier::external_body]
fn edge_map_insert(m: &mut EdgeMap, key: String, value: Vec<(String, String, String)>)
    requires
        keys_unique(edge_map_entries(*old(m))),
    ensures
        edge_map_entries(*final(m)) == inserted(edge_map_entries(*old(m)), key@, edges_view(value)),
{
    m.insert(key, value);
}

/// `IndexMap::swap_remove`: removes the entry of `key`, if any, moving the
/// last entry into its place.
#[verifier::external_body]
fn edge_map_swap_remove(m: &mut EdgeMap, key: &str)
    requires
        keys_unique(edge_map_entries(*old(m))),
    ensures
        edge_map_entries(*final(m)) == swap_removed(edge_map_entries(*old(m)), key@),
{
    m.swap_remove(key);
}

/// The keys of the entries, in order.
pub open spec fn entry_keys<T>(s: Seq<(Seq<char>, T)>) -> Seq<Seq<char>> {
    s.map_values(|e: (Seq<char>, T)| e.0)
}

/// `IndexMap::keys`, each key cloned: the keys in the map's order.
#[verifier::external_body]
fn edge_map_keys(m: &EdgeMap) -> (r: Vec<String>)
    ensures
        names_view(r) == entry_keys(edge_map_entries(*m)),
{
    m.keys().cloned().collect()
}

/// The entries as a map from key to value.
pub open spec fn entries_map<T>(s: Seq<(Seq<char>, T)>) -> Map<Seq<char>, T> {
    Map::new(|k: Seq<char>| has_key(s, k), |k: Seq<char>| lookup(s, k)->0)
}

/// With unique keys, the value found under the key of position `i` is the
/// one stored there.
pub proof fn lemma_lookup_at<T>(s: Seq<(Seq<char>, T)>, i: int)
    requires
        keys_unique(s),
        0 <= i < s.len(),
    ensures
        has_key(s, s[i].0),
        key_index(s, s[i].0) == i,
        lookup(s, s[i].0) == Some(s[i].1),
{
    assert(has_key(s, s[i].0));
    let j = key_index(s, s[i].0);
    assert(s[j].0 == s[i].0);
}

/// `IndexMap::insert` keeps keys unique and inserts into the map view.
pub proof fn lemma_inserted<T>(s: Seq<(Seq<char>, T)>, key: Seq<char>, value: T)
    requires
        keys_unique(s),
    ensures
        keys_unique(inserted(s, key, value)),
        entries_map(inserted(s, key, value)) == entries_map(s).insert(key, value),
{
    let r = inserted(s, key, value);
    if has_key(s, key) {
        let i = key_index(s, key);
        assert forall|a: int| 0 <= a < r.len() implies #[trigger] r[a].0 == s[a].0 by {}
        assert forall|a: int, b: int| 0 <= a < b < r.len() implies #[trigger] r[a].0
            != #[trigger] r[b].0 by {
            assert(r[a].0 == s[a].0);
            assert(r[b].0 == s[b].0);
        }
        assert forall|k: Seq<char>| #[trigger] has_key(r, k) == has_key(s, k) by {
            if has_key(r, k) {
                let j = choose|j: int| 0 <= j < r.len() && #[trigger] r[j].0 == k;
                assert(s[j].0 == k);
            }
            if has_key(s, k) {
                let j = choose|j: int| 0 <= j < s.len() && #[trigger] s[j].0 == k;
                assert(r[j].0 == k);
            }
        }
        assert forall|k: Seq<char>| has_key(r, k) implies #[trigger] lookup(r, k) == if k == key {
            Some(value)
        } else {
            lookup(s, k)
        } by {
            let j = choose|j: int| 0 <= j < r.len() && #[trigger] r[j].0 == k;
            lemma_lookup_at(r, j);
            lemma_lookup_at(s, j);
        }
        assert(entries_map(r) =~= entries_map(s).insert(key, value));
    } else {
        assert forall|a: int, b: int| 0 <= a < b < r.len() implies #[trigger] r[a].0
            != #[trigger] r[b].0 by {
            if b == r.len() - 1 {
                assert(r[a] == s[a]);
            } else {
                assert(r[a] == s[a]);
                assert(r[b] == s[b]);
            }
        }
        assert forall|k: Seq<char>| #[trigger] has_key(r, k) == (has_key(s, k) || k == key) by {
            if has_key(r, k) {
                let j = choose|j: int| 0 <= j < r.len() && #[trigger] r[j].0 == k;
                if j < s.len() {
                    assert(s[j].0 == k);
                }
            }
            if has_key(s, k) {
                let j = choose|j: int| 0 <= j < s.len() && #[trigger] s[j].0 == k;
                assert(r[j].0 == k);
            }
            if k == key {
                assert(r[r.len() - 1].0 == k);
            }
        }
        assert forall|k: Seq<char>| has_key(r, k) implies #[trigger] lookup(r, k) == if k == key {
            Some(value)
        } else {
            lookup(s, k)
        } by {
            let j = choose|j: int| 0 <= j < r.len() && #[trigger] r[j].0 == k;
            lemma_lookup_at(r, j);
            if j < s.len() {
                assert(r[j] == s[j]);
                lemma_lookup_at(s, j);
            }
        }
        assert(entries_map(r) =~= entries_map(s).insert(key, value));
    }
}

/// `IndexMap::swap_remove` keeps keys unique and removes from the map view.
pub proof fn lemma_swap_removed<T>(s: Seq<(Seq<char>, T)>, key: Seq<char>)
    requires
        keys_unique(s),
    ensures
        keys_unique(swap_removed(s, key)),
        entries_map(swap_removed(s, key)) == entries_map(s).remove(key),
{
    let r = swap_removed(s, key);
    if has_key(s, key) {
        let i = key_index(s, key);
        let n = s.len();
        // position in `s` of the entry now at position `a` of `r`
        assert forall|a: int| 0 <= a < r.len() implies #[trigger] r[a] == (if a == i {
            s[n - 1]
        } else {
            s[a]
        }) by {}
        assert forall|a: int, b: int| 0 <= a < b < r.len() implies #[trigger] r[a].0
            != #[trigger] r[b].0 by {
            let pa = if a == i {
                n - 1
            } else {
                a
            };
            let pb = if b == i {
                n - 1
            } else {
                b
            };
            assert(r[a] == s[pa]);
            assert(r[b] == s[pb]);
            assert(pa != pb);
        }
        assert forall|k: Seq<char>| #[trigger] has_key(r, k) == (has_key(s, k) && k != key) by {
            if has_key(r, k) {
                let j = choose|j: int| 0 <= j < r.len() && #[trigger] r[j].0 == k;
                let pj = if j == i {
                    n - 1
                } else {
                    j
                };
                assert(r[j] == s[pj]);
                assert(pj != i);
            }
            if has_key(s, k) && k != key {
                let j = choose|j: int| 0 <= j < s.len() && #[trigger] s[j].0 == k;
                assert(j != i);
                if j == n - 1 {
                    assert(r[i].0 == k);
                } else {
                    assert(r[j].0 == k);
                }
            }
        }
        assert forall|k: Seq<char>| has_key(r, k) implies #[trigger] lookup(r, k) == lookup(s, k) by {
            let j = choose|j: int| 0 <= j < r.len() && #[trigger] r[j].0 == k;
            let pj = if j == i {
                n - 1
            } else {
                j
            };
            lemma_lookup_at(r, j);
            lemma_lookup_at(s, pj);
        }
        assert(entries_map(r) =~= entries_map(s).remove(key));
    } else {
        assert(entries_map(r) =~= entries_map(s).remove(key));
    }
}

/// What a sequence holds after a push: what it held and the new element.
pub proof fn lemma_push_contains<A>(s: Seq<A>, x: A)
    ensures
        forall|y: A| #[trigger] s.push(x).contains(y) == (s.contains(y) || y == x),
{
    assert forall|y: A| #[trigger] s.push(x).contains(y) == (s.contains(y) || y == x) by {
        if s.contains(y) {
            let j = choose|j: int| 0 <= j < s.len() && s[j] == y;
            assert(s.push(x)[j] == y);
        }
        if y == x {
            assert(s.push(x)[s.len() as int] == y);
        }
        if s.push(x).contains(y) {
            let j = choose|j: int| 0 <= j < s.push(x).len() && s.push(x)[j] == y;
            if j < s.len() {
                assert(s[j] == y);
            }
        }
    }
}

/// The edges of `s` that satisfy `p`, in order.
pub open spec fn keep_edges(s: Seq<Edge>, p: spec_fn(Edge) -> bool) -> Seq<Edge>
    decreases s.len(),
{
    if s.len() == 0 {
        s
    } else {
        let r = keep_edges(s.drop_last(), p);
        if p(s.last()) {
            r.push(s.last())
        } else {
            r
        }
    }
}

/// Whether no edge occurs twice in the list.
pub open spec fn edges_unique(s: Seq<Edge>) -> bool {
    forall|i: int, j: int| 0 <= i < j < s.len() ==> #[trigger] s[i] != #[trigger] s[j]
}

/// What [`keep_edges`] holds: exactly the satisfying edges, each as often
/// as in `s`; it keeps a list without duplicates free of them, and keeps a
/// list whose edges all satisfy `p` unchanged.
pub proof fn lemma_keep_edges(s: Seq<Edge>, p: spec_fn(Edge) -> bool)
    ensures
        forall|x: Edge| #[trigger] keep_edges(s, p).contains(x) == (s.contains(x) && p(x)),
        keep_edges(s, p).len() <= s.len(),
        edges_unique(s) ==> edges_unique(keep_edges(s, p)),
        (forall|i: int| 0 <= i < s.len() ==> p(#[trigger] s[i])) ==> keep_edges(s, p) == s,
    decreases s.len(),
{
    if s.len() > 0 {
        let init = s.drop_last();
        lemma_keep_edges(init, p);
        let r = keep_edges(init, p);
        let k = keep_edges(s, p);
        assert(forall|m: int| 0 <= m < r.len() ==> k[m] == r[m]);
        assert forall|x: Edge| #[trigger] k.contains(x) == (s.contains(x) && p(x)) by {
            if s.contains(x) && p(x) {
                let j = choose|j: int| 0 <= j < s.len() && s[j] == x;
                if j < s.len() - 1 {
                    assert(init[j] == x);
                    assert(init.contains(x));
                    assert(r.contains(x));
                    let m = choose|m: int| 0 <= m < r.len() && r[m] == x;
                    assert(k[m] == x);
                } else {
                    assert(k[k.len() - 1] == x);
                }
            }
            if k.contains(x) {
                let j = choose|j: int| 0 <= j < k.len() && k[j] == x;
                if j < r.len() {
                    assert(r[j] == x);
                    assert(r.contains(x));
                    let m = choose|m: int| 0 <= m < init.len() && init[m] == x;
                    assert(s[m] == x);
                } else {
                    assert(s[s.len() - 1] == x);
                }
            }
        }
        if edges_unique(s) {
            assert(edges_unique(init)) by {
                assert forall|a: int, b: int| 0 <= a < b < init.len() implies #[trigger] init[a]
                    != #[trigger] init[b] by {
                    assert(init[a] == s[a]);
                    assert(init[b] == s[b]);
                }
            }
            if p(s.last()) {
                assert(!init.contains(s.last())) by {
                    if init.contains(s.last()) {
                        let m = choose|m: int| 0 <= m < init.len() && init[m] == s.last();
                        assert(s[m] == s[s.len() - 1]);
                    }
                }
                assert(!r.contains(s.last()));
                let q = r.push(s.last());
                assert forall|a: int, b: int| 0 <= a < b < q.len() implies #[trigger] q[a]
                    != #[trigger] q[b] by {
                    if b == q.len() - 1 {
                        assert(r.contains(q[a]));
                    } else {
                        assert(q[a] == r[a]);
                        assert(q[b] == r[b]);
                    }
                }
            }
        }
        if forall|i: int| 0 <= i < s.len() ==> p(#[trigger] s[i]) {
            assert forall|i: int| 0 <= i < init.len() implies p(#[trigger] init[i]) by {
                assert(init[i] == s[i]);
            }
            assert(p(s[s.len() - 1]));
            assert(init.push(s.last()) =~= s);
        }
    }
}

/// Keeping the satisfying edges of a longer prefix extends the result by
/// the next edge when it satisfies `p`.
proof fn lemma_keep_edges_step(s: Seq<Edge>, p: spec_fn(Edge) -> bool, i: int)
    requires
        0 <= i < s.len(),
    ensures
        keep_edges(s.take(i + 1), p) == if p(s[i]) {
            keep_edges(s.take(i), p).push(s[i])
        } else {
            keep_edges(s.take(i), p)
        },
{
    assert(s.take(i + 1).drop_last() =~= s.take(i));
    assert(s.take(i + 1).last() == s[i]);
}

/// The `(target, target_handle)` pairs of the edges leaving on `port`, in
/// order.
pub open spec fn route_of(s: Seq<Edge>, port: Seq<char>) -> Seq<(Seq<char>, Seq<char>)>
    decreases s.len(),
{
    if s.len() == 0 {
        Seq::empty()
    } else {
        let r = route_of(s.drop_last(), port);
        if s.last().1 == port {
            r.push((s.last().0, s.last().2))
        } else {
            r
        }
    }
}

/// Whether the graph holds the connection `l`.
pub open spec fn has_link(m: Map<Seq<char>, Seq<Edge>>, l: Link) -> bool {
    m.contains_key(l.0) && m[l.0].contains((l.1, l.2, l.3))
}

/// The graph after adding the connection `c`: its edge goes last in the
/// source's list.
pub open spec fn with_link(m: Map<Seq<char>, Seq<Edge>>, c: Link) -> Map<Seq<char>, Seq<Edge>> {
    let e = (c.1, c.2, c.3);
    if m.contains_key(c.0) {
        m.insert(c.0, m[c.0].push(e))
    } else {
        m.insert(c.0, seq![e])
    }
}

/// Whether an edge differs from `e`.
pub open spec fn other_edge(e: Edge) -> spec_fn(Edge) -> bool {
    |x: Edge| x != e
}

/// Whether an edge leads somewhere else than to `agent`.
pub open spec fn elsewhere(agent: Seq<char>) -> spec_fn(Edge) -> bool {
    |x: Edge| x.0 != agent
}

/// The graph after removing the connection `c`; a source left without
/// edges is dropped.
pub open spec fn without_link(m: Map<Seq<char>, Seq<Edge>>, c: Link) -> Map<Seq<char>, Seq<Edge>> {
    let e = (c.1, c.2, c.3);
    if m.contains_key(c.0) {
        let rest = keep_edges(m[c.0], other_edge(e));
        if rest.len() == 0 {
            m.remove(c.0)
        } else {
            m.insert(c.0, rest)
        }
    } else {
        m
    }
}

/// The edges of a list that do not lead to `agent`.
pub open spec fn not_into(s: Seq<Edge>, agent: Seq<char>) -> Seq<Edge> {
    keep_edges(s, elsewhere(agent))
}

/// The graph after removing the agent `agent`: its own edges and every edge
/// into it are gone, and sources left without edges are dropped.
pub open spec fn without_agent(m: Map<Seq<char>, Seq<Edge>>, agent: Seq<char>) -> Map<
    Seq<char>,
    Seq<Edge>,
> {
    Map::new(
        |k: Seq<char>| m.contains_key(k) && k != agent && not_into(m[k], agent).len() > 0,
        |k: Seq<char>| not_into(m[k], agent),
    )
}

/// The connection graph: source agent id to the ordered list of edges
/// leaving it.
pub struct ConnectionTable {
    map: EdgeMap,
}

impl View for ConnectionTable {
    type V = Map<Seq<char>, Seq<Edge>>;

    closed spec fn view(&self) -> Map<Seq<char>, Seq<Edge>> {
        entries_map(edge_map_entries(self.map))
    }
}

/// The invariant of an edge graph: every stored source has at least one
/// edge, and no edge is stored twice.
pub open spec fn graph_wf(m: Map<Seq<char>, Seq<Edge>>) -> bool {
    &&& m.dom().finite()
    &&& forall|k: Seq<char>| #[trigger] m.contains_key(k) ==> m[k].len() > 0 && edges_unique(m[k])
}

impl ConnectionTable {
    /// The table invariant.
    pub closed spec fn wf(&self) -> bool {
        &&& keys_unique(edge_map_entries(self.map))
        &&& graph_wf(self@)
    }

    /// An empty graph.
    pub fn new() -> (r: Self)
        ensures
            r.wf(),
            r@ == Map::<Seq<char>, Seq<Edge>>::empty(),
    {
        let r = ConnectionTable { map: edge_map_new() };
        assert(r@ =~= Map::<Seq<char>, Seq<Edge>>::empty());
        r
    }

    /// The edges leaving `source`, in the order they were added (empty when
    /// the agent has none).
    pub fn targets(&self, source: &str) -> (r: Vec<(String, String, String)>)
        requires
            self.wf(),
        ensures
            edges_view(r) == if self@.contains_key(source@) {
                self@[source@]
            } else {
                Seq::empty()
            },
    {
        match edge_map_get(&self.map, source) {
            Some(v) => v,
            None => {
                let r = Vec::new();
                assert(edges_view(r) =~= Seq::<Edge>::empty());
                r
            },
        }
    }

    /// The `(target, target_handle)` pairs that a value emitted by `source`
    /// on `port` is delivered to, in the order the connections were added.
    pub fn route(&self, source: &str, port: &str) -> (r: Vec<(String, String)>)
        requires
            self.wf(),
        ensures
            r@.map_values(|p: (String, String)| (p.0@, p.1@)) == route_of(
                if self@.contains_key(source@) {
                    self@[source@]
                } else {
                    Seq::empty()
                },
                port@,
            ),
    {
        let edges = self.targets(source);
        let ghost ev = edges_view(edges);
        let mut out: Vec<(String, String)> = Vec::new();
        let mut i: usize = 0;
        while i < edges.len()
            invariant
                i <= edges@.len(),
                ev == edges_view(edges),
                out@.map_values(|p: (String, String)| (p.0@, p.1@)) == route_of(
                    ev.take(i as int),
                    port@,
                ),
            decreases edges@.len() - i,
        {
            assert(ev.take(i + 1).drop_last() =~= ev.take(i as int));
            assert(ev.take(i + 1).last() == edge_view(edges@[i as int]));
            let e = &edges[i];
            if str_eq(e.1.as_str(), port) {
                let ghost prev = out@;
                out.push((e.0.clone(), e.2.clone()));
                assert(out@.map_values(|p: (String, String)| (p.0@, p.1@)) =~= prev.map_values(
                    |p: (String, String)| (p.0@, p.1@),
                ).push((e.0@, e.2@)));
            }
            i = i + 1;
        }
        assert(ev.take(edges@.len() as int) =~= ev);
        out
    }

    proof fn lemma_view_dom(&self)
        ensures
            self@.dom().finite(),
    {
        let s = edge_map_entries(self.map);
        let keys = entry_keys(s);
        assert(self@.dom() =~= keys.to_set()) by {
            assert forall|k: Seq<char>| self@.dom().contains(k) implies keys.to_set().contains(k) by {
                let j = choose|j: int| 0 <= j < s.len() && #[trigger] s[j].0 == k;
                assert(keys[j] == k);
            }
            assert forall|k: Seq<char>| keys.to_set().contains(k) implies self@.dom().contains(k) by {
                let j = choose|j: int| 0 <= j < keys.len() && keys[j] == k;
                assert(s[j].0 == k);
            }
        }
        vstd::seq_lib::seq_to_set_is_finite(keys);
    }

    /// Adds the connection `c`. Fails with `ConnectionAlreadyExists`, and
    /// changes nothing, when the graph already holds the same connection.
    pub fn add(&mut self, c: &ConnectionSpec) -> (r: Result<(), AgentError>)
        requires
            old(self).wf(),
        ensures
            final(self).wf(),
            match r {
                Ok(()) => !has_link(old(self)@, spec_link(*c)) && final(self)@ == with_link(
                    old(self)@,
                    spec_link(*c),
                ),
                Err(e) => has_link(old(self)@, spec_link(*c)) && e is ConnectionAlreadyExists
                    && final(self)@ == old(self)@,
            },
    {
        let ghost m = self@;
        let ghost e = spec_edge(*c);
        let edge = (c.target.clone(), c.source_handle.clone(), c.target_handle.clone());
        assert(edge_view(edge) == e);
        match edge_map_get(&self.map, c.source.as_str()) {
            Some(mut targets) => {
                assert(m.contains_key(c.source@) && m[c.source@] == edges_view(targets));
                let mut i: usize = 0;
                while i < targets.len()
                    invariant
                        i <= targets@.len(),
                        e == spec_edge(*c),
                        m == old(self)@,
                        self@ == m,
                        self.wf(),
                        edge_view(edge) == e,
                        m.contains_key(c.source@) && m[c.source@] == edges_view(targets),
                        forall|j: int| 0 <= j < i ==> edge_view(#[trigger] targets@[j]) != e,
                    decreases targets@.len() - i,
                {
                    let t = &targets[i];
                    if str_eq(t.0.as_str(), c.target.as_str()) && str_eq(
                        t.1.as_str(),
                        c.source_handle.as_str(),
                    ) && str_eq(t.2.as_str(), c.target_handle.as_str()) {
                        assert(edges_view(targets)[i as int] == e);
                        return Err(AgentError::ConnectionAlreadyExists);
                    }
                    i = i + 1;
                }
                assert(!edges_view(targets).contains(e)) by {
                    if edges_view(targets).contains(e) {
                        let j = choose|j: int|
                            0 <= j < edges_view(targets).len() && edges_view(targets)[j] == e;
                        assert(edge_view(targets@[j]) == e);
                    }
                }
                let ghost old_list = edges_view(targets);
                targets.push(edge);
                assert(edges_view(targets) =~= old_list.push(e));
                proof {
                    lemma_inserted(edge_map_entries(self.map), c.source@, edges_view(targets));
                    let l = old_list.push(e);
                    assert forall|a: int, b: int| 0 <= a < b < l.len() implies #[trigger] l[a]
                        != #[trigger] l[b] by {
                        if b == l.len() - 1 {
                            assert(old_list.contains(l[a]));
                        } else {
                            assert(l[a] == old_list[a]);
                            assert(l[b] == old_list[b]);
                        }
                    }
                }
                edge_map_insert(&mut self.map, c.source.clone(), targets);
            },
            None => {
                let mut targets: Vec<(String, String, String)> = Vec::new();
                targets.push(edge);
                assert(edges_view(targets) =~= seq![e]);
                proof {
                    lemma_inserted(edge_map_entries(self.map), c.source@, edges_view(targets));
                }
                edge_map_insert(&mut self.map, c.source.clone(), targets);
            },
        }
        proof {
            self.lemma_view_dom();
        }
        Ok(())
    }

    /// Removes the connection `c`, if present. A source left without edges
    /// is dropped from the graph.
    pub fn remove(&mut self, c: &ConnectionSpec)
        requires
            old(self).wf(),
        ensures
            final(self).wf(),
            final(self)@ == without_link(old(self)@, spec_link(*c)),
    {
        let ghost m = self@;
        let ghost e = spec_edge(*c);
        let ghost p = other_edge(e);
        match edge_map_get(&self.map, c.source.as_str()) {
            Some(targets) => {
                let ghost tv = edges_view(targets);
                let mut kept: Vec<(String, String, String)> = Vec::new();
                let mut i: usize = 0;
                while i < targets.len()
                    invariant
                        i <= targets@.len(),
                        tv == edges_view(targets),
                        p == other_edge(e),
                        e == spec_edge(*c),
                        edges_view(kept) == keep_edges(tv.take(i as int), p),
                    decreases targets@.len() - i,
                {
                    proof {
                        lemma_keep_edges_step(tv, p, i as int);
                    }
                    let t = &targets[i];
                    let same = str_eq(t.0.as_str(), c.target.as_str()) && str_eq(
                        t.1.as_str(),
                        c.source_handle.as_str(),
                    ) && str_eq(t.2.as_str(), c.target_handle.as_str());
                    assert(same == (tv[i as int] == e));
                    if !same {
                        let ghost prev = edges_view(kept);
                        kept.push((t.0.clone(), t.1.clone(), t.2.clone()));
                        assert(edges_view(kept) =~= prev.push(tv[i as int]));
                    }
                    i = i + 1;
                }
                assert(tv.take(targets@.len() as int) =~= tv);
                proof {
                    lemma_keep_edges(tv, p);
                    assert(m.contains_key(c.source@));
                    assert(m[c.source@] == tv);
                    assert(edges_unique(tv));
                }
                if kept.len() == 0 {
                    proof {
                        lemma_swap_removed(edge_map_entries(self.map), c.source@);
                    }
                    edge_map_swap_remove(&mut self.map, c.source.as_str());
                } else {
                    proof {
                        lemma_inserted(edge_map_entries(self.map), c.source@, edges_view(kept));
                    }
                    edge_map_insert(&mut self.map, c.source.clone(), kept);
                }
                proof {
                    self.lemma_view_dom();
                }
            },
            None => {},
        }
    }

    /// Removes the agent `agent_id` from the graph: its own connections and
    /// every connection into it. Sources left without edges are dropped.
    pub fn remove_agent(&mut self, agent_id: &str)
        requires
            old(self).wf(),
        ensures
            final(self).wf(),
            final(self)@ == without_agent(old(self)@, agent_id@),
    {
        let ghost m = self@;
        let ghost a = agent_id@;
        let ghost p = elsewhere(a);
        let keys = edge_map_keys(&self.map);
        let ghost kv = names_view(keys);
        let mut empty_sources: Vec<String> = Vec::new();
        let mut i: usize = 0;
        while i < keys.len()
            invariant
                i <= keys@.len(),
                kv == names_view(keys),
                kv == entry_keys(edge_map_entries(self.map)),
                keys_unique(edge_map_entries(self.map)),
                graph_wf(m),
                p == elsewhere(a),
                a == agent_id@,
                self@.dom() == m.dom(),
                forall|k: Seq<char>| #[trigger]
                    self@.contains_key(k) ==> self@[k] == if kv.take(i as int).contains(k) {
                        not_into(m[k], a)
                    } else {
                        m[k]
                    },
                forall|k: Seq<char>|
                    #![trigger kv.take(i as int).contains(k)]
                    #![trigger names_view(empty_sources).contains(k)]
                    (kv.take(i as int).contains(k) && not_into(m[k], a).len() == 0)
                        == names_view(empty_sources).contains(k),
                forall|j: int|
                    0 <= j < empty_sources@.len() ==> #[trigger] m.contains_key(
                        empty_sources@[j]@,
                    ),
            decreases keys@.len() - i,
        {
            let ghost entries = edge_map_entries(self.map);
            assert(kv.len() == keys@.len());
            assert(entries.len() == kv.len());
            assert(entries[i as int].0 == kv[i as int]);
            proof {
                lemma_lookup_at(entries, i as int);
            }
            let key = &keys[i];
            let targets = match edge_map_get(&self.map, key.as_str()) {
                Some(v) => v,
                None => {
                    assert(false);
                    Vec::new()
                },
            };
            let ghost tv = edges_view(targets);
            assert(self@.contains_key(key@));
            assert(self@[key@] == tv);
            assert(tv == m[key@]) by {
                assert(!kv.take(i as int).contains(key@)) by {
                    if kv.take(i as int).contains(key@) {
                        let j = choose|j: int| 0 <= j < i && kv.take(i as int)[j] == key@;
                        assert(entries[j].0 == entries[i as int].0);
                    }
                }
            }
            let mut kept: Vec<(String, String, String)> = Vec::new();
            let mut j: usize = 0;
            while j < targets.len()
                invariant
                    j <= targets@.len(),
                    tv == edges_view(targets),
                    p == elsewhere(a),
                    a == agent_id@,
                    edges_view(kept) == keep_edges(tv.take(j as int), p),
                decreases targets@.len() - j,
            {
                proof {
                    lemma_keep_edges_step(tv, p, j as int);
                }
                let t = &targets[j];
                if !str_eq(t.0.as_str(), agent_id) {
                    let ghost prev = edges_view(kept);
                    kept.push((t.0.clone(), t.1.clone(), t.2.clone()));
                    assert(edges_view(kept) =~= prev.push(tv[j as int]));
                }
                j = j + 1;
            }
            assert(tv.take(targets@.len() as int) =~= tv);
            assert(kv.take(i + 1) =~= kv.take(i as int).push(key@));
            proof {
                lemma_push_contains(kv.take(i as int), key@);
            }
            if kept.len() == 0 {
                let ghost prev = names_view(empty_sources);
                empty_sources.push(key.clone());
                assert(names_view(empty_sources) =~= prev.push(key@));
                proof {
                    lemma_push_contains(prev, key@);
                }
            }
            proof {
                lemma_inserted(entries, key@, edges_view(kept));
                assert forall|q: int| 0 <= q < entries.len() implies #[trigger] inserted(
                    entries,
                    key@,
                    edges_view(kept),
                )[q].0 == entries[q].0 by {}
                assert(entry_keys(inserted(entries, key@, edges_view(kept))) =~= kv);
            }
            edge_map_insert(&mut self.map, key.clone(), kept);
            i = i + 1;
        }
        assert(kv.take(keys@.len() as int) =~= kv);
        let ghost mid = self@;
        proof {
            let ents = edge_map_entries(self.map);
            assert forall|k: Seq<char>| #[trigger] m.contains_key(k) implies mid.contains_key(k)
                && mid[k] == not_into(m[k], a) && ((not_into(m[k], a).len() == 0)
                <==> names_view(empty_sources).contains(k)) by {
                assert(mid.contains_key(k));
                let q = choose|q: int| 0 <= q < ents.len() && #[trigger] ents[q].0 == k;
                assert(kv[q] == k);
                assert(kv.contains(k));
            }
        }
        let ghost ev = names_view(empty_sources);
        let mut j: usize = 0;
        while j < empty_sources.len()
            invariant
                j <= empty_sources@.len(),
                ev == names_view(empty_sources),
                keys_unique(edge_map_entries(self.map)),
                self@ == mid.remove_keys(ev.take(j as int).to_set()),
            decreases empty_sources@.len() - j,
        {
            proof {
                lemma_swap_removed(edge_map_entries(self.map), ev[j as int]);
                assert(ev.take(j + 1) =~= ev.take(j as int).push(ev[j as int]));
                ev.take(j as int).lemma_push_to_set_commute(ev[j as int]);
                assert(mid.remove_keys(ev.take(j + 1).to_set()) =~= mid.remove_keys(
                    ev.take(j as int).to_set(),
                ).remove(ev[j as int]));
            }
            edge_map_swap_remove(&mut self.map, empty_sources[j].as_str());
            j = j + 1;
        }
        assert(ev.take(empty_sources@.len() as int) =~= ev);
        proof {
            lemma_swap_removed(edge_map_entries(self.map), a);
        }
        edge_map_swap_remove(&mut self.map, agent_id);
        proof {
            assert(self@ =~= without_agent(m, a));
            self.lemma_view_dom();
            assert forall|k: Seq<char>| #[trigger] self@.contains_key(k) implies self@[k].len() > 0
                && edges_unique(self@[k]) by {
                lemma_keep_edges(m[k], p);
            }
        }
    }
}
/// Adding a connection that was not there and then removing it gives back
/// the graph as it was.
pub proof fn law_add_then_remove_restores(m: Map<Seq<char>, Seq<Edge>>, l: Link)
    requires
        graph_wf(m),
        !has_link(m, l),
    ensures
        without_link(with_link(m, l), l) == m,
{
    let e = (l.1, l.2, l.3);
    let p = other_edge(e);
    if m.contains_key(l.0) {
        let list = m[l.0];
        lemma_keep_edges(list, p);
        assert(list.push(e).drop_last() =~= list);
        assert(keep_edges(list.push(e), p) == keep_edges(list, p));
        assert forall|i: int| 0 <= i < list.len() implies p(#[trigger] list[i]) by {
            assert(list.contains(list[i]));
        }
        assert(keep_edges(list, p) == list);
        assert(without_link(with_link(m, l), l) =~= m);
    } else {
        assert(seq![e].drop_last() =~= Seq::<Edge>::empty());
        assert(keep_edges(Seq::<Edge>::empty(), p) == Seq::<Edge>::empty());
        assert(!p(e));
        assert(seq![e].last() == e);
        assert(keep_edges(seq![e], p) =~= Seq::<Edge>::empty());
        assert(without_link(with_link(m, l), l) =~= m);
    }
}

/// After adding a connection the graph holds exactly the connections it
/// held before and the new one.
pub proof fn law_add_holds_link(m: Map<Seq<char>, Seq<Edge>>, l: Link, x: Link)
    ensures
        has_link(with_link(m, l), x) == (has_link(m, x) || x == l),
{
    let e = (l.1, l.2, l.3);
    if m.contains_key(l.0) {
        lemma_push_contains(m[l.0], e);
    } else {
        lemma_push_contains(Seq::<Edge>::empty(), e);
        assert(seq![e] =~= Seq::<Edge>::empty().push(e));
    }
}

/// After removing a connection the graph holds exactly the connections it
/// held before but that one.
pub proof fn law_remove_drops_link(m: Map<Seq<char>, Seq<Edge>>, l: Link, x: Link)
    requires
        graph_wf(m),
    ensures
        has_link(without_link(m, l), x) == (has_link(m, x) && x != l),
{
    let e = (l.1, l.2, l.3);
    if m.contains_key(l.0) {
        lemma_keep_edges(m[l.0], other_edge(e));
        let rest = keep_edges(m[l.0], other_edge(e));
        if rest.len() == 0 && x.0 == l.0 && has_link(m, x) {
            assert(rest.contains((x.1, x.2, x.3)) == (x != l));
        }
    }
}

/// Removing an agent drops exactly the connections that start or end at it.
pub proof fn law_remove_agent_drops_its_links(
    m: Map<Seq<char>, Seq<Edge>>,
    agent: Seq<char>,
    x: Link,
)
    requires
        graph_wf(m),
    ensures
        has_link(without_agent(m, agent), x) == (has_link(m, x) && x.0 != agent && x.1 != agent),
{
    if m.contains_key(x.0) {
        lemma_keep_edges(m[x.0], elsewhere(agent));
        let rest = not_into(m[x.0], agent);
        if x.0 != agent && has_link(m, x) && x.1 != agent {
            assert(rest.contains((x.1, x.2, x.3)));
            assert(rest.len() > 0);
        }
    }
}

/// A value emitted on `port` is delivered to exactly the targets of the
/// connections from that source and port.
pub proof fn law_route_delivers_exactly(
    m: Map<Seq<char>, Seq<Edge>>,
    source: Seq<char>,
    port: Seq<char>,
    target: Seq<char>,
    target_handle: Seq<char>,
)
    ensures
        route_of(
            if m.contains_key(source) {
                m[source]
            } else {
                Seq::empty()
            },
            port,
        ).contains((target, target_handle)) == has_link(m, (source, target, port, target_handle)),
{
    let list = if m.contains_key(source) {
        m[source]
    } else {
        Seq::empty()
    };
    lemma_route_of(list, port, target, target_handle);
}

/// A pair is routed exactly when an edge of the list carries it on the port.
proof fn lemma_route_of(s: Seq<Edge>, port: Seq<char>, target: Seq<char>, target_handle: Seq<char>)
    ensures
        route_of(s, port).contains((target, target_handle)) == s.contains(
            (target, port, target_handle),
        ),
    decreases s.len(),
{
    if s.len() > 0 {
        let init = s.drop_last();
        lemma_route_of(init, port, target, target_handle);
        let r = route_of(init, port);
        let x = (target, port, target_handle);
        if s.last().1 == port {
            lemma_push_contains(r, (s.last().0, s.last().2));
        }
        if s.contains(x) {
            let j = choose|j: int| 0 <= j < s.len() && s[j] == x;
            if j < s.len() - 1 {
                assert(init[j] == x);
            }
        }
        if init.contains(x) {
            let j = choose|j: int| 0 <= j < init.len() && init[j] == x;
            assert(s[j] == x);
        }
    }
}
/// The error `add_connection` reports for a connection, if any: both agents
/// must exist (source checked first) and both handles must be non-empty.
pub open spec fn connection_error(c: ConnectionSpec, source_known: bool, target_known: bool) -> Option<
    AgentError,
> {
    if !source_known {
        Some(AgentError::AgentNotFound(c.source))
    } else if !target_known {
        Some(AgentError::AgentNotFound(c.target))
    } else if c.source_handle@.len() == 0 {
        Some(AgentError::EmptySourceHandle)
    } else if c.target_handle@.len() == 0 {
        Some(AgentError::EmptyTargetHandle)
    } else {
        None
    }
}

/// Checks a connection before it is added: `source_known` and
/// `target_known` tell whether the two agents exist.
pub fn validate_connection(c: &ConnectionSpec, source_known: bool, target_known: bool) -> (r: Result<
    (),
    AgentError,
>)
    ensures
        match r {
            Ok(()) => connection_error(*c, source_known, target_known) is None,
            Err(e) => connection_error(*c, source_known, target_known) == Some(e),
        },
{
    if !source_known {
        return Err(AgentError::AgentNotFound(c.source.clone()));
    }
    if !target_known {
        return Err(AgentError::AgentNotFound(c.target.clone()));
    }
    if c.source_handle.as_str().is_empty() {
        return Err(AgentError::EmptySourceHandle);
    }
    if c.target_handle.as_str().is_empty() {
        return Err(AgentError::EmptyTargetHandle);
    }
    Ok(())
}

/// The label of a connection in messages: `source:source_handle->target:target_handle`.
pub open spec fn connection_label(c: ConnectionSpec) -> Seq<char> {
    c.source@ + ":"@ + c.source_handle@ + "->"@ + c.target@ + ":"@ + c.target_handle@
}

/// The error for removing a connection the preset does not hold.
pub fn connection_not_found(c: &ConnectionSpec) -> (r: AgentError)
    ensures
        r matches AgentError::ConnectionNotFound(m) && m@ == connection_label(*c),
{
    let mut m = c.source.clone();
    m.append(":");
    m.append(c.source_handle.as_str());
    m.append("->");
    m.append(c.target.as_str());
    m.append(":");
    m.append(c.target_handle.as_str());
    AgentError::ConnectionNotFound(m)
}

/// Position of the first connection of `list` with the same fields as `c`.
pub fn position_of(list: &Vec<ConnectionSpec>, c: &ConnectionSpec) -> (r: Option<usize>)
    ensures
        match r {
            Some(i) => i < list@.len() && same_connection(list@[i as int], *c) && forall|j: int|
                0 <= j < i ==> !same_connection(#[trigger] list@[j], *c),
            None => forall|j: int| 0 <= j < list@.len() ==> !same_connection(#[trigger] list@[j], *c),
        },
{
    let mut i: usize = 0;
    while i < list.len()
        invariant
            i <= list@.len(),
            forall|j: int| 0 <= j < i ==> !same_connection(#[trigger] list@[j], *c),
        decreases list@.len() - i,
    {
        if list[i].same_as(c) {
            return Some(i);
        }
        i = i + 1;
    }
    None
}
} // verus!
