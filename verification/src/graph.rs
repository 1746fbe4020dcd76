//! The dependency graph over indexed symbols: direct dependencies,
//! transitive blast radius, related symbols and data-flow traces.
use vstd::prelude::*;
use std::collections::HashMap;
use crate::store::{EdgeRecord, SymbolRecord};
use crate::text::{lemma_push_contains, lemma_take_grow_contains, insert_sorted, lex_lt, sorted_strict, str_eq, to_owned, views};

verus! {

broadcast use vstd::std_specs::hash::group_hash_axioms;

/// A traced symbol with its depth from the origin.
pub type TraceEntry = (String, usize);

#[derive(Debug, Clone, Copy, PartialEq, Eq, Structural)]
pub enum Direction {
    In,
    Out,
    Both,
}

impl Direction {
    /// `in` and `out` name a direction; anything else means both.
    pub fn parse(s: &str) -> (r: Direction)
        ensures
            r == (if s@ == "in"@ {
                Direction::In
            } else if s@ == "out"@ {
                Direction::Out
            } else {
                Direction::Both
            }),
    {
        if str_eq(s, "in") {
            Direction::In
        } else if str_eq(s, "out") {
            Direction::Out
        } else {
            Direction::Both
        }
    }
}

/// What a dependency graph means: the symbols and edges it was built from.
pub struct GraphModel {
    pub symbols: Seq<SymbolRecord>,
    pub edges: Seq<EdgeRecord>,
}

/// Some record among `syms` has the given id.
pub open spec fn has_id(syms: Seq<SymbolRecord>, id: i64) -> bool {
    exists|i: int| 0 <= i < syms.len() && syms[i].id == id
}

/// The last record among `syms` with the given id.
pub open spec fn last_with_id(syms: Seq<SymbolRecord>, id: i64) -> SymbolRecord
    decreases syms.len(),
{
    if syms.len() == 0 {
        arbitrary()
    } else if syms.last().id == id {
        syms.last()
    } else {
        last_with_id(syms.drop_last(), id)
    }
}

/// The id of the last record whose qualified name is `s`.
pub open spec fn last_qualified(syms: Seq<SymbolRecord>, s: Seq<char>) -> Option<i64>
    decreases syms.len(),
{
    if syms.len() == 0 {
        None
    } else if syms.last().qualified_name@ == s {
        Some(syms.last().id)
    } else {
        last_qualified(syms.drop_last(), s)
    }
}

/// The ids of the records named `s`, in order (an id as often as it occurs).
pub open spec fn ids_named(syms: Seq<SymbolRecord>, s: Seq<char>) -> Seq<i64>
    decreases syms.len(),
{
    if syms.len() == 0 {
        seq![]
    } else if syms.last().name@ == s {
        ids_named(syms.drop_last(), s).push(syms.last().id)
    } else {
        ids_named(syms.drop_last(), s)
    }
}

impl GraphModel {
    pub open spec fn has_node(self, id: i64) -> bool {
        has_id(self.symbols, id)
    }

    /// The record that describes a node: the last one with its id.
    pub open spec fn record(self, id: i64) -> SymbolRecord {
        last_with_id(self.symbols, id)
    }

    /// `a` uses `b`: an edge record joins two symbols of the graph.
    pub open spec fn has_edge(self, a: i64, b: i64) -> bool {
        &&& self.has_node(a)
        &&& self.has_node(b)
        &&& exists|k: int|
            0 <= k < self.edges.len() && self.edges[k].source_symbol_id == a
                && self.edges[k].target_symbol_id == b
    }

    /// `b` is a neighbor of `a` in direction `dir`: `Out` follows uses,
    /// `In` follows users, `Both` either.
    pub open spec fn linked(self, dir: Direction, a: i64, b: i64) -> bool {
        match dir {
            Direction::Out => self.has_edge(a, b),
            Direction::In => self.has_edge(b, a),
            Direction::Both => self.has_edge(a, b) || self.has_edge(b, a),
        }
    }

    /// The neighbors of a set of nodes.
    pub open spec fn step(self, dir: Direction, s: Set<i64>) -> Set<i64> {
        Set::new(|b: i64| exists|a: i64| s.contains(a) && self.linked(dir, a, b))
    }

    /// Nodes within `k` steps of `starts`.
    pub open spec fn reach(self, dir: Direction, starts: Set<i64>, k: nat) -> Set<i64>
        decreases k,
    {
        if k == 0 {
            starts
        } else {
            let r = self.reach(dir, starts, (k - 1) as nat);
            r.union(self.step(dir, r))
        }
    }

    /// `v` is reachable from `starts` in some number of steps.
    pub open spec fn reachable(self, dir: Direction, starts: Set<i64>, v: i64) -> bool {
        exists|k: nat| self.reach(dir, starts, k).contains(v)
    }

    /// The ids a symbol name stands for: the last symbol with that exact
    /// qualified name, else every symbol with that bare name.
    pub open spec fn resolve(self, s: Seq<char>) -> Seq<i64> {
        match last_qualified(self.symbols, s) {
            Some(id) => seq![id],
            None => ids_named(self.symbols, s),
        }
    }

    /// The qualified names of a set of nodes.
    pub open spec fn names(self, ids: Set<i64>) -> Set<Seq<char>> {
        Set::new(
            |n: Seq<char>|
                exists|id: i64| ids.contains(id) && self.has_node(id) && self.record(id).qualified_name@ == n,
        )
    }

    /// The least depth `j` in `from..=max` at which a node named `name`
    /// is a neighbor of the nodes within `j - 1` steps.
    pub open spec fn first_depth(
        self,
        dir: Direction,
        starts: Set<i64>,
        max: nat,
        name: Seq<char>,
        from: nat,
    ) -> Option<nat>
        decreases max + 1 - from,
    {
        if from > max || from == 0 {
            None
        } else if self.names(self.step(dir, self.reach(dir, starts, (from - 1) as nat))).contains(name) {
            Some(from)
        } else {
            self.first_depth(dir, starts, max, name, from + 1)
        }
    }

    /// The depth at which a trace from `starts` meets `name`, if it does
    /// within `max` steps.
    pub open spec fn trace_depth(self, dir: Direction, starts: Set<i64>, max: nat, name: Seq<char>) -> Option<
        nat,
    > {
        self.first_depth(dir, starts, max, name, 1)
    }
}

/// A trace listing: each name once with its trace depth, ordered by depth
/// and then by name.
pub open spec fn is_trace(m: GraphModel, dir: Direction, starts: Set<i64>, max: nat, t: Seq<(Seq<char>, nat)>) -> bool {
    &&& forall|i: int, j: int|
        0 <= i < j < t.len() ==> t[i].1 < t[j].1 || (t[i].1 == t[j].1 && lex_lt(t[i].0, t[j].0))
    &&& forall|i: int| 0 <= i < t.len() ==> m.trace_depth(dir, starts, max, #[trigger] t[i].0) == Some(t[i].1)
    &&& forall|n: Seq<char>| #[trigger] m.trace_depth(dir, starts, max, n) is Some ==> exists|i: int|
        0 <= i < t.len() && t[i].0 == n
}

pub open spec fn trace_view(t: Seq<TraceEntry>) -> Seq<(Seq<char>, nat)> {
    t.map_values(|e: TraceEntry| (e.0@, e.1 as nat))
}

struct SymbolMeta {
    qualified_name: String,
    kind: String,
    file_path: String,
}

struct LookupEntry {
    qualified_name: String,
    name: String,
    id: i64,
}

pub struct DepGraph {
    /// node index -> symbol id
    ids: Vec<i64>,
    /// symbol id -> node index
    index: HashMap<i64, usize>,
    /// node index -> symbol metadata (from the last record with that id)
    meta: Vec<SymbolMeta>,
    /// node index -> nodes it depends on
    outgoing: Vec<Vec<usize>>,
    /// node index -> nodes that depend on it
    incoming: Vec<Vec<usize>>,
    /// every record's names and id, in input order, for name lookup
    lookup: Vec<LookupEntry>,
    model: Ghost<GraphModel>,
}

impl View for DepGraph {
    type V = GraphModel;

    closed spec fn view(&self) -> GraphModel {
        self.model@
    }
}

pub open spec fn record_ids(syms: Seq<SymbolRecord>) -> Seq<i64> {
    syms.map_values(|s: SymbolRecord| s.id)
}

/// Whether `list` holds `t`.
fn contains_index(list: &Vec<usize>, t: usize) -> (r: bool)
    ensures
        r == list@.contains(t),
{
    let mut i: usize = 0;
    while i < list.len()
        invariant
            i <= list@.len(),
            forall|j: int| 0 <= j < i ==> list@[j] != t,
        decreases list@.len() - i,
    {
        if list[i] == t {
            return true;
        }
        i = i + 1;
    }
    false
}

/// Adds `t` to the `k`-th list unless it is there.
fn add_unique(lists: &mut Vec<Vec<usize>>, k: usize, t: usize)
    requires
        k < old(lists)@.len(),
    ensures
        final(lists)@.len() == old(lists)@.len(),
        forall|i: int| 0 <= i < old(lists)@.len() && i != k ==> #[trigger] final(lists)@[i] == old(lists)@[i],
        forall|x: usize| #[trigger] final(lists)@[k as int]@.contains(x) <==> (old(lists)@[k as int]@.contains(x) || x == t),
        old(lists)@[k as int]@.no_duplicates() ==> final(lists)@[k as int]@.no_duplicates(),
{
    if contains_index(&lists[k], t) {
        return;
    }
    let mut l: Vec<usize> = Vec::new();
    lists.set_and_swap(k, &mut l);
    let ghost before = l@;
    l.push(t);
    proof {
        lemma_push_contains(before, t);
        if before.no_duplicates() {
            assert forall|a: int, b: int| 0 <= a < b < l@.len() implies l@[a] != l@[b] by {
                if b == before.len() {
                    assert(before.contains(l@[a]));
                }
            }
        }
    }
    lists.set(k, l);
}

impl DepGraph {
    #[verifier::type_invariant]
    closed spec fn wf(self) -> bool {
        let m = self.model@;
        let n = self.ids@.len();
        &&& self.meta@.len() == n
        &&& self.outgoing@.len() == n
        &&& self.incoming@.len() == n
        &&& self.ids@.no_duplicates()
        &&& forall|id: i64| #[trigger] m.has_node(id) <==> self.ids@.contains(id)
        &&& forall|id: i64| #[trigger] self.index@.contains_key(id) <==> self.ids@.contains(id)
        &&& forall|k: int| 0 <= k < n ==> self.index@[#[trigger] self.ids@[k]] == k
        &&& forall|k: int|
            0 <= k < n ==> {
                let r = m.record(self.ids@[k]);
                &&& (#[trigger] self.meta@[k]).qualified_name@ == r.qualified_name@
                &&& self.meta@[k].kind@ == r.kind@
                &&& self.meta@[k].file_path@ == r.file_path@
            }
        &&& forall|k: int| 0 <= k < n ==> (#[trigger] self.outgoing@[k])@.no_duplicates()
        &&& forall|k: int| 0 <= k < n ==> (#[trigger] self.incoming@[k])@.no_duplicates()
        &&& forall|k: int, x: usize| 0 <= k < n && #[trigger] self.outgoing@[k]@.contains(x) ==> x < n
        &&& forall|k: int, x: usize| 0 <= k < n && #[trigger] self.incoming@[k]@.contains(x) ==> x < n
        &&& forall|k: int, t: int|
            0 <= k < n && 0 <= t < n ==> (#[trigger] self.outgoing@[k]@.contains(t as usize)
                <==> m.has_edge(self.ids@[k], #[trigger] self.ids@[t]))
        &&& forall|k: int, t: int|
            0 <= k < n && 0 <= t < n ==> (#[trigger] self.incoming@[k]@.contains(t as usize)
                <==> m.has_edge(#[trigger] self.ids@[t], self.ids@[k]))
        &&& self.lookup@.len() == m.symbols.len()
        &&& forall|i: int|
            0 <= i < m.symbols.len() ==> {
                &&& (#[trigger] self.lookup@[i]).qualified_name@ == m.symbols[i].qualified_name@
                &&& self.lookup@[i].name@ == m.symbols[i].name@
                &&& self.lookup@[i].id == m.symbols[i].id
            }
    }

    /// An empty graph.
    pub fn new() -> (g: Self)
        ensures
            g@.symbols.len() == 0,
            g@.edges.len() == 0,
    {
        DepGraph {
            ids: Vec::new(),
            index: HashMap::new(),
            meta: Vec::new(),
            outgoing: Vec::new(),
            incoming: Vec::new(),
            lookup: Vec::new(),
            model: Ghost(GraphModel { symbols: seq![], edges: seq![] }),
        }
    }

    /// Build the dependency graph from stored symbols and resolved edges.
    /// Edges whose ends are not both symbols of the graph are left out.
    pub fn build(symbols: &[SymbolRecord], edges: &[EdgeRecord]) -> (g: Self)
        ensures
            g@ == (GraphModel { symbols: symbols@, edges: edges@ }),
    {
        let mut ids: Vec<i64> = Vec::new();
        let mut index: HashMap<i64, usize> = HashMap::new();
        let mut meta: Vec<SymbolMeta> = Vec::new();
        let mut outgoing: Vec<Vec<usize>> = Vec::new();
        let mut incoming: Vec<Vec<usize>> = Vec::new();
        let mut lookup: Vec<LookupEntry> = Vec::new();
        let mut i: usize = 0;
        while i < symbols.len()
            invariant
                i <= symbols@.len(),
                meta@.len() == ids@.len(),
                outgoing@.len() == ids@.len(),
                incoming@.len() == ids@.len(),
                ids@.no_duplicates(),
                forall|id: i64| #[trigger] has_id(symbols@.take(i as int), id) <==> ids@.contains(id),
                forall|id: i64| #[trigger] index@.contains_key(id) <==> ids@.contains(id),
                forall|k: int| 0 <= k < ids@.len() ==> index@[#[trigger] ids@[k]] == k,
                forall|k: int| 0 <= k < ids@.len() ==> (#[trigger] meta@[k]).qualified_name@ == last_with_id(symbols@.take(i as int), ids@[k]).qualified_name@,
                forall|k: int| 0 <= k < ids@.len() ==> (#[trigger] meta@[k]).kind@ == last_with_id(symbols@.take(i as int), ids@[k]).kind@,
                forall|k: int| 0 <= k < ids@.len() ==> (#[trigger] meta@[k]).file_path@ == last_with_id(symbols@.take(i as int), ids@[k]).file_path@,
                forall|k: int| 0 <= k < ids@.len() ==> (#[trigger] outgoing@[k])@.len() == 0,
                forall|k: int| 0 <= k < ids@.len() ==> (#[trigger] incoming@[k])@.len() == 0,
                lookup@.len() == i,
                forall|j: int| 0 <= j < i ==> (#[trigger] lookup@[j]).qualified_name@ == symbols@[j].qualified_name@,
                forall|j: int| 0 <= j < i ==> (#[trigger] lookup@[j]).name@ == symbols@[j].name@,
                forall|j: int| 0 <= j < i ==> (#[trigger] lookup@[j]).id == symbols@[j].id,
            decreases symbols@.len() - i,
        {
            let sym = &symbols[i];
            let ghost m0 = GraphModel { symbols: symbols@.take(i as int), edges: seq![] };
            let ghost m1 = GraphModel { symbols: symbols@.take(i + 1), edges: seq![] };
            proof {
                assert(symbols@.take(i + 1).drop_last() =~= symbols@.take(i as int));
                assert(symbols@.take(i + 1).last() == *sym);
                assert forall|id: i64| #[trigger] has_id(symbols@.take(i + 1), id) <==> (has_id(symbols@.take(i as int), id) || id == sym.id) by {
                    if has_id(m1.symbols, id) {
                        let w = choose|w: int| 0 <= w < m1.symbols.len() && m1.symbols[w].id == id;
                        if w < i {
                            assert(m0.symbols[w] == m1.symbols[w]);
                        }
                    }
                    if has_id(m0.symbols, id) {
                        let w = choose|w: int| 0 <= w < m0.symbols.len() && m0.symbols[w].id == id;
                        assert(m0.symbols[w] == m1.symbols[w]);
                    }
                    if id == sym.id {
                        assert(m1.symbols[i as int].id == id);
                    }
                }
                assert forall|id: i64| id != sym.id implies m1.record(id) == m0.record(id) by {}
                assert(m1.record(sym.id) == *sym);
            }
            let entry = SymbolMeta {
                qualified_name: sym.qualified_name.clone(),
                kind: sym.kind.clone(),
                file_path: sym.file_path.clone(),
            };
            match index.get(&sym.id) {
                Some(k) => {
                    let k = *k;
                    meta.set(k, entry);
                },
                None => {
                    let k = ids.len();
                    let ghost old_ids = ids@;
                    proof {
                        assert(!ids@.contains(sym.id));
                    }
                    ids.push(sym.id);
                    index.insert(sym.id, k);
                    meta.push(entry);
                    outgoing.push(Vec::new());
                    incoming.push(Vec::new());
                    proof {
                        assert forall|a: int, b: int| 0 <= a < b < ids@.len() implies ids@[a] != ids@[b] by {
                            if b == k {
                                assert(ids@[a] == ids@.drop_last()[a]);
                            }
                        }
                        assert forall|id: i64| #[trigger] ids@.contains(id) <==> (old_ids.contains(id) || id == sym.id) by {
                            if ids@.contains(id) {
                                let w = choose|w: int| 0 <= w < ids@.len() && ids@[w] == id;
                                if w < k {
                                    assert(old_ids[w] == id);
                                }
                            }
                            if old_ids.contains(id) {
                                let w = choose|w: int| 0 <= w < old_ids.len() && old_ids[w] == id;
                                assert(ids@[w] == id);
                            }
                            if id == sym.id {
                                assert(ids@[k as int] == id);
                            }
                        }
                    }
                },
            }
            lookup.push(LookupEntry {
                qualified_name: sym.qualified_name.clone(),
                name: sym.name.clone(),
                id: sym.id,
            });
            i = i + 1;
        }
        let ghost syms_all = symbols@;
        proof {
            assert(symbols@.take(symbols@.len() as int) =~= symbols@);
        }
        let mut j: usize = 0;
        while j < edges.len()
            invariant
                j <= edges@.len(),
                meta@.len() == ids@.len(),
                outgoing@.len() == ids@.len(),
                incoming@.len() == ids@.len(),
                ids@.no_duplicates(),
                forall|id: i64| #[trigger] has_id(symbols@, id) <==> ids@.contains(id),
                forall|id: i64| #[trigger] index@.contains_key(id) <==> ids@.contains(id),
                forall|k: int| 0 <= k < ids@.len() ==> index@[#[trigger] ids@[k]] == k,
                forall|k: int| 0 <= k < ids@.len() ==> (#[trigger] meta@[k]).qualified_name@ == last_with_id(symbols@, ids@[k]).qualified_name@,
                forall|k: int| 0 <= k < ids@.len() ==> (#[trigger] meta@[k]).kind@ == last_with_id(symbols@, ids@[k]).kind@,
                forall|k: int| 0 <= k < ids@.len() ==> (#[trigger] meta@[k]).file_path@ == last_with_id(symbols@, ids@[k]).file_path@,
                forall|k: int| 0 <= k < ids@.len() ==> (#[trigger] outgoing@[k])@.no_duplicates(),
                forall|k: int| 0 <= k < ids@.len() ==> (#[trigger] incoming@[k])@.no_duplicates(),
                forall|k: int, x: usize| 0 <= k < ids@.len() && #[trigger] outgoing@[k]@.contains(x) ==> x < ids@.len(),
                forall|k: int, x: usize| 0 <= k < ids@.len() && #[trigger] incoming@[k]@.contains(x) ==> x < ids@.len(),
                forall|k: int, t: int| 0 <= k < ids@.len() && 0 <= t < ids@.len() ==> (#[trigger] outgoing@[k]@.contains(t as usize) <==> (GraphModel { symbols: symbols@, edges: edges@.take(j as int) }).has_edge(ids@[k], #[trigger] ids@[t])),
                forall|k: int, t: int| 0 <= k < ids@.len() && 0 <= t < ids@.len() ==> (#[trigger] incoming@[k]@.contains(t as usize) <==> (GraphModel { symbols: symbols@, edges: edges@.take(j as int) }).has_edge(#[trigger] ids@[t], ids@[k])),
                lookup@.len() == symbols@.len(),
                forall|q: int| 0 <= q < symbols@.len() ==> (#[trigger] lookup@[q]).qualified_name@ == symbols@[q].qualified_name@,
                forall|q: int| 0 <= q < symbols@.len() ==> (#[trigger] lookup@[q]).name@ == symbols@[q].name@,
                forall|q: int| 0 <= q < symbols@.len() ==> (#[trigger] lookup@[q]).id == symbols@[q].id,
            decreases edges@.len() - j,
        {
            let e = &edges[j];
            let ghost m0 = GraphModel { symbols: symbols@, edges: edges@.take(j as int) };
            let ghost m1 = GraphModel { symbols: symbols@, edges: edges@.take(j + 1) };
            proof {
                assert forall|a: i64, b: i64| #[trigger] m1.has_edge(a, b) <==> (m0.has_edge(a, b) || (
                    m0.has_node(a) && m0.has_node(b) && a == e.source_symbol_id && b == e.target_symbol_id)) by {
                    if m1.has_edge(a, b) {
                        let w = choose|w: int| 0 <= w < m1.edges.len() && m1.edges[w].source_symbol_id == a
                            && m1.edges[w].target_symbol_id == b;
                        if w < j {
                            assert(m0.edges[w] == m1.edges[w]);
                        }
                    }
                    if m0.has_edge(a, b) {
                        let w = choose|w: int| 0 <= w < m0.edges.len() && m0.edges[w].source_symbol_id == a
                            && m0.edges[w].target_symbol_id == b;
                        assert(m0.edges[w] == m1.edges[w]);
                    }
                    if a == e.source_symbol_id && b == e.target_symbol_id {
                        assert(m1.edges[j as int] == *e);
                    }
                }
            }
            let src = index.get(&e.source_symbol_id);
            let tgt = index.get(&e.target_symbol_id);
            match (src, tgt) {
                (Some(s), Some(t)) => {
                    let s = *s;
                    let t = *t;
                    proof {
                        let ks = choose|q: int| 0 <= q < ids@.len() && ids@[q] == e.source_symbol_id;
                        assert(index@[ids@[ks]] == ks);
                        let kt = choose|q: int| 0 <= q < ids@.len() && ids@[q] == e.target_symbol_id;
                        assert(index@[ids@[kt]] == kt);
                        assert(ids@[s as int] == e.source_symbol_id);
                        assert(ids@[t as int] == e.target_symbol_id);
                    }
                    add_unique(&mut outgoing, s, t);
                    add_unique(&mut incoming, t, s);
                    proof {
                        let n = ids@.len();
                        assert forall|k: int, u: int| 0 <= k < n && 0 <= u < n implies
                            (#[trigger] outgoing@[k]@.contains(u as usize) <==> m1.has_edge(ids@[k], #[trigger] ids@[u])) by {
                            if k != s {
                                assert(ids@[k] != e.source_symbol_id);
                            } else if u != t {
                                assert(ids@[u] != e.target_symbol_id);
                            }
                        }
                        assert forall|k: int, u: int| 0 <= k < n && 0 <= u < n implies
                            (#[trigger] incoming@[k]@.contains(u as usize) <==> m1.has_edge(#[trigger] ids@[u], ids@[k])) by {
                            if k != t {
                                assert(ids@[k] != e.target_symbol_id);
                            } else if u != s {
                                assert(ids@[u] != e.source_symbol_id);
                            }
                        }
                    }
                },
                _ => {
                    proof {
                        if m0.has_node(e.source_symbol_id) && m0.has_node(e.target_symbol_id) {
                            let ks = choose|q: int| 0 <= q < ids@.len() && ids@[q] == e.source_symbol_id;
                            let kt = choose|q: int| 0 <= q < ids@.len() && ids@[q] == e.target_symbol_id;
                            assert(index@.contains_key(ids@[ks]));
                            assert(index@.contains_key(ids@[kt]));
                        }
                    }
                },
            }
            j = j + 1;
        }
        proof {
            assert(edges@.take(edges@.len() as int) =~= edges@);
        }
        DepGraph {
            ids,
            index,
            meta,
            outgoing,
            incoming,
            lookup,
            model: Ghost(GraphModel { symbols: symbols@, edges: edges@ }),
        }
    }
}

impl Default for DepGraph {
    fn default() -> (g: Self)
        ensures
            g@.symbols.len() == 0,
            g@.edges.len() == 0,
    {
        Self::new()
    }
}

/// The ids at the marked node positions.
pub open spec fn marked(ids: Seq<i64>, marks: Seq<bool>) -> Set<i64> {
    Set::new(|id: i64| exists|k: int| 0 <= k < ids.len() && k < marks.len() && marks[k] && ids[k] == id)
}

/// Some node of `front` is linked to `b`.
pub open spec fn hit_by(m: GraphModel, dir: Direction, ids: Seq<i64>, front: Seq<usize>, b: i64) -> bool {
    exists|f: int| 0 <= f < front.len() && m.linked(dir, ids[front[f] as int], b)
}

pub proof fn lemma_reach_mono(m: GraphModel, dir: Direction, s: Set<i64>, a: nat, b: nat)
    requires
        a <= b,
    ensures
        m.reach(dir, s, a).subset_of(m.reach(dir, s, b)),
    decreases b - a,
{
    if a < b {
        lemma_reach_mono(m, dir, s, a, (b - 1) as nat);
    }
}

pub proof fn lemma_reach_stable(m: GraphModel, dir: Direction, s: Set<i64>, d: nat, k: nat)
    requires
        d <= k,
        m.step(dir, m.reach(dir, s, d)).subset_of(m.reach(dir, s, d)),
    ensures
        m.reach(dir, s, k) == m.reach(dir, s, d),
    decreases k - d,
{
    if d < k {
        lemma_reach_stable(m, dir, s, d, (k - 1) as nat);
        let r = m.reach(dir, s, (k - 1) as nat);
        assert(r.union(m.step(dir, r)) =~= r);
    }
}

pub proof fn lemma_last_qualified_has_id(syms: Seq<SymbolRecord>, s: Seq<char>)
    ensures
        last_qualified(syms, s) matches Some(id) ==> has_id(syms, id),
    decreases syms.len(),
{
    if syms.len() > 0 {
        lemma_last_qualified_has_id(syms.drop_last(), s);
        match last_qualified(syms.drop_last(), s) {
            Some(id) => {
                let w = choose|w: int| 0 <= w < syms.drop_last().len() && syms.drop_last()[w].id == id;
                assert(syms[w].id == id);
            },
            None => {},
        }
        assert(syms[syms.len() - 1] == syms.last());
    }
}

pub proof fn lemma_ids_named_have_ids(syms: Seq<SymbolRecord>, s: Seq<char>)
    ensures
        forall|k: int| 0 <= k < ids_named(syms, s).len() ==> has_id(syms, #[trigger] ids_named(syms, s)[k]),
    decreases syms.len(),
{
    if syms.len() > 0 {
        lemma_ids_named_have_ids(syms.drop_last(), s);
        let prev = ids_named(syms.drop_last(), s);
        assert forall|k: int| 0 <= k < ids_named(syms, s).len() implies has_id(syms, #[trigger] ids_named(syms, s)[k]) by {
            if k < prev.len() {
                assert(ids_named(syms, s)[k] == prev[k]);
                assert(has_id(syms.drop_last(), prev[k]));
                let w = choose|w: int| 0 <= w < syms.drop_last().len() && syms.drop_last()[w].id == prev[k];
                assert(syms[w].id == prev[k]);
            } else {
                assert(syms[syms.len() - 1].id == syms.last().id);
            }
        }
    }
}

proof fn lemma_ids_named_exact(syms: Seq<SymbolRecord>, s: Seq<char>)
    ensures
        forall|i: int| 0 <= i < syms.len() && syms[i].name@ == s ==> ids_named(syms, s).contains(#[trigger] syms[i].id),
        forall|x: i64| ids_named(syms, s).contains(x) ==> exists|i: int| 0 <= i < syms.len() && syms[i].name@ == s && syms[i].id == x,
    decreases syms.len(),
{
    if syms.len() > 0 {
        let init = syms.drop_last();
        lemma_ids_named_exact(init, s);
        let prev = ids_named(init, s);
        let cur = ids_named(syms, s);
        assert forall|i: int| 0 <= i < syms.len() && syms[i].name@ == s implies cur.contains(#[trigger] syms[i].id) by {
            if i < syms.len() - 1 {
                assert(init[i] == syms[i]);
                assert(prev.contains(init[i].id));
                let k = choose|k: int| 0 <= k < prev.len() && prev[k] == init[i].id;
                if syms.last().name@ == s {
                    assert(cur[k] == prev[k]);
                }
            } else {
                assert(cur[cur.len() - 1] == syms.last().id);
            }
        }
        assert forall|x: i64| cur.contains(x) implies exists|i: int| 0 <= i < syms.len() && syms[i].name@ == s && syms[i].id == x by {
            let k = choose|k: int| 0 <= k < cur.len() && cur[k] == x;
            if k < prev.len() {
                if syms.last().name@ == s {
                    assert(cur[k] == prev[k]);
                }
                assert(prev.contains(x));
                let i = choose|i: int| 0 <= i < init.len() && init[i].name@ == s && init[i].id == x;
                assert(syms[i] == init[i]);
            } else {
                assert(syms[syms.len() - 1] == syms.last());
            }
        }
    }
}

proof fn lemma_last_qualified_exact(syms: Seq<SymbolRecord>, s: Seq<char>)
    ensures
        last_qualified(syms, s) is None <==> forall|j: int| 0 <= j < syms.len() ==> (#[trigger] syms[j]).qualified_name@ != s,
        last_qualified(syms, s) matches Some(id) ==> exists|j: int|
            0 <= j < syms.len() && syms[j].qualified_name@ == s && syms[j].id == id
                && forall|k: int| j < k < syms.len() ==> (#[trigger] syms[k]).qualified_name@ != s,
    decreases syms.len(),
{
    if syms.len() > 0 {
        let init = syms.drop_last();
        lemma_last_qualified_exact(init, s);
        let n = syms.len() - 1;
        assert(syms[n] == syms.last());
        if syms.last().qualified_name@ == s {
            assert forall|k: int| n < k < syms.len() implies (#[trigger] syms[k]).qualified_name@ != s by {}
        } else {
            assert forall|j: int| 0 <= j < init.len() implies init[j] == syms[j] by {}
            match last_qualified(init, s) {
                Some(id) => {
                    let j = choose|j: int| 0 <= j < init.len() && init[j].qualified_name@ == s && init[j].id == id
                        && forall|k: int| j < k < init.len() ==> (#[trigger] init[k]).qualified_name@ != s;
                    assert(syms[j] == init[j]);
                    assert forall|k: int| j < k < syms.len() implies (#[trigger] syms[k]).qualified_name@ != s by {
                        if k < n {
                            assert(init[k] == syms[k]);
                        }
                    }
                },
                None => {
                    assert forall|j: int| 0 <= j < syms.len() implies (#[trigger] syms[j]).qualified_name@ != s by {
                        if j < n {
                            assert(init[j] == syms[j]);
                        }
                    }
                },
            }
        }
    }
}

/// What a symbol name stands for in the graph's queries. Where some symbol
/// has it as its exact qualified name, it stands for the last such symbol
/// alone. Otherwise it stands for every symbol whose bare name it is, and
/// for nothing else.
pub proof fn lemma_resolve_names(m: GraphModel, s: Seq<char>)
    ensures
        (exists|j: int| 0 <= j < m.symbols.len() && (#[trigger] m.symbols[j]).qualified_name@ == s) ==> exists|j: int|
            0 <= j < m.symbols.len() && m.symbols[j].qualified_name@ == s && m.resolve(s) == seq![m.symbols[j].id]
                && forall|k: int| j < k < m.symbols.len() ==> (#[trigger] m.symbols[k]).qualified_name@ != s,
        (forall|j: int| 0 <= j < m.symbols.len() ==> (#[trigger] m.symbols[j]).qualified_name@ != s) ==> {
            &&& forall|i: int| 0 <= i < m.symbols.len() && m.symbols[i].name@ == s ==> m.resolve(s).contains(#[trigger] m.symbols[i].id)
            &&& forall|x: i64| m.resolve(s).contains(x) ==> exists|i: int|
                0 <= i < m.symbols.len() && (#[trigger] m.symbols[i]).name@ == s && m.symbols[i].id == x
        },
{
    lemma_last_qualified_exact(m.symbols, s);
    lemma_ids_named_exact(m.symbols, s);
}

/// Within any number of steps of nodes, there are only nodes.
pub proof fn lemma_reach_nodes(m: GraphModel, dir: Direction, s: Set<i64>, k: nat)
    requires
        forall|id: i64| #[trigger] s.contains(id) ==> m.has_node(id),
    ensures
        forall|id: i64| #[trigger] m.reach(dir, s, k).contains(id) ==> m.has_node(id),
    decreases k,
{
    if k > 0 {
        lemma_reach_nodes(m, dir, s, (k - 1) as nat);
        let r = m.reach(dir, s, (k - 1) as nat);
        assert forall|id: i64| #[trigger] m.reach(dir, s, k).contains(id) implies m.has_node(id) by {
            if !r.contains(id) {
                let a = choose|a: i64| r.contains(a) && m.linked(dir, a, id);
            }
        }
    }
}

/// Whether `v` holds the text `s`.
fn contains_name(v: &Vec<String>, s: &str) -> (r: bool)
    ensures
        r == views(v@).contains(s@),
{
    let mut i: usize = 0;
    while i < v.len()
        invariant
            i <= v@.len(),
            forall|q: int| 0 <= q < i ==> v@[q]@ != s@,
        decreases v@.len() - i,
    {
        if str_eq(v[i].as_str(), s) {
            proof {
                assert(views(v@)[i as int] == s@);
            }
            return true;
        }
        i = i + 1;
    }
    proof {
        if views(v@).contains(s@) {
            let q = choose|q: int| 0 <= q < views(v@).len() && views(v@)[q] == s@;
            assert(v@[q]@ == s@);
        }
    }
    false
}

/// The nodes within `d - 1` steps, or none when `d` is zero.
pub open spec fn prev_reach(m: GraphModel, dir: Direction, s: Set<i64>, d: nat) -> Set<i64> {
    if d == 0 {
        Set::empty()
    } else {
        m.reach(dir, s, (d - 1) as nat)
    }
}

pub proof fn lemma_names_union(m: GraphModel, a: Set<i64>, b: Set<i64>)
    ensures
        m.names(a.union(b)) == m.names(a).union(m.names(b)),
{
    assert forall|x: Seq<char>| m.names(a.union(b)).contains(x) implies m.names(a).union(m.names(b)).contains(x) by {
        let id = choose|id: i64| a.union(b).contains(id) && m.has_node(id) && m.record(id).qualified_name@ == x;
        if a.contains(id) {
            assert(m.names(a).contains(x));
        } else {
            assert(m.names(b).contains(x));
        }
    }
    assert forall|x: Seq<char>| m.names(a).union(m.names(b)).contains(x) implies m.names(a.union(b)).contains(x) by {
        if m.names(a).contains(x) {
            let id = choose|id: i64| a.contains(id) && m.has_node(id) && m.record(id).qualified_name@ == x;
            assert(a.union(b).contains(id));
        } else {
            let id = choose|id: i64| b.contains(id) && m.has_node(id) && m.record(id).qualified_name@ == x;
            assert(a.union(b).contains(id));
        }
    }
    assert(m.names(a.union(b)) =~= m.names(a).union(m.names(b)));
}

pub proof fn lemma_step_union(m: GraphModel, dir: Direction, a: Set<i64>, b: Set<i64>)
    ensures
        m.step(dir, a.union(b)) == m.step(dir, a).union(m.step(dir, b)),
{
    assert forall|x: i64| m.step(dir, a.union(b)).contains(x) implies m.step(dir, a).union(m.step(dir, b)).contains(x) by {
        let y = choose|y: i64| a.union(b).contains(y) && m.linked(dir, y, x);
        if a.contains(y) {
            assert(m.step(dir, a).contains(x));
        } else {
            assert(m.step(dir, b).contains(x));
        }
    }
    assert forall|x: i64| m.step(dir, a).union(m.step(dir, b)).contains(x) implies m.step(dir, a.union(b)).contains(x) by {
        if m.step(dir, a).contains(x) {
            let y = choose|y: i64| a.contains(y) && m.linked(dir, y, x);
            assert(a.union(b).contains(y));
        } else {
            let y = choose|y: i64| b.contains(y) && m.linked(dir, y, x);
            assert(a.union(b).contains(y));
        }
    }
    assert(m.step(dir, a.union(b)) =~= m.step(dir, a).union(m.step(dir, b)));
}

/// The neighbours of a set either way are its dependencies together with
/// its dependents.
proof fn lemma_step_both(m: GraphModel, s: Set<i64>)
    ensures
        m.step(Direction::Both, s) == m.step(Direction::Out, s).union(m.step(Direction::In, s)),
{
    assert forall|x: i64| m.step(Direction::Both, s).contains(x) implies m.step(Direction::Out, s).union(
        m.step(Direction::In, s),
    ).contains(x) by {
        let y = choose|y: i64| s.contains(y) && m.linked(Direction::Both, y, x);
        if m.has_edge(y, x) {
            assert(m.linked(Direction::Out, y, x));
        } else {
            assert(m.linked(Direction::In, y, x));
        }
    }
    assert forall|x: i64| m.step(Direction::Out, s).union(m.step(Direction::In, s)).contains(x) implies m.step(
        Direction::Both,
        s,
    ).contains(x) by {
        if m.step(Direction::Out, s).contains(x) {
            let y = choose|y: i64| s.contains(y) && m.linked(Direction::Out, y, x);
            assert(m.linked(Direction::Both, y, x));
        } else {
            let y = choose|y: i64| s.contains(y) && m.linked(Direction::In, y, x);
            assert(m.linked(Direction::Both, y, x));
        }
    }
    assert(m.step(Direction::Both, s) =~= m.step(Direction::Out, s).union(m.step(Direction::In, s)));
}

/// `get_dependencies` in direction `Both` names exactly what `Out` and
/// `In` name together: the direct dependencies and dependents of the
/// symbol.
pub proof fn lemma_dependencies_both_is_out_and_in(m: GraphModel, symbol: Seq<char>)
    ensures
        ({
            let s = m.resolve(symbol).to_set();
            m.names(m.step(Direction::Both, s)) == m.names(m.step(Direction::Out, s)).union(
                m.names(m.step(Direction::In, s)),
            )
        }),
{
    let s = m.resolve(symbol).to_set();
    lemma_step_both(m, s);
    lemma_names_union(m, m.step(Direction::Out, s), m.step(Direction::In, s));
}

/// `related` at depth one names the symbols linked to the given one either
/// way, the symbol itself left out: what `get_dependencies` in direction
/// `Both` names, taken over the neighbours that are not the symbol.
pub proof fn lemma_related_one_is_dependencies(m: GraphModel, symbol: Seq<char>)
    ensures
        ({
            let s = m.resolve(symbol).to_set();
            m.reach(Direction::Out, s, 1).union(m.reach(Direction::In, s, 1)).difference(s)
                == m.step(Direction::Both, s).difference(s)
        }),
{
    let s = m.resolve(symbol).to_set();
    lemma_step_both(m, s);
    assert(m.reach(Direction::Out, s, 0) == s);
    assert(m.reach(Direction::In, s, 0) == s);
    assert(m.reach(Direction::Out, s, 1).union(m.reach(Direction::In, s, 1)).difference(s)
        =~= m.step(Direction::Both, s).difference(s));
}

/// `related` at depth one names what `get_dependencies` in direction
/// `Both` names, less the names of the symbol's own nodes, wherever no
/// node linked to the symbol (and not one of its nodes) has the qualified
/// name of one of the symbol's nodes.
pub proof fn lemma_related_one_is_dependencies_less_symbol(m: GraphModel, symbol: Seq<char>)
    requires
        forall|a: i64, b: i64|
            #![trigger m.resolve(symbol).to_set().contains(a), m.step(Direction::Both, m.resolve(symbol).to_set()).contains(b)]
            m.resolve(symbol).to_set().contains(a) && m.has_node(a) && m.step(Direction::Both, m.resolve(symbol).to_set()).contains(b)
                && !m.resolve(symbol).to_set().contains(b) && m.has_node(b) ==> m.record(a).qualified_name@
                != m.record(b).qualified_name@,
    ensures
        ({
            let s = m.resolve(symbol).to_set();
            m.names(m.reach(Direction::Out, s, 1).union(m.reach(Direction::In, s, 1)).difference(s))
                == m.names(m.step(Direction::Both, s)).difference(m.names(s))
        }),
{
    let s = m.resolve(symbol).to_set();
    let st = m.step(Direction::Both, s);
    lemma_related_one_is_dependencies(m, symbol);
    assert forall|x: Seq<char>| m.names(st.difference(s)).contains(x) implies m.names(st).difference(m.names(s)).contains(x) by {
        let id = choose|id: i64| st.difference(s).contains(id) && m.has_node(id) && m.record(id).qualified_name@ == x;
        assert(m.names(st).contains(x));
        if m.names(s).contains(x) {
            let a = choose|a: i64| s.contains(a) && m.has_node(a) && m.record(a).qualified_name@ == x;
            assert(s.contains(a) && st.contains(id));
        }
    }
    assert forall|x: Seq<char>| m.names(st).difference(m.names(s)).contains(x) implies m.names(st.difference(s)).contains(x) by {
        let id = choose|id: i64| st.contains(id) && m.has_node(id) && m.record(id).qualified_name@ == x;
        if s.contains(id) {
            assert(m.names(s).contains(x));
        }
        assert(st.difference(s).contains(id));
    }
    assert(m.names(st.difference(s)) =~= m.names(st).difference(m.names(s)));
}

/// Names met by the trace at depth `j`.
pub open spec fn met_at(m: GraphModel, dir: Direction, s: Set<i64>, j: nat) -> Set<Seq<char>> {
    m.names(m.step(dir, m.reach(dir, s, (j - 1) as nat)))
}

pub proof fn lemma_met_mono(m: GraphModel, dir: Direction, s: Set<i64>, i: nat, j: nat)
    requires
        1 <= i <= j,
    ensures
        met_at(m, dir, s, i).subset_of(met_at(m, dir, s, j)),
{
    lemma_reach_mono(m, dir, s, (i - 1) as nat, (j - 1) as nat);
    let a = m.reach(dir, s, (i - 1) as nat);
    let b = m.reach(dir, s, (j - 1) as nat);
    assert forall|x: Seq<char>| met_at(m, dir, s, i).contains(x) implies met_at(m, dir, s, j).contains(x) by {
        let id = choose|id: i64| m.step(dir, a).contains(id) && m.has_node(id) && m.record(id).qualified_name@ == x;
        let y = choose|y: i64| a.contains(y) && m.linked(dir, y, id);
        assert(b.contains(y));
        assert(m.step(dir, b).contains(id));
    }
}

/// What `first_depth` finds.
pub proof fn lemma_first_depth(m: GraphModel, dir: Direction, s: Set<i64>, max: nat, name: Seq<char>, from: nat)
    requires
        from >= 1,
    ensures
        m.first_depth(dir, s, max, name, from) matches Some(j) ==> from <= j <= max && met_at(m, dir, s, j).contains(name)
            && forall|i: nat| from <= i < j ==> !#[trigger] met_at(m, dir, s, i).contains(name),
        m.first_depth(dir, s, max, name, from) is None ==> forall|i: nat| from <= i <= max ==> !#[trigger] met_at(m, dir, s, i).contains(name),
    decreases max + 1 - from,
{
    if from <= max && !met_at(m, dir, s, from).contains(name) {
        lemma_first_depth(m, dir, s, max, name, from + 1);
        assert forall|i: nat| from <= i < from + 1 implies !#[trigger] met_at(m, dir, s, i).contains(name) by {
            assert(i == from);
        }
    }
}

/// The trace depth is `j` exactly when `name` is met at `j` and at no depth before.
pub proof fn lemma_trace_depth_is(m: GraphModel, dir: Direction, s: Set<i64>, max: nat, name: Seq<char>, j: nat)
    requires
        1 <= j <= max,
        met_at(m, dir, s, j).contains(name),
        j > 1 ==> !met_at(m, dir, s, (j - 1) as nat).contains(name),
    ensures
        m.trace_depth(dir, s, max, name) == Some(j),
{
    lemma_first_depth(m, dir, s, max, name, 1);
    match m.trace_depth(dir, s, max, name) {
        Some(k) => {
            if k < j {
                lemma_met_mono(m, dir, s, k, (j - 1) as nat);
            } else if k > j {
                assert(!met_at(m, dir, s, j).contains(name));
            }
        },
        None => {
            assert(!met_at(m, dir, s, j).contains(name));
        },
    }
}

/// Appends each name of a layer, with its depth, to the trace and to the
/// names seen.
fn record_layer(layer: &Vec<String>, dd: usize, recorded: &mut Vec<String>, result: &mut Vec<TraceEntry>)
    requires
        forall|x: Seq<char>| #[trigger] views(old(recorded)@).contains(x) <==> exists|q: int| 0 <= q < old(result)@.len() && old(result)@[q].0@ == x,
    ensures
        views(final(recorded)@).to_set() == views(old(recorded)@).to_set().union(views(layer@).to_set()),
        forall|x: Seq<char>| #[trigger] views(final(recorded)@).contains(x) <==> exists|q: int| 0 <= q < final(result)@.len() && final(result)@[q].0@ == x,
        final(result)@.len() == old(result)@.len() + layer@.len(),
        forall|q: int| 0 <= q < old(result)@.len() ==> #[trigger] final(result)@[q] == old(result)@[q],
        forall|q: int| 0 <= q < layer@.len() ==> (#[trigger] final(result)@[old(result)@.len() + q]).0@ == layer@[q]@ && final(result)@[old(result)@.len() + q].1 == dd,
{
    let ghost res0 = result@;
    let ghost rec0 = views(recorded@).to_set();
    let mut k: usize = 0;
    while k < layer.len()
        invariant
            k <= layer@.len(),
            views(recorded@).to_set() == rec0.union(views(layer@).take(k as int).to_set()),
            forall|x: Seq<char>| #[trigger] views(recorded@).contains(x) <==> exists|q: int| 0 <= q < result@.len() && result@[q].0@ == x,
            result@.len() == res0.len() + k,
            forall|q: int| 0 <= q < res0.len() ==> #[trigger] result@[q] == res0[q],
            forall|q: int| 0 <= q < k ==> (#[trigger] result@[res0.len() + q]).0@ == layer@[q]@ && result@[res0.len() + q].1 == dd,
        decreases layer@.len() - k,
    {
        let ghost rv = views(recorded@);
        let ghost resv = result@;
        result.push((to_owned(layer[k].as_str()), dd));
        recorded.push(to_owned(layer[k].as_str()));
        proof {
            let x0 = layer@[k as int]@;
            assert(views(recorded@) =~= rv.push(x0));
            lemma_push_contains(rv, x0);
            assert(views(layer@).take(k + 1) =~= views(layer@).take(k as int).push(x0));
            Seq::lemma_to_set_insert_commutes(views(layer@).take(k as int), x0);
            Seq::lemma_to_set_insert_commutes(rv, x0);
            assert(views(layer@).take(k as int) + seq![x0] =~= views(layer@).take(k as int).push(x0));
            assert(rv + seq![x0] =~= rv.push(x0));
            assert(views(recorded@).to_set() =~= rec0.union(views(layer@).take(k + 1).to_set()));
            assert forall|x: Seq<char>| #[trigger] views(recorded@).contains(x) <==> exists|q: int| 0 <= q < result@.len() && result@[q].0@ == x by {
                if x == x0 {
                    assert(result@[result@.len() - 1].0@ == x);
                }
                if exists|q: int| 0 <= q < result@.len() && result@[q].0@ == x {
                    let q = choose|q: int| 0 <= q < result@.len() && result@[q].0@ == x;
                    if q < resv.len() {
                        assert(resv[q] == result@[q]);
                    }
                }
                if rv.contains(x) {
                    let q = choose|q: int| 0 <= q < resv.len() && resv[q].0@ == x;
                    assert(result@[q] == resv[q]);
                }
            }
            assert forall|q: int| 0 <= q < k + 1 implies (#[trigger] result@[res0.len() + q]).0@ == layer@[q]@ && result@[res0.len() + q].1 == dd by {
                if q < k {
                    assert(result@[res0.len() + q] == resv[res0.len() + q]);
                }
            }
        }
        k = k + 1;
    }
    proof {
        assert(views(layer@).take(layer@.len() as int) =~= views(layer@));
    }
}

/// The ids of the graph's nodes.
pub open spec fn node_set(m: GraphModel) -> Set<i64> {
    record_ids(m.symbols).to_set()
}

proof fn lemma_node_set(m: GraphModel)
    ensures
        node_set(m).finite(),
        node_set(m).len() <= m.symbols.len(),
        forall|id: i64| #[trigger] node_set(m).contains(id) <==> m.has_node(id),
{
    broadcast use vstd::seq_lib::seq_to_set_is_finite;

    record_ids(m.symbols).lemma_cardinality_of_set();
    assert forall|id: i64| #[trigger] node_set(m).contains(id) <==> m.has_node(id) by {
        if node_set(m).contains(id) {
            let i = choose|i: int| 0 <= i < record_ids(m.symbols).len() && record_ids(m.symbols)[i] == id;
            assert(m.symbols[i].id == id);
        }
        if m.has_node(id) {
            let i = choose|i: int| 0 <= i < m.symbols.len() && m.symbols[i].id == id;
            assert(record_ids(m.symbols)[i] == id);
        }
    }
}

proof fn lemma_reach_grows(m: GraphModel, dir: Direction, s: Set<i64>, j: nat)
    requires
        forall|id: i64| #[trigger] s.contains(id) ==> m.has_node(id),
        forall|i: nat| i < j ==> #[trigger] m.reach(dir, s, i + 1) != m.reach(dir, s, i),
    ensures
        m.reach(dir, s, j).finite(),
        m.reach(dir, s, j).len() >= j,
    decreases j,
{
    lemma_node_set(m);
    lemma_reach_nodes(m, dir, s, j);
    assert(m.reach(dir, s, j).subset_of(node_set(m)));
    vstd::set_lib::lemma_len_subset(m.reach(dir, s, j), node_set(m));
    if j > 0 {
        let p = (j - 1) as nat;
        lemma_reach_grows(m, dir, s, p);
        lemma_reach_mono(m, dir, s, p, j);
        assert(m.reach(dir, s, p + 1) != m.reach(dir, s, p));
        let a = m.reach(dir, s, p);
        let b = m.reach(dir, s, j);
        assert(!(b =~= a));
        let x = choose|x: i64| b.contains(x) != a.contains(x);
        a.lemma_subset_not_in_lt(b, x);
    }
}

/// Every node reachable at all from nodes is reached within as many steps
/// as the graph has symbol records.
pub proof fn lemma_reach_saturates(m: GraphModel, dir: Direction, s: Set<i64>)
    requires
        forall|id: i64| #[trigger] s.contains(id) ==> m.has_node(id),
    ensures
        forall|k: nat, v: i64| k >= m.symbols.len() ==> (#[trigger] m.reach(dir, s, k).contains(v) <==> m.reachable(dir, s, v)),
{
    let n = m.symbols.len();
    if forall|i: nat| i < n + 1 ==> #[trigger] m.reach(dir, s, i + 1) != m.reach(dir, s, i) {
        lemma_reach_grows(m, dir, s, n + 1);
        lemma_node_set(m);
        lemma_reach_nodes(m, dir, s, n + 1);
        assert(m.reach(dir, s, n + 1).subset_of(node_set(m)));
        vstd::set_lib::lemma_len_subset(m.reach(dir, s, n + 1), node_set(m));
        assert(false);
    }
    let j = choose|i: nat| i < n + 1 && m.reach(dir, s, i + 1) == #[trigger] m.reach(dir, s, i);
    assert(m.step(dir, m.reach(dir, s, j)).subset_of(m.reach(dir, s, j))) by {
        assert(m.reach(dir, s, j + 1) == m.reach(dir, s, j).union(m.step(dir, m.reach(dir, s, j))));
    }
    assert forall|k: nat, v: i64| k >= m.symbols.len() implies (#[trigger] m.reach(dir, s, k).contains(v) <==> m.reachable(dir, s, v)) by {
        lemma_reach_stable(m, dir, s, j, k);
        if m.reachable(dir, s, v) {
            let k2 = choose|k2: nat| m.reach(dir, s, k2).contains(v);
            if k2 <= k {
                lemma_reach_mono(m, dir, s, k2, k);
            } else {
                lemma_reach_stable(m, dir, s, j, k2);
            }
        }
    }
}

impl DepGraph {
    /// The ids that `symbol` stands for, as `GraphModel::resolve` says.
    fn resolve_ids(&self, symbol: &str) -> (r: Vec<i64>)
        ensures
            r@ == self@.resolve(symbol@),
    {
        proof {
            use_type_invariant(self);
        }
        let ghost syms = self@.symbols;
        let mut found: Option<i64> = None;
        let mut i: usize = 0;
        while i < self.lookup.len()
            invariant
                syms == self@.symbols,
                self.lookup@.len() == syms.len(),
                forall|q: int| 0 <= q < syms.len() ==> (#[trigger] self.lookup@[q]).qualified_name@ == syms[q].qualified_name@,
                forall|q: int| 0 <= q < syms.len() ==> (#[trigger] self.lookup@[q]).id == syms[q].id,
                i <= syms.len(),
                found == last_qualified(syms.take(i as int), symbol@),
            decreases syms.len() - i,
        {
            proof {
                assert(syms.take(i + 1).drop_last() =~= syms.take(i as int));
            }
            if str_eq(self.lookup[i].qualified_name.as_str(), symbol) {
                found = Some(self.lookup[i].id);
            }
            i = i + 1;
        }
        proof {
            assert(syms.take(syms.len() as int) =~= syms);
        }
        if let Some(id) = found {
            let mut r = Vec::new();
            r.push(id);
            proof {
                assert(r@ =~= seq![id]);
            }
            return r;
        }
        let mut r: Vec<i64> = Vec::new();
        let mut i: usize = 0;
        while i < self.lookup.len()
            invariant
                syms == self@.symbols,
                self.lookup@.len() == syms.len(),
                forall|q: int| 0 <= q < syms.len() ==> (#[trigger] self.lookup@[q]).name@ == syms[q].name@,
                forall|q: int| 0 <= q < syms.len() ==> (#[trigger] self.lookup@[q]).id == syms[q].id,
                i <= syms.len(),
                r@ == ids_named(syms.take(i as int), symbol@),
            decreases syms.len() - i,
        {
            proof {
                assert(syms.take(i + 1).drop_last() =~= syms.take(i as int));
            }
            if str_eq(self.lookup[i].name.as_str(), symbol) {
                r.push(self.lookup[i].id);
            }
            i = i + 1;
        }
        proof {
            assert(syms.take(syms.len() as int) =~= syms);
        }
        r
    }

    /// Node positions of ids that are nodes.
    fn positions(&self, ids: &Vec<i64>) -> (r: Vec<usize>)
        requires
            forall|k: int| 0 <= k < ids@.len() ==> self@.has_node(#[trigger] ids@[k]),
        ensures
            r@.len() == ids@.len(),
            forall|k: int| 0 <= k < r@.len() ==> #[trigger] r@[k] < self.ids@.len() && self.ids@[r@[k] as int] == ids@[k],
    {
        proof {
            use_type_invariant(self);
        }
        let mut r: Vec<usize> = Vec::new();
        let mut i: usize = 0;
        while i < ids.len()
            invariant
                i <= ids@.len(),
                r@.len() == i,
                forall|k: int| 0 <= k < ids@.len() ==> self@.has_node(#[trigger] ids@[k]),
                forall|k: int| 0 <= k < r@.len() ==> #[trigger] r@[k] < self.ids@.len() && self.ids@[r@[k] as int] == ids@[k],
            decreases ids@.len() - i,
        {
            let id = ids[i];
            proof {
                use_type_invariant(self);
                assert(self@.has_node(id));
                assert(self.ids@.contains(id));
                let w = choose|w: int| 0 <= w < self.ids@.len() && self.ids@[w] == id;
                assert(self.index@[self.ids@[w]] == w);
            }
            match self.index.get(&id) {
                Some(k) => {
                    r.push(*k);
                },
                None => {
                    proof {
                        assert(false);
                    }
                },
            }
            i = i + 1;
        }
        r
    }

    /// The positions linked to node `u` in direction `dir`.
    fn neighbor_list(&self, u: usize, dir: Direction) -> (r: Vec<usize>)
        requires
            u < self.ids@.len(),
        ensures
            forall|x: usize| #[trigger] r@.contains(x) ==> x < self.ids@.len(),
            forall|t: int| 0 <= t < self.ids@.len() ==> (#[trigger] r@.contains(t as usize) <==> self@.linked(dir, self.ids@[u as int], self.ids@[t])),
    {
        proof {
            use_type_invariant(self);
        }
        let mut r: Vec<usize> = Vec::new();
        match dir {
            Direction::Out => {
                r = self.outgoing[u].clone();
            },
            Direction::In => {
                r = self.incoming[u].clone();
            },
            Direction::Both => {
                r = self.outgoing[u].clone();
                let inc = &self.incoming[u];
                let ghost first = r@;
                let mut j: usize = 0;
                while j < inc.len()
                    invariant
                        j <= inc@.len(),
                        first == self.outgoing@[u as int]@,
                        forall|x: usize| #[trigger] r@.contains(x) <==> (first.contains(x) || inc@.take(j as int).contains(x)),
                    decreases inc@.len() - j,
                {
                    let ghost before = r@;
                    r.push(inc[j]);
                    proof {
                        lemma_push_contains(before, inc@[j as int]);
                        lemma_take_grow_contains(inc@, j as int);
                    }
                    j = j + 1;
                }
                proof {
                    assert(inc@.take(inc@.len() as int) =~= inc@);
                }
            },
        }
        r
    }

    /// Marks every unmarked node linked to node `u`, and lists them in `next`.
    fn expand(&self, u: usize, dir: Direction, visited: &mut Vec<bool>, next: &mut Vec<usize>)
        requires
            u < self.ids@.len(),
            old(visited)@.len() == self.ids@.len(),
            forall|x: usize| #[trigger] old(next)@.contains(x) ==> x < self.ids@.len(),
        ensures
            final(visited)@.len() == self.ids@.len(),
            forall|x: usize| #[trigger] final(next)@.contains(x) ==> x < self.ids@.len(),
            forall|t: int| 0 <= t < self.ids@.len() ==> (#[trigger] final(visited)@[t] <==> (old(visited)@[t] || self@.linked(dir, self.ids@[u as int], self.ids@[t]))),
            forall|t: int| 0 <= t < self.ids@.len() ==> (#[trigger] final(next)@.contains(t as usize) <==> (old(next)@.contains(t as usize) || (!old(visited)@[t] && self@.linked(dir, self.ids@[u as int], self.ids@[t])))),
    {
        let nbrs = self.neighbor_list(u, dir);
        let ghost v0 = visited@;
        let ghost n0 = next@;
        let n = visited.len();
        let mut j: usize = 0;
        while j < nbrs.len()
            invariant
                n == self.ids@.len(),
                visited@.len() == n,
                j <= nbrs@.len(),
                forall|x: usize| #[trigger] nbrs@.contains(x) ==> x < n,
                forall|x: usize| #[trigger] next@.contains(x) ==> x < n,
                forall|t: int| 0 <= t < n ==> (#[trigger] visited@[t] <==> (v0[t] || nbrs@.take(j as int).contains(t as usize))),
                forall|t: int| 0 <= t < n ==> (#[trigger] next@.contains(t as usize) <==> (n0.contains(t as usize) || (!v0[t] && nbrs@.take(j as int).contains(t as usize)))),
            decreases nbrs@.len() - j,
        {
            let t = nbrs[j];
            proof {
                assert(nbrs@.contains(t));
                lemma_take_grow_contains(nbrs@, j as int);
            }
            if !visited[t] {
                let ghost before = next@;
                visited.set(t, true);
                next.push(t);
                proof {
                    lemma_push_contains(before, t);
                }
            }
            j = j + 1;
        }
        proof {
            assert(nbrs@.take(nbrs@.len() as int) =~= nbrs@);
        }
    }

    /// The ids at the given node positions.
    closed spec fn id_set(self, pos: Seq<usize>) -> Set<i64> {
        Set::new(|id: i64| exists|i: int| 0 <= i < pos.len() && self.ids@[pos[i] as int] == id)
    }

    /// Marks of the nodes within `max_depth` steps of the start positions.
    fn reach_marks(&self, starts: &Vec<usize>, dir: Direction, max_depth: usize) -> (marks: Vec<bool>)
        requires
            forall|i: int| 0 <= i < starts@.len() ==> #[trigger] starts@[i] < self.ids@.len(),
        ensures
            marks@.len() == self.ids@.len(),
            forall|t: int| 0 <= t < self.ids@.len() ==> (#[trigger] marks@[t] <==> self@.reach(dir, self.id_set(starts@), max_depth as nat).contains(self.ids@[t])),
    {
        proof {
            use_type_invariant(self);
        }
        let ghost m = self@;
        let ghost s = self.id_set(starts@);
        let ghost ids = self.ids@;
        let n = self.ids.len();
        let mut visited: Vec<bool> = Vec::new();
        while visited.len() < n
            invariant
                visited@.len() <= n,
                forall|t: int| 0 <= t < visited@.len() ==> !#[trigger] visited@[t],
            decreases n - visited@.len(),
        {
            visited.push(false);
        }
        let mut frontier: Vec<usize> = Vec::new();
        let mut i: usize = 0;
        while i < starts.len()
            invariant
                n == ids.len(),
                ids == self.ids@,
                s == self.id_set(starts@),
                visited@.len() == n,
                i <= starts@.len(),
                forall|q: int| 0 <= q < starts@.len() ==> #[trigger] starts@[q] < n,
                forall|t: int| 0 <= t < n ==> (#[trigger] visited@[t] <==> exists|q: int| 0 <= q < i && starts@[q] == t),
                forall|x: usize| #[trigger] frontier@.contains(x) <==> (x < n && visited@[x as int]),
            decreases starts@.len() - i,
        {
            let st = starts[i];
            if !visited[st] {
                let ghost before = frontier@;
                visited.set(st, true);
                frontier.push(st);
                proof {
                    lemma_push_contains(before, st);
                }
            }
            i = i + 1;
        }
        proof {
            assert forall|t: int| 0 <= t < n implies (#[trigger] visited@[t] <==> m.reach(dir, s, 0).contains(ids[t])) by {
                if visited@[t] {
                    let q = choose|q: int| 0 <= q < starts@.len() && starts@[q] == t;
                    assert(s.contains(ids[t]));
                }
                if s.contains(ids[t]) {
                    let q = choose|q: int| 0 <= q < starts@.len() && ids[starts@[q] as int] == ids[t];
                    assert(ids[starts@[q] as int] == ids[t]);
                    assert(starts@[q] as int == t) by {
                        assert(ids.no_duplicates());
                    }
                }
            }
            assert forall|id: i64| #[trigger] m.reach(dir, s, 0).contains(id) implies ids.contains(id) by {
                let q = choose|q: int| 0 <= q < starts@.len() && ids[starts@[q] as int] == id;
                assert(ids[starts@[q] as int] == id);
            }
            assert forall|a: i64, b: i64| m.reach(dir, s, 0).contains(a) && #[trigger] m.linked(dir, a, b) && !m.reach(dir, s, 0).contains(b)
                implies exists|f: usize| frontier@.contains(f) && ids[f as int] == a by {
                let q = choose|q: int| 0 <= q < starts@.len() && ids[starts@[q] as int] == a;
                let f = starts@[q];
                assert(visited@[f as int]);
                assert(frontier@.contains(f));
            }
        }
        let mut d: usize = 0;
        while d < max_depth && frontier.len() > 0
            invariant
                n == ids.len(),
                ids == self.ids@,
                m == self@,
                ids.no_duplicates(),
                forall|id: i64| #[trigger] m.has_node(id) <==> ids.contains(id),
                forall|k: int, t: int| 0 <= k < n && 0 <= t < n ==> (#[trigger] self.outgoing@[k]@.contains(t as usize) <==> m.has_edge(ids[k], #[trigger] ids[t])),
                visited@.len() == n,
                d <= max_depth,
                forall|t: int| 0 <= t < n ==> (#[trigger] visited@[t] <==> m.reach(dir, s, d as nat).contains(ids[t])),
                forall|id: i64| #[trigger] m.reach(dir, s, d as nat).contains(id) ==> ids.contains(id),
                forall|x: usize| #[trigger] frontier@.contains(x) ==> x < n && visited@[x as int],
                forall|a: i64, b: i64| m.reach(dir, s, d as nat).contains(a) && #[trigger] m.linked(dir, a, b) && !m.reach(dir, s, d as nat).contains(b)
                    ==> exists|f: usize| frontier@.contains(f) && ids[f as int] == a,
            decreases max_depth - d,
        {
            let ghost r = m.reach(dir, s, d as nat);
            let ghost v0 = visited@;
            let mut next: Vec<usize> = Vec::new();
            let mut fi: usize = 0;
            while fi < frontier.len()
                invariant
                    n == ids.len(),
                    ids == self.ids@,
                    m == self@,
                    visited@.len() == n,
                    fi <= frontier@.len(),
                    forall|x: usize| #[trigger] frontier@.contains(x) ==> x < n && v0[x as int],
                    forall|t: int| 0 <= t < n ==> (#[trigger] v0[t] <==> r.contains(ids[t])),
                    forall|x: usize| #[trigger] next@.contains(x) ==> x < n,
                    forall|t: int| 0 <= t < n ==> (#[trigger] visited@[t] <==> (r.contains(ids[t]) || hit_by(m, dir, ids, frontier@.take(fi as int), ids[t]))),
                    forall|t: int| 0 <= t < n ==> (#[trigger] next@.contains(t as usize) <==> (visited@[t] && !r.contains(ids[t]))),
                decreases frontier@.len() - fi,
            {
                let u = frontier[fi];
                proof {
                    assert(frontier@.contains(u));
                }
                let ghost vb = visited@;
                let ghost nb = next@;
                self.expand(u, dir, &mut visited, &mut next);
                proof {
                    assert(frontier@.take(fi + 1) =~= frontier@.take(fi as int).push(u));
                    assert forall|t: int| 0 <= t < n implies (#[trigger] visited@[t] <==> (r.contains(ids[t]) || hit_by(m, dir, ids, frontier@.take(fi + 1), ids[t]))) by {
                        let ft = frontier@.take(fi + 1);
                        if hit_by(m, dir, ids, ft, ids[t]) {
                            let f = choose|f: int| 0 <= f < ft.len() && m.linked(dir, ids[ft[f] as int], ids[t]);
                            if f < fi {
                                assert(frontier@.take(fi as int)[f] == ft[f]);
                            }
                        }
                        if hit_by(m, dir, ids, frontier@.take(fi as int), ids[t]) {
                            let f = choose|f: int| 0 <= f < fi && m.linked(dir, ids[frontier@.take(fi as int)[f] as int], ids[t]);
                            assert(ft[f] == frontier@.take(fi as int)[f]);
                        }
                        if m.linked(dir, ids[u as int], ids[t]) {
                            assert(ft[fi as int] == u);
                        }
                    }
                }
                fi = fi + 1;
            }
            proof {
                assert(frontier@.take(frontier@.len() as int) =~= frontier@);
                let r1 = m.reach(dir, s, (d + 1) as nat);
                assert(r1 == r.union(m.step(dir, r)));
                assert forall|t: int| 0 <= t < n implies (#[trigger] visited@[t] <==> r1.contains(ids[t])) by {
                    if hit_by(m, dir, ids, frontier@, ids[t]) {
                        let f = choose|f: int| 0 <= f < frontier@.len() && m.linked(dir, ids[frontier@[f] as int], ids[t]);
                        assert(frontier@.contains(frontier@[f]));
                        assert(r.contains(ids[frontier@[f] as int]));
                        assert(m.step(dir, r).contains(ids[t]));
                    }
                    if m.step(dir, r).contains(ids[t]) && !r.contains(ids[t]) {
                        let a = choose|a: i64| r.contains(a) && m.linked(dir, a, ids[t]);
                        let f = choose|f: usize| frontier@.contains(f) && ids[f as int] == a;
                        let fk = choose|fk: int| 0 <= fk < frontier@.len() && frontier@[fk] == f;
                        assert(hit_by(m, dir, ids, frontier@, ids[t]));
                    }
                }
                assert forall|id: i64| #[trigger] r1.contains(id) implies ids.contains(id) by {
                    if !r.contains(id) {
                        let a = choose|a: i64| r.contains(a) && m.linked(dir, a, id);
                        assert(m.has_node(id));
                    }
                }
                assert forall|a: i64, b: i64| r1.contains(a) && #[trigger] m.linked(dir, a, b) && !r1.contains(b)
                    implies exists|f: usize| next@.contains(f) && ids[f as int] == a by {
                    if r.contains(a) {
                        assert(m.step(dir, r).contains(b));
                    }
                    assert(ids.contains(a));
                    let t = choose|t: int| 0 <= t < n && ids[t] == a;
                    assert(visited@[t]);
                    assert(next@.contains(t as usize));
                }
            }
            proof {
                assert forall|x: usize| #[trigger] next@.contains(x) implies x < n && visited@[x as int] by {
                    assert(x < n);
                    assert(next@.contains((x as int) as usize));
                }
            }
            frontier = next;
            d = d + 1;
        }
        proof {
            let rd = m.reach(dir, s, d as nat);
            if d < max_depth {
                assert(frontier@.len() == 0);
                assert forall|b: i64| m.step(dir, rd).contains(b) implies rd.contains(b) by {
                    let a = choose|a: i64| rd.contains(a) && m.linked(dir, a, b);
                    if !rd.contains(b) {
                        let f = choose|f: usize| frontier@.contains(f) && ids[f as int] == a;
                    }
                }
                lemma_reach_stable(m, dir, s, d as nat, max_depth as nat);
            }
        }
        visited
    }

    /// The sorted, distinct qualified names of the marked nodes.
    fn names_of_marks(&self, marks: &Vec<bool>) -> (r: Vec<String>)
        requires
            marks@.len() == self.ids@.len(),
        ensures
            sorted_strict(views(r@)),
            views(r@).to_set() == self@.names(marked(self.ids@, marks@)),
    {
        proof {
            use_type_invariant(self);
        }
        let ghost m = self@;
        let ghost ids = self.ids@;
        let mut r: Vec<String> = Vec::new();
        let mut k: usize = 0;
        while k < marks.len()
            invariant
                m == self@,
                ids == self.ids@,
                marks@.len() == ids.len(),
                self.meta@.len() == ids.len(),
                forall|id: i64| #[trigger] m.has_node(id) <==> ids.contains(id),
                forall|q: int| 0 <= q < ids.len() ==> (#[trigger] self.meta@[q]).qualified_name@ == m.record(ids[q]).qualified_name@,
                k <= marks@.len(),
                sorted_strict(views(r@)),
                views(r@).to_set() == m.names(marked(ids, marks@.take(k as int))),
            decreases marks@.len() - k,
        {
            let ghost before = views(r@).to_set();
            if marks[k] {
                insert_sorted(&mut r, self.meta[k].qualified_name.as_str());
            }
            proof {
                let mk = marked(ids, marks@.take(k as int));
                let mk1 = marked(ids, marks@.take(k + 1));
                assert forall|id: i64| mk1.contains(id) <==> (mk.contains(id) || (marks@[k as int] && id == ids[k as int])) by {
                    if mk1.contains(id) {
                        let q = choose|q: int| 0 <= q < ids.len() && q < marks@.take(k + 1).len() && marks@.take(k + 1)[q] && ids[q] == id;
                        if q < k {
                            assert(marks@.take(k as int)[q]);
                        }
                    }
                    if mk.contains(id) {
                        let q = choose|q: int| 0 <= q < ids.len() && q < marks@.take(k as int).len() && marks@.take(k as int)[q] && ids[q] == id;
                        assert(marks@.take(k + 1)[q]);
                    }
                    if marks@[k as int] && id == ids[k as int] {
                        assert(marks@.take(k + 1)[k as int]);
                    }
                }
                assert(ids.contains(ids[k as int]));
                assert forall|nm: Seq<char>| views(r@).to_set().contains(nm) <==> m.names(mk1).contains(nm) by {
                    if m.names(mk1).contains(nm) {
                        let id = choose|id: i64| mk1.contains(id) && m.has_node(id) && m.record(id).qualified_name@ == nm;
                        if !mk.contains(id) {
                            assert(id == ids[k as int]);
                        } else {
                            assert(m.names(mk).contains(nm));
                        }
                    }
                    if views(r@).to_set().contains(nm) && !before.contains(nm) {
                        assert(nm == self.meta@[k as int].qualified_name@);
                        assert(mk1.contains(ids[k as int]));
                    }
                    if before.contains(nm) {
                        let id = choose|id: i64| mk.contains(id) && m.has_node(id) && m.record(id).qualified_name@ == nm;
                        assert(mk1.contains(id));
                    }
                }
                assert(views(r@).to_set() =~= m.names(mk1));
            }
            k = k + 1;
        }
        proof {
            assert(marks@.take(marks@.len() as int) =~= marks@);
        }
        r
    }

    /// Every id a name resolves to is a node.
    proof fn lemma_resolve_nodes(self, s: Seq<char>)
        ensures
            forall|k: int| 0 <= k < self@.resolve(s).len() ==> self@.has_node(#[trigger] self@.resolve(s)[k]),
    {
        lemma_last_qualified_has_id(self@.symbols, s);
        lemma_ids_named_have_ids(self@.symbols, s);
    }

    /// Positions of the nodes a name resolves to.
    fn start_positions(&self, symbol: &str) -> (r: Vec<usize>)
        ensures
            forall|i: int| 0 <= i < r@.len() ==> #[trigger] r@[i] < self.ids@.len(),
            self.id_set(r@) == self@.resolve(symbol@).to_set(),
            r@.len() == self@.resolve(symbol@).len(),
            forall|i: int| 0 <= i < r@.len() ==> self.ids@[#[trigger] r@[i] as int] == self@.resolve(symbol@)[i],
    {
        let ids = self.resolve_ids(symbol);
        proof {
            self.lemma_resolve_nodes(symbol@);
        }
        let r = self.positions(&ids);
        proof {
            let res = self@.resolve(symbol@);
            assert forall|id: i64| self.id_set(r@).contains(id) <==> res.to_set().contains(id) by {
                if self.id_set(r@).contains(id) {
                    let i = choose|i: int| 0 <= i < r@.len() && self.ids@[r@[i] as int] == id;
                    assert(res[i] == id);
                }
                if res.to_set().contains(id) {
                    let i = choose|i: int| 0 <= i < res.len() && res[i] == id;
                    assert(self.ids@[r@[i] as int] == id);
                }
            }
            assert(self.id_set(r@) =~= res.to_set());
        }
        r
    }

    /// Get direct dependencies (`Out`), dependents (`In`) or both of a
    /// symbol: sorted distinct qualified names.
    pub fn get_dependencies(&self, symbol: &str, direction: Direction) -> (r: Vec<String>)
        ensures
            sorted_strict(views(r@)),
            views(r@).to_set() == self@.names(self@.step(direction, self@.resolve(symbol@).to_set())),
    {
        proof {
            use_type_invariant(self);
        }
        let ghost m = self@;
        let ghost ids = self.ids@;
        let starts = self.start_positions(symbol);
        let n = self.ids.len();
        let mut marks: Vec<bool> = Vec::new();
        while marks.len() < n
            invariant
                marks@.len() <= n,
                forall|t: int| 0 <= t < marks@.len() ==> !#[trigger] marks@[t],
            decreases n - marks@.len(),
        {
            marks.push(false);
        }
        let mut next: Vec<usize> = Vec::new();
        let mut i: usize = 0;
        while i < starts.len()
            invariant
                n == ids.len(),
                ids == self.ids@,
                m == self@,
                marks@.len() == n,
                i <= starts@.len(),
                forall|q: int| 0 <= q < starts@.len() ==> #[trigger] starts@[q] < n,
                forall|x: usize| #[trigger] next@.contains(x) ==> x < n,
                forall|t: int| 0 <= t < n ==> (#[trigger] marks@[t] <==> hit_by(m, direction, ids, starts@.take(i as int), ids[t])),
            decreases starts@.len() - i,
        {
            let u = starts[i];
            self.expand(u, direction, &mut marks, &mut next);
            proof {
                assert(starts@.take(i + 1) =~= starts@.take(i as int).push(u));
                assert forall|t: int| 0 <= t < n implies (#[trigger] marks@[t] <==> hit_by(m, direction, ids, starts@.take(i + 1), ids[t])) by {
                    let ft = starts@.take(i + 1);
                    if hit_by(m, direction, ids, ft, ids[t]) {
                        let f = choose|f: int| 0 <= f < ft.len() && m.linked(direction, ids[ft[f] as int], ids[t]);
                        if f < i {
                            assert(starts@.take(i as int)[f] == ft[f]);
                        }
                    }
                    if hit_by(m, direction, ids, starts@.take(i as int), ids[t]) {
                        let f = choose|f: int| 0 <= f < i && m.linked(direction, ids[starts@.take(i as int)[f] as int], ids[t]);
                        assert(ft[f] == starts@.take(i as int)[f]);
                    }
                    if m.linked(direction, ids[u as int], ids[t]) {
                        assert(ft[i as int] == u);
                    }
                }
            }
            i = i + 1;
        }
        proof {
            assert(starts@.take(starts@.len() as int) =~= starts@);
            let sset = m.resolve(symbol@).to_set();
            assert forall|id: i64| marked(ids, marks@).contains(id) <==> m.step(direction, sset).contains(id) by {
                if marked(ids, marks@).contains(id) {
                    let t = choose|t: int| 0 <= t < ids.len() && t < marks@.len() && marks@[t] && ids[t] == id;
                    let f = choose|f: int| 0 <= f < starts@.len() && m.linked(direction, ids[starts@[f] as int], ids[t]);
                    assert(self.id_set(starts@).contains(ids[starts@[f] as int]));
                }
                if m.step(direction, sset).contains(id) {
                    let a = choose|a: i64| sset.contains(a) && m.linked(direction, a, id);
                    assert(self.id_set(starts@).contains(a));
                    let f = choose|f: int| 0 <= f < starts@.len() && ids[starts@[f] as int] == a;
                    assert(m.has_node(id));
                    assert(ids.contains(id));
                    let t = choose|t: int| 0 <= t < ids.len() && ids[t] == id;
                    assert(hit_by(m, direction, ids, starts@, ids[t]));
                    assert(marks@[t]);
                }
            }
            assert(marked(ids, marks@) =~= m.step(direction, sset));
        }
        self.names_of_marks(&marks)
    }

    /// Unmarks the start positions.
    fn unmark(&self, marks: &mut Vec<bool>, starts: &Vec<usize>)
        requires
            old(marks)@.len() == self.ids@.len(),
            forall|i: int| 0 <= i < starts@.len() ==> #[trigger] starts@[i] < self.ids@.len(),
        ensures
            final(marks)@.len() == self.ids@.len(),
            forall|t: int| 0 <= t < self.ids@.len() ==> (#[trigger] final(marks)@[t] <==> (old(marks)@[t] && !self.id_set(starts@).contains(self.ids@[t]))),
    {
        proof {
            use_type_invariant(self);
        }
        let ghost m0 = marks@;
        let mut i: usize = 0;
        while i < starts.len()
            invariant
                marks@.len() == self.ids@.len(),
                i <= starts@.len(),
                forall|q: int| 0 <= q < starts@.len() ==> #[trigger] starts@[q] < self.ids@.len(),
                forall|t: int| 0 <= t < self.ids@.len() ==> (#[trigger] marks@[t] <==> (m0[t] && !exists|q: int| 0 <= q < i && starts@[q] == t)),
            decreases starts@.len() - i,
        {
            marks.set(starts[i], false);
            i = i + 1;
        }
        proof {
            let ids = self.ids@;
            assert forall|t: int| 0 <= t < ids.len() implies ((exists|q: int| 0 <= q < starts@.len() && starts@[q] == t) <==> self.id_set(starts@).contains(ids[t])) by {
                if self.id_set(starts@).contains(ids[t]) {
                    let q = choose|q: int| 0 <= q < starts@.len() && ids[starts@[q] as int] == ids[t];
                    assert(ids[starts@[q] as int] == ids[t]);
                    assert(ids.no_duplicates());
                    assert(starts@[q] as int == t);
                }
                if exists|q: int| 0 <= q < starts@.len() && starts@[q] == t {
                    let q = choose|q: int| 0 <= q < starts@.len() && starts@[q] == t;
                    assert(ids[starts@[q] as int] == ids[t]);
                }
            }
        }
    }

    /// The marked ids are exactly `x`, given that marks follow membership in `x`.
    proof fn lemma_marked_is(self, marks: Seq<bool>, x: Set<i64>)
        requires
            marks.len() == self.ids@.len(),
            forall|t: int| 0 <= t < self.ids@.len() ==> (#[trigger] marks[t] <==> x.contains(self.ids@[t])),
            forall|id: i64| #[trigger] x.contains(id) ==> self.ids@.contains(id),
        ensures
            marked(self.ids@, marks) == x,
    {
        assert forall|id: i64| marked(self.ids@, marks).contains(id) <==> x.contains(id) by {
            if x.contains(id) {
                let t = choose|t: int| 0 <= t < self.ids@.len() && self.ids@[t] == id;
                assert(marks[t]);
            }
        }
        assert(marked(self.ids@, marks) =~= x);
    }

    /// Compute blast radius with a depth limit: the sorted distinct names of
    /// the symbols within `max_depth` dependent steps, the symbol itself left out.
    pub fn get_impact_bounded(&self, symbol: &str, max_depth: usize) -> (r: Vec<String>)
        ensures
            sorted_strict(views(r@)),
            views(r@).to_set() == self@.names(
                self@.reach(Direction::In, self@.resolve(symbol@).to_set(), max_depth as nat).difference(
                    self@.resolve(symbol@).to_set(),
                ),
            ),
    {
        proof {
            use_type_invariant(self);
        }
        let starts = self.start_positions(symbol);
        let mut marks = self.reach_marks(&starts, Direction::In, max_depth);
        self.unmark(&mut marks, &starts);
        proof {
            let s = self@.resolve(symbol@).to_set();
            self.lemma_resolve_nodes(symbol@);
            lemma_reach_nodes(self@, Direction::In, s, max_depth as nat);
            let x = self@.reach(Direction::In, s, max_depth as nat).difference(s);
            assert forall|id: i64| #[trigger] x.contains(id) implies self.ids@.contains(id) by {
                assert(self@.has_node(id));
            }
            self.lemma_marked_is(marks@, x);
        }
        self.names_of_marks(&marks)
    }

    /// Compute blast radius: the sorted distinct names of all transitive
    /// dependents (who would be affected if this symbol changes).
    pub fn get_impact(&self, symbol: &str) -> (r: Vec<String>)
        ensures
            sorted_strict(views(r@)),
            views(r@).to_set() == self@.names(
                Set::new(|v: i64| self@.reachable(Direction::In, self@.resolve(symbol@).to_set(), v)).difference(
                    self@.resolve(symbol@).to_set(),
                ),
            ),
            views(r@).to_set() == self@.names(
                self@.reach(Direction::In, self@.resolve(symbol@).to_set(), usize::MAX as nat).difference(
                    self@.resolve(symbol@).to_set(),
                ),
            ),
    {
        let lookup_len = self.lookup.len();
        proof {
            use_type_invariant(self);
            let s = self@.resolve(symbol@).to_set();
            self.lemma_resolve_nodes(symbol@);
            lemma_reach_saturates(self@, Direction::In, s);
            assert(self.lookup@.len() == lookup_len);
            assert forall|v: i64| #[trigger] self@.reach(Direction::In, s, usize::MAX as nat).contains(v)
                <==> self@.reachable(Direction::In, s, v) by {}
            assert(self@.reach(Direction::In, s, usize::MAX as nat) =~= Set::new(|v: i64| self@.reachable(Direction::In, s, v)));
        }
        self.get_impact_bounded(symbol, usize::MAX)
    }

    /// Symbols within `depth` steps either way, the symbol itself left out.
    pub fn related(&self, symbol: &str, depth: usize) -> (r: Vec<String>)
        ensures
            sorted_strict(views(r@)),
            views(r@).to_set() == self@.names(
                self@.reach(Direction::Out, self@.resolve(symbol@).to_set(), depth as nat).union(
                    self@.reach(Direction::In, self@.resolve(symbol@).to_set(), depth as nat),
                ).difference(self@.resolve(symbol@).to_set()),
            ),
    {
        proof {
            use_type_invariant(self);
        }
        let starts = self.start_positions(symbol);
        let out_marks = self.reach_marks(&starts, Direction::Out, depth);
        let in_marks = self.reach_marks(&starts, Direction::In, depth);
        let mut marks: Vec<bool> = Vec::new();
        let mut k: usize = 0;
        while k < out_marks.len()
            invariant
                out_marks@.len() == self.ids@.len(),
                in_marks@.len() == self.ids@.len(),
                k <= out_marks@.len(),
                marks@.len() == k,
                forall|t: int| 0 <= t < k ==> (#[trigger] marks@[t] <==> (out_marks@[t] || in_marks@[t])),
            decreases out_marks@.len() - k,
        {
            marks.push(out_marks[k] || in_marks[k]);
            k = k + 1;
        }
        self.unmark(&mut marks, &starts);
        proof {
            let s = self@.resolve(symbol@).to_set();
            self.lemma_resolve_nodes(symbol@);
            lemma_reach_nodes(self@, Direction::In, s, depth as nat);
            lemma_reach_nodes(self@, Direction::Out, s, depth as nat);
            let x = self@.reach(Direction::Out, s, depth as nat).union(self@.reach(Direction::In, s, depth as nat)).difference(s);
            assert forall|id: i64| #[trigger] x.contains(id) implies self.ids@.contains(id) by {
                assert(self@.has_node(id));
            }
            self.lemma_marked_is(marks@, x);
        }
        self.names_of_marks(&marks)
    }

    /// Look up the file path of a symbol (its first resolved id).
    pub fn file_of(&self, symbol: &str) -> (r: Option<&str>)
        ensures
            match r {
                Some(f) => self@.resolve(symbol@).len() > 0 && f@ == self@.record(self@.resolve(symbol@)[0]).file_path@,
                None => self@.resolve(symbol@).len() == 0,
            },
    {
        proof {
            use_type_invariant(self);
        }
        let starts = self.start_positions(symbol);
        if starts.len() == 0 {
            return None;
        }
        Some(self.meta[starts[0]].file_path.as_str())
    }

    /// Look up the kind of a symbol (its first resolved id).
    pub fn kind_of(&self, symbol: &str) -> (r: Option<&str>)
        ensures
            match r {
                Some(k) => self@.resolve(symbol@).len() > 0 && k@ == self@.record(self@.resolve(symbol@)[0]).kind@,
                None => self@.resolve(symbol@).len() == 0,
            },
    {
        proof {
            use_type_invariant(self);
        }
        let starts = self.start_positions(symbol);
        if starts.len() == 0 {
            return None;
        }
        Some(self.meta[starts[0]].kind.as_str())
    }

    /// The node ids, in node order.
    pub closed spec fn nodes(self) -> Seq<i64> {
        self.ids@
    }

    /// The number of nodes; each node is one distinct symbol id of the graph.
    pub fn node_count(&self) -> (n: usize)
        ensures
            n == self.nodes().len(),
            self.nodes().no_duplicates(),
            forall|id: i64| #[trigger] self.nodes().contains(id) <==> self@.has_node(id),
    {
        proof {
            use_type_invariant(self);
        }
        self.ids.len()
    }

    /// The symbol id of node `k`.
    pub fn node_id(&self, k: usize) -> (id: i64)
        requires
            k < self.nodes().len(),
        ensures
            id == self.nodes()[k as int],
    {
        self.ids[k]
    }

    /// The qualified name of node `k`.
    pub fn node_name(&self, k: usize) -> (r: &str)
        requires
            k < self.nodes().len(),
        ensures
            r@ == self@.record(self.nodes()[k as int]).qualified_name@,
    {
        proof {
            use_type_invariant(self);
        }
        self.meta[k].qualified_name.as_str()
    }

    /// The kind of node `k`.
    pub fn node_kind(&self, k: usize) -> (r: &str)
        requires
            k < self.nodes().len(),
        ensures
            r@ == self@.record(self.nodes()[k as int]).kind@,
    {
        proof {
            use_type_invariant(self);
        }
        self.meta[k].kind.as_str()
    }

    /// The file path of node `k`.
    pub fn node_file(&self, k: usize) -> (r: &str)
        requires
            k < self.nodes().len(),
        ensures
            r@ == self@.record(self.nodes()[k as int]).file_path@,
    {
        proof {
            use_type_invariant(self);
        }
        self.meta[k].file_path.as_str()
    }

    /// The nodes that node `k` uses, each once.
    pub fn uses(&self, k: usize) -> (r: &Vec<usize>)
        requires
            k < self.nodes().len(),
        ensures
            r@.no_duplicates(),
            forall|i: int| 0 <= i < r@.len() ==> #[trigger] r@[i] < self.nodes().len(),
            forall|t: int| 0 <= t < self.nodes().len() ==> (#[trigger] r@.contains(t as usize)
                <==> self@.has_edge(self.nodes()[k as int], self.nodes()[t])),
    {
        proof {
            use_type_invariant(self);
        }
        let r = &self.outgoing[k];
        proof {
            assert forall|i: int| 0 <= i < r@.len() implies #[trigger] r@[i] < self.nodes().len() by {
                assert(r@.contains(r@[i]));
            }
        }
        r
    }

    /// The nodes that use node `k`, each once.
    pub fn used_by(&self, k: usize) -> (r: &Vec<usize>)
        requires
            k < self.nodes().len(),
        ensures
            r@.no_duplicates(),
            forall|i: int| 0 <= i < r@.len() ==> #[trigger] r@[i] < self.nodes().len(),
            forall|t: int| 0 <= t < self.nodes().len() ==> (#[trigger] r@.contains(t as usize)
                <==> self@.has_edge(self.nodes()[t], self.nodes()[k as int])),
    {
        proof {
            use_type_invariant(self);
        }
        let r = &self.incoming[k];
        proof {
            assert forall|i: int| 0 <= i < r@.len() implies #[trigger] r@[i] < self.nodes().len() by {
                assert(r@.contains(r@[i]));
            }
        }
        r
    }

    /// The nodes a symbol name resolves to, in the order of `GraphModel::resolve`.
    pub fn symbol_nodes(&self, symbol: &str) -> (r: Vec<usize>)
        ensures
            r@.len() == self@.resolve(symbol@).len(),
            forall|i: int| 0 <= i < r@.len() ==> #[trigger] r@[i] < self.nodes().len(),
            forall|i: int| 0 <= i < r@.len() ==> self.nodes()[#[trigger] r@[i] as int] == self@.resolve(symbol@)[i],
    {
        self.start_positions(symbol)
    }

    /// The nodes linked to node `u`.
    closed spec fn linked_ids(self, dir: Direction, u: usize) -> Set<i64> {
        Set::new(|b: i64| self.ids@.contains(b) && self@.linked(dir, self.ids@[u as int], b))
    }

    /// Adds to `layer` the names of the nodes linked to `u` that `seen` lacks.
    fn add_layer_names(&self, u: usize, dir: Direction, seen: &Vec<String>, layer: &mut Vec<String>)
        requires
            u < self.ids@.len(),
            sorted_strict(views(old(layer)@)),
        ensures
            sorted_strict(views(final(layer)@)),
            views(final(layer)@).to_set() == views(old(layer)@).to_set().union(
                self@.names(self.linked_ids(dir, u)).difference(views(seen@).to_set()),
            ),
    {
        proof {
            use_type_invariant(self);
        }
        let ghost m = self@;
        let ghost ids = self.ids@;
        let ghost l0 = views(layer@).to_set();
        let ghost seen_set = views(seen@).to_set();
        let nbrs = self.neighbor_list(u, dir);
        let mut j: usize = 0;
        while j < nbrs.len()
            invariant
                m == self@,
                ids == self.ids@,
                u < ids.len(),
                self.meta@.len() == ids.len(),
                forall|q: int| 0 <= q < ids.len() ==> (#[trigger] self.meta@[q]).qualified_name@ == m.record(ids[q]).qualified_name@,
                forall|id: i64| #[trigger] m.has_node(id) <==> ids.contains(id),
                forall|x: usize| #[trigger] nbrs@.contains(x) ==> x < ids.len(),
                forall|t: int| 0 <= t < ids.len() ==> (#[trigger] nbrs@.contains(t as usize) <==> m.linked(dir, ids[u as int], ids[t])),
                j <= nbrs@.len(),
                seen_set == views(seen@).to_set(),
                sorted_strict(views(layer@)),
                views(layer@).to_set() == l0.union(m.names(Set::new(|b: i64| exists|q: int| 0 <= q < j && b == ids[nbrs@[q] as int])).difference(seen_set)),
            decreases nbrs@.len() - j,
        {
            let t = nbrs[j];
            proof {
                assert(nbrs@.contains(t));
            }
            let name = self.meta[t].qualified_name.as_str();
            let ghost before = views(layer@).to_set();
            if !contains_name(seen, name) {
                insert_sorted(layer, name);
            }
            proof {
                let a = Set::new(|b: i64| exists|q: int| 0 <= q < j && b == ids[nbrs@[q] as int]);
                let a1 = Set::new(|b: i64| exists|q: int| 0 <= q < j + 1 && b == ids[nbrs@[q] as int]);
                assert(a1 =~= a.insert(ids[t as int])) by {
                    assert forall|b: i64| a1.contains(b) implies a.insert(ids[t as int]).contains(b) by {
                        let q = choose|q: int| 0 <= q < j + 1 && b == ids[nbrs@[q] as int];
                        if q < j {
                            assert(a.contains(b));
                        }
                    }
                    assert forall|b: i64| a.insert(ids[t as int]).contains(b) implies a1.contains(b) by {
                        if a.contains(b) {
                            let q = choose|q: int| 0 <= q < j && b == ids[nbrs@[q] as int];
                            assert(0 <= q < j + 1);
                        } else {
                            assert(b == ids[nbrs@[j as int] as int]);
                        }
                    }
                }
                assert(ids.contains(ids[t as int]));
                let nm = m.record(ids[t as int]).qualified_name@;
                assert(m.names(a1) =~= m.names(a).insert(nm)) by {
                    assert forall|x: Seq<char>| m.names(a1).contains(x) implies m.names(a).insert(nm).contains(x) by {
                        let id = choose|id: i64| a1.contains(id) && m.has_node(id) && m.record(id).qualified_name@ == x;
                        if id != ids[t as int] {
                            assert(m.names(a).contains(x));
                        }
                    }
                    assert forall|x: Seq<char>| m.names(a).insert(nm).contains(x) implies m.names(a1).contains(x) by {
                        if m.names(a).contains(x) {
                            let id = choose|id: i64| a.contains(id) && m.has_node(id) && m.record(id).qualified_name@ == x;
                            assert(a1.contains(id));
                        } else {
                            assert(a1.contains(ids[t as int]));
                        }
                    }
                }
                assert(views(layer@).to_set() =~= l0.union(m.names(a1).difference(seen_set)));
            }
            j = j + 1;
        }
        proof {
            let a = Set::new(|b: i64| exists|q: int| 0 <= q < nbrs@.len() && b == ids[nbrs@[q] as int]);
            assert(a =~= self.linked_ids(dir, u)) by {
                assert forall|b: i64| a.contains(b) implies self.linked_ids(dir, u).contains(b) by {
                    let q = choose|q: int| 0 <= q < nbrs@.len() && b == ids[nbrs@[q] as int];
                    assert(nbrs@.contains(nbrs@[q]));
                    let t = nbrs@[q] as int;
                    assert(0 <= t < ids.len());
                    assert(nbrs@.contains(t as usize));
                    assert(ids.contains(ids[t]));
                }
                assert forall|b: i64| self.linked_ids(dir, u).contains(b) implies a.contains(b) by {
                    let t = choose|t: int| 0 <= t < ids.len() && ids[t] == b;
                    assert(nbrs@.contains(t as usize));
                    let q = choose|q: int| 0 <= q < nbrs@.len() && nbrs@[q] == t as usize;
                }
            }
        }
    }

    /// Positions whose id is a node linked from some position of `front`.
    closed spec fn hits(self, dir: Direction, front: Seq<usize>) -> Set<i64> {
        Set::new(|b: i64| self.ids@.contains(b) && hit_by(self@, dir, self.ids@, front, b))
    }

    /// Trace one direction from the start positions: each name met within
    /// `max_depth` steps, with the depth at which it is first met.
    fn trace_direction(&self, starts: &Vec<usize>, max_depth: usize, dir: Direction) -> (r: Vec<TraceEntry>)
        requires
            forall|i: int| 0 <= i < starts@.len() ==> #[trigger] starts@[i] < self.ids@.len(),
        ensures
            is_trace(self@, dir, self.id_set(starts@), max_depth as nat, trace_view(r@)),
    {
        proof {
            use_type_invariant(self);
        }
        let ghost m = self@;
        let ghost s = self.id_set(starts@);
        let ghost ids = self.ids@;
        let n = self.ids.len();
        let mut visited: Vec<bool> = Vec::new();
        while visited.len() < n
            invariant
                visited@.len() <= n,
                forall|t: int| 0 <= t < visited@.len() ==> !#[trigger] visited@[t],
            decreases n - visited@.len(),
        {
            visited.push(false);
        }
        let mut frontier: Vec<usize> = Vec::new();
        let mut i: usize = 0;
        while i < starts.len()
            invariant
                n == ids.len(),
                ids == self.ids@,
                s == self.id_set(starts@),
                visited@.len() == n,
                i <= starts@.len(),
                forall|q: int| 0 <= q < starts@.len() ==> #[trigger] starts@[q] < n,
                forall|t: int| 0 <= t < n ==> (#[trigger] visited@[t] <==> exists|q: int| 0 <= q < i && starts@[q] == t),
                forall|x: usize| #[trigger] frontier@.contains(x) <==> (x < n && visited@[x as int]),
            decreases starts@.len() - i,
        {
            let st = starts[i];
            if !visited[st] {
                let ghost before = frontier@;
                visited.set(st, true);
                frontier.push(st);
                proof {
                    lemma_push_contains(before, st);
                }
            }
            i = i + 1;
        }
        proof {
            assert forall|t: int| 0 <= t < n implies (#[trigger] visited@[t] <==> m.reach(dir, s, 0).contains(ids[t])) by {
                if visited@[t] {
                    let q = choose|q: int| 0 <= q < starts@.len() && starts@[q] == t;
                    assert(s.contains(ids[t]));
                }
                if s.contains(ids[t]) {
                    let q = choose|q: int| 0 <= q < starts@.len() && ids[starts@[q] as int] == ids[t];
                    assert(ids[starts@[q] as int] == ids[t]);
                    assert(starts@[q] as int == t) by {
                        assert(ids.no_duplicates());
                    }
                }
            }
            assert forall|id: i64| #[trigger] m.reach(dir, s, 0).contains(id) implies ids.contains(id) by {
                let q = choose|q: int| 0 <= q < starts@.len() && ids[starts@[q] as int] == id;
                assert(ids[starts@[q] as int] == id);
            }
        }
        let mut recorded: Vec<String> = Vec::new();
        let mut result: Vec<TraceEntry> = Vec::new();
        let mut d: usize = 0;
        proof {
            assert(views(recorded@).to_set() =~= m.names(m.step(dir, prev_reach(m, dir, s, 0)))) by {
                assert forall|x: Seq<char>| !m.names(m.step(dir, Set::<i64>::empty())).contains(x) by {
                    if m.names(m.step(dir, Set::<i64>::empty())).contains(x) {
                        let id = choose|id: i64| m.step(dir, Set::<i64>::empty()).contains(id) && m.has_node(id) && m.record(id).qualified_name@ == x;
                    }
                }
            }
        }
        while d < max_depth && frontier.len() > 0
            invariant
                n == ids.len(),
                ids == self.ids@,
                m == self@,
                ids.no_duplicates(),
                self.meta@.len() == n,
                forall|id: i64| #[trigger] m.has_node(id) <==> ids.contains(id),
                visited@.len() == n,
                d <= max_depth,
                forall|t: int| 0 <= t < n ==> (#[trigger] visited@[t] <==> m.reach(dir, s, d as nat).contains(ids[t])),
                forall|id: i64| #[trigger] m.reach(dir, s, d as nat).contains(id) ==> ids.contains(id),
                forall|x: usize| #[trigger] frontier@.contains(x) ==> x < n,
                forall|t: int| 0 <= t < n ==> (#[trigger] frontier@.contains(t as usize) <==> (m.reach(dir, s, d as nat).contains(ids[t]) && !prev_reach(m, dir, s, d as nat).contains(ids[t]))),
                views(recorded@).to_set() == m.names(m.step(dir, prev_reach(m, dir, s, d as nat))),
                forall|x: Seq<char>| #[trigger] views(recorded@).contains(x) <==> exists|q: int| 0 <= q < result@.len() && result@[q].0@ == x,
                forall|q: int, w: int| #![trigger result@[q], result@[w]] 0 <= q < w < result@.len() ==> result@[q].1 < result@[w].1 || (result@[q].1 == result@[w].1 && lex_lt(result@[q].0@, result@[w].0@)),
                forall|q: int| 0 <= q < result@.len() ==> (#[trigger] result@[q]).1 <= d && m.trace_depth(dir, s, max_depth as nat, result@[q].0@) == Some(result@[q].1 as nat),
            decreases max_depth - d,
        {
            let ghost r = m.reach(dir, s, d as nat);
            let ghost pr = prev_reach(m, dir, s, d as nat);
            let ghost v0 = visited@;
            let ghost rec = views(recorded@).to_set();
            let mut next: Vec<usize> = Vec::new();
            let mut layer: Vec<String> = Vec::new();
            let mut fi: usize = 0;
            while fi < frontier.len()
                invariant
                    n == ids.len(),
                    ids == self.ids@,
                    m == self@,
                    visited@.len() == n,
                    fi <= frontier@.len(),
                    forall|x: usize| #[trigger] frontier@.contains(x) ==> x < n,
                    forall|t: int| 0 <= t < n ==> (#[trigger] v0[t] <==> r.contains(ids[t])),
                    forall|x: usize| #[trigger] next@.contains(x) ==> x < n,
                    forall|t: int| 0 <= t < n ==> (#[trigger] visited@[t] <==> (r.contains(ids[t]) || hit_by(m, dir, ids, frontier@.take(fi as int), ids[t]))),
                    forall|t: int| 0 <= t < n ==> (#[trigger] next@.contains(t as usize) <==> (visited@[t] && !r.contains(ids[t]))),
                    rec == views(recorded@).to_set(),
                    forall|t: int| 0 <= t < n ==> (#[trigger] frontier@.contains(t as usize) <==> (r.contains(ids[t]) && !pr.contains(ids[t]))),
                    sorted_strict(views(layer@)),
                    views(layer@).to_set() == m.names(self.hits(dir, frontier@.take(fi as int))).difference(rec),
                decreases frontier@.len() - fi,
            {
                let u = frontier[fi];
                proof {
                    assert(frontier@.contains(u));
                }
                let ghost lb = views(layer@).to_set();
                self.add_layer_names(u, dir, &recorded, &mut layer);
                self.expand(u, dir, &mut visited, &mut next);
                proof {
                    let f0 = frontier@.take(fi as int);
                    let ft = frontier@.take(fi + 1);
                    assert(ft =~= f0.push(u));
                    assert forall|b: i64| hit_by(m, dir, ids, ft, b) <==> (hit_by(m, dir, ids, f0, b) || m.linked(dir, ids[u as int], b)) by {
                        if hit_by(m, dir, ids, ft, b) {
                            let f = choose|f: int| 0 <= f < ft.len() && m.linked(dir, ids[ft[f] as int], b);
                            if f < fi {
                                assert(f0[f] == ft[f]);
                            }
                        }
                        if hit_by(m, dir, ids, f0, b) {
                            let f = choose|f: int| 0 <= f < f0.len() && m.linked(dir, ids[f0[f] as int], b);
                            assert(ft[f] == f0[f]);
                        }
                        if m.linked(dir, ids[u as int], b) {
                            assert(ft[fi as int] == u);
                        }
                    }
                    assert(self.hits(dir, ft) =~= self.hits(dir, f0).union(self.linked_ids(dir, u)));
                    lemma_names_union(m, self.hits(dir, f0), self.linked_ids(dir, u));
                    assert(views(layer@).to_set() =~= m.names(self.hits(dir, ft)).difference(rec));
                }
                fi = fi + 1;
            }
            proof {
                assert(frontier@.take(frontier@.len() as int) =~= frontier@);
                use_type_invariant(self);
                self.lemma_advance(dir, s, d as nat, frontier@, visited@);
            }
            // record the names first met at depth d + 1
            let dd = d + 1;
            let ghost res0 = result@;
            proof {
                assert forall|q: int| 0 <= q < res0.len() implies res0[q].1 <= d && m.trace_depth(dir, s, max_depth as nat, res0[q].0@) == Some(res0[q].1 as nat) by {
                    assert(result@[q].1 <= d);
                }
                assert forall|q: int, w: int| 0 <= q < w < res0.len() implies res0[q].1 < res0[w].1 || (res0[q].1 == res0[w].1 && lex_lt(res0[q].0@, res0[w].0@)) by {
                    assert(result@[q] == res0[q]);
                    assert(result@[w] == res0[w]);
                }
            }
            record_layer(&layer, dd, &mut recorded, &mut result);
            proof {
                let met = m.names(m.step(dir, r));
                // everything met at depth d + 1 is now recorded
                assert(views(recorded@).to_set() =~= met);
                // the new entries have trace depth d + 1
                assert forall|q: int| 0 <= q < layer@.len() implies m.trace_depth(dir, s, max_depth as nat, #[trigger] layer@[q]@) == Some(dd as nat) by {
                    let nm = layer@[q]@;
                    assert(views(layer@).to_set().contains(views(layer@)[q]));
                    assert(met_at(m, dir, s, dd as nat) == met);
                    if d > 0 {
                        assert(met_at(m, dir, s, d as nat) == rec);
                    }
                    lemma_trace_depth_is(m, dir, s, max_depth as nat, nm, dd as nat);
                }
                assert forall|q: int, w: int| #![trigger result@[q], result@[w]] 0 <= q < w < result@.len() implies result@[q].1 < result@[w].1 || (result@[q].1 == result@[w].1 && lex_lt(result@[q].0@, result@[w].0@)) by {
                    if w >= res0.len() && q >= res0.len() {
                        let qi = q - res0.len();
                        let wi = w - res0.len();
                        assert(result@[res0.len() + qi].0@ == layer@[qi]@);
                        assert(result@[res0.len() + wi].0@ == layer@[wi]@);
                        assert(lex_lt(views(layer@)[q - res0.len()], views(layer@)[w - res0.len()]));
                        assert(views(layer@)[q - res0.len()] == layer@[q - res0.len()]@);
                        assert(views(layer@)[w - res0.len()] == layer@[w - res0.len()]@);
                    } else if w >= res0.len() {
                        let wi = w - res0.len();
                        assert(result@[res0.len() + wi].1 == dd);
                        assert(result@[q] == res0[q]);
                        assert(res0[q].1 <= d);
                    } else {
                        assert(result@[q] == res0[q]);
                        assert(result@[w] == res0[w]);
                        assert(res0[q].1 < res0[w].1 || (res0[q].1 == res0[w].1 && lex_lt(res0[q].0@, res0[w].0@)));
                    }
                }
                assert forall|q: int| 0 <= q < result@.len() implies (#[trigger] result@[q]).1 <= dd && m.trace_depth(dir, s, max_depth as nat, result@[q].0@) == Some(result@[q].1 as nat) by {
                    if q >= res0.len() {
                        let qi = q - res0.len();
                        assert(result@[res0.len() + qi].0@ == layer@[qi]@);
                        assert(m.trace_depth(dir, s, max_depth as nat, layer@[q - res0.len()]@) == Some(dd as nat));
                    } else {
                        assert(result@[q] == res0[q]);
                    }
                }
                assert(prev_reach(m, dir, s, dd as nat) == r);
                assert forall|x: usize| #[trigger] next@.contains(x) implies x < n by {}
                assert forall|t: int| 0 <= t < n implies (#[trigger] next@.contains(t as usize) <==> (m.reach(dir, s, dd as nat).contains(ids[t]) && !prev_reach(m, dir, s, dd as nat).contains(ids[t]))) by {}
            }
            frontier = next;
            d = dd;
        }
        proof {
            let tv = trace_view(result@);
            assert forall|nm: Seq<char>| #[trigger] m.trace_depth(dir, s, max_depth as nat, nm) is Some implies exists|i: int| 0 <= i < tv.len() && tv[i].0 == nm by {
                lemma_first_depth(m, dir, s, max_depth as nat, nm, 1);
                let j = m.trace_depth(dir, s, max_depth as nat, nm)->0;
                if j > d {
                    // the walk stopped early: nothing new is met after depth d
                    assert(frontier@.len() == 0);
                    let rd = m.reach(dir, s, d as nat);
                    let pr = prev_reach(m, dir, s, d as nat);
                    assert(rd =~= pr) by {
                        assert forall|id: i64| rd.contains(id) implies pr.contains(id) by {
                            assert(ids.contains(id));
                            let t = choose|t: int| 0 <= t < n && ids[t] == id;
                            assert(!frontier@.contains(t as usize));
                        }
                        if d > 0 {
                            lemma_reach_mono(m, dir, s, (d - 1) as nat, d as nat);
                        }
                    }
                    if d == 0 {
                        assert forall|k: nat| #[trigger] m.reach(dir, s, k) == Set::<i64>::empty() by {
                            lemma_reach_stable(m, dir, s, 0, k);
                        }
                        assert(met_at(m, dir, s, j).contains(nm));
                        let id = choose|id: i64| m.step(dir, m.reach(dir, s, (j - 1) as nat)).contains(id) && m.has_node(id) && m.record(id).qualified_name@ == nm;
                        let a = choose|a: i64| m.reach(dir, s, (j - 1) as nat).contains(a) && m.linked(dir, a, id);
                        assert(false);
                    } else {
                        let p = (d - 1) as nat;
                        assert(m.step(dir, m.reach(dir, s, p)).subset_of(m.reach(dir, s, p)));
                        lemma_reach_stable(m, dir, s, p, (j - 1) as nat);
                        assert(met_at(m, dir, s, d as nat).contains(nm));
                        assert(d < j);
                        assert(!met_at(m, dir, s, d as nat).contains(nm));
                    }
                } else {
                    assert(j >= 1);
                    lemma_met_mono(m, dir, s, j, d as nat);
                    assert(met_at(m, dir, s, d as nat).contains(nm));
                    assert(views(recorded@).to_set().contains(nm));
                    assert(views(recorded@).contains(nm));
                    let q = choose|q: int| 0 <= q < result@.len() && result@[q].0@ == nm;
                    assert(tv[q].0 == nm);
                }
            }
            assert forall|i: int, j: int|
                0 <= i < j < tv.len() implies tv[i].1 < tv[j].1 || (tv[i].1 == tv[j].1 && lex_lt(tv[i].0, tv[j].0)) by {
                assert(tv[i] == (result@[i].0@, result@[i].1 as nat));
                assert(tv[j] == (result@[j].0@, result@[j].1 as nat));
                assert(result@[i].1 < result@[j].1 || (result@[i].1 == result@[j].1 && lex_lt(result@[i].0@, result@[j].0@)));
            }
            assert forall|i: int| 0 <= i < tv.len() implies m.trace_depth(dir, s, max_depth as nat, #[trigger] tv[i].0) == Some(tv[i].1) by {
                assert(tv[i] == (result@[i].0@, result@[i].1 as nat));
            }
        }
        result
    }

    /// Trace data flow: the names met upstream (callers) and downstream
    /// (callees) within `max_depth` steps, each with the depth at which it is
    /// first met, ordered by depth and then by name.
    pub fn trace_flow(&self, symbol: &str, max_depth: usize) -> (r: (Vec<TraceEntry>, Vec<TraceEntry>))
        ensures
            is_trace(self@, Direction::In, self@.resolve(symbol@).to_set(), max_depth as nat, trace_view(r.0@)),
            is_trace(self@, Direction::Out, self@.resolve(symbol@).to_set(), max_depth as nat, trace_view(r.1@)),
    {
        let starts = self.start_positions(symbol);
        let upstream = self.trace_direction(&starts, max_depth, Direction::In);
        let downstream = self.trace_direction(&starts, max_depth, Direction::Out);
        (upstream, downstream)
    }

    /// After expanding the whole frontier, the marks hold the next layer's reach.
    proof fn lemma_advance(self, dir: Direction, s: Set<i64>, d: nat, frontier: Seq<usize>, visited: Seq<bool>)
        requires
            self.wf(),
            visited.len() == self.ids@.len(),
            forall|t: int| 0 <= t < self.ids@.len() ==> (#[trigger] visited[t] <==> (self@.reach(dir, s, d).contains(self.ids@[t]) || hit_by(self@, dir, self.ids@, frontier, self.ids@[t]))),
            forall|t: int| 0 <= t < self.ids@.len() ==> (#[trigger] frontier.contains(t as usize) <==> (self@.reach(dir, s, d).contains(self.ids@[t]) && !prev_reach(self@, dir, s, d).contains(self.ids@[t]))),
            forall|x: usize| #[trigger] frontier.contains(x) ==> x < self.ids@.len(),
            forall|id: i64| #[trigger] self@.reach(dir, s, d).contains(id) ==> self.ids@.contains(id),
        ensures
            forall|t: int| 0 <= t < self.ids@.len() ==> (#[trigger] visited[t] <==> self@.reach(dir, s, d + 1).contains(self.ids@[t])),
            forall|id: i64| #[trigger] self@.reach(dir, s, d + 1).contains(id) ==> self.ids@.contains(id),
            self@.names(self@.step(dir, self@.reach(dir, s, d))) == self@.names(self@.step(dir, prev_reach(self@, dir, s, d))).union(self@.names(self.hits(dir, frontier))),
            prev_reach(self@, dir, s, d + 1) == self@.reach(dir, s, d),
    {
        let m = self@;
        let ids = self.ids@;
        let n = ids.len();
        let r = m.reach(dir, s, d);
        let pr = prev_reach(m, dir, s, d);
        let visited_s = visited;
        let frontier_s = frontier;
                let r1 = m.reach(dir, s, d + 1);
                let fset = r.difference(pr);
                // the frontier's ids are the newly reached nodes
                assert(self.hits(dir, frontier_s) =~= m.step(dir, fset)) by {
                    assert forall|b: i64| self.hits(dir, frontier_s).contains(b) implies m.step(dir, fset).contains(b) by {
                        let f = choose|f: int| 0 <= f < frontier_s.len() && m.linked(dir, ids[frontier_s[f] as int], b);
                        assert(frontier_s.contains(frontier_s[f]));
                        let t = frontier_s[f] as int;
                        assert(frontier_s.contains(t as usize));
                        assert(fset.contains(ids[t]));
                    }
                    assert forall|b: i64| m.step(dir, fset).contains(b) implies self.hits(dir, frontier_s).contains(b) by {
                        let a = choose|a: i64| fset.contains(a) && m.linked(dir, a, b);
                        assert(ids.contains(a));
                        let t = choose|t: int| 0 <= t < n && ids[t] == a;
                        assert(frontier_s.contains(t as usize));
                        let f = choose|f: int| 0 <= f < frontier_s.len() && frontier_s[f] == t as usize;
                        assert(m.has_node(b));
                    }
                }
                if d > 0 {
                    lemma_reach_mono(m, dir, s, (d - 1) as nat, d);
                }
                assert(r =~= pr.union(fset));
                lemma_step_union(m, dir, pr, fset);
                lemma_names_union(m, m.step(dir, pr), m.step(dir, fset));
                // visited is now the reach one step further
                assert forall|t: int| 0 <= t < n implies (#[trigger] visited_s[t] <==> r1.contains(ids[t])) by {
                    if hit_by(m, dir, ids, frontier_s, ids[t]) {
                        let f = choose|f: int| 0 <= f < frontier_s.len() && m.linked(dir, ids[frontier_s[f] as int], ids[t]);
                        assert(frontier_s.contains(frontier_s[f]));
                        let tf = frontier_s[f] as int;
                        assert(frontier_s.contains(tf as usize));
                        assert(r.contains(ids[tf]));
                        assert(m.step(dir, r).contains(ids[t]));
                    }
                    if m.step(dir, r).contains(ids[t]) && !r.contains(ids[t]) {
                        assert(m.step(dir, pr.union(fset)).contains(ids[t]));
                        if m.step(dir, pr).contains(ids[t]) {
                            let a = choose|a: i64| pr.contains(a) && m.linked(dir, a, ids[t]);
                            if d > 0 {
                                assert(m.reach(dir, s, d) == pr.union(m.step(dir, pr)));
                            }
                            assert(false);
                        }
                        assert(self.hits(dir, frontier_s).contains(ids[t]));
                    }
                }
                assert forall|id: i64| #[trigger] r1.contains(id) implies ids.contains(id) by {
                    if !r.contains(id) {
                        let a = choose|a: i64| r.contains(a) && m.linked(dir, a, id);
                        assert(m.has_node(id));
                    }
                }
    }
}

} // verus!
