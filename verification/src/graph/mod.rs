//! A graph of the symbols of a code base and the calls between them.

pub mod indexer;
pub mod parse;
pub mod query;
pub mod resolve;
pub mod validity;
pub mod walk;

use std::collections::hash_map::DefaultHasher;
use std::collections::HashMap;
use std::hash::Hasher;

use vstd::prelude::*;
use vstd::std_specs::hash::DefaultHasherAdditionalSpecFns;
use vstd::string::*;

use crate::hashing::{text_writes, write_text};
use crate::paths::{canonical, canonical_path};
use crate::seqs::{lemma_filter_all, lemma_filter_id, lemma_filter_keeps};
use crate::text::{decimal, push_decimal};
use crate::text_map::TextMap;

verus! {

broadcast use vstd::std_specs::hash::group_hash_axioms;

/// Names a symbol.
pub type SymbolId = u64;

#[derive(Debug)]
pub enum SymbolKind {
    Function,
    Method,
    Struct,
    Class,
    Trait,
    Interface,
    Enum,
    Constant,
    Variable,
    Module,
    Import,
    TypeAlias,
    Other(String),
}

#[derive(Debug, Clone, Copy, PartialEq, Eq, Structural)]
pub enum Visibility {
    Public,
    Private,
    Protected,
    Internal,
    Unknown,
}

/// A symbol and where it is defined.
#[derive(Debug)]
pub struct SymbolNode {
    pub id: SymbolId,
    pub name: String,
    pub kind: SymbolKind,
    pub visibility: Visibility,
    pub file: String,
    pub start_line: usize,
    pub end_line: usize,
    pub signature: Option<String>,
}

#[derive(Debug, Clone, Copy, PartialEq, Eq, Structural)]
pub enum EdgeKind {
    Calls,
    Imports,
    Inherits,
    Implements,
    References,
}

/// One end of a directed edge. Among the outgoing edges of a symbol, `to` is
/// the target; among its incoming edges, `to` is the source.
#[derive(Debug, Clone, Copy, PartialEq, Eq, Structural)]
pub struct Edge {
    pub to: SymbolId,
    pub kind: EdgeKind,
    pub line: usize,
}

impl Clone for SymbolKind {
    fn clone(&self) -> (r: Self)
        ensures
            r == *self,
    {
        match self {
            SymbolKind::Function => SymbolKind::Function,
            SymbolKind::Method => SymbolKind::Method,
            SymbolKind::Struct => SymbolKind::Struct,
            SymbolKind::Class => SymbolKind::Class,
            SymbolKind::Trait => SymbolKind::Trait,
            SymbolKind::Interface => SymbolKind::Interface,
            SymbolKind::Enum => SymbolKind::Enum,
            SymbolKind::Constant => SymbolKind::Constant,
            SymbolKind::Variable => SymbolKind::Variable,
            SymbolKind::Module => SymbolKind::Module,
            SymbolKind::Import => SymbolKind::Import,
            SymbolKind::TypeAlias => SymbolKind::TypeAlias,
            SymbolKind::Other(s) => SymbolKind::Other(s.clone()),
        }
    }
}

impl Clone for SymbolNode {
    fn clone(&self) -> (r: Self)
        ensures
            r == *self,
    {
        SymbolNode {
            id: self.id,
            name: self.name.clone(),
            kind: self.kind.clone(),
            visibility: self.visibility,
            file: self.file.clone(),
            start_line: self.start_line,
            end_line: self.end_line,
            signature: match &self.signature {
                Some(s) => Some(s.clone()),
                None => None,
            },
        }
    }
}

/// Symbols, the edges between them in both directions, and the files that
/// they come from.
#[derive(Debug)]
pub struct CodeGraph {
    pub nodes: HashMap<SymbolId, SymbolNode>,
    pub edges_out: HashMap<SymbolId, Vec<Edge>>,
    pub edges_in: HashMap<SymbolId, Vec<Edge>>,
    pub file_symbols: TextMap<Vec<SymbolId>>,
    pub file_mtimes: TextMap<u64>,
}

#[verifier::ext_equal]
pub struct GraphView {
    pub nodes: Map<SymbolId, SymbolNode>,
    pub out: Map<SymbolId, Seq<Edge>>,
    pub into: Map<SymbolId, Seq<Edge>>,
    pub file_symbols: Map<Seq<char>, Seq<SymbolId>>,
    pub file_mtimes: Map<Seq<char>, u64>,
}

pub open spec fn edge_lists(m: Map<SymbolId, Vec<Edge>>) -> Map<SymbolId, Seq<Edge>> {
    m.map_values(|v: Vec<Edge>| v@)
}

impl View for CodeGraph {
    type V = GraphView;

    open spec fn view(&self) -> GraphView {
        GraphView {
            nodes: self.nodes@,
            out: edge_lists(self.edges_out@),
            into: edge_lists(self.edges_in@),
            file_symbols: self.file_symbols@.map_values(|v: Vec<SymbolId>| v@),
            file_mtimes: self.file_mtimes@,
        }
    }
}

/// The edges of a symbol.
pub open spec fn edges_of(adj: Map<SymbolId, Seq<Edge>>, id: SymbolId) -> Seq<Edge> {
    if adj.contains_key(id) {
        adj[id]
    } else {
        Seq::empty()
    }
}

/// How often an edge stands in a list.
pub open spec fn occurrences(list: Seq<Edge>, e: Edge) -> nat
    decreases list.len(),
{
    if list.len() == 0 {
        0
    } else {
        occurrences(list.drop_last(), e) + (if list.last() == e {
            1nat
        } else {
            0
        })
    }
}

/// Whether every edge in `a` is in `b` the other way round, as often.
pub open spec fn mirrors(a: Map<SymbolId, Seq<Edge>>, b: Map<SymbolId, Seq<Edge>>) -> bool {
    forall|u: SymbolId, e: Edge|
        #[trigger] edges_of(a, u).contains(e) ==> occurrences(edges_of(b, e.to), Edge { to: u, ..e })
            == occurrences(edges_of(a, u), e)
}

pub open spec fn no_empty_lists(adj: Map<SymbolId, Seq<Edge>>) -> bool {
    forall|k: SymbolId| #[trigger] adj.contains_key(k) ==> adj[k].len() > 0
}

/// Whether the incoming edges are the outgoing ones the other way round.
pub open spec fn balanced(out: Map<SymbolId, Seq<Edge>>, into: Map<SymbolId, Seq<Edge>>) -> bool {
    mirrors(out, into) && mirrors(into, out) && no_empty_lists(out) && no_empty_lists(into)
}

/// `adj` with one more edge at the end of a list.
pub open spec fn with_edge(adj: Map<SymbolId, Seq<Edge>>, from: SymbolId, e: Edge) -> Map<
    SymbolId,
    Seq<Edge>,
> {
    adj.insert(from, edges_of(adj, from).push(e))
}

/// The edges that do not lead to `id`.
pub open spec fn apart(list: Seq<Edge>, id: SymbolId) -> Seq<Edge> {
    list.filter(|e: Edge| e.to != id)
}

/// `adj` without the edges of `id` and those that lead to it.
pub open spec fn drop_symbol(adj: Map<SymbolId, Seq<Edge>>, id: SymbolId) -> Map<SymbolId, Seq<Edge>> {
    Map::new(
        |k: SymbolId| k != id && apart(edges_of(adj, k), id).len() > 0,
        |k: SymbolId| apart(edges_of(adj, k), id),
    )
}

/// `adj` without the edges of a list of symbols.
pub open spec fn drop_symbols(adj: Map<SymbolId, Seq<Edge>>, ids: Seq<SymbolId>) -> Map<
    SymbolId,
    Seq<Edge>,
>
    decreases ids.len(),
{
    if ids.len() == 0 {
        adj
    } else {
        drop_symbol(drop_symbols(adj, ids.drop_last()), ids.last())
    }
}

pub open spec fn drop_nodes(nodes: Map<SymbolId, SymbolNode>, ids: Seq<SymbolId>) -> Map<
    SymbolId,
    SymbolNode,
> {
    nodes.remove_keys(ids.to_set())
}

impl GraphView {
    /// The graph without the symbols of a file.
    pub open spec fn without_file(self, file: Seq<char>) -> GraphView {
        let path = canonical(file);
        if self.file_symbols.contains_key(path) {
            let ids = self.file_symbols[path];
            GraphView {
                nodes: drop_nodes(self.nodes, ids),
                out: drop_symbols(self.out, ids),
                into: drop_symbols(self.into, ids),
                file_symbols: self.file_symbols.remove(path),
                file_mtimes: self.file_mtimes.remove(path),
            }
        } else {
            self
        }
    }

    /// The graph without anything that is known of a file, also where it had no
    /// symbols.
    pub open spec fn forgetting(self, file: Seq<char>) -> GraphView {
        let rest = self.without_file(file);
        GraphView { file_mtimes: rest.file_mtimes.remove(canonical(file)), ..rest }
    }

    /// The graph with one more symbol.
    pub open spec fn with_symbol(self, node: SymbolNode) -> GraphView {
        let path = canonical(node.file@);
        GraphView {
            nodes: self.nodes.insert(node.id, node),
            file_symbols: self.file_symbols.insert(
                path,
                (if self.file_symbols.contains_key(path) {
                    self.file_symbols[path]
                } else {
                    Seq::empty()
                }).push(node.id),
            ),
            ..self
        }
    }

    /// The graph with one more edge, in both directions.
    pub open spec fn with_edge(self, from: SymbolId, e: Edge) -> GraphView {
        GraphView {
            out: with_edge(self.out, from, e),
            into: with_edge(self.into, e.to, Edge { to: from, ..e }),
            ..self
        }
    }
}

/// The identifier of a symbol: a hash of its file, its name and its line.
pub open spec fn symbol_id(file: Seq<char>, name: Seq<char>, start_line: nat) -> SymbolId {
    DefaultHasher::spec_finish(
        text_writes(canonical(file)) + text_writes(name) + text_writes(decimal(start_line)),
    )
}

fn without_edges_to(list: &Vec<Edge>, id: SymbolId) -> (r: Vec<Edge>)
    ensures
        r@ == apart(list@, id),
{
    let mut out: Vec<Edge> = Vec::new();
    let mut i: usize = 0;
    let ghost keep = |e: Edge| e.to != id;
    proof {
        reveal(Seq::filter);
    }
    assert(out@ =~= list@.take(0).filter(keep));
    while i < list.len()
        invariant
            i <= list.len(),
            keep == (|e: Edge| e.to != id),
            out@ == list@.take(i as int).filter(keep),
        decreases list.len() - i,
    {
        proof {
            reveal(Seq::filter);
        }
        assert(list@.take(i + 1).drop_last() =~= list@.take(i as int));
        if list[i].to != id {
            out.push(list[i]);
        }
        i = i + 1;
    }
    assert(list@.take(list@.len() as int) =~= list@);
    out
}

/// `adj` with the edges from `key` to `id` gone.
pub open spec fn unlinked(adj: Map<SymbolId, Seq<Edge>>, key: SymbolId, id: SymbolId) -> Map<
    SymbolId,
    Seq<Edge>,
> {
    if !adj.contains_key(key) {
        adj
    } else if apart(adj[key], id).len() > 0 {
        adj.insert(key, apart(adj[key], id))
    } else {
        adj.remove(key)
    }
}

fn unlink(adj: &mut HashMap<SymbolId, Vec<Edge>>, key: SymbolId, id: SymbolId)
    ensures
        edge_lists(final(adj)@) == unlinked(edge_lists(old(adj)@), key, id),
{
    let ghost before = adj@;
    match adj.remove(&key) {
        Some(list) => {
            assert(edge_lists(before)[key] == list@);
            let kept = without_edges_to(&list, id);
            if kept.len() > 0 {
                adj.insert(key, kept);
                assert(edge_lists(adj@) =~= edge_lists(before).insert(key, kept@));
            } else {
                assert(edge_lists(adj@) =~= edge_lists(before).remove(key));
            }
        },
        None => {
            assert(adj@ =~= before);
        },
    }
}

/// Unlinks `id` from the targets of `edges`.
fn unlink_all(adj: &mut HashMap<SymbolId, Vec<Edge>>, edges: &Vec<Edge>, id: SymbolId)
    requires
        no_empty_lists(edge_lists(old(adj)@)),
    ensures
        no_empty_lists(edge_lists(final(adj)@)),
        forall|k: SymbolId|
            #![trigger edges_of(edge_lists(final(adj)@), k)]
            edges_of(edge_lists(final(adj)@), k) == if exists|i: int|
                0 <= i < edges@.len() && (#[trigger] edges@[i]).to == k {
                apart(edges_of(edge_lists(old(adj)@), k), id)
            } else {
                edges_of(edge_lists(old(adj)@), k)
            },
{
    let ghost before = edge_lists(adj@);
    let mut j: usize = 0;
    while j < edges.len()
        invariant
            j <= edges.len(),
            no_empty_lists(edge_lists(adj@)),
            forall|k: SymbolId|
                #![trigger edges_of(edge_lists(adj@), k)]
                edges_of(edge_lists(adj@), k) == if exists|i: int|
                    0 <= i < j && (#[trigger] edges@[i]).to == k {
                    apart(edges_of(before, k), id)
                } else {
                    edges_of(before, k)
                },
        decreases edges.len() - j,
    {
        let ghost mid = edge_lists(adj@);
        let key = edges[j].to;
        unlink(adj, key, id);
        let ghost now = edge_lists(adj@);
        assert forall|k: SymbolId| #![trigger edges_of(now, k)] edges_of(now, k) == if exists|i: int|
            0 <= i < j + 1 && (#[trigger] edges@[i]).to == k {
            apart(edges_of(before, k), id)
        } else {
            edges_of(before, k)
        } by {
            assert(edges_of(mid, k) == edges_of(mid, k));
            assert(edges@[j as int].to == key);
            if k == key {
                assert(exists|i: int| 0 <= i < j + 1 && (#[trigger] edges@[i]).to == k);
                crate::seqs::lemma_filter_twice(edges_of(before, k), |e: Edge| e.to != id);
                if !mid.contains_key(key) {
                    assert(edges_of(mid, k) =~= Seq::<Edge>::empty());
                    if exists|i: int| 0 <= i < j && (#[trigger] edges@[i]).to == k {
                    } else {
                        lemma_filter_id(edges_of(before, k), |e: Edge| e.to != id);
                    }
                } else {
                    assert(edges_of(now, k) =~= apart(edges_of(mid, k), id));
                }
            } else {
                assert(edges_of(now, k) == edges_of(mid, k));
                if exists|i: int| 0 <= i < j + 1 && (#[trigger] edges@[i]).to == k {
                    let i = choose|i: int| 0 <= i < j + 1 && (#[trigger] edges@[i]).to == k;
                    assert(i < j);
                }
            }
        }
        j = j + 1;
    }
}

proof fn lemma_map_of_lists(a: Map<SymbolId, Seq<Edge>>, b: Map<SymbolId, Seq<Edge>>)
    requires
        no_empty_lists(a),
        no_empty_lists(b),
        forall|k: SymbolId| #[trigger] edges_of(a, k) == edges_of(b, k),
    ensures
        a == b,
{
    assert forall|k: SymbolId| a.contains_key(k) == b.contains_key(k) by {
        assert(edges_of(a, k) == edges_of(b, k));
    }
    assert forall|k: SymbolId| a.contains_key(k) implies a[k] == b[k] by {
        assert(edges_of(a, k) == edges_of(b, k));
    }
    assert(a =~= b);
}

proof fn lemma_drop_symbol(adj: Map<SymbolId, Seq<Edge>>, id: SymbolId)
    ensures
        no_empty_lists(drop_symbol(adj, id)),
        forall|k: SymbolId|
            #[trigger] edges_of(drop_symbol(adj, id), k) == if k == id {
                Seq::<Edge>::empty()
            } else {
                apart(edges_of(adj, k), id)
            },
{
    assert forall|k: SymbolId| #[trigger] edges_of(drop_symbol(adj, id), k) == if k == id {
        Seq::<Edge>::empty()
    } else {
        apart(edges_of(adj, k), id)
    } by {
        if k != id && !drop_symbol(adj, id).contains_key(k) {
            assert(apart(edges_of(adj, k), id) =~= Seq::<Edge>::empty());
        }
    }
}

proof fn lemma_apart(list: Seq<Edge>, id: SymbolId, e: Edge)
    ensures
        apart(list, id).contains(e) <==> list.contains(e) && e.to != id,
{
    let keep = |e: Edge| e.to != id;
    lemma_filter_all(list, keep);
    if apart(list, id).contains(e) {
        let i = choose|i: int| 0 <= i < apart(list, id).len() && apart(list, id)[i] == e;
        assert(keep(list.filter(keep)[i]));
        assert(list.contains(list.filter(keep)[i]));
    }
    if list.contains(e) && e.to != id {
        lemma_filter_keeps(list, keep, e);
    }
}

pub proof fn lemma_occurrences(list: Seq<Edge>, e: Edge)
    ensures
        occurrences(list, e) > 0 <==> list.contains(e),
    decreases list.len(),
{
    if list.len() > 0 {
        let t = list.drop_last();
        lemma_occurrences(t, e);
        if t.contains(e) {
            let i = choose|i: int| 0 <= i < t.len() && t[i] == e;
            assert(list[i] == e);
        }
        if list.last() == e {
            assert(list[list.len() - 1] == e);
        }
        if list.contains(e) && list.last() != e {
            let i = choose|i: int| 0 <= i < list.len() && list[i] == e;
            assert(t[i] == e);
        }
    }
}

/// An edge in one direction stands in the other, too.
pub proof fn lemma_mirrored(a: Map<SymbolId, Seq<Edge>>, b: Map<SymbolId, Seq<Edge>>, u: SymbolId, e: Edge)
    requires
        mirrors(a, b),
        edges_of(a, u).contains(e),
    ensures
        edges_of(b, e.to).contains(Edge { to: u, ..e }),
{
    lemma_occurrences(edges_of(a, u), e);
    lemma_occurrences(edges_of(b, e.to), Edge { to: u, ..e });
}

/// In a graph each edge occurs as often among the outgoing edges of its source as
/// among the incoming edges of its target.
pub proof fn edges_occur_as_often_both_ways(
    out: Map<SymbolId, Seq<Edge>>,
    into: Map<SymbolId, Seq<Edge>>,
    from: SymbolId,
    e: Edge,
)
    requires
        balanced(out, into),
    ensures
        occurrences(edges_of(out, from), e) == occurrences(edges_of(into, e.to), Edge { to: from, ..e }),
{
    let back = Edge { to: from, ..e };
    lemma_occurrences(edges_of(out, from), e);
    lemma_occurrences(edges_of(into, e.to), back);
    if edges_of(into, e.to).contains(back) {
        assert(Edge { to: e.to, ..back } == e);
    }
}

proof fn lemma_apart_occurrences(list: Seq<Edge>, id: SymbolId, e: Edge)
    requires
        e.to != id,
    ensures
        occurrences(apart(list, id), e) == occurrences(list, e),
    decreases list.len(),
{
    reveal(Seq::filter);
    if list.len() > 0 {
        lemma_apart_occurrences(list.drop_last(), id, e);
        let rest = apart(list.drop_last(), id);
        if list.last().to != id {
            assert(apart(list, id) =~= rest.push(list.last()));
            assert(rest.push(list.last()).drop_last() =~= rest);
        } else {
            assert(apart(list, id) =~= rest);
        }
    } else {
        assert(apart(list, id) =~= list);
    }
}

/// Dropping a symbol from both directions keeps them mirror images.
pub proof fn dropping_keeps_balance(
    out: Map<SymbolId, Seq<Edge>>,
    into: Map<SymbolId, Seq<Edge>>,
    id: SymbolId,
)
    requires
        mirrors(out, into),
    ensures
        mirrors(drop_symbol(out, id), drop_symbol(into, id)),
        no_empty_lists(drop_symbol(out, id)),
{
    lemma_drop_symbol(out, id);
    lemma_drop_symbol(into, id);
    let a = drop_symbol(out, id);
    let b = drop_symbol(into, id);
    assert forall|u: SymbolId, e: Edge| #[trigger] edges_of(a, u).contains(e) implies occurrences(
        edges_of(b, e.to),
        Edge { to: u, ..e },
    ) == occurrences(edges_of(a, u), e) by {
        assert(edges_of(a, u) == edges_of(a, u));
        if u != id {
            lemma_apart(edges_of(out, u), id, e);
            assert(edges_of(out, u).contains(e));
            lemma_apart_occurrences(edges_of(out, u), id, e);
            lemma_apart_occurrences(edges_of(into, e.to), id, Edge { to: u, ..e });
            assert(edges_of(b, e.to) == apart(edges_of(into, e.to), id));
        }
    }
}

/// Adding an edge in both directions keeps them mirror images.
pub proof fn adding_keeps_balance(
    out: Map<SymbolId, Seq<Edge>>,
    into: Map<SymbolId, Seq<Edge>>,
    from: SymbolId,
    e: Edge,
)
    requires
        balanced(out, into),
    ensures
        mirrors(with_edge(out, from, e), with_edge(into, e.to, Edge { to: from, ..e })),
        no_empty_lists(with_edge(out, from, e)),
{
    let back = Edge { to: from, ..e };
    let a = with_edge(out, from, e);
    let b = with_edge(into, e.to, back);
    assert(edges_of(out, from).push(e).drop_last() =~= edges_of(out, from));
    assert(edges_of(into, e.to).push(back).drop_last() =~= edges_of(into, e.to));
    assert forall|u: SymbolId, x: Edge| #[trigger] edges_of(a, u).contains(x) implies occurrences(
        edges_of(b, x.to),
        Edge { to: u, ..x },
    ) == occurrences(edges_of(a, u), x) by {
        edges_occur_as_often_both_ways(out, into, u, x);
        let y = Edge { to: u, ..x };
        assert(u == from && x == e <==> x.to == e.to && y == back);
        assert(edges_of(a, u) == if u == from {
            edges_of(out, from).push(e)
        } else {
            edges_of(out, u)
        });
        assert(edges_of(b, x.to) == if x.to == e.to {
            edges_of(into, e.to).push(back)
        } else {
            edges_of(into, x.to)
        });
    }
}

impl CodeGraph {
    /// What holds of every graph that these methods make.
    pub open spec fn wf(&self) -> bool {
        &&& self.file_symbols.wf()
        &&& self.file_mtimes.wf()
        &&& balanced(self@.out, self@.into)
        &&& keyed(self@)
        &&& all_listed(self@)
    }

    pub fn new() -> (r: CodeGraph)
        ensures
            r.wf(),
            r@.nodes == Map::<SymbolId, SymbolNode>::empty(),
            r@.out == Map::<SymbolId, Seq<Edge>>::empty(),
            r@.into == Map::<SymbolId, Seq<Edge>>::empty(),
            r@.file_symbols == Map::<Seq<char>, Seq<SymbolId>>::empty(),
            r@.file_mtimes == Map::<Seq<char>, u64>::empty(),
    {
        let r = CodeGraph {
            nodes: HashMap::new(),
            edges_out: HashMap::new(),
            edges_in: HashMap::new(),
            file_symbols: TextMap::new(),
            file_mtimes: TextMap::new(),
        };
        assert(r@.out =~= Map::<SymbolId, Seq<Edge>>::empty());
        assert(r@.into =~= Map::<SymbolId, Seq<Edge>>::empty());
        assert(r@.file_symbols =~= Map::<Seq<char>, Seq<SymbolId>>::empty());
        r
    }

    /// The identifier of a symbol.
    pub fn make_id(file: &str, name: &str, start_line: usize) -> (r: SymbolId)
        ensures
            r == symbol_id(file@, name@, start_line as nat),
    {
        let mut line = String::new();
        push_decimal(&mut line, start_line as u64);
        assert(line@ =~= decimal(start_line as nat));
        let path = canonical_path(file);
        let mut h = DefaultHasher::new();
        write_text(&mut h, path.as_str());
        write_text(&mut h, name);
        write_text(&mut h, line.as_str());
        assert(h@ =~= text_writes(path@) + text_writes(name@) + text_writes(decimal(start_line as nat)));
        h.finish()
    }

    /// Adds a symbol to the graph and to its file.
    pub fn add_symbol(&mut self, node: SymbolNode)
        requires
            old(self).wf(),
        ensures
            final(self).wf(),
            final(self)@ == old(self)@.with_symbol(node),
    {
        let ghost before = self@;
        let id = node.id;
        let file = canonical_path(node.file.as_str());
        self.nodes.insert(id, node);
        let ghost symbols = self.file_symbols@;
        let mut ids: Vec<SymbolId> = match self.file_symbols.remove(file.as_str()) {
            Some(v) => v,
            None => Vec::new(),
        };
        ids.push(id);
        self.file_symbols.insert(file, ids);
        assert(self@.file_symbols =~= before.with_symbol(node).file_symbols);
        assert(self@ =~= before.with_symbol(node));
        proof {
            additions_keep_listing(before, node, 0, Edge { to: 0, kind: EdgeKind::Calls, line: 0 });
        }
    }

    /// Adds an edge in both directions.
    pub fn add_edge(&mut self, from: SymbolId, edge: Edge)
        requires
            old(self).wf(),
        ensures
            final(self).wf(),
            final(self)@ == old(self)@.with_edge(from, edge),
    {
        let ghost before = self@;
        let back = Edge { to: from, kind: edge.kind, line: edge.line };
        push_edge(&mut self.edges_out, from, edge);
        push_edge(&mut self.edges_in, edge.to, back);
        proof {
            adding_keeps_balance(before.out, before.into, from, edge);
            adding_keeps_balance(before.into, before.out, edge.to, back);
        }
        assert(self@ =~= before.with_edge(from, edge));
        assert(keyed(self@));
        assert(all_listed(self@));
    }

    fn remove_symbol(&mut self, id: SymbolId)
        requires
            balanced(old(self)@.out, old(self)@.into),
        ensures
            final(self)@.nodes == old(self)@.nodes.remove(id),
            final(self)@.out == drop_symbol(old(self)@.out, id),
            final(self)@.into == drop_symbol(old(self)@.into, id),
            final(self).file_symbols == old(self).file_symbols,
            final(self).file_mtimes == old(self).file_mtimes,
            balanced(final(self)@.out, final(self)@.into),
    {
        let ghost out = self@.out;
        let ghost into = self@.into;
        let ghost keep = |e: Edge| e.to != id;
        self.nodes.remove(&id);
        let out_edges: Vec<Edge> = match self.edges_out.remove(&id) {
            Some(v) => v,
            None => Vec::new(),
        };
        assert(out_edges@ =~= edges_of(out, id));
        let ghost out_rest = edge_lists(self.edges_out@);
        assert(out_rest =~= out.remove(id));
        unlink_all(&mut self.edges_in, &out_edges, id);
        let ghost into_mid = edge_lists(self.edges_in@);
        assert forall|k: SymbolId| #[trigger] edges_of(into_mid, k) == apart(edges_of(into, k), id) by {
            if !(exists|i: int| 0 <= i < out_edges@.len() && (#[trigger] out_edges@[i]).to == k) {
                assert forall|i: int| 0 <= i < edges_of(into, k).len() implies keep(
                    #[trigger] edges_of(into, k)[i],
                ) by {
                    let e = edges_of(into, k)[i];
                    if e.to == id {
                        assert(edges_of(into, k).contains(e));
                        let x = Edge { to: k, ..e };
                        lemma_mirrored(into, out, k, e);
                        assert(edges_of(out, id).contains(x));
                        let j = choose|j: int| 0 <= j < out_edges@.len() && out_edges@[j] == x;
                        assert(out_edges@[j].to == k);
                    }
                }
                lemma_filter_id(edges_of(into, k), keep);
            }
        }
        let in_edges: Vec<Edge> = match self.edges_in.remove(&id) {
            Some(v) => v,
            None => Vec::new(),
        };
        assert(in_edges@ =~= edges_of(into_mid, id));
        let ghost into_now = edge_lists(self.edges_in@);
        assert(into_now =~= into_mid.remove(id));
        proof {
            lemma_drop_symbol(into, id);
            assert forall|k: SymbolId| #[trigger] edges_of(into_now, k) == edges_of(
                drop_symbol(into, id),
                k,
            ) by {
                assert(edges_of(into_mid, k) == apart(edges_of(into, k), id));
            }
            lemma_map_of_lists(into_now, drop_symbol(into, id));
        }
        unlink_all(&mut self.edges_out, &in_edges, id);
        let ghost out_now = edge_lists(self.edges_out@);
        proof {
            lemma_drop_symbol(out, id);
            assert forall|k: SymbolId| #[trigger] edges_of(out_now, k) == edges_of(
                drop_symbol(out, id),
                k,
            ) by {
                if k == id {
                    assert(edges_of(out_rest, id) =~= Seq::<Edge>::empty());
                    lemma_filter_id(edges_of(out_rest, id), keep);
                } else {
                    assert(edges_of(out_rest, k) == edges_of(out, k));
                    if !(exists|i: int| 0 <= i < in_edges@.len() && (#[trigger] in_edges@[i]).to == k) {
                        assert forall|i: int| 0 <= i < edges_of(out, k).len() implies keep(
                            #[trigger] edges_of(out, k)[i],
                        ) by {
                            let e = edges_of(out, k)[i];
                            if e.to == id {
                                assert(edges_of(out, k).contains(e));
                                let x = Edge { to: k, ..e };
                                lemma_mirrored(out, into, k, e);
                                assert(edges_of(into, id).contains(x));
                                lemma_apart(edges_of(into, id), id, x);
                                assert(edges_of(into_mid, id).contains(x));
                                let j = choose|j: int| 0 <= j < in_edges@.len() && in_edges@[j] == x;
                                assert(in_edges@[j].to == k);
                            }
                        }
                        lemma_filter_id(edges_of(out, k), keep);
                    }
                }
            }
            lemma_map_of_lists(out_now, drop_symbol(out, id));
            dropping_keeps_balance(out, into, id);
            dropping_keeps_balance(into, out, id);
        }
    }

    /// Removes the symbols of a file and all their edges.
    pub fn remove_file(&mut self, file: &str)
        requires
            old(self).wf(),
        ensures
            final(self).wf(),
            final(self)@ == old(self)@.without_file(file@),
    {
        let ghost before = self@;
        let path = canonical_path(file);
        let ids: Vec<SymbolId> = match self.file_symbols.remove(path.as_str()) {
            Some(v) => v,
            None => {
                assert(self@.file_symbols =~= before.file_symbols);
                assert(self@ =~= before);
                return;
            },
        };
        assert(before.file_symbols[path@] == ids@);
        let ghost rest = self.file_symbols;
        let mut i: usize = 0;
        assert(drop_nodes(before.nodes, ids@.take(0)) =~= before.nodes);
        while i < ids.len()
            invariant
                i <= ids.len(),
                balanced(self@.out, self@.into),
                self@.nodes == drop_nodes(before.nodes, ids@.take(i as int)),
                self@.out == drop_symbols(before.out, ids@.take(i as int)),
                self@.into == drop_symbols(before.into, ids@.take(i as int)),
                self.file_symbols == rest,
                self.file_mtimes@ == before.file_mtimes,
                self.file_mtimes.wf(),
            decreases ids.len() - i,
        {
            let ghost done = ids@.take(i as int);
            let ghost more = ids@.take(i + 1);
            assert(more.drop_last() =~= done);
            assert(more.last() == ids@[i as int]);
            self.remove_symbol(ids[i]);
            assert(more.to_set() =~= done.to_set().insert(ids@[i as int])) by {
                assert forall|x: SymbolId| more.contains(x) == (done.contains(x) || x == ids@[i as int]) by {
                    if done.contains(x) {
                        let j = choose|j: int| 0 <= j < done.len() && done[j] == x;
                        assert(more[j] == x);
                    }
                    assert(more[i as int] == ids@[i as int]);
                    if more.contains(x) && x != ids@[i as int] {
                        let j = choose|j: int| 0 <= j < more.len() && more[j] == x;
                        assert(done[j] == x);
                    }
                }
            }
            assert(self@.nodes =~= drop_nodes(before.nodes, more));
            i = i + 1;
        }
        assert(ids@.take(ids@.len() as int) =~= ids@);
        let _mtime = self.file_mtimes.remove(path.as_str());
        assert(self@.file_symbols =~= before.file_symbols.remove(path@));
        assert(self@ =~= before.without_file(file@));
        proof {
            removal_keeps_listing(before, file@);
            assert forall|k: SymbolId| #[trigger] self@.nodes.contains_key(k) implies self@.nodes[k].id == k by {
                assert(before.nodes.contains_key(k));
            }
        }
    }

    /// Removes everything that is known of a file.
    pub fn forget_file(&mut self, file: &str)
        requires
            old(self).wf(),
        ensures
            final(self).wf(),
            final(self)@ == old(self)@.forgetting(file@),
    {
        let ghost before = self@;
        self.remove_file(file);
        let path = canonical_path(file);
        let _mtime = self.file_mtimes.remove(path.as_str());
        assert(self@ =~= before.forgetting(file@));
        proof {
            removal_keeps_listing(before, file@);
        }
    }

    /// The symbol with an identifier.
    pub fn node(&self, id: SymbolId) -> (r: Option<&SymbolNode>)
        ensures
            match r {
                Some(n) => self@.nodes.contains_key(id) && *n == self@.nodes[id],
                None => !self@.nodes.contains_key(id),
            },
    {
        self.nodes.get(&id)
    }

    /// The symbols of a file.
    pub fn symbols_in_file(&self, file: &str) -> (r: Option<&Vec<SymbolId>>)
        requires
            self.wf(),
        ensures
            match r {
                Some(v) => self@.file_symbols.contains_key(canonical(file@)) && v@
                    == self@.file_symbols[canonical(file@)],
                None => !self@.file_symbols.contains_key(canonical(file@)),
            },
    {
        let path = canonical_path(file);
        self.file_symbols.get(path.as_str())
    }

    /// The outgoing edges of a symbol.
    pub fn callees(&self, id: SymbolId) -> (r: Option<&Vec<Edge>>)
        ensures
            match r {
                Some(v) => self@.out.contains_key(id) && v@ == self@.out[id],
                None => !self@.out.contains_key(id),
            },
    {
        self.edges_out.get(&id)
    }

    /// The incoming edges of a symbol.
    pub fn callers(&self, id: SymbolId) -> (r: Option<&Vec<Edge>>)
        ensures
            match r {
                Some(v) => self@.into.contains_key(id) && v@ == self@.into[id],
                None => !self@.into.contains_key(id),
            },
    {
        self.edges_in.get(&id)
    }

    /// How many symbols there are.
    pub fn node_count(&self) -> (r: usize)
        ensures
            r == self@.nodes.dom().len(),
    {
        self.nodes.len()
    }

    /// How many files there are.
    pub fn file_count(&self) -> (r: usize)
        requires
            self.wf(),
        ensures
            r == self@.file_symbols.dom().len(),
    {
        assert(self@.file_symbols.dom() =~= self.file_symbols@.dom());
        self.file_symbols.len()
    }

    /// Whether there is any symbol.
    pub fn is_ready(&self) -> (r: bool)
        ensures
            r == !(self@.nodes.dom() =~= Set::<SymbolId>::empty()),
    {
        let n = self.nodes.len();
        assert(n == 0 <==> self@.nodes.dom() =~= Set::<SymbolId>::empty());
        n > 0
    }
}

fn push_edge(adj: &mut HashMap<SymbolId, Vec<Edge>>, from: SymbolId, edge: Edge)
    ensures
        edge_lists(final(adj)@) == with_edge(edge_lists(old(adj)@), from, edge),
{
    let ghost before = adj@;
    let mut list: Vec<Edge> = match adj.remove(&from) {
        Some(v) => v,
        None => Vec::new(),
    };
    assert(list@ =~= edges_of(edge_lists(before), from));
    list.push(edge);
    adj.insert(from, list);
    assert(edge_lists(adj@) =~= with_edge(edge_lists(before), from, edge));
}

impl Default for CodeGraph {
    fn default() -> (r: Self)
        ensures
            r.wf(),
            r@.nodes == Map::<SymbolId, SymbolNode>::empty(),
            r@.out == Map::<SymbolId, Seq<Edge>>::empty(),
            r@.into == Map::<SymbolId, Seq<Edge>>::empty(),
            r@.file_symbols == Map::<Seq<char>, Seq<SymbolId>>::empty(),
            r@.file_mtimes == Map::<Seq<char>, u64>::empty(),
    {
        CodeGraph::new()
    }
}

// ---- What removal guarantees ----

proof fn lemma_dropped_symbols(adj: Map<SymbolId, Seq<Edge>>, ids: Seq<SymbolId>, u: SymbolId, e: Edge)
    requires
        edges_of(drop_symbols(adj, ids), u).contains(e),
    ensures
        edges_of(adj, u).contains(e),
        !ids.contains(u),
        !ids.contains(e.to),
    decreases ids.len(),
{
    if ids.len() > 0 {
        let before = drop_symbols(adj, ids.drop_last());
        let id = ids.last();
        lemma_drop_symbol(before, id);
        assert(edges_of(drop_symbol(before, id), u) == if u == id {
            Seq::<Edge>::empty()
        } else {
            apart(edges_of(before, u), id)
        });
        lemma_apart(edges_of(before, u), id, e);
        lemma_dropped_symbols(adj, ids.drop_last(), u, e);
        assert forall|x: SymbolId| ids.contains(x) implies ids.drop_last().contains(x) || x == id by {
            let i = choose|i: int| 0 <= i < ids.len() && ids[i] == x;
            if i < ids.len() - 1 {
                assert(ids.drop_last()[i] == x);
            }
        }
    }
}

proof fn lemma_kept_edges(adj: Map<SymbolId, Seq<Edge>>, ids: Seq<SymbolId>, u: SymbolId, e: Edge)
    requires
        edges_of(adj, u).contains(e),
        !ids.contains(u),
        !ids.contains(e.to),
    ensures
        edges_of(drop_symbols(adj, ids), u).contains(e),
    decreases ids.len(),
{
    if ids.len() > 0 {
        let id = ids.last();
        assert(ids[ids.len() - 1] == id);
        assert forall|x: SymbolId| ids.drop_last().contains(x) implies ids.contains(x) by {
            let i = choose|i: int| 0 <= i < ids.drop_last().len() && ids.drop_last()[i] == x;
            assert(ids[i] == x);
        }
        lemma_kept_edges(adj, ids.drop_last(), u, e);
        let before = drop_symbols(adj, ids.drop_last());
        lemma_drop_symbol(before, id);
        lemma_apart(edges_of(before, u), id, e);
        assert(edges_of(drop_symbol(before, id), u) == apart(edges_of(before, u), id));
    }
}

/// After a file is removed, none of its symbols is a node or an end of an edge,
/// and all other nodes and edges stay.
pub proof fn removal_is_complete(g: GraphView, file: Seq<char>)
    requires
        g.file_symbols.contains_key(canonical(file)),
    ensures
        ({
            let after = g.without_file(file);
            let ids = g.file_symbols[canonical(file)];
            &&& forall|k: SymbolId|
                #[trigger] after.nodes.contains_key(k) <==> g.nodes.contains_key(k) && !ids.contains(k)
            &&& forall|u: SymbolId, e: Edge|
                #[trigger] edges_of(after.out, u).contains(e) <==> edges_of(g.out, u).contains(e)
                    && !ids.contains(u) && !ids.contains(e.to)
            &&& forall|u: SymbolId, e: Edge|
                #[trigger] edges_of(after.into, u).contains(e) <==> edges_of(g.into, u).contains(e)
                    && !ids.contains(u) && !ids.contains(e.to)
            &&& !after.file_symbols.contains_key(canonical(file))
            &&& !after.file_mtimes.contains_key(canonical(file))
        }),
{
    let after = g.without_file(file);
    let ids = g.file_symbols[canonical(file)];
    assert forall|u: SymbolId, e: Edge| #[trigger] edges_of(after.out, u).contains(e) <==> edges_of(
        g.out,
        u,
    ).contains(e) && !ids.contains(u) && !ids.contains(e.to) by {
        if edges_of(after.out, u).contains(e) {
            lemma_dropped_symbols(g.out, ids, u, e);
        }
        if edges_of(g.out, u).contains(e) && !ids.contains(u) && !ids.contains(e.to) {
            lemma_kept_edges(g.out, ids, u, e);
        }
    }
    assert forall|u: SymbolId, e: Edge| #[trigger] edges_of(after.into, u).contains(e) <==> edges_of(
        g.into,
        u,
    ).contains(e) && !ids.contains(u) && !ids.contains(e.to) by {
        if edges_of(after.into, u).contains(e) {
            lemma_dropped_symbols(g.into, ids, u, e);
        }
        if edges_of(g.into, u).contains(e) && !ids.contains(u) && !ids.contains(e.to) {
            lemma_kept_edges(g.into, ids, u, e);
        }
    }
}

/// Removing a file twice is removing it once.
pub proof fn removal_is_idempotent(g: GraphView, file: Seq<char>)
    ensures
        g.without_file(file).without_file(file) == g.without_file(file),
{
}

/// Whether every symbol is kept under its own identifier.
pub open spec fn keyed(g: GraphView) -> bool {
    forall|k: SymbolId| #[trigger] g.nodes.contains_key(k) ==> g.nodes[k].id == k
}

/// Adding symbols and edges and removing files keep every symbol under its own
/// identifier.
pub proof fn updates_keep_identifiers(
    g: GraphView,
    node: SymbolNode,
    from: SymbolId,
    e: Edge,
    file: Seq<char>,
)
    requires
        keyed(g),
    ensures
        keyed(g.with_symbol(node)),
        keyed(g.with_edge(from, e)),
        keyed(g.without_file(file)),
{
}

/// Whether every symbol is listed under its file.
pub open spec fn all_listed(g: GraphView) -> bool {
    forall|k: SymbolId| #[trigger]
        g.nodes.contains_key(k) ==> g.file_symbols.contains_key(canonical(g.nodes[k].file@))
            && g.file_symbols[canonical(g.nodes[k].file@)].contains(k)
}

/// Removing a file keeps every other symbol listed under its file.
pub proof fn removal_keeps_listing(g: GraphView, file: Seq<char>)
    requires
        all_listed(g),
    ensures
        all_listed(g.without_file(file)),
        all_listed(g.forgetting(file)),
{
    let path = canonical(file);
    let w = g.without_file(file);
    assert forall|k: SymbolId| #[trigger] w.nodes.contains_key(k) implies w.file_symbols.contains_key(
        canonical(w.nodes[k].file@),
    ) && w.file_symbols[canonical(w.nodes[k].file@)].contains(k) by {
        assert(g.nodes.contains_key(k));
        if g.file_symbols.contains_key(path) {
            assert(!g.file_symbols[path].to_set().contains(k));
        }
    }
}

/// Adding symbols and edges keeps every symbol listed under its file.
pub proof fn additions_keep_listing(g: GraphView, node: SymbolNode, from: SymbolId, e: Edge)
    requires
        all_listed(g),
    ensures
        all_listed(g.with_symbol(node)),
        all_listed(g.with_edge(from, e)),
{
    let n = g.with_symbol(node);
    let path = canonical(node.file@);
    assert forall|k: SymbolId| #[trigger] n.nodes.contains_key(k) implies n.file_symbols.contains_key(
        canonical(n.nodes[k].file@),
    ) && n.file_symbols[canonical(n.nodes[k].file@)].contains(k) by {
        let list = n.file_symbols[path];
        if k == node.id {
            assert(list[list.len() - 1] == k);
        } else {
            assert(g.nodes.contains_key(k));
            if canonical(g.nodes[k].file@) == path {
                let was = g.file_symbols[path];
                let j = choose|j: int| 0 <= j < was.len() && was[j] == k;
                assert(list[j] == k);
            }
        }
    }
}

} // verus!
