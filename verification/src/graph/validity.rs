//! Whether a graph that was put together elsewhere is one.

use std::collections::HashMap;

use vstd::prelude::*;
use vstd::string::*;

use crate::graph::{
    all_listed, edge_lists, edges_of, keyed, mirrors, no_empty_lists, occurrences, CodeGraph, Edge, SymbolId,
};
use crate::paths::{canonical, canonical_path};

verus! {

broadcast use vstd::std_specs::hash::group_hash_axioms;

fn count_of(list: &Vec<Edge>, e: Edge) -> (r: usize)
    ensures
        r == occurrences(list@, e),
{
    let mut n: usize = 0;
    let mut i: usize = 0;
    assert(list@.take(0) =~= Seq::<Edge>::empty());
    while i < list.len()
        invariant
            n <= i <= list.len(),
            n == occurrences(list@.take(i as int), e),
        decreases list.len() - i,
    {
        assert(list@.take(i + 1).drop_last() =~= list@.take(i as int));
        if list[i] == e {
            n = n + 1;
        }
        i = i + 1;
    }
    assert(list@.take(i as int) =~= list@);
    n
}

/// Whether the edges of `u` are in `b` the other way round, as often.
pub open spec fn mirrored_at(list: Seq<Edge>, b: Map<SymbolId, Seq<Edge>>, u: SymbolId) -> bool {
    forall|i: int|
        0 <= i < list.len() ==> occurrences(edges_of(b, (#[trigger] list[i]).to), Edge { to: u, ..list[i] })
            == occurrences(list, list[i])
}

fn is_mirrored_at(list: &Vec<Edge>, b: &HashMap<SymbolId, Vec<Edge>>, u: SymbolId) -> (r: bool)
    ensures
        r == mirrored_at(list@, edge_lists(b@), u),
{
    let ghost lists = edge_lists(b@);
    let mut i: usize = 0;
    while i < list.len()
        invariant
            i <= list.len(),
            lists == edge_lists(b@),
            forall|k: int|
                0 <= k < i ==> occurrences(edges_of(lists, (#[trigger] list@[k]).to), Edge { to: u, ..list@[k] })
                    == occurrences(list@, list@[k]),
        decreases list.len() - i,
    {
        let e = list[i];
        let back = Edge { to: u, kind: e.kind, line: e.line };
        let there: usize = match b.get(&e.to) {
            Some(other) => {
                assert(lists[e.to] == other@);
                count_of(other, back)
            },
            None => 0,
        };
        assert(there == occurrences(edges_of(lists, e.to), back));
        if there != count_of(list, e) {
            assert(occurrences(edges_of(lists, list@[i as int].to), Edge { to: u, ..list@[i as int] })
                != occurrences(list@, list@[i as int]));
            return false;
        }
        i = i + 1;
    }
    true
}

fn is_mirror(a: &HashMap<SymbolId, Vec<Edge>>, b: &HashMap<SymbolId, Vec<Edge>>) -> (r: bool)
    ensures
        r == (mirrors(edge_lists(a@), edge_lists(b@)) && no_empty_lists(edge_lists(a@))),
{
    let ghost x = edge_lists(a@);
    let ghost y = edge_lists(b@);
    let ghost dom = a@.dom();
    let mut fine = true;
    let ghost mut bad: SymbolId = 0;
    for k in it: a.keys()
        invariant
            x == edge_lists(a@),
            y == edge_lists(b@),
            dom == a@.dom(),
            it.seq().unref().to_set() == dom,
            fine ==> forall|i: int|
                0 <= i < it.index() ==> x[*(#[trigger] it.seq()[i])].len() > 0 && mirrored_at(
                    x[*it.seq()[i]],
                    y,
                    *it.seq()[i],
                ),
            !fine ==> x.contains_key(bad) && !(x[bad].len() > 0 && mirrored_at(x[bad], y, bad)),
    {
        let ghost n = it.index();
        let id = *k;
        assert(it.seq()[n] == k);
        assert(it.seq().unref().to_set().contains(id)) by {
            assert(it.seq().unref()[n] == id);
            assert(it.seq().unref().contains(id));
        }
        if let Some(list) = a.get(&id) {
            assert(x[id] == list@);
            if list.len() == 0 || !is_mirrored_at(list, b, id) {
                fine = false;
                proof {
                    bad = id;
                }
            }
        }
    }
    proof {
        if fine {
            assert forall|u: SymbolId| #[trigger] x.contains_key(u) implies x[u].len() > 0 && mirrored_at(x[u], y, u) by {
                assert(dom.contains(u));
            }
            assert forall|u: SymbolId, e: Edge| #[trigger] edges_of(x, u).contains(e) implies occurrences(
                edges_of(y, e.to),
                Edge { to: u, ..e },
            ) == occurrences(edges_of(x, u), e) by {
                let i = choose|i: int| 0 <= i < edges_of(x, u).len() && edges_of(x, u)[i] == e;
                assert(x.contains_key(u));
                assert(x[u][i] == e);
            }
        } else if x[bad].len() > 0 {
            let i = choose|i: int|
                0 <= i < x[bad].len() && occurrences(edges_of(y, (#[trigger] x[bad][i]).to), Edge { to: bad, ..x[bad][i] })
                    != occurrences(x[bad], x[bad][i]);
            assert(edges_of(x, bad).contains(x[bad][i]));
        }
    }
    fine
}

fn holds(list: &Vec<SymbolId>, id: SymbolId) -> (r: bool)
    ensures
        r == list@.contains(id),
{
    let mut i: usize = 0;
    while i < list.len()
        invariant
            i <= list.len(),
            forall|k: int| 0 <= k < i ==> list@[k] != id,
        decreases list.len() - i,
    {
        if list[i] == id {
            return true;
        }
        i = i + 1;
    }
    false
}

impl CodeGraph {
    /// Whether a symbol is kept under its own identifier and listed under its file.
    pub open spec fn in_place(&self, k: SymbolId) -> bool {
        let path = canonical(self@.nodes[k].file@);
        self@.nodes[k].id == k && self@.file_symbols.contains_key(path) && self@.file_symbols[path].contains(k)
    }

    fn is_in_place(&self, id: SymbolId) -> (r: bool)
        requires
            self.file_symbols.wf(),
            self@.nodes.contains_key(id),
        ensures
            r == self.in_place(id),
    {
        match self.nodes.get(&id) {
            Some(node) => {
                let path = canonical_path(node.file.as_str());
                match self.file_symbols.get(path.as_str()) {
                    Some(list) => {
                        assert(self@.file_symbols[path@] == list@);
                        node.id == id && holds(list, id)
                    },
                    None => false,
                }
            },
            None => false,
        }
    }

    fn all_in_place(&self) -> (r: bool)
        requires
            self.file_symbols.wf(),
        ensures
            r == (keyed(self@) && all_listed(self@)),
    {
        let ghost nodes = self@.nodes;
        let mut fine = true;
        let ghost mut bad: SymbolId = 0;
        for k in it: self.nodes.keys()
            invariant
                nodes == self.nodes@,
                self.file_symbols.wf(),
                it.seq().unref().to_set() == nodes.dom(),
                fine ==> forall|i: int| 0 <= i < it.index() ==> self.in_place(*(#[trigger] it.seq()[i])),
                !fine ==> nodes.contains_key(bad) && !self.in_place(bad),
        {
            let ghost n = it.index();
            let id = *k;
            assert(it.seq()[n] == k);
            assert(it.seq().unref().to_set().contains(id)) by {
                assert(it.seq().unref()[n] == id);
                assert(it.seq().unref().contains(id));
            }
            if !self.is_in_place(id) {
                fine = false;
                proof {
                    bad = id;
                }
            }
        }
        proof {
            if fine {
                assert forall|u: SymbolId| #[trigger] self@.nodes.contains_key(u) implies self.in_place(u) by {
                    assert(nodes.dom().contains(u));
                }
            } else {
                assert(self@.nodes.contains_key(bad));
            }
        }
        fine
    }

    /// The graph, if its edges stand in both directions, as often, and its symbols under
    /// their own identifiers and files.
    pub fn checked(self) -> (r: Option<CodeGraph>)
        requires
            self.file_symbols.wf(),
            self.file_mtimes.wf(),
        ensures
            r is Some <==> self.wf(),
            r is Some ==> r->0 == self,
    {
        if is_mirror(&self.edges_out, &self.edges_in) && is_mirror(&self.edges_in, &self.edges_out)
            && self.all_in_place() {
            Some(self)
        } else {
            None
        }
    }
}

} // verus!
