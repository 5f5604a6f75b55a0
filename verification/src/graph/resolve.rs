//! Resolving the name at a call to a symbol.

use vstd::prelude::*;
use vstd::string::*;

use crate::graph::query::{lists_named, named};
use crate::graph::{CodeGraph, SymbolId, SymbolNode};
use crate::paths::{
    canonical, canonical_text_tells_paths_apart, is_segment, parent, path_view, same_path, share_parent,
    top_component, top_component_of,
};
use crate::seqs::lemma_filter_all;
use crate::text::{lemma_split_on_nonempty, list_has, same, split_on, texts};

verus! {

broadcast use vstd::std_specs::hash::group_hash_axioms;

/// How well a symbol fits a call from `caller_file`: 4 in the same file, 3 if
/// its name was imported, 2 in the same directory, 1 under the same top-level
/// directory, 0 otherwise.
pub open spec fn fit(node: SymbolNode, caller_file: Seq<char>, imported: Seq<Seq<char>>) -> int {
    if canonical(node.file@) == canonical(caller_file) {
        4
    } else if imported.contains(node.name@) {
        3
    } else if parent(caller_file) is Some && parent(node.file@) == parent(caller_file) {
        2
    } else if top_component(caller_file) is Some && top_component(node.file@) == top_component(
        caller_file,
    ) {
        1
    } else {
        0
    }
}

fn share_top(a: &str, b: &str) -> (r: bool)
    ensures
        r == (top_component(a@) is Some && top_component(b@) == top_component(a@)),
{
    match (top_component_of(a), top_component_of(b)) {
        (Some(x), Some(y)) => same(x.as_str(), y.as_str()),
        _ => false,
    }
}

fn fit_of(node: &SymbolNode, caller_file: &str, imported_names: &Vec<String>) -> (r: i32)
    ensures
        r == fit(*node, caller_file@, texts(imported_names@)),
{
    if same_path(node.file.as_str(), caller_file) {
        4
    } else if list_has(imported_names, node.name.as_str()) {
        3
    } else if share_parent(caller_file, node.file.as_str()) {
        2
    } else if share_top(caller_file, node.file.as_str()) {
        1
    } else {
        0
    }
}

/// Whether `id` names a symbol `callee_name` that fits the call best.
pub open spec fn resolves(
    nodes: Map<SymbolId, SymbolNode>,
    callee_name: Seq<char>,
    caller_file: Seq<char>,
    imported: Seq<Seq<char>>,
    id: SymbolId,
) -> bool {
    exists|k: SymbolId| #[trigger]
        named(nodes, k, callee_name) && nodes[k].id == id && forall|j: SymbolId| #[trigger]
            named(nodes, j, callee_name) ==> fit(nodes[j], caller_file, imported) <= fit(
                nodes[k],
                caller_file,
                imported,
            )
}

/// The symbol that a call to `callee_name` from `caller_file` most likely
/// means. Between equally good ones, any may be given.
pub fn resolve_callee(
    graph: &CodeGraph,
    callee_name: &str,
    caller_file: &str,
    imported_names: &Vec<String>,
) -> (r: Option<SymbolId>)
    ensures
        match r {
            Some(id) => resolves(
                graph@.nodes,
                callee_name@,
                caller_file@,
                texts(imported_names@),
                id,
            ),
            None => forall|k: SymbolId| !#[trigger] named(graph@.nodes, k, callee_name@),
        },
{
    let ghost nodes = graph@.nodes;
    let ghost imported = texts(imported_names@);
    let ids = graph.ids_by_name(callee_name);
    let mut best: Option<SymbolId> = None;
    let mut best_score: i32 = -1;
    let ghost mut best_key: SymbolId = 0;
    let mut i: usize = 0;
    while i < ids.len()
        invariant
            i <= ids.len(),
            nodes == graph@.nodes,
            imported == texts(imported_names@),
            lists_named(ids@, nodes, callee_name@),
            best is None <==> i == 0,
            best is None ==> best_score == -1,
            best is Some ==> named(nodes, best_key, callee_name@) && nodes[best_key].id == best->0
                && best_score == fit(nodes[best_key], caller_file@, imported),
            forall|j: int|
                0 <= j < i ==> fit(nodes[#[trigger] ids@[j]], caller_file@, imported) <= best_score,
        decreases ids.len() - i,
    {
        let id = ids[i];
        assert(ids@.contains(id));
        if let Some(node) = graph.node(id) {
            let score = fit_of(node, caller_file, imported_names);
            if score > best_score {
                best_score = score;
                best = Some(node.id);
                proof {
                    best_key = id;
                }
            }
        }
        i = i + 1;
    }
    proof {
        assert forall|j: SymbolId| #[trigger] named(nodes, j, callee_name@) implies best is Some && fit(
            nodes[j],
            caller_file@,
            imported,
        ) <= best_score by {
            assert(ids@.contains(j));
            let x = choose|x: int| 0 <= x < ids@.len() && ids@[x] == j;
            assert(fit(nodes[ids@[x]], caller_file@, imported) <= best_score);
        }
        if best is None {
            assert forall|k: SymbolId| !#[trigger] named(nodes, k, callee_name@) by {
                if named(nodes, k, callee_name@) {
                    assert(ids@.contains(k));
                }
            }
        }
    }
    best
}

/// Whether a symbol lies in a file.
pub open spec fn in_file(node: SymbolNode, file: Seq<char>) -> bool {
    path_view(node.file@) == path_view(file)
}

/// Whether a symbol lies in the directory of a file.
pub open spec fn beside(node: SymbolNode, file: Seq<char>) -> bool {
    let a = path_view(node.file@);
    let b = path_view(file);
    &&& a.root == b.root && a.here == b.here
    &&& a.names.len() > 0 && b.names.len() > 0
    &&& a.names.drop_last() == b.names.drop_last()
}

/// Whether a symbol lies under the first directory of a file, where both are seen
/// from the same place.
pub open spec fn under_one_top(node: SymbolNode, file: Seq<char>) -> bool {
    let a = path_view(node.file@);
    let b = path_view(file);
    !a.root && !b.root && !a.here && !b.here && a.names.len() > 0 && b.names.len() > 0 && a.names[0] == b.names[0]
}

/// A call means the symbol of its name that is nearest: one in the file of the caller,
/// where there is one; else, unless the name is imported, one in its directory; else
/// one under its first directory. A
/// file without a name, such as `.`, is taken to lie in every directory that has no name.
pub proof fn the_nearest_symbol_is_meant(
    nodes: Map<SymbolId, SymbolNode>,
    callee_name: Seq<char>,
    caller_file: Seq<char>,
    imported: Seq<Seq<char>>,
    id: SymbolId,
    other: SymbolId,
)
    requires
        resolves(nodes, callee_name, caller_file, imported, id),
        nodes.contains_key(other),
        nodes[other].name@ == callee_name,
        forall|k: SymbolId| #[trigger] nodes.contains_key(k) ==> nodes[k].id == k,
    ensures
        nodes.contains_key(id),
        nodes[id].name@ == callee_name,
        in_file(nodes[other], caller_file) ==> in_file(nodes[id], caller_file),
        !imported.contains(callee_name) && beside(nodes[other], caller_file) ==> in_file(nodes[id], caller_file)
            || beside(nodes[id], caller_file) || path_view(nodes[id].file@).names.len() == 0,
        !imported.contains(callee_name) && path_view(nodes[id].file@).names.len() > 0 && under_one_top(
            nodes[other],
            caller_file,
        ) ==> in_file(nodes[id], caller_file) || beside(nodes[id], caller_file) || under_one_top(
            nodes[id],
            caller_file,
        ),
{
    let k = choose|k: SymbolId| #[trigger]
        named(nodes, k, callee_name) && nodes[k].id == id && forall|j: SymbolId| #[trigger]
            named(nodes, j, callee_name) ==> fit(nodes[j], caller_file, imported) <= fit(
                nodes[k],
                caller_file,
                imported,
            );
    assert(nodes.contains_key(k));
    assert(named(nodes, other, callee_name));
    canonical_text_tells_paths_apart(nodes[other].file@, caller_file);
    canonical_text_tells_paths_apart(nodes[id].file@, caller_file);
    let a = path_view(nodes[id].file@);
    let b = path_view(caller_file);
    let c = path_view(nodes[other].file@);
    if beside(nodes[other], caller_file) {
        assert(parent(nodes[other].file@) == parent(caller_file));
    }
    if b.names.len() > 0 && parent(nodes[id].file@) == parent(caller_file) && a.names.len() > 0 {
        assert(beside(nodes[id], caller_file));
    }
    lemma_first_is_no_sign(caller_file);
    lemma_first_is_no_sign(nodes[id].file@);
    if under_one_top(nodes[other], caller_file) {
        assert(top_component(nodes[other].file@) == top_component(caller_file));
        if top_component(nodes[id].file@) == top_component(caller_file) {
            assert(!a.root && !a.here) by {
                assert(b.names[0] != seq!['/'] && b.names[0] != seq!['.']);
            }
        }
    }
}

/// The parts of a path that name something are neither the root nor `.`.
proof fn lemma_first_is_no_sign(p: Seq<char>)
    ensures
        path_view(p).names.len() > 0 ==> path_view(p).names[0] != seq!['/'] && path_view(p).names[0] != seq!['.'],
{
    let keep = |s: Seq<char>| is_segment(s);
    let parts = split_on(p, '/');
    lemma_filter_all(parts, keep);
    if path_view(p).names.len() > 0 {
        let first = parts.filter(keep)[0];
        assert(keep(first));
        assert(parts.contains(first));
        lemma_parts_hold_no_separator(p, first);
        if first == seq!['/'] {
            assert(first[0] == '/');
        }
    }
}

proof fn lemma_parts_hold_no_separator(p: Seq<char>, part: Seq<char>)
    requires
        split_on(p, '/').contains(part),
    ensures
        forall|i: int| 0 <= i < part.len() ==> #[trigger] part[i] != '/',
    decreases p.len(),
{
    let parts = split_on(p, '/');
    let k = choose|k: int| 0 <= k < parts.len() && parts[k] == part;
    if p.len() > 0 {
        let rest = split_on(p.drop_last(), '/');
        lemma_split_on_nonempty(p.drop_last(), '/');
        if k < parts.len() - 1 || p.last() != '/' {
            if k < rest.len() - 1 || (k == rest.len() - 1 && p.last() == '/') {
                assert(rest[k] == part);
                assert(rest.contains(part));
                lemma_parts_hold_no_separator(p.drop_last(), part);
            } else {
                assert(rest.contains(rest.last()));
                lemma_parts_hold_no_separator(p.drop_last(), rest.last());
                assert(part == rest.last().push(p.last()));
                assert forall|i: int| 0 <= i < part.len() implies #[trigger] part[i] != '/' by {
                    if i < rest.last().len() {
                        assert(rest.last()[i] == part[i]);
                    }
                }
            }
        }
    }
}

} // verus!
