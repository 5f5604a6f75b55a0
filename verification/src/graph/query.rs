//! Looking symbols up by name, and summaries of what depends on what.

use vstd::prelude::*;
use vstd::string::*;

use crate::graph::walk::{at_distance, ball, linked, next_of, walked};
use crate::graph::{edges_of, keyed, CodeGraph, Edge, GraphView, SymbolId, SymbolKind, SymbolNode};
use crate::text_map::keys_of;
use crate::paths::{canonical, canonical_path, file_name, file_name_of, same_path};
use crate::text::{
    contains, decimal, join, join_texts, joined_parts_are_kept, lemma_contains_itself, lemma_contains_within, list_has,
    opt, push_decimal, push_repeated, repeated, same, starts_with, texts,
};

verus! {

broadcast use vstd::std_specs::hash::group_hash_axioms;

/// Whether `k` is a symbol with the given name.
pub open spec fn named(nodes: Map<SymbolId, SymbolNode>, k: SymbolId, name: Seq<char>) -> bool {
    nodes.contains_key(k) && nodes[k].name@ == name
}

/// Whether `ids` are the symbols with the given name, each once.
pub open spec fn lists_named(
    ids: Seq<SymbolId>,
    nodes: Map<SymbolId, SymbolNode>,
    name: Seq<char>,
) -> bool {
    &&& ids.no_duplicates()
    &&& forall|k: SymbolId| #[trigger] ids.contains(k) <==> named(nodes, k, name)
}

/// The last part of the path of a file, or nothing.
pub open spec fn short_name(file: Seq<char>) -> Seq<char> {
    match file_name(file) {
        Some(n) => n,
        None => Seq::empty(),
    }
}

fn short_name_of(file: &str) -> (r: String)
    ensures
        r@ == short_name(file@),
{
    match file_name_of(file) {
        Some(n) => n,
        None => String::new(),
    }
}

// ---- Dependents ----

/// Whether a symbol of the file `f`, which is not `file`, is called from no
/// more than `max_depth` calls away of the symbol `s`.
pub open spec fn calls_from(
    g: GraphView,
    s: SymbolId,
    file: Seq<char>,
    max_depth: nat,
    f: Seq<char>,
) -> bool {
    exists|c: SymbolId, k: nat|
        1 <= k <= max_depth && #[trigger] at_distance(g.into, s, c, k) && g.nodes.contains_key(c)
            && canonical(g.nodes[c].file@) == f && f != canonical(file)
}

/// Whether the file `f` depends on `file`: a symbol of it calls one of `file`,
/// directly or through others.
pub open spec fn depends(g: GraphView, file: Seq<char>, max_depth: nat, f: Seq<char>) -> bool {
    g.file_symbols.contains_key(canonical(file)) && exists|s: SymbolId|
        g.file_symbols[canonical(file)].contains(s) && #[trigger] calls_from(g, s, file, max_depth, f)
}

/// Whether `list` names the files that depend on `file`, each once.
pub open spec fn lists_dependents(
    list: Seq<Seq<char>>,
    g: GraphView,
    file: Seq<char>,
    max_depth: nat,
) -> bool {
    &&& list.no_duplicates()
    &&& forall|f: Seq<char>| #[trigger] list.contains(f) <==> depends(g, file, max_depth, f)
}

pub open spec fn listed_file(
    list: Seq<(SymbolId, usize)>,
    k: int,
    nodes: Map<SymbolId, SymbolNode>,
    file: Seq<char>,
    f: Seq<char>,
) -> bool {
    exists|i: int|
        0 <= i < k && i < list.len() && nodes.contains_key((#[trigger] list[i]).0) && canonical(
            nodes[list[i].0].file@,
        ) == f && f != canonical(file)
}

// ---- Summaries ----

/// `uses` with the files that edges lead to outside of `path`.
pub open spec fn with_used(
    uses: Seq<Seq<char>>,
    edges: Seq<Edge>,
    nodes: Map<SymbolId, SymbolNode>,
    path: Seq<char>,
) -> Seq<Seq<char>>
    decreases edges.len(),
{
    if edges.len() == 0 {
        uses
    } else {
        let before = with_used(uses, edges.drop_last(), nodes, path);
        let to = edges.last().to;
        if nodes.contains_key(to) && canonical(nodes[to].file@) != canonical(path) && !before.contains(
            short_name(nodes[to].file@),
        ) {
            before.push(short_name(nodes[to].file@))
        } else {
            before
        }
    }
}

/// The names of the files that symbols of `path` use.
pub open spec fn used_files(g: GraphView, ids: Seq<SymbolId>, path: Seq<char>) -> Seq<Seq<char>>
    decreases ids.len(),
{
    if ids.len() == 0 {
        Seq::empty()
    } else {
        with_used(used_files(g, ids.drop_last(), path), edges_of(g.out, ids.last()), g.nodes, path)
    }
}

/// The names of those paths that have one.
pub open spec fn names_of(paths: Seq<Seq<char>>) -> Seq<Seq<char>>
    decreases paths.len(),
{
    if paths.len() == 0 {
        Seq::empty()
    } else {
        match file_name(paths.last()) {
            Some(n) => names_of(paths.drop_last()).push(n),
            None => names_of(paths.drop_last()),
        }
    }
}

/// How many symbols of a file a summary looks at.
pub const SUMMARY_SYMBOLS: usize = 10;

pub open spec fn first_symbols(ids: Seq<SymbolId>) -> Seq<SymbolId> {
    if ids.len() <= SUMMARY_SYMBOLS {
        ids
    } else {
        ids.take(SUMMARY_SYMBOLS as int)
    }
}

/// The summary line of a file, if there is anything to say.
pub open spec fn dependency_line(
    filename: Seq<char>,
    uses: Seq<Seq<char>>,
    users: Seq<Seq<char>>,
) -> Option<Seq<char>> {
    if uses.len() == 0 && users.len() == 0 {
        None
    } else {
        Some(
            "[Graph: "@ + filename + "]"@ + (if uses.len() > 0 {
                " uses: "@ + join(uses, ", "@)
            } else {
                Seq::empty()
            }) + (if users.len() > 0 {
                " | used by: "@ + join(users, ", "@)
            } else {
                Seq::empty()
            }),
        )
    }
}

/// Whether `r` summarises the file at `path`.
pub open spec fn summarises(
    r: Option<Seq<char>>,
    g: GraphView,
    filename: Seq<char>,
    path: Seq<char>,
) -> bool {
    &&& g.file_symbols.contains_key(path)
    &&& file_name(path) == Some(filename)
    &&& exists|deps: Seq<Seq<char>>| #[trigger]
        lists_dependents(deps, g, path, 2) && r == dependency_line(
            filename,
            used_files(g, first_symbols(g.file_symbols[path]), path),
            names_of(deps),
        )
}

pub open spec fn is_function(n: SymbolNode) -> bool {
    n.kind is Function || n.kind is Method
}

pub open spec fn callee_count(g: GraphView, k: SymbolId) -> nat {
    edges_of(g.out, g.nodes[k].id).len()
}

/// Whether `k` is a function of the given name with as many callees as any.
pub open spec fn is_busiest(g: GraphView, k: SymbolId, name: Seq<char>) -> bool {
    &&& named(g.nodes, k, name)
    &&& is_function(g.nodes[k])
    &&& forall|j: SymbolId|
        #[trigger] named(g.nodes, j, name) && is_function(g.nodes[j]) ==> callee_count(g, j) <= callee_count(
            g,
            k,
        )
}

pub open spec fn chain_line(n: SymbolNode, depth: nat) -> Seq<char> {
    "\n  "@ + repeated(" → "@, depth) + n.name@ + "() ("@ + short_name(n.file@) + ":"@ + decimal(
        n.start_line as nat,
    ) + ")"@
}

pub open spec fn chain_lines(list: Seq<(SymbolId, usize)>, nodes: Map<SymbolId, SymbolNode>) -> Seq<char>
    decreases list.len(),
{
    if list.len() == 0 {
        Seq::empty()
    } else {
        let before = chain_lines(list.drop_last(), nodes);
        let (id, depth) = list.last();
        if nodes.contains_key(id) {
            before + chain_line(nodes[id], depth as nat)
        } else {
            before
        }
    }
}

/// The summary of a call chain.
pub open spec fn chain_text(
    fn_name: Seq<char>,
    list: Seq<(SymbolId, usize)>,
    nodes: Map<SymbolId, SymbolNode>,
) -> Seq<char> {
    "[Call chain: "@ + fn_name + "()"@ + chain_lines(list, nodes) + "]\n"@
        + "[SCOPE: The issue is in ONE of these functions. Read ONLY these files — do not explore outside this chain.]"@
}

/// Whether `r` is the call chain of the function `k`, if it calls anything.
pub open spec fn shows_chain(r: Option<Seq<char>>, g: GraphView, fn_name: Seq<char>, k: SymbolId) -> bool {
    let list = walked(g.out, g.nodes[k].id, 3);
    r == if list.len() == 0 {
        None
    } else {
        Some(chain_text(fn_name, list, g.nodes))
    }
}

fn function_node(n: &SymbolNode) -> (r: bool)
    ensures
        r == is_function(*n),
{
    match n.kind {
        SymbolKind::Function => true,
        SymbolKind::Method => true,
        _ => false,
    }
}

impl CodeGraph {
    /// The symbols with the given name, in no particular order.
    pub fn ids_by_name(&self, name: &str) -> (r: Vec<SymbolId>)
        ensures
            lists_named(r@, self@.nodes, name@),
    {
        let ghost nodes = self.nodes@;
        let mut out: Vec<SymbolId> = Vec::new();
        for k in it: self.nodes.keys()
            invariant
                nodes == self.nodes@,
                it.seq().unref().to_set() == nodes.dom(),
                it.seq().no_duplicates(),
                out@.no_duplicates(),
                forall|x: SymbolId|
                    #[trigger] out@.contains(x) <==> named(nodes, x, name@) && exists|i: int|
                        0 <= i < it.index() && *(#[trigger] it.seq()[i]) == x,
        {
            let ghost was = out@;
            let ghost n = it.index();
            let id = *k;
            assert(it.seq()[n] == k);
            assert(it.seq().unref().to_set().contains(id)) by {
                assert(it.seq().unref()[n] == id);
                assert(it.seq().unref().contains(id));
            }
            let mut hit = false;
            if let Some(node) = self.nodes.get(&id) {
                if same(node.name.as_str(), name) {
                    hit = true;
                }
            }
            assert(!was.contains(id)) by {
                if was.contains(id) {
                    let i = choose|i: int| 0 <= i < n && *(#[trigger] it.seq()[i]) == id;
                    assert(it.seq()[i] == it.seq()[n]);
                }
            }
            if hit {
                out.push(id);
            }
            assert forall|x: SymbolId| #[trigger] out@.contains(x) <==> named(nodes, x, name@) && exists|i: int|
                0 <= i < n + 1 && *(#[trigger] it.seq()[i]) == x by {
                if was.contains(x) {
                    let j = choose|j: int| 0 <= j < was.len() && was[j] == x;
                    assert(out@[j] == x);
                    let i = choose|i: int| 0 <= i < n && *(#[trigger] it.seq()[i]) == x;
                    assert(*it.seq()[i] == x);
                }
                if hit {
                    assert(out@[was.len() as int] == id);
                    assert(*it.seq()[n] == id);
                }
                if out@.contains(x) && !was.contains(x) {
                    let j = choose|j: int| 0 <= j < out@.len() && out@[j] == x;
                    if j < was.len() {
                        assert(was[j] == x);
                    }
                    assert(x == id);
                    assert(*it.seq()[n] == x);
                }
                if named(nodes, x, name@) && exists|i: int| 0 <= i < n + 1 && *(#[trigger] it.seq()[i]) == x {
                    let i = choose|i: int| 0 <= i < n + 1 && *(#[trigger] it.seq()[i]) == x;
                    if i < n {
                        assert(was.contains(x));
                    } else {
                        assert(x == id);
                    }
                }
            }
        }
        out
    }

    /// The symbols with the given name, in no particular order.
    pub fn find_by_name(&self, name: &str) -> (r: Vec<&SymbolNode>)
        ensures
            exists|ids: Seq<SymbolId>| #[trigger]
                lists_named(ids, self@.nodes, name@) && r@.len() == ids.len() && forall|i: int|
                    0 <= i < ids.len() ==> *(#[trigger] r@[i]) == self@.nodes[ids[i]],
    {
        let ids = self.ids_by_name(name);
        let mut out: Vec<&SymbolNode> = Vec::new();
        let mut i: usize = 0;
        while i < ids.len()
            invariant
                i <= ids.len(),
                lists_named(ids@, self@.nodes, name@),
                out@.len() == i,
                forall|k: int| 0 <= k < i ==> *(#[trigger] out@[k]) == self@.nodes[ids@[k]],
            decreases ids.len() - i,
        {
            let id = ids[i];
            assert(ids@.contains(id));
            if let Some(node) = self.nodes.get(&id) {
                out.push(node);
            }
            i = i + 1;
        }
        assert(lists_named(ids@, self@.nodes, name@));
        out
    }

    fn add_files_of(&self, list: &Vec<(SymbolId, usize)>, file: &str, out: &mut Vec<String>)
        requires
            texts(old(out)@).no_duplicates(),
        ensures
            texts(final(out)@).no_duplicates(),
            forall|f: Seq<char>|
                #[trigger] texts(final(out)@).contains(f) <==> texts(old(out)@).contains(f)
                    || listed_file(list@, list@.len() as int, self@.nodes, file@, f),
    {
        let ghost nodes = self@.nodes;
        let ghost before = texts(out@);
        let path = canonical_path(file);
        let mut i: usize = 0;
        while i < list.len()
            invariant
                i <= list.len(),
                nodes == self@.nodes,
                path@ == canonical(file@),
                texts(out@).no_duplicates(),
                forall|f: Seq<char>|
                    #[trigger] texts(out@).contains(f) <==> before.contains(f) || listed_file(
                        list@,
                        i as int,
                        nodes,
                        file@,
                        f,
                    ),
            decreases list.len() - i,
        {
            let ghost was = texts(out@);
            let id = list[i].0;
            if let Some(node) = self.nodes.get(&id) {
                let f = canonical_path(node.file.as_str());
                if !same(f.as_str(), path.as_str()) && !list_has(out, f.as_str()) {
                    let ghost o = out@;
                    out.push(f);
                    assert(texts(out@) =~= texts(o).push(f@));
                }
            }
            assert forall|f: Seq<char>| #[trigger] texts(out@).contains(f) <==> before.contains(f) || listed_file(
                list@,
                i + 1,
                nodes,
                file@,
                f,
            ) by {
                if was.contains(f) {
                    let j = choose|j: int| 0 <= j < was.len() && was[j] == f;
                    assert(texts(out@)[j] == f);
                    if listed_file(list@, i as int, nodes, file@, f) {
                        let k = choose|k: int|
                            0 <= k < i && k < list@.len() && nodes.contains_key((#[trigger] list@[k]).0)
                                && canonical(nodes[list@[k].0].file@) == f && f != canonical(file@);
                        assert(nodes.contains_key(list@[k].0));
                    }
                }
                if texts(out@).contains(f) && !was.contains(f) {
                    let j = choose|j: int| 0 <= j < texts(out@).len() && texts(out@)[j] == f;
                    if j < was.len() {
                        assert(was[j] == f);
                    }
                    assert(nodes.contains_key(list@[i as int].0) && canonical(
                        nodes[list@[i as int].0].file@,
                    ) == f);
                }
                if listed_file(list@, i + 1, nodes, file@, f) {
                    let k = choose|k: int|
                        0 <= k < i + 1 && k < list@.len() && nodes.contains_key((#[trigger] list@[k]).0)
                            && canonical(nodes[list@[k].0].file@) == f && f != canonical(file@);
                    if k < i {
                        assert(listed_file(list@, i as int, nodes, file@, f));
                        assert(was.contains(f));
                    } else {
                        if !was.contains(f) {
                            assert(texts(out@)[was.len() as int] == f);
                        }
                    }
                }
            }
            i = i + 1;
        }
    }

    /// The files that call into a file, directly or through up to `max_depth`
    /// calls, in no particular order.
    pub fn file_dependents(&self, file: &str, max_depth: usize) -> (r: Vec<String>)
        requires
            self.wf(),
        ensures
            lists_dependents(texts(r@), self@, file@, max_depth as nat),
    {
        let ghost g = self@;
        let mut out: Vec<String> = Vec::new();
        assert(texts(out@) =~= Seq::<Seq<char>>::empty());
        let path = canonical_path(file);
        let ids = match self.file_symbols.get(path.as_str()) {
            Some(v) => v,
            None => {
                return out;
            },
        };
        assert(g.file_symbols[path@] == ids@);
        let mut i: usize = 0;
        while i < ids.len()
            invariant
                i <= ids.len(),
                g == self@,
                texts(out@).no_duplicates(),
                forall|f: Seq<char>|
                    #[trigger] texts(out@).contains(f) <==> exists|j: int|
                        0 <= j < i && calls_from(g, #[trigger] ids@[j], file@, max_depth as nat, f),
            decreases ids.len() - i,
        {
            let ghost was = texts(out@);
            let s = ids[i];
            let list = self.trace_callers(s, max_depth);
            self.add_files_of(&list, file, &mut out);
            assert forall|f: Seq<char>| listed_file(list@, list@.len() as int, g.nodes, file@, f) == calls_from(
                g,
                s,
                file@,
                max_depth as nat,
                f,
            ) by {
                if listed_file(list@, list@.len() as int, g.nodes, file@, f) {
                    let k = choose|k: int|
                        0 <= k < list@.len() && g.nodes.contains_key((#[trigger] list@[k]).0)
                            && canonical(g.nodes[list@[k].0].file@) == f && f != canonical(file@);
                    assert(at_distance(g.into, s, list@[k].0, list@[k].1 as nat));
                }
                if calls_from(g, s, file@, max_depth as nat, f) {
                    let (c, k) = choose|c: SymbolId, k: nat|
                        1 <= k <= max_depth && #[trigger] at_distance(g.into, s, c, k)
                            && g.nodes.contains_key(c) && canonical(g.nodes[c].file@) == f && f != canonical(
                                file@,
                            );
                    assert(at_distance(g.into, s, c, (k as usize) as nat));
                    assert(list@.contains((c, k as usize)));
                    let j = choose|j: int| 0 <= j < list@.len() && list@[j] == (c, k as usize);
                    assert(g.nodes.contains_key(list@[j].0));
                }
            }
            assert forall|f: Seq<char>| #[trigger] texts(out@).contains(f) <==> exists|j: int|
                0 <= j < i + 1 && calls_from(g, #[trigger] ids@[j], file@, max_depth as nat, f) by {
                assert(texts(out@).contains(f) <==> was.contains(f) || calls_from(
                    g,
                    s,
                    file@,
                    max_depth as nat,
                    f,
                ));
                if was.contains(f) {
                    let j = choose|j: int|
                        0 <= j < i && calls_from(g, #[trigger] ids@[j], file@, max_depth as nat, f);
                    assert(calls_from(g, ids@[j], file@, max_depth as nat, f));
                }
                if calls_from(g, s, file@, max_depth as nat, f) {
                    assert(calls_from(g, ids@[i as int], file@, max_depth as nat, f));
                }
            }
            i = i + 1;
        }
        assert forall|f: Seq<char>| #[trigger] texts(out@).contains(f) <==> depends(
            g,
            file@,
            max_depth as nat,
            f,
        ) by {
            if texts(out@).contains(f) {
                let j = choose|j: int|
                    0 <= j < ids@.len() && calls_from(g, #[trigger] ids@[j], file@, max_depth as nat, f);
                assert(ids@.contains(ids@[j]));
            }
            if depends(g, file@, max_depth as nat, f) {
                let s = choose|s: SymbolId|
                    g.file_symbols[path@].contains(s) && #[trigger] calls_from(
                        g,
                        s,
                        file@,
                        max_depth as nat,
                        f,
                    );
                let j = choose|j: int| 0 <= j < ids@.len() && ids@[j] == s;
                assert(calls_from(g, ids@[j], file@, max_depth as nat, f));
            }
        }
        out
    }
}

impl CodeGraph {
    fn files_used(&self, ids: &Vec<SymbolId>, n: usize, path: &str) -> (r: Vec<String>)
        requires
            n <= ids.len(),
        ensures
            texts(r@) == used_files(self@, ids@.take(n as int), path@),
    {
        let ghost g = self@;
        let mut uses: Vec<String> = Vec::new();
        assert(texts(uses@) =~= Seq::<Seq<char>>::empty());
        let mut i: usize = 0;
        while i < n
            invariant
                i <= n <= ids.len(),
                g == self@,
                texts(uses@) == used_files(g, ids@.take(i as int), path@),
            decreases n - i,
        {
            assert(ids@.take(i + 1).drop_last() =~= ids@.take(i as int));
            let ghost base = texts(uses@);
            let id = ids[i];
            match self.edges_out.get(&id) {
                Some(edges) => {
                    assert(edges_of(g.out, id) == edges@);
                    let mut k: usize = 0;
                    while k < edges.len()
                        invariant
                            k <= edges.len(),
                            g == self@,
                            texts(uses@) == with_used(base, edges@.take(k as int), g.nodes, path@),
                        decreases edges.len() - k,
                    {
                        assert(edges@.take(k + 1).drop_last() =~= edges@.take(k as int));
                        let to = edges[k].to;
                        if let Some(node) = self.nodes.get(&to) {
                            if !same_path(node.file.as_str(), path) {
                                let f = short_name_of(node.file.as_str());
                                if !list_has(&uses, f.as_str()) {
                                    let ghost was = uses@;
                                    uses.push(f);
                                    assert(texts(uses@) =~= texts(was).push(f@));
                                }
                            }
                        }
                        k = k + 1;
                    }
                    assert(edges@.take(k as int) =~= edges@);
                },
                None => {
                    assert(edges_of(g.out, id) =~= Seq::<Edge>::empty());
                },
            }
            i = i + 1;
        }
        uses
    }

    /// What a file uses and what uses it, for the first file of that name.
    pub fn file_dependency_summary(&self, filename: &str) -> (r: Option<String>)
        requires
            self.wf(),
        ensures
            (exists|path: Seq<char>| #[trigger] summarises(opt(r), self@, filename@, path)) || (r is None
                && forall|path: Seq<char>| #[trigger]
                self@.file_symbols.contains_key(path) ==> file_name(path) != Some(filename@)),
    {
        let ghost g = self@;
        let n = self.file_symbols.len();
        let mut found: Option<usize> = None;
        let mut i: usize = 0;
        while i < n && found.is_none()
            invariant
                i <= n == self.file_symbols.list().len(),
                self.wf(),
                match found {
                    Some(k) => k < n && file_name(self.file_symbols.list()[k as int].0@) == Some(
                        filename@,
                    ),
                    None => forall|k: int|
                        0 <= k < i ==> file_name((#[trigger] self.file_symbols.list()[k]).0@) != Some(
                            filename@,
                        ),
                },
            decreases n - i,
        {
            let key = self.file_symbols.key_at(i);
            if let Some(name) = file_name_of(key.as_str()) {
                if same(name.as_str(), filename) {
                    found = Some(i);
                }
            }
            i = i + 1;
        }
        match found {
            None => {
                proof {
                    self.file_symbols.lemma_list();
                    assert forall|path: Seq<char>| #[trigger] self@.file_symbols.contains_key(path) implies file_name(
                        path,
                    ) != Some(filename@) by {
                        let keys = keys_of(self.file_symbols.list());
                        assert(keys.contains(path));
                        let k = choose|k: int| 0 <= k < keys.len() && keys[k] == path;
                        assert(self.file_symbols.list()[k].0@ == path);
                    }
                }
                None
            },
            Some(k) => {
                let path = self.file_symbols.key_at(k).clone();
                let ids = self.file_symbols.value_at(k);
                assert(g.file_symbols.contains_key(path@));
                assert(g.file_symbols[path@] == ids@);
                let m: usize = if ids.len() <= SUMMARY_SYMBOLS { ids.len() } else { SUMMARY_SYMBOLS };
                let uses = self.files_used(ids, m, path.as_str());
                assert(ids@.take(m as int) =~= first_symbols(ids@));
                let deps = self.file_dependents(path.as_str(), 2);
                let ghost dep_list = texts(deps@);
                let mut users: Vec<String> = Vec::new();
                let mut j: usize = 0;
                assert(texts(users@) =~= Seq::<Seq<char>>::empty());
                while j < deps.len()
                    invariant
                        j <= deps.len(),
                        dep_list == texts(deps@),
                        texts(users@) == names_of(dep_list.take(j as int)),
                    decreases deps.len() - j,
                {
                    assert(dep_list.take(j + 1).drop_last() =~= dep_list.take(j as int));
                    assert(dep_list.take(j + 1).last() == deps@[j as int]@);
                    if let Some(name) = file_name_of(deps[j].as_str()) {
                        let ghost was = users@;
                        users.push(name);
                        assert(texts(users@) =~= texts(was).push(name@));
                    }
                    j = j + 1;
                }
                assert(dep_list.take(dep_list.len() as int) =~= dep_list);
                let line = describe_dependencies(filename, &uses, &users);
                assert(lists_dependents(dep_list, g, path@, 2));
                assert(summarises(opt(line), g, filename@, path@));
                line
            },
        }
    }

    /// The function of a name with the most callees.
    fn busiest_function(&self, fn_name: &str) -> (r: Option<SymbolId>)
        ensures
            match r {
                Some(k) => is_busiest(self@, k, fn_name@),
                None => forall|j: SymbolId|
                    #[trigger] named(self@.nodes, j, fn_name@) ==> !is_function(self@.nodes[j]),
            },
    {
        let ghost g = self@;
        let ids = self.ids_by_name(fn_name);
        let mut best: Option<SymbolId> = None;
        let mut most: usize = 0;
        let mut i: usize = 0;
        while i < ids.len()
            invariant
                i <= ids.len(),
                g == self@,
                lists_named(ids@, g.nodes, fn_name@),
                match best {
                    Some(k) => named(g.nodes, k, fn_name@) && is_function(g.nodes[k]) && callee_count(g, k)
                        == most && forall|j: int|
                        0 <= j < i && is_function(g.nodes[#[trigger] ids@[j]]) ==> callee_count(g, ids@[j])
                            <= most,
                    None => forall|j: int| 0 <= j < i ==> !is_function(g.nodes[#[trigger] ids@[j]]),
                },
            decreases ids.len() - i,
        {
            let id = ids[i];
            assert(ids@.contains(id));
            if let Some(node) = self.nodes.get(&id) {
                if function_node(node) {
                    let count: usize = match self.edges_out.get(&node.id) {
                        Some(edges) => edges.len(),
                        None => 0,
                    };
                    assert(count == callee_count(g, id));
                    if best.is_none() || count >= most {
                        best = Some(id);
                        most = count;
                    }
                }
            }
            i = i + 1;
        }
        proof {
            assert forall|j: SymbolId| #[trigger] named(g.nodes, j, fn_name@) implies ids@.contains(j) by {}
            assert forall|j: SymbolId| #[trigger] named(g.nodes, j, fn_name@) && is_function(g.nodes[j]) implies best is Some
                && callee_count(g, j) <= most by {
                assert(ids@.contains(j));
                let x = choose|x: int| 0 <= x < ids@.len() && ids@[x] == j;
                assert(is_function(g.nodes[ids@[x]]));
            }
        }
        best
    }

    /// What a function calls, up to three calls deep. Of several functions of
    /// that name, one with the most callees is taken.
    pub fn call_chain_summary(&self, fn_name: &str) -> (r: Option<String>)
        ensures
            (exists|k: SymbolId| #[trigger]
                is_busiest(self@, k, fn_name@) && shows_chain(opt(r), self@, fn_name@, k)) || (r is None
                && forall|j: SymbolId|
                #[trigger] named(self@.nodes, j, fn_name@) ==> !is_function(self@.nodes[j])),
    {
        let ghost g = self@;
        let k = match self.busiest_function(fn_name) {
            Some(k) => k,
            None => {
                return None;
            },
        };
        assert(is_busiest(g, k, fn_name@));
        let root = match self.nodes.get(&k) {
            Some(node) => node.id,
            None => k,
        };
        let list = self.trace_callees(root, 3);
        if list.len() == 0 {
            assert(shows_chain(None, g, fn_name@, k));
            return None;
        }
        let mut out = "[Call chain: ".to_owned();
        out.append(fn_name);
        out.append("()");
        let ghost head = out@;
        let mut i: usize = 0;
        assert(out@ =~= head + Seq::<char>::empty());
        while i < list.len()
            invariant
                i <= list.len(),
                g == self@,
                out@ == head + chain_lines(list@.take(i as int), g.nodes),
            decreases list.len() - i,
        {
            assert(list@.take(i + 1).drop_last() =~= list@.take(i as int));
            let (id, depth) = list[i];
            if let Some(node) = self.nodes.get(&id) {
                let ghost was = out@;
                out.append("\n  ");
                push_repeated(&mut out, " → ", depth);
                out.append(node.name.as_str());
                out.append("() (");
                let file = short_name_of(node.file.as_str());
                out.append(file.as_str());
                out.append(":");
                push_decimal(&mut out, node.start_line as u64);
                out.append(")");
                assert(out@ =~= was + chain_line(*node, depth as nat));
                assert(out@ =~= head + (chain_lines(list@.take(i as int), g.nodes) + chain_line(
                    *node,
                    depth as nat,
                )));
            }
            i = i + 1;
        }
        assert(list@.take(list@.len() as int) =~= list@);
        out.append("]\n");
        out.append(
            "[SCOPE: The issue is in ONE of these functions. Read ONLY these files — do not explore outside this chain.]",
        );
        assert(shows_chain(Some(out@), g, fn_name@, k));
        Some(out)
    }
}

fn describe_dependencies(filename: &str, uses: &Vec<String>, users: &Vec<String>) -> (r: Option<String>)
    ensures
        opt(r) == dependency_line(filename@, texts(uses@), texts(users@)),
{
    assert(texts(uses@).len() == uses@.len() && texts(users@).len() == users@.len());
    if uses.len() == 0 && users.len() == 0 {
        return None;
    }
    let mut out = "[Graph: ".to_owned();
    out.append(filename);
    out.append("]");
    let ghost a = out@;
    if uses.len() > 0 {
        let list = join_texts(uses, ", ");
        out.append(" uses: ");
        out.append(list.as_str());
        assert(out@ =~= a + (" uses: "@ + list@));
    } else {
        assert(out@ =~= a + Seq::<char>::empty());
    }
    let ghost b = out@;
    if users.len() > 0 {
        let list = join_texts(users, ", ");
        out.append(" | used by: ");
        out.append(list.as_str());
        assert(out@ =~= b + (" | used by: "@ + list@));
    } else {
        assert(out@ =~= b + Seq::<char>::empty());
    }
    Some(out)
}

// ---- What summaries promise ----

/// A file depends on another where one of its symbols calls one of the other's, and no
/// file on itself.
pub proof fn callers_depend_on_what_they_call(
    g: GraphView,
    file: Seq<char>,
    max_depth: nat,
    s: SymbolId,
    e: Edge,
    f: Seq<char>,
)
    ensures
        !depends(g, file, max_depth, canonical(file)),
        max_depth >= 1 && g.file_symbols.contains_key(canonical(file)) && g.file_symbols[canonical(file)].contains(s)
            && edges_of(g.into, s).contains(e) && e.to != s && g.nodes.contains_key(e.to) && canonical(
            g.nodes[e.to].file@,
        ) == f && f != canonical(file) ==> depends(g, file, max_depth, f),
        max_depth == 0 ==> !depends(g, file, max_depth, f),
        depends(g, file, max_depth, f) ==> depends(g, file, max_depth + 1, f),
{
    if edges_of(g.into, s).contains(e) && e.to != s {
        let i = choose|i: int| 0 <= i < edges_of(g.into, s).len() && edges_of(g.into, s)[i] == e;
        assert(edges_of(g.into, s)[i].to == e.to);
        assert(linked(g.into, s, e.to));
        assert(ball(g.into, s, 0).contains(s));
        assert(next_of(g.into, ball(g.into, s, 0)).contains(e.to));
        assert(at_distance(g.into, s, e.to, 1));
        if max_depth >= 1 && g.nodes.contains_key(e.to) && canonical(g.nodes[e.to].file@) == f && f != canonical(file) {
            assert(calls_from(g, s, file, max_depth, f));
        }
    }
    if depends(g, file, max_depth, f) {
        let t = choose|t: SymbolId|
            g.file_symbols[canonical(file)].contains(t) && #[trigger] calls_from(g, t, file, max_depth, f);
        let (c, k) = choose|c: SymbolId, k: nat|
            1 <= k <= max_depth && #[trigger] at_distance(g.into, t, c, k) && g.nodes.contains_key(c) && canonical(
                g.nodes[c].file@,
            ) == f && f != canonical(file);
        assert(at_distance(g.into, t, c, k));
        assert(calls_from(g, t, file, max_depth + 1, f));
    }
}

proof fn lemma_with_used(
    uses: Seq<Seq<char>>,
    edges: Seq<Edge>,
    nodes: Map<SymbolId, SymbolNode>,
    path: Seq<char>,
    n: Seq<char>,
)
    ensures
        with_used(uses, edges, nodes, path).contains(n) <==> uses.contains(n) || exists|i: int|
            0 <= i < edges.len() && nodes.contains_key((#[trigger] edges[i]).to) && canonical(
                nodes[edges[i].to].file@,
            ) != canonical(path) && short_name(nodes[edges[i].to].file@) == n,
    decreases edges.len(),
{
    if edges.len() > 0 {
        let t = edges.drop_last();
        let before = with_used(uses, t, nodes, path);
        let now = with_used(uses, edges, nodes, path);
        lemma_with_used(uses, t, nodes, path, n);
        let to = edges.last().to;
        if before.contains(n) {
            let k = choose|k: int| 0 <= k < before.len() && before[k] == n;
            assert(now[k] == n);
        }
        if exists|i: int|
            0 <= i < t.len() && nodes.contains_key((#[trigger] t[i]).to) && canonical(nodes[t[i].to].file@)
                != canonical(path) && short_name(nodes[t[i].to].file@) == n {
            let i = choose|i: int|
                0 <= i < t.len() && nodes.contains_key((#[trigger] t[i]).to) && canonical(nodes[t[i].to].file@)
                    != canonical(path) && short_name(nodes[t[i].to].file@) == n;
            assert(edges[i] == t[i]);
        }
        if exists|i: int|
            0 <= i < edges.len() && nodes.contains_key((#[trigger] edges[i]).to) && canonical(nodes[edges[i].to].file@)
                != canonical(path) && short_name(nodes[edges[i].to].file@) == n {
            let i = choose|i: int|
                0 <= i < edges.len() && nodes.contains_key((#[trigger] edges[i]).to) && canonical(
                    nodes[edges[i].to].file@,
                ) != canonical(path) && short_name(nodes[edges[i].to].file@) == n;
            if i < t.len() {
                assert(t[i] == edges[i]);
            } else if !before.contains(n) {
                assert(now[now.len() - 1] == n);
            }
        }
        if now.contains(n) && !before.contains(n) {
            let k = choose|k: int| 0 <= k < now.len() && now[k] == n;
            if k < before.len() {
                assert(before[k] == n);
            }
            assert(edges[edges.len() - 1] == edges.last());
        }
    }
}

/// The files that a file uses are those of the symbols that its symbols call, other than
/// itself.
pub proof fn used_files_are_called(g: GraphView, ids: Seq<SymbolId>, path: Seq<char>, n: Seq<char>)
    ensures
        used_files(g, ids, path).contains(n) <==> exists|i: int, e: Edge|
            0 <= i < ids.len() && #[trigger] edges_of(g.out, ids[i]).contains(e) && g.nodes.contains_key(e.to)
                && canonical(g.nodes[e.to].file@) != canonical(path) && short_name(g.nodes[e.to].file@) == n,
    decreases ids.len(),
{
    if ids.len() > 0 {
        let t = ids.drop_last();
        let edges = edges_of(g.out, ids.last());
        used_files_are_called(g, t, path, n);
        lemma_with_used(used_files(g, t, path), edges, g.nodes, path, n);
        if used_files(g, t, path).contains(n) {
            let (i, e) = choose|i: int, e: Edge|
                0 <= i < t.len() && #[trigger] edges_of(g.out, t[i]).contains(e) && g.nodes.contains_key(e.to)
                    && canonical(g.nodes[e.to].file@) != canonical(path) && short_name(g.nodes[e.to].file@) == n;
            assert(edges_of(g.out, ids[i]).contains(e));
        }
        if exists|i: int|
            0 <= i < edges.len() && g.nodes.contains_key((#[trigger] edges[i]).to) && canonical(
                g.nodes[edges[i].to].file@,
            ) != canonical(path) && short_name(g.nodes[edges[i].to].file@) == n {
            let i = choose|i: int|
                0 <= i < edges.len() && g.nodes.contains_key((#[trigger] edges[i]).to) && canonical(
                    g.nodes[edges[i].to].file@,
                ) != canonical(path) && short_name(g.nodes[edges[i].to].file@) == n;
            assert(edges_of(g.out, ids[ids.len() - 1]).contains(edges[i]));
        }
        if exists|i: int, e: Edge|
            0 <= i < ids.len() && #[trigger] edges_of(g.out, ids[i]).contains(e) && g.nodes.contains_key(e.to)
                && canonical(g.nodes[e.to].file@) != canonical(path) && short_name(g.nodes[e.to].file@) == n {
            let (i, e) = choose|i: int, e: Edge|
                0 <= i < ids.len() && #[trigger] edges_of(g.out, ids[i]).contains(e) && g.nodes.contains_key(e.to)
                    && canonical(g.nodes[e.to].file@) != canonical(path) && short_name(g.nodes[e.to].file@) == n;
            if i < t.len() {
                assert(edges_of(g.out, t[i]).contains(e));
            } else {
                let k = choose|k: int| 0 <= k < edges.len() && edges[k] == e;
                assert(edges[k].to == e.to);
            }
        }
    }
}

/// A summary line names the file, all files that it uses and all that use it; there is
/// none where there are neither.
pub proof fn summaries_name_both_sides(filename: Seq<char>, uses: Seq<Seq<char>>, users: Seq<Seq<char>>, i: int)
    ensures
        dependency_line(filename, uses, users) is None <==> uses.len() == 0 && users.len() == 0,
        dependency_line(filename, uses, users) is Some ==> {
            let line = dependency_line(filename, uses, users)->0;
            &&& starts_with(line, "[Graph: "@ + filename + "]"@)
            &&& 0 <= i < uses.len() ==> contains(line, " uses: "@ + join(uses, ", "@)) && contains(
                join(uses, ", "@),
                uses[i],
            )
            &&& 0 <= i < users.len() ==> contains(line, " | used by: "@ + join(users, ", "@)) && contains(
                join(users, ", "@),
                users[i],
            )
        },
{
    let head = "[Graph: "@ + filename + "]"@;
    let a = if uses.len() > 0 {
        " uses: "@ + join(uses, ", "@)
    } else {
        Seq::empty()
    };
    let b = if users.len() > 0 {
        " | used by: "@ + join(users, ", "@)
    } else {
        Seq::empty()
    };
    let line = head + a + b;
    assert(line.subrange(0, head.len() as int) =~= head);
    lemma_contains_itself(a);
    lemma_contains_within(head, a, b, a);
    lemma_contains_itself(b);
    lemma_contains_within(head + a, b, Seq::empty(), b);
    assert(head + a + b + Seq::<char>::empty() =~= line);
    if 0 <= i < uses.len() {
        joined_parts_are_kept(uses, ", "@, i);
    }
    if 0 <= i < users.len() {
        joined_parts_are_kept(users, ", "@, i);
    }
}

/// A call chain shows each symbol that is called, with its name, its file and its line,
/// indented by how many calls away it is.
pub proof fn chains_show_what_is_called(
    fn_name: Seq<char>,
    list: Seq<(SymbolId, usize)>,
    nodes: Map<SymbolId, SymbolNode>,
    i: int,
)
    requires
        0 <= i < list.len(),
        nodes.contains_key(list[i].0),
    ensures
        ({
            let n = nodes[list[i].0];
            contains(
                chain_text(fn_name, list, nodes),
                repeated(" → "@, list[i].1 as nat) + n.name@ + "() ("@ + short_name(n.file@) + ":"@ + decimal(
                    n.start_line as nat,
                ) + ")"@,
            )
        }),
        starts_with(chain_text(fn_name, list, nodes), "[Call chain: "@ + fn_name + "()"@),
{
    let n = nodes[list[i].0];
    let line = indented(n, list[i].1 as nat);
    let head = "[Call chain: "@ + fn_name + "()"@;
    let scope = "[SCOPE: The issue is in ONE of these functions. Read ONLY these files — do not explore outside this chain.]"@;
    lemma_chain_line(list, nodes, i);
    lemma_contains_within(head, chain_lines(list, nodes), "]\n"@ + scope, line);
    assert(head + chain_lines(list, nodes) + ("]\n"@ + scope) =~= chain_text(fn_name, list, nodes));
    assert(chain_text(fn_name, list, nodes).subrange(0, head.len() as int) =~= head);
}

/// A line of a chain, from its indent on.
pub open spec fn indented(n: SymbolNode, depth: nat) -> Seq<char> {
    repeated(" → "@, depth) + n.name@ + "() ("@ + short_name(n.file@) + ":"@ + decimal(n.start_line as nat) + ")"@
}

proof fn lemma_indented(n: SymbolNode, depth: nat)
    ensures
        chain_line(n, depth) == "\n  "@ + indented(n, depth),
{
    assert(chain_line(n, depth) =~= "\n  "@ + indented(n, depth));
}

proof fn lemma_chain_line(list: Seq<(SymbolId, usize)>, nodes: Map<SymbolId, SymbolNode>, i: int)
    requires
        0 <= i < list.len(),
        nodes.contains_key(list[i].0),
    ensures
        contains(chain_lines(list, nodes), indented(nodes[list[i].0], list[i].1 as nat)),
    decreases list.len(),
{
    let line = indented(nodes[list[i].0], list[i].1 as nat);
    let t = list.drop_last();
    let before = chain_lines(t, nodes);
    if i < list.len() - 1 {
        assert(t[i] == list[i]);
        lemma_chain_line(t, nodes, i);
        let (id, depth) = list.last();
        if nodes.contains_key(id) {
            let more = chain_line(nodes[id], depth as nat);
            lemma_contains_within(Seq::empty(), before, more, line);
            assert(Seq::<char>::empty() + before + more =~= before + more);
        }
    } else {
        lemma_indented(nodes[list[i].0], list[i].1 as nat);
        lemma_contains_itself(line);
        lemma_contains_within(before + "\n  "@, line, Seq::empty(), line);
        assert(before + "\n  "@ + line + Seq::<char>::empty() =~= before + ("\n  "@ + line));
    }
}

/// The names of paths are those of the paths that have one, in their order.
pub proof fn names_are_of_paths(paths: Seq<Seq<char>>, i: int)
    requires
        0 <= i < paths.len(),
        file_name(paths[i]) is Some,
    ensures
        names_of(paths).contains(file_name(paths[i])->0),
        names_of(paths).len() <= paths.len(),
    decreases paths.len(),
{
    let t = paths.drop_last();
    let now = names_of(paths);
    if i < paths.len() - 1 {
        assert(t[i] == paths[i]);
        names_are_of_paths(t, i);
        let k = choose|k: int| 0 <= k < names_of(t).len() && names_of(t)[k] == file_name(paths[i])->0;
        assert(now[k] == file_name(paths[i])->0);
    } else {
        lemma_fewer_names(t);
        assert(now[now.len() - 1] == file_name(paths[i])->0);
    }
}

proof fn lemma_fewer_names(paths: Seq<Seq<char>>)
    ensures
        names_of(paths).len() <= paths.len(),
    decreases paths.len(),
{
    if paths.len() > 0 {
        lemma_fewer_names(paths.drop_last());
    }
}

/// A summary looks at the first ten symbols of a file, or at all where there are fewer.
pub proof fn summaries_look_at_ten_symbols(ids: Seq<SymbolId>)
    ensures
        ids.len() <= 10 ==> first_symbols(ids) == ids,
        ids.len() > 10 ==> first_symbols(ids) == ids.take(10),
{
}

/// The function of a name that a chain is shown of is a function or a method of that
/// name, and none calls more.
pub proof fn the_busiest_function_is_shown(g: GraphView, k: SymbolId, other: SymbolId, name: Seq<char>)
    requires
        keyed(g),
        is_busiest(g, k, name),
    ensures
        g.nodes.contains_key(k) && g.nodes[k].name@ == name,
        g.nodes[k].kind is Function || g.nodes[k].kind is Method,
        g.nodes.contains_key(other) && g.nodes[other].name@ == name && (g.nodes[other].kind is Function
            || g.nodes[other].kind is Method) ==> edges_of(g.out, other).len() <= edges_of(g.out, k).len(),
{
    if g.nodes.contains_key(other) && g.nodes[other].name@ == name {
        assert(named(g.nodes, other, name));
    }
}

} // verus!
