use atomcode_core::graph::resolve::resolve_callee;
use atomcode_core::graph::{CodeGraph, Edge, EdgeKind, SymbolKind, SymbolNode, Visibility};

fn node(file: &str, name: &str, line: usize, kind: SymbolKind) -> SymbolNode {
    SymbolNode {
        id: CodeGraph::make_id(file, name, line),
        name: name.to_string(),
        kind,
        visibility: Visibility::Unknown,
        file: file.to_string(),
        start_line: line,
        end_line: line + 1,
        signature: None,
    }
}

fn function(g: &mut CodeGraph, file: &str, name: &str) -> u64 {
    let n = node(file, name, 1, SymbolKind::Function);
    let id = n.id;
    g.add_symbol(n);
    id
}

fn call(g: &mut CodeGraph, from: u64, to: u64) {
    g.add_edge(from, Edge { to, kind: EdgeKind::Calls, line: 7 });
}

/// a (src/a.rs) calls b (src/b.rs), which calls c (lib/c.rs), which calls a.
fn ring() -> (CodeGraph, u64, u64, u64) {
    let mut g = CodeGraph::new();
    let a = function(&mut g, "src/a.rs", "a");
    let b = function(&mut g, "src/b.rs", "b");
    let c = function(&mut g, "lib/c.rs", "c");
    call(&mut g, a, b);
    call(&mut g, b, c);
    call(&mut g, c, a);
    (g, a, b, c)
}

#[test]
fn identifiers_are_stable_and_apart() {
    let a = CodeGraph::make_id("src/a.rs", "a", 3);
    assert_eq!(a, CodeGraph::make_id("src/a.rs", "a", 3));
    assert_ne!(a, CodeGraph::make_id("src/a.rs", "a", 4));
    assert_ne!(a, CodeGraph::make_id("src/a.rs", "b", 3));
    assert_ne!(CodeGraph::make_id("xy", "z", 3), CodeGraph::make_id("x", "yz", 3));
}

#[test]
fn an_empty_graph_is_not_ready() {
    let g = CodeGraph::new();
    assert!(!g.is_ready());
    assert_eq!((g.node_count(), g.file_count()), (0, 0));
}

#[test]
fn edges_are_seen_from_both_ends() {
    let (g, a, b, _) = ring();
    assert_eq!((g.node_count(), g.file_count()), (3, 3));
    assert_eq!(g.callees(a).unwrap()[..], [Edge { to: b, kind: EdgeKind::Calls, line: 7 }]);
    assert_eq!(g.callers(b).unwrap()[..], [Edge { to: a, kind: EdgeKind::Calls, line: 7 }]);
    assert_eq!(g.node(a).unwrap().name, "a");
    assert_eq!(g.symbols_in_file("src/a.rs").unwrap()[..], [a]);
    assert!(g.symbols_in_file("src/x.rs").is_none());
}

#[test]
fn removed_files_leave_nothing_behind() {
    let (mut g, a, b, c) = ring();
    g.remove_file("src/b.rs");
    assert!(g.node(b).is_none());
    assert!(g.symbols_in_file("src/b.rs").is_none());
    assert!(g.callees(a).map_or(true, |e| e.iter().all(|e| e.to != b)));
    assert!(g.callers(c).map_or(true, |e| e.iter().all(|e| e.to != b)));
    assert_eq!(g.callees(c).unwrap().len(), 1);
    g.remove_file("src/b.rs");
    assert_eq!(g.node_count(), 2);
}

#[test]
fn walks_go_breadth_first_and_stop_at_the_depth() {
    let (g, a, b, c) = ring();
    assert_eq!(g.trace_callees(a, 5), vec![(b, 1), (c, 2)]);
    assert_eq!(g.trace_callees(a, 1), vec![(b, 1)]);
    assert_eq!(g.trace_callees(a, 0), vec![]);
    assert_eq!(g.trace_callers(a, 5), vec![(c, 1), (b, 2)]);
}

#[test]
fn paths_are_shortest_and_bounded() {
    let (g, a, b, c) = ring();
    assert_eq!(g.shortest_path(a, c), Some(vec![a, b, c]));
    assert_eq!(g.shortest_path(a, a), Some(vec![a]));
    assert_eq!(g.shortest_path(a, 12345), None);
    let mut g = CodeGraph::new();
    let ids: Vec<u64> = (0..12).map(|i| function(&mut g, "f", &format!("n{i}"))).collect();
    for w in ids.windows(2) {
        call(&mut g, w[0], w[1]);
    }
    assert_eq!(g.shortest_path(ids[0], ids[10]).unwrap().len(), 11);
    assert_eq!(g.shortest_path(ids[0], ids[11]), None);
}

#[test]
fn names_are_found_without_regard_to_their_case() {
    let (mut g, a, _, _) = ring();
    g.add_symbol(node("src/z.rs", "A", 9, SymbolKind::Struct));
    let exact = g.find_by_name("a");
    assert!(exact.iter().any(|n| n.id == a));
    assert!(g.find_by_name("missing").is_empty());
}

#[test]
fn dependents_are_other_files() {
    let (g, _, _, _) = ring();
    let mut d = g.file_dependents("src/a.rs", 2);
    d.sort();
    assert_eq!(d, vec!["lib/c.rs", "src/b.rs"]);
    assert!(g.file_dependents("nowhere", 2).is_empty());
}

#[test]
fn summaries_are_exact() {
    let mut g = CodeGraph::new();
    let a = function(&mut g, "src/a.rs", "a");
    let b = function(&mut g, "src/b.rs", "b");
    call(&mut g, a, b);
    assert_eq!(g.file_dependency_summary("a.rs").as_deref(), Some("[Graph: a.rs] uses: b.rs"));
    assert_eq!(g.file_dependency_summary("b.rs").as_deref(), Some("[Graph: b.rs] | used by: a.rs"));
    assert_eq!(g.file_dependency_summary("c.rs"), None);
    assert_eq!(
        g.call_chain_summary("a").as_deref(),
        Some(
            "[Call chain: a()\n   → b() (b.rs:1)]\n[SCOPE: The issue is in ONE of these functions. \
             Read ONLY these files — do not explore outside this chain.]"
        )
    );
    assert_eq!(g.call_chain_summary("b"), None);
    assert_eq!(g.call_chain_summary("x"), None);
}

#[test]
fn calls_resolve_to_the_nearest_symbol() {
    let mut g = CodeGraph::new();
    let far = function(&mut g, "lib/x.rs", "run");
    assert_eq!(resolve_callee(&g, "run", "src/m.rs", &vec![]), Some(far));
    let near = function(&mut g, "src/y.rs", "run");
    assert_eq!(resolve_callee(&g, "run", "src/m.rs", &vec![]), Some(near));
    let own = function(&mut g, "src/m.rs", "run");
    assert_eq!(resolve_callee(&g, "run", "src/m.rs", &vec![]), Some(own));
    assert_eq!(resolve_callee(&g, "walk", "src/m.rs", &vec![]), None);
}

#[test]
fn walks_go_by_first_discoverers_and_their_edges() {
    let mut g = CodeGraph::new();
    let ids: Vec<u64> = ["a", "b", "c", "d", "e"].iter().map(|n| CodeGraph::make_id("f.rs", n, 1)).collect();
    let link = |from: usize, to: usize| (ids[from], ids[to]);
    for (from, to) in [link(0, 2), link(0, 1), link(1, 4), link(1, 3), link(2, 3), link(2, 0)] {
        call(&mut g, from, to);
    }
    let (a, b, c, d, e) = (ids[0], ids[1], ids[2], ids[3], ids[4]);
    assert_eq!(g.trace_callees(a, 2), vec![(c, 1), (b, 1), (d, 2), (e, 2)]);
    assert_eq!(g.trace_callees(a, 1), vec![(c, 1), (b, 1)]);
    assert_eq!(g.trace_callers(d, 9), vec![(b, 1), (c, 1), (a, 2)]);
    assert_eq!(g.shortest_path(a, d), Some(vec![a, c, d]));
    assert_eq!(g.shortest_path(a, e), Some(vec![a, b, e]));
}

#[test]
fn graphs_whose_parts_do_not_fit_are_refused() {
    let (g, a, b, _) = ring();
    assert_eq!(g.checked().map(|g| g.node_count()), Some(3));
    // An edge without its other direction.
    let (mut g, _, _, _) = ring();
    g.edges_in.remove(&b);
    assert!(g.checked().is_none());
    // An edge that stands twice in one direction and once in the other.
    let (mut g, _, _, _) = ring();
    let edge = g.edges_out[&a][0];
    g.edges_out.get_mut(&a).unwrap().push(edge);
    assert!(g.checked().is_none());
    // A list without edges.
    let (mut g, _, _, _) = ring();
    g.edges_out.insert(1, vec![]);
    assert!(g.checked().is_none());
    // A symbol under another identifier.
    let (mut g, _, _, _) = ring();
    let node = g.nodes.remove(&a).unwrap();
    g.nodes.insert(1, node);
    assert!(g.checked().is_none());
    // A symbol that its file does not list.
    let (mut g, _, _, _) = ring();
    g.file_symbols.insert("src/a.rs".into(), vec![b]);
    assert!(g.checked().is_none());
    let (mut g, _, _, _) = ring();
    g.file_symbols.remove("src/a.rs");
    assert!(g.checked().is_none());
}

#[test]
fn edges_occur_as_often_in_both_directions() {
    let mut g = CodeGraph::new();
    let (a, b) = (function(&mut g, "a.rs", "a"), function(&mut g, "b.rs", "b"));
    call(&mut g, a, b);
    call(&mut g, a, b);
    call(&mut g, a, a);
    assert_eq!(g.callees(a).unwrap().iter().filter(|e| e.to == b).count(), 2);
    assert_eq!(g.callers(b).unwrap().iter().filter(|e| e.to == a).count(), 2);
    assert_eq!(g.callers(a).unwrap().len(), 1);
    g.remove_file("b.rs");
    assert_eq!(g.callees(a).unwrap().len(), 1);
    assert!(g.callers(b).is_none());
    assert!(g.checked().is_some());
}
