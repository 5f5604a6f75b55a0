use atomcode_core::graph::indexer::{
    apply_index, apply_reindex, changed_files, classify_symbol_kind, extract_calls, extract_symbols, index_step,
    is_indexed, should_index, CallMatch, ChildEntry, Definition, FileParseResult, IndexStep, RawCall, SymbolMatch,
};
use atomcode_core::graph::parse::{call_matches, file_result, parse_source, symbol_matches, Capture};
use atomcode_core::graph::{CodeGraph, SymbolKind};
use atomcode_core::text_map::TextMap;

fn mk(markers: &[&str]) -> ChildEntry {
    ChildEntry { is_dir: true, entries: names(markers) }
}

fn names(list: &[&str]) -> Vec<String> {
    list.iter().map(|s| s.to_string()).collect()
}

fn index(entries: &[&str], children: Vec<ChildEntry>) -> bool {
    should_index("/work/umbrella", &Some("/home/u".to_string()), &names(entries), &children)
}

#[test]
fn should_index_accepts_marked_project() {
    assert!(index(&["Cargo.toml"], vec![]));
}

#[test]
fn should_index_refuses_umbrella_dir_with_many_child_projects() {
    let children = vec![mk(&[".git"]), mk(&[".git"]), mk(&["package.json"]), mk(&["Cargo.toml"])];
    assert!(
        !index(&["a", "b", "c", "d"], children),
        "umbrella of 4 projects without own marker must be skipped"
    );
}

#[test]
fn should_index_accepts_umbrella_with_real_marker() {
    let children = vec![mk(&[".git"]), mk(&[".git"]), mk(&[".git"])];
    assert!(
        index(&["Cargo.toml", "a", "b", "c"], children),
        "user-placed marker must override umbrella detection"
    );
}

#[test]
fn should_index_refuses_umbrella_with_only_atomcode_storage_dir() {
    let children = vec![mk(&["graph.bin"]), mk(&[".git"]), mk(&[".git"]), mk(&[".git"])];
    assert!(
        !index(&[".atomcode", "a", "b", "c"], children),
        ".atomcode dir must not rescue an umbrella from the guard"
    );
}

#[test]
fn should_index_accepts_dir_with_fewer_than_3_child_projects() {
    let children = vec![mk(&[".git"]), mk(&[".git"]), mk(&[])];
    assert!(index(&["a", "b", "other"], children), "2 child projects < umbrella threshold");
}

#[test]
fn the_home_directory_and_the_root_are_not_indexed() {
    let home = Some("/home/u".to_string());
    assert!(!should_index("/home/u", &home, &vec![], &vec![]));
    assert!(!should_index("/", &home, &vec![], &vec![]));
    assert!(should_index("/home/u", &home, &names(&[".git"]), &vec![]));
}

#[test]
fn only_sources_are_indexed() {
    assert!(is_indexed("src/main.rs"));
    assert!(is_indexed("a/b.py"));
    assert!(!is_indexed("README.md"));
    assert!(!is_indexed("Makefile"));
}

fn symbol(name: &str, start_byte: usize, end_byte: usize, lines: (usize, usize), kind: &str) -> SymbolMatch {
    SymbolMatch {
        name: Some(name.to_string()),
        definition: Some(Definition {
            start_byte,
            end_byte,
            start_line: lines.0,
            end_line: lines.1,
            kind: kind.to_string(),
        }),
    }
}

#[test]
fn grammars_are_understood() {
    assert!(matches!(classify_symbol_kind("function_item"), SymbolKind::Function));
    assert!(matches!(classify_symbol_kind("class_definition"), SymbolKind::Class));
    assert!(matches!(classify_symbol_kind("impl_item"), SymbolKind::Other(s) if s == "impl"));
    assert!(matches!(classify_symbol_kind("weird"), SymbolKind::Other(s) if s == "weird"));
}

#[test]
fn a_definition_is_taken_once() {
    let matches = vec![
        symbol("f", 0, 30, (1, 3), "function_item"),
        symbol("g", 0, 30, (1, 3), "function_item"),
        SymbolMatch { name: Some("h".into()), definition: None },
        symbol("i", 40, 50, (5, 6), "struct_item"),
    ];
    let got = extract_symbols("src/a.rs", &matches);
    assert_eq!(got.len(), 2);
    assert_eq!((got[0].name.as_str(), got[1].name.as_str()), ("f", "i"));
    assert_eq!(got[0].id, CodeGraph::make_id("src/a.rs", "f", 1));
}

#[test]
fn calls_belong_to_the_function_around_them() {
    let symbols = extract_symbols(
        "src/a.rs",
        &vec![
            symbol("outer", 0, 90, (1, 9), "function_item"),
            symbol("inner", 10, 40, (2, 4), "function_item"),
        ],
    );
    let calls = vec![
        CallMatch { callee_name: "x".into(), line: 3 },
        CallMatch { callee_name: "y".into(), line: 8 },
        CallMatch { callee_name: "z".into(), line: 20 },
    ];
    let got: Vec<(String, String)> =
        extract_calls(&calls, &symbols).into_iter().map(|c| (c.caller_name, c.callee_name)).collect();
    assert!(got.contains(&("inner".to_string(), "x".to_string())));
    assert!(got.contains(&("outer".to_string(), "y".to_string())));
    assert!(!got.iter().any(|(_, callee)| callee == "z"));
}

#[test]
fn only_changes_are_parsed_again() {
    let mut known: TextMap<u64> = TextMap::new();
    known.insert("old".into(), 1);
    known.insert("same".into(), 2);
    known.insert("changed".into(), 3);
    let files = vec![("same".to_string(), 2), ("changed".to_string(), 4), ("new".to_string(), 5)];
    let (gone, dirty) = changed_files(&known, &files);
    assert_eq!(gone, vec!["old"]);
    assert_eq!(dirty, vec![("changed".to_string(), 4), ("new".to_string(), 5)]);
}

fn parsed(path: &str, name: &str, calls: &[&str]) -> FileParseResult {
    FileParseResult {
        path: path.to_string(),
        mtime: 9,
        symbols: extract_symbols(path, &vec![symbol(name, 0, 9, (1, 2), "function_item")]),
        raw_calls: calls
            .iter()
            .map(|c| RawCall { caller_name: name.to_string(), callee_name: c.to_string(), line: 2 })
            .collect(),
    }
}

#[test]
fn indexing_links_calls_across_files() {
    let mut g = CodeGraph::new();
    apply_index(&mut g, &vec![], &vec![parsed("a.rs", "a", &["b", "nowhere"]), parsed("b.rs", "b", &[])]);
    let (a, b) = (CodeGraph::make_id("a.rs", "a", 1), CodeGraph::make_id("b.rs", "b", 1));
    assert_eq!(g.trace_callees(a, 3), vec![(b, 1)]);
    apply_reindex(&mut g, "b.rs", true, None);
    assert_eq!(g.node_count(), 2);
    apply_reindex(&mut g, "a.rs", true, Some(parsed("a.rs", "a2", &["b"])));
    assert!(g.node(a).is_none());
    assert_eq!(g.callers(b).unwrap().len(), 1);
    apply_reindex(&mut g, "b.rs", false, None);
    assert!(g.node(b).is_none());
    apply_index(&mut g, &vec!["a.rs".to_string()], &vec![]);
    assert!(!g.is_ready());
}

#[test]
fn deleted_files_leave_nothing_behind() {
    let mut g = CodeGraph::new();
    let empty = FileParseResult { path: "empty.rs".into(), mtime: 3, symbols: vec![], raw_calls: vec![] };
    apply_index(&mut g, &vec![], &vec![empty, parsed("a.rs", "a", &["b"]), parsed("b.rs", "b", &[])]);
    assert_eq!(g.file_mtimes.get("empty.rs"), Some(&3));
    apply_index(&mut g, &vec!["empty.rs".to_string(), "./b.rs".to_string()], &vec![]);
    assert!(g.file_mtimes.get("empty.rs").is_none());
    assert!(g.file_mtimes.get("b.rs").is_some(), "another path");
    apply_index(&mut g, &vec!["b.rs".to_string()], &vec![]);
    assert!(g.file_mtimes.get("b.rs").is_none());
    assert!(g.symbols_in_file("b.rs").is_none());
    assert!(g.callees(CodeGraph::make_id("a.rs", "a", 1)).is_none());
    apply_reindex(&mut g, "a.rs//", false, None);
    assert!(g.file_mtimes.get("a.rs").is_none());
}

#[test]
fn files_are_told_apart_by_their_parts() {
    assert_eq!(CodeGraph::make_id("src//a.rs", "f", 1), CodeGraph::make_id("src/./a.rs", "f", 1));
    let mut g = CodeGraph::new();
    apply_index(&mut g, &vec![], &vec![parsed("src//a.rs", "a", &[])]);
    assert_eq!(g.symbols_in_file("src/a.rs").map(|v| v.len()), Some(1));
    let (gone, dirty) = changed_files(&g.file_mtimes, &vec![("src/./a.rs".to_string(), 9)]);
    assert!(gone.is_empty() && dirty.is_empty());
    assert!(!should_index("//", &None, &vec![], &vec![]));
    assert!(!should_index("/home/u/", &Some("/home//u".to_string()), &vec![], &vec![]));
}

fn capture(name: &str, text: &str, rows: (usize, usize), kind: &str) -> Capture {
    Capture {
        name: name.into(),
        text: text.into(),
        start_byte: 10 * rows.0,
        end_byte: 10 * rows.1 + 9,
        start_row: rows.0,
        end_row: rows.1,
        kind: kind.into(),
    }
}

#[test]
fn the_last_capture_of_a_name_counts() {
    let found = vec![
        vec![
            capture("name", "first", (0, 0), "identifier"),
            capture("definition", "..", (0, 4), "function_item"),
            capture("name", "f", (0, 0), "identifier"),
            capture("other", "x", (1, 1), "identifier"),
        ],
        vec![capture("name", "alone", (7, 7), "identifier")],
    ];
    let matches = symbol_matches(&found);
    assert_eq!(matches[0].name.as_deref(), Some("f"));
    let d = matches[0].definition.as_ref().unwrap();
    assert_eq!((d.start_line, d.end_line, d.kind.as_str()), (1, 5, "function_item"));
    assert!(matches[1].definition.is_none());
    let calls = vec![
        vec![capture("callee", "g", (2, 2), "identifier"), capture("callee", "f", (3, 3), "identifier")],
        vec![capture("name", "h", (3, 3), "identifier")],
    ];
    let called: Vec<(String, usize)> = call_matches(&calls).into_iter().map(|c| (c.callee_name, c.line)).collect();
    assert_eq!(called, vec![("g".to_string(), 3), ("f".to_string(), 4)]);
    let r = file_result("a.rs", 5, &found, &calls);
    assert_eq!((r.path.as_str(), r.mtime, r.symbols.len(), r.raw_calls.len()), ("a.rs", 5, 1, 1));
    assert_eq!(r.raw_calls[0].callee_name, "g");
}

const SYMBOLS: &str = "(function_item name: (identifier) @name) @definition";

const CALLS: &str = "(call_expression function: (identifier) @callee)";

#[test]
fn sources_are_parsed() {
    let language: tree_sitter::Language = tree_sitter_rust::LANGUAGE.into();
    let source = "fn one() {\n    two();\n}\n\nfn two() {}\n";
    let r = parse_source("src/a.rs", 4, source, &language, SYMBOLS, Some(CALLS)).unwrap();
    let shown: Vec<(&str, usize, usize)> =
        r.symbols.iter().map(|s| (s.name.as_str(), s.start_line, s.end_line)).collect();
    assert_eq!(shown, vec![("one", 1, 3), ("two", 5, 5)]);
    assert!(matches!(r.symbols[0].kind, SymbolKind::Function));
    assert_eq!(r.raw_calls.len(), 1);
    assert_eq!((r.raw_calls[0].caller_name.as_str(), r.raw_calls[0].line), ("one", 2));
    let none = parse_source("src/a.rs", 4, source, &language, "(no_such_node) @name", None).unwrap();
    assert!(none.symbols.is_empty() && none.raw_calls.is_empty());
    let unnamed = parse_source("src/a.rs", 4, source, &language, "(function_item) @definition", Some(CALLS)).unwrap();
    assert!(unnamed.symbols.is_empty() && unnamed.raw_calls.is_empty());
}

#[test]
fn a_file_without_symbols_keeps_its_time_when_it_goes() {
    let mut g = CodeGraph::new();
    let empty = FileParseResult { path: "e.rs".into(), mtime: 7, symbols: vec![], raw_calls: vec![] };
    apply_reindex(&mut g, "e.rs", true, Some(empty));
    assert_eq!(g.file_mtimes.get("e.rs"), Some(&7));
    apply_reindex(&mut g, "e.rs", false, None);
    assert_eq!(g.file_mtimes.get("e.rs"), Some(&7));
    apply_index(&mut g, &vec!["e.rs".into()], &vec![]);
    assert_eq!(g.file_mtimes.get("e.rs"), None);
}

#[test]
fn cancelled_runs_leave_the_graph_alone() {
    assert_eq!(index_step(true, false, false, false, false), IndexStep::Walk);
    assert_eq!(index_step(true, false, true, false, false), IndexStep::Parse);
    assert_eq!(index_step(true, false, true, true, false), IndexStep::Apply);
    assert_eq!(index_step(true, false, true, true, true), IndexStep::Stop);
    for (walked, parsed) in [(false, false), (true, false), (true, true)] {
        assert_eq!(index_step(true, true, walked, parsed, false), IndexStep::Stop);
        assert_eq!(index_step(false, false, walked, parsed, false), IndexStep::Stop);
    }
}
