//! Keeping the graph up to date with the files of a project.
//!
//! Walking directories and parsing sources is done elsewhere; here is what is
//! made of what was found.

use vstd::prelude::*;
use vstd::string::*;

use crate::graph::query::named;
use crate::graph::resolve::{resolve_callee, resolves};
use crate::graph::{
    all_listed, edges_of, keyed, removal_is_complete, removal_keeps_listing, symbol_id, with_edge, CodeGraph, Edge, EdgeKind, GraphView, SymbolId,
    SymbolKind, SymbolNode, Visibility,
};
use crate::text_map::{keys_of, TextMap};
use crate::paths::{canonical, canonical_path, file_name, file_name_of, parts_of, path_view, same_path};
use crate::text::{chars_of, list_has, opt, same, string_of, texts};

verus! {

broadcast use vstd::std_specs::hash::group_hash_axioms;

// ---- What is indexed ----

/// The last position of a dot in a name.
pub open spec fn last_dot(name: Seq<char>) -> int
    decreases name.len(),
{
    if name.len() == 0 {
        -1
    } else if name.last() == '.' {
        name.len() - 1
    } else {
        last_dot(name.drop_last())
    }
}

/// The extension of a path: what follows the last dot of its file name, unless
/// that dot starts the name.
pub open spec fn extension(p: Seq<char>) -> Option<Seq<char>> {
    match file_name(p) {
        Some(n) => if last_dot(n) > 0 {
            Some(n.skip(last_dot(n) + 1))
        } else {
            None
        },
        None => None,
    }
}

pub fn extension_of(p: &str) -> (r: Option<String>)
    ensures
        opt(r) == extension(p@),
{
    match file_name_of(p) {
        None => None,
        Some(name) => {
            let v = chars_of(name.as_str());
            let mut n: usize = v.len();
            assert(v@.take(n as int) =~= v@);
            while n > 0 && v[n - 1] != '.'
                invariant
                    n <= v.len(),
                    last_dot(v@) == last_dot(v@.take(n as int)),
                decreases n,
            {
                assert(v@.take(n as int).drop_last() =~= v@.take(n - 1));
                n = n - 1;
            }
            if n > 0 {
                assert(v@.take(n as int).last() == '.');
                assert(last_dot(v@) == n - 1);
            }
            if n > 1 {
                let e = string_of(&v, n, v.len());
                assert(e@ =~= name@.skip(last_dot(name@) + 1));
                Some(e)
            } else {
                None
            }
        },
    }
}

/// Whether sources with this extension are indexed.
pub open spec fn is_source_extension(e: Seq<char>) -> bool {
    e == "rs"@ || e == "py"@ || e == "js"@ || e == "ts"@ || e == "tsx"@ || e == "go"@ || e == "java"@
        || e == "c"@ || e == "cpp"@ || e == "vue"@
}

/// Whether a file is indexed.
pub fn is_indexed(path: &str) -> (r: bool)
    ensures
        r == (extension(path@) is Some && is_source_extension(extension(path@)->0)),
{
    match extension_of(path) {
        Some(x) => {
            let e = x.as_str();
            same(e, "rs") || same(e, "py") || same(e, "js") || same(e, "ts") || same(e, "tsx") || same(
                e,
                "go",
            ) || same(e, "java") || same(e, "c") || same(e, "cpp") || same(e, "vue")
        },
        None => false,
    }
}

/// Whether an entry of a directory marks it as a project.
pub open spec fn is_marker(name: Seq<char>) -> bool {
    name == ".git"@ || name == "Cargo.toml"@ || name == "package.json"@ || name == "pyproject.toml"@
        || name == "go.mod"@ || name == "pom.xml"@ || name == "build.gradle"@ || name
        == "build.gradle.kts"@
}

/// Whether a directory with these entries is a project.
pub open spec fn project_like(entries: Seq<Seq<char>>) -> bool {
    exists|i: int| 0 <= i < entries.len() && is_marker(#[trigger] entries[i])
}

/// Whether a directory with these entries looks like a project.
pub fn looks_like_project(entries: &Vec<String>) -> (r: bool)
    ensures
        r == project_like(texts(entries@)),
{
    let mut i: usize = 0;
    while i < entries.len()
        invariant
            i <= entries.len(),
            forall|k: int| 0 <= k < i ==> !is_marker(#[trigger] texts(entries@)[k]),
        decreases entries.len() - i,
    {
        let e = entries[i].as_str();
        assert(texts(entries@)[i as int] == e@);
        if same(e, ".git") || same(e, "Cargo.toml") || same(e, "package.json") || same(
            e,
            "pyproject.toml",
        ) || same(e, "go.mod") || same(e, "pom.xml") || same(e, "build.gradle") || same(
            e,
            "build.gradle.kts",
        ) {
            return true;
        }
        i = i + 1;
    }
    false
}

/// An entry of a directory: whether it is a directory, and what is in it.
#[derive(Debug)]
pub struct ChildEntry {
    pub is_dir: bool,
    pub entries: Vec<String>,
}

/// How many entries of a directory are looked at.
pub const UMBRELLA_SCAN: usize = 200;

/// How many projects side by side make a directory an umbrella.
pub const UMBRELLA_PROJECTS: usize = 3;

pub open spec fn is_child_project(c: ChildEntry) -> bool {
    c.is_dir && project_like(texts(c.entries@))
}

/// How many of the first `n` entries are projects.
pub open spec fn child_projects(children: Seq<ChildEntry>, n: nat) -> nat
    decreases n,
{
    if n == 0 || n > children.len() {
        0
    } else {
        child_projects(children, (n - 1) as nat) + if is_child_project(children[n - 1]) {
            1nat
        } else {
            0nat
        }
    }
}

/// Whether a directory with these entries holds many projects side by side.
pub open spec fn umbrella(children: Seq<ChildEntry>) -> bool {
    child_projects(
        children,
        if children.len() <= UMBRELLA_SCAN {
            children.len()
        } else {
            UMBRELLA_SCAN as nat
        },
    ) >= UMBRELLA_PROJECTS
}

proof fn lemma_child_projects_grow(children: Seq<ChildEntry>, a: nat, b: nat)
    requires
        a <= b <= children.len(),
    ensures
        child_projects(children, a) <= child_projects(children, b),
    decreases b,
{
    if a < b {
        lemma_child_projects_grow(children, a, (b - 1) as nat);
    }
}

pub fn is_umbrella_dir(children: &Vec<ChildEntry>) -> (r: bool)
    ensures
        r == umbrella(children@),
{
    let end: usize = if children.len() <= UMBRELLA_SCAN { children.len() } else { UMBRELLA_SCAN };
    let mut count: usize = 0;
    let mut i: usize = 0;
    while i < end
        invariant
            i <= end <= children.len(),
            end == if children@.len() <= UMBRELLA_SCAN { children@.len() } else { UMBRELLA_SCAN as nat },
            count < UMBRELLA_PROJECTS,
            count == child_projects(children@, i as nat),
        decreases end - i,
    {
        if children[i].is_dir && looks_like_project(&children[i].entries) {
            count = count + 1;
            if count >= UMBRELLA_PROJECTS {
                proof {
                    assert(child_projects(children@, (i + 1) as nat) == count);
                    lemma_child_projects_grow(children@, (i + 1) as nat, end as nat);
                }
                return true;
            }
        }
        i = i + 1;
    }
    false
}

/// Whether a path is the root.
pub open spec fn is_root(path: Seq<char>) -> bool {
    path_view(path).root && path_view(path).names.len() == 0
}

/// Whether a path is the home directory, where that is known.
pub open spec fn is_home(path: Seq<char>, home: Option<Seq<char>>) -> bool {
    home is Some && canonical(path) == canonical(home->0)
}

pub fn is_home_or_root(path: &str, home: &Option<String>) -> (r: bool)
    ensures
        r == (is_root(path@) || is_home(path@, opt(*home))),
{
    let parts = parts_of(path);
    assert(texts(parts.names@).len() == parts.names@.len());
    if parts.root && parts.names.len() == 0 {
        return true;
    }
    match home {
        Some(h) => same_path(path, h.as_str()),
        None => false,
    }
}

/// Whether a directory is indexed: a project always, the root and the home
/// directory never, an umbrella of other projects not either.
pub fn should_index(
    project_dir: &str,
    home: &Option<String>,
    entries: &Vec<String>,
    children: &Vec<ChildEntry>,
) -> (r: bool)
    ensures
        r == (project_like(texts(entries@)) || (!is_root(project_dir@) && !is_home(project_dir@, opt(*home))
            && !umbrella(children@))),
{
    if looks_like_project(entries) {
        return true;
    }
    if is_home_or_root(project_dir, home) {
        return false;
    }
    if is_umbrella_dir(children) {
        return false;
    }
    true
}

// ---- What a parse tells ----

/// Where a definition stands in its source, and what the grammar calls it.
#[derive(Debug)]
pub struct Definition {
    pub start_byte: usize,
    pub end_byte: usize,
    pub start_line: usize,
    pub end_line: usize,
    pub kind: String,
}

/// A match of the query for symbols.
#[derive(Debug)]
pub struct SymbolMatch {
    pub name: Option<String>,
    pub definition: Option<Definition>,
}

/// A match of the query for calls.
#[derive(Debug)]
pub struct CallMatch {
    pub callee_name: String,
    pub line: usize,
}

#[verifier::ext_equal]
pub struct DefinitionView {
    pub start_byte: usize,
    pub end_byte: usize,
    pub start_line: usize,
    pub end_line: usize,
    pub kind: Seq<char>,
}

#[verifier::ext_equal]
pub struct SymbolMatchView {
    pub name: Option<Seq<char>>,
    pub definition: Option<DefinitionView>,
}

#[verifier::ext_equal]
pub struct CallMatchView {
    pub callee_name: Seq<char>,
    pub line: usize,
}

impl View for Definition {
    type V = DefinitionView;

    open spec fn view(&self) -> DefinitionView {
        DefinitionView {
            start_byte: self.start_byte,
            end_byte: self.end_byte,
            start_line: self.start_line,
            end_line: self.end_line,
            kind: self.kind@,
        }
    }
}

impl View for SymbolMatch {
    type V = SymbolMatchView;

    open spec fn view(&self) -> SymbolMatchView {
        SymbolMatchView {
            name: opt(self.name),
            definition: match self.definition {
                Some(d) => Some(d@),
                None => None,
            },
        }
    }
}

impl View for CallMatch {
    type V = CallMatchView;

    open spec fn view(&self) -> CallMatchView {
        CallMatchView { callee_name: self.callee_name@, line: self.line }
    }
}

/// A call that is not resolved yet.
#[derive(Debug)]
pub struct RawCall {
    pub caller_name: String,
    pub callee_name: String,
    pub line: usize,
}

/// Whether `k` is the kind of symbol that the grammar calls `ts`.
pub open spec fn is_kind(k: SymbolKind, ts: Seq<char>) -> bool {
    if ts == "function_item"@ || ts == "function_definition"@ || ts == "function_declaration"@ || ts
        == "func_literal"@ {
        k is Function
    } else if ts == "method_definition"@ || ts == "method_declaration"@ {
        k is Method
    } else if ts == "struct_item"@ || ts == "struct_specifier"@ {
        k is Struct
    } else if ts == "class_definition"@ || ts == "class_declaration"@ || ts == "class_specifier"@ {
        k is Class
    } else if ts == "trait_item"@ {
        k is Trait
    } else if ts == "interface_declaration"@ {
        k is Interface
    } else if ts == "enum_item"@ || ts == "enum_declaration"@ || ts == "enum_specifier"@ {
        k is Enum
    } else if ts == "const_item"@ || ts == "const_declaration"@ {
        k is Constant
    } else if ts == "let_declaration"@ || ts == "variable_declaration"@ || ts == "static_item"@ {
        k is Variable
    } else if ts == "mod_item"@ || ts == "module"@ {
        k is Module
    } else if ts == "use_declaration"@ || ts == "import_statement"@ || ts == "import_declaration"@ {
        k is Import
    } else if ts == "type_item"@ || ts == "type_alias_declaration"@ {
        k is TypeAlias
    } else if ts == "impl_item"@ {
        k matches SymbolKind::Other(s) && s@ == "impl"@
    } else {
        k matches SymbolKind::Other(s) && s@ == ts
    }
}

/// The kind of symbol that the grammar calls `ts_kind`.
pub fn classify_symbol_kind(ts_kind: &str) -> (r: SymbolKind)
    ensures
        is_kind(r, ts_kind@),
{
    let t = ts_kind;
    if same(t, "function_item") || same(t, "function_definition") || same(t, "function_declaration")
        || same(t, "func_literal") {
        SymbolKind::Function
    } else if same(t, "method_definition") || same(t, "method_declaration") {
        SymbolKind::Method
    } else if same(t, "struct_item") || same(t, "struct_specifier") {
        SymbolKind::Struct
    } else if same(t, "class_definition") || same(t, "class_declaration") || same(t, "class_specifier") {
        SymbolKind::Class
    } else if same(t, "trait_item") {
        SymbolKind::Trait
    } else if same(t, "interface_declaration") {
        SymbolKind::Interface
    } else if same(t, "enum_item") || same(t, "enum_declaration") || same(t, "enum_specifier") {
        SymbolKind::Enum
    } else if same(t, "const_item") || same(t, "const_declaration") {
        SymbolKind::Constant
    } else if same(t, "let_declaration") || same(t, "variable_declaration") || same(t, "static_item") {
        SymbolKind::Variable
    } else if same(t, "mod_item") || same(t, "module") {
        SymbolKind::Module
    } else if same(t, "use_declaration") || same(t, "import_statement") || same(
        t,
        "import_declaration",
    ) {
        SymbolKind::Import
    } else if same(t, "type_item") || same(t, "type_alias_declaration") {
        SymbolKind::TypeAlias
    } else if same(t, "impl_item") {
        SymbolKind::Other("impl".to_owned())
    } else {
        SymbolKind::Other(t.to_owned())
    }
}

/// Whether a match has both a name and a definition.
pub open spec fn is_whole(m: SymbolMatchView) -> bool {
    m.name is Some && m.definition is Some
}

/// The bytes that a definition covers.
pub open spec fn range_of(m: SymbolMatchView) -> (usize, usize) {
    (m.definition->0.start_byte, m.definition->0.end_byte)
}

/// Whether the match at `i` is the first whole one of its range.
pub open spec fn is_first(matches: Seq<SymbolMatchView>, i: int) -> bool {
    is_whole(matches[i]) && forall|j: int|
        0 <= j < i && is_whole(#[trigger] matches[j]) ==> range_of(matches[j]) != range_of(matches[i])
}

/// The positions among the first `n` matches that give a symbol.
pub open spec fn symbol_positions(matches: Seq<SymbolMatchView>, n: nat) -> Seq<int>
    decreases n,
{
    if n == 0 || n > matches.len() {
        Seq::empty()
    } else {
        let before = symbol_positions(matches, (n - 1) as nat);
        if is_first(matches, n - 1) {
            before.push(n - 1)
        } else {
            before
        }
    }
}

/// Whether `node` is the symbol of a match in the file `path`.
pub open spec fn describes(node: SymbolNode, path: Seq<char>, m: SymbolMatchView) -> bool {
    &&& node.name@ == m.name->0
    &&& node.file@ == path
    &&& node.start_line == m.definition->0.start_line
    &&& node.end_line == m.definition->0.end_line
    &&& node.id == symbol_id(path, m.name->0, m.definition->0.start_line as nat)
    &&& is_kind(node.kind, m.definition->0.kind)
    &&& node.visibility == Visibility::Unknown
    &&& node.signature is None
}

/// Whether `symbols` are those that the matches in the file `path` tell: one for every
/// definition, in order.
pub open spec fn symbols_told(symbols: Seq<SymbolNode>, path: Seq<char>, matches: Seq<SymbolMatchView>) -> bool {
    &&& symbols.len() == symbol_positions(matches, matches.len()).len()
    &&& forall|i: int|
        0 <= i < symbols.len() ==> describes(
            #[trigger] symbols[i],
            path,
            matches[symbol_positions(matches, matches.len())[i]],
        )
}

/// The symbols that the matches in a file tell: one for every definition.
pub fn extract_symbols(path: &str, matches: &Vec<SymbolMatch>) -> (r: Vec<SymbolNode>)
    ensures
        symbols_told(r@, path@, matches@.map_values(|m: SymbolMatch| m@)),
{
    let mut symbols: Vec<SymbolNode> = Vec::new();
    let mut seen: Vec<(usize, usize)> = Vec::new();
    let ghost all = matches@.map_values(|m: SymbolMatch| m@);
    let mut n: usize = 0;
    while n < matches.len()
        invariant
            n <= matches.len(),
            all == matches@.map_values(|m: SymbolMatch| m@),
            symbols@.len() == symbol_positions(all, n as nat).len(),
            forall|i: int|
                0 <= i < symbols@.len() ==> describes(
                    #[trigger] symbols@[i],
                    path@,
                    all[symbol_positions(all, n as nat)[i]],
                ),
            forall|x: (usize, usize)|
                #[trigger] seen@.contains(x) <==> exists|j: int|
                    0 <= j < n && is_whole(#[trigger] all[j]) && range_of(all[j]) == x,
        decreases matches.len() - n,
    {
        let ghost positions = symbol_positions(all, n as nat);
        let ghost was = seen@;
        assert(all[n as int] == matches@[n as int]@);
        match (&matches[n].name, &matches[n].definition) {
            (Some(name), Some(def)) => {
                let range = (def.start_byte, def.end_byte);
                let mut known = false;
                let mut j: usize = 0;
                while j < seen.len() && !known
                    invariant
                        j <= seen.len(),
                        known ==> seen@.contains(range),
                        !known ==> forall|k: int| 0 <= k < j ==> #[trigger] seen@[k] != range,
                    decreases seen.len() - j,
                {
                    if seen[j].0 == range.0 && seen[j].1 == range.1 {
                        assert(seen@[j as int] == range);
                        known = true;
                    }
                    j = j + 1;
                }
                assert(known == seen@.contains(range));
                assert(range_of(all[n as int]) == range);
                if !known {
                    assert forall|j: int| 0 <= j < n && is_whole(#[trigger] all[j]) implies range_of(all[j])
                        != range by {
                        if range_of(all[j]) == range {
                            assert(seen@.contains(range));
                        }
                    }
                    assert(is_first(all, n as int));
                    seen.push(range);
                    let node = SymbolNode {
                        id: CodeGraph::make_id(path, name.as_str(), def.start_line),
                        name: name.clone(),
                        kind: classify_symbol_kind(def.kind.as_str()),
                        visibility: Visibility::Unknown,
                        file: path.to_owned(),
                        start_line: def.start_line,
                        end_line: def.end_line,
                        signature: None,
                    };
                    assert(describes(node, path@, all[n as int]));
                    symbols.push(node);
                } else {
                    let j = Ghost(choose|j: int| 0 <= j < n && is_whole(#[trigger] all[j]) && range_of(all[j]) == range);
                    assert(!is_first(all, n as int));
                }
                assert forall|x: (usize, usize)| #[trigger] seen@.contains(x) <==> exists|j: int|
                    0 <= j < n + 1 && is_whole(#[trigger] all[j]) && range_of(all[j]) == x by {
                    if was.contains(x) {
                        let k = choose|k: int| 0 <= k < was.len() && was[k] == x;
                        assert(seen@[k] == x);
                        let j = choose|j: int| 0 <= j < n && is_whole(#[trigger] all[j]) && range_of(all[j]) == x;
                        assert(is_whole(all[j]));
                    }
                    if x == range {
                        assert(is_whole(all[n as int]));
                        if !known {
                            assert(seen@[was.len() as int] == range);
                        }
                    }
                    if seen@.contains(x) && !was.contains(x) {
                        let k = choose|k: int| 0 <= k < seen@.len() && seen@[k] == x;
                        if k < was.len() {
                            assert(was[k] == x);
                        }
                    }
                    if exists|j: int| 0 <= j < n + 1 && is_whole(#[trigger] all[j]) && range_of(all[j]) == x {
                        let j = choose|j: int| 0 <= j < n + 1 && is_whole(#[trigger] all[j]) && range_of(all[j]) == x;
                        if j < n {
                            assert(was.contains(x));
                        }
                    }
                }
            },
            _ => {
                assert(!is_whole(all[n as int]));
                assert forall|x: (usize, usize)| #[trigger] seen@.contains(x) <==> exists|j: int|
                    0 <= j < n + 1 && is_whole(#[trigger] all[j]) && range_of(all[j]) == x by {
                    if was.contains(x) {
                        let j = choose|j: int| 0 <= j < n && is_whole(#[trigger] all[j]) && range_of(all[j]) == x;
                        assert(is_whole(all[j]));
                    }
                    if exists|j: int| 0 <= j < n + 1 && is_whole(#[trigger] all[j]) && range_of(all[j]) == x {
                        let j = choose|j: int| 0 <= j < n + 1 && is_whole(#[trigger] all[j]) && range_of(all[j]) == x;
                        assert(j < n);
                        assert(was.contains(x));
                    }
                }
            },
        }
        n = n + 1;
    }
    symbols
}

/// Whether a symbol is a function that holds the given line.
pub open spec fn encloses(n: SymbolNode, line: usize) -> bool {
    (n.kind is Function || n.kind is Method) && n.start_line <= line <= n.end_line
}

/// The last of the first `n` symbols that encloses a line.
pub open spec fn enclosing(symbols: Seq<SymbolNode>, n: nat, line: usize) -> Option<int>
    decreases n,
{
    if n == 0 || n > symbols.len() {
        None
    } else if encloses(symbols[n - 1], line) {
        Some(n - 1)
    } else {
        enclosing(symbols, (n - 1) as nat, line)
    }
}

/// Whether a match is a call from one function to another.
pub open spec fn is_call(c: CallMatchView, symbols: Seq<SymbolNode>) -> bool {
    match enclosing(symbols, symbols.len(), c.line) {
        Some(i) => symbols[i].name@ != c.callee_name,
        None => false,
    }
}

/// The positions among the first `n` matches that give a call.
pub open spec fn call_positions(calls: Seq<CallMatchView>, symbols: Seq<SymbolNode>, n: nat) -> Seq<int>
    decreases n,
{
    if n == 0 || n > calls.len() {
        Seq::empty()
    } else {
        let before = call_positions(calls, symbols, (n - 1) as nat);
        if is_call(calls[n - 1], symbols) {
            before.push(n - 1)
        } else {
            before
        }
    }
}

/// Whether `raw` is the call of a match.
pub open spec fn records(raw: RawCall, c: CallMatchView, symbols: Seq<SymbolNode>) -> bool {
    &&& raw.callee_name@ == c.callee_name
    &&& raw.line == c.line
    &&& enclosing(symbols, symbols.len(), c.line) is Some
    &&& raw.caller_name@ == symbols[enclosing(symbols, symbols.len(), c.line)->0].name@
}

/// Whether `raw` are the calls that some matches tell, in order.
pub open spec fn calls_told(raw: Seq<RawCall>, calls: Seq<CallMatchView>, symbols: Seq<SymbolNode>) -> bool {
    &&& raw.len() == call_positions(calls, symbols, calls.len()).len()
    &&& forall|i: int|
        0 <= i < raw.len() ==> records(
            #[trigger] raw[i],
            calls[call_positions(calls, symbols, calls.len())[i]],
            symbols,
        )
}

fn enclosing_function(symbols: &Vec<SymbolNode>, line: usize) -> (r: Option<usize>)
    ensures
        match r {
            Some(i) => i < symbols.len() && enclosing(symbols@, symbols@.len(), line) == Some(i as int),
            None => enclosing(symbols@, symbols@.len(), line) is None,
        },
{
    let mut n: usize = symbols.len();
    while n > 0
        invariant
            n <= symbols.len(),
            enclosing(symbols@, symbols@.len(), line) == enclosing(symbols@, n as nat, line),
        decreases n,
    {
        let s = &symbols[n - 1];
        let callable = match s.kind {
            SymbolKind::Function => true,
            SymbolKind::Method => true,
            _ => false,
        };
        if callable && s.start_line <= line && line <= s.end_line {
            return Some(n - 1);
        }
        n = n - 1;
    }
    None
}

/// The calls that the matches in a file tell: from the function around them,
/// except where a function calls itself.
pub fn extract_calls(calls: &Vec<CallMatch>, symbols: &Vec<SymbolNode>) -> (r: Vec<RawCall>)
    ensures
        calls_told(r@, calls@.map_values(|c: CallMatch| c@), symbols@),
{
    let ghost all = calls@.map_values(|c: CallMatch| c@);
    let mut out: Vec<RawCall> = Vec::new();
    let mut n: usize = 0;
    while n < calls.len()
        invariant
            n <= calls.len(),
            all == calls@.map_values(|c: CallMatch| c@),
            out@.len() == call_positions(all, symbols@, n as nat).len(),
            forall|i: int|
                0 <= i < out@.len() ==> records(
                    #[trigger] out@[i],
                    all[call_positions(all, symbols@, n as nat)[i]],
                    symbols@,
                ),
        decreases calls.len() - n,
    {
        assert(all[n as int] == calls@[n as int]@);
        if let Some(i) = enclosing_function(symbols, calls[n].line) {
            if !same(symbols[i].name.as_str(), calls[n].callee_name.as_str()) {
                out.push(
                    RawCall {
                        caller_name: symbols[i].name.clone(),
                        callee_name: calls[n].callee_name.clone(),
                        line: calls[n].line,
                    },
                );
            }
        }
        n = n + 1;
    }
    out
}

// ---- What has changed ----

/// The canonical paths of some files.
pub open spec fn file_paths(files: Seq<(String, u64)>) -> Seq<Seq<char>> {
    files.map_values(|f: (String, u64)| canonical(f.0@))
}

/// Whether a file is new or was changed since it was indexed.
pub open spec fn is_dirty(mtimes: Map<Seq<char>, u64>, f: (String, u64)) -> bool {
    !(mtimes.contains_key(canonical(f.0@)) && mtimes[canonical(f.0@)] == f.1)
}

/// The indexed files that are gone, and the files that have to be parsed.
pub fn changed_files(mtimes: &TextMap<u64>, files: &Vec<(String, u64)>) -> (r: (
    Vec<String>,
    Vec<(String, u64)>,
))
    requires
        mtimes.wf(),
    ensures
        texts(r.0@) == keys_of(mtimes.list()).filter(
            |p: Seq<char>| !file_paths(files@).contains(p),
        ),
        r.1@ == files@.filter(|f: (String, u64)| is_dirty(mtimes@, f)),
{
    let ghost paths = file_paths(files@);
    let ghost gone = |p: Seq<char>| !paths.contains(p);
    let ghost keys = keys_of(mtimes.list());
    let mut deleted: Vec<String> = Vec::new();
    let mut current: Vec<String> = Vec::new();
    let mut i: usize = 0;
    while i < files.len()
        invariant
            i <= files.len(),
            current@.len() == i,
            forall|k: int| 0 <= k < i ==> #[trigger] current@[k]@ == canonical(files@[k].0@),
        decreases files.len() - i,
    {
        current.push(canonical_path(files[i].0.as_str()));
        i = i + 1;
    }
    assert(texts(current@) =~= paths);
    let n = mtimes.len();
    let mut k: usize = 0;
    proof {
        reveal(Seq::filter);
    }
    assert(texts(deleted@) =~= keys.take(0).filter(gone));
    while k < n
        invariant
            k <= n == mtimes.list().len(),
            mtimes.wf(),
            keys == keys_of(mtimes.list()),
            texts(current@) == paths,
            gone == (|p: Seq<char>| !paths.contains(p)),
            texts(deleted@) == keys.take(k as int).filter(gone),
        decreases n - k,
    {
        proof {
            reveal(Seq::filter);
        }
        let key = mtimes.key_at(k);
        assert(keys.take(k + 1).drop_last() =~= keys.take(k as int));
        assert(keys.take(k + 1).last() == key@);
        if !list_has(&current, key.as_str()) {
            let ghost was = deleted@;
            deleted.push(key.clone());
            assert(texts(deleted@) =~= texts(was).push(key@));
        }
        k = k + 1;
    }
    assert(keys.take(keys.len() as int) =~= keys);
    let ghost dirt = |f: (String, u64)| is_dirty(mtimes@, f);
    let mut dirty: Vec<(String, u64)> = Vec::new();
    let mut j: usize = 0;
    assert(dirty@ =~= files@.take(0).filter(dirt));
    while j < files.len()
        invariant
            j <= files.len(),
            mtimes.wf(),
            dirt == (|f: (String, u64)| is_dirty(mtimes@, f)),
            dirty@ == files@.take(j as int).filter(dirt),
        decreases files.len() - j,
    {
        proof {
            reveal(Seq::filter);
        }
        assert(files@.take(j + 1).drop_last() =~= files@.take(j as int));
        let path = canonical_path(files[j].0.as_str());
        let unchanged = match mtimes.get(path.as_str()) {
            Some(m) => *m == files[j].1,
            None => false,
        };
        if !unchanged {
            let f = (files[j].0.clone(), files[j].1);
            assert(f == files@[j as int]);
            dirty.push(f);
        }
        j = j + 1;
    }
    assert(files@.take(files@.len() as int) =~= files@);
    (deleted, dirty)
}

// ---- Updating the graph ----

/// What was parsed out of a file.
#[derive(Debug)]
pub struct FileParseResult {
    pub path: String,
    pub mtime: u64,
    pub symbols: Vec<SymbolNode>,
    pub raw_calls: Vec<RawCall>,
}

/// The graph without anything that is known of some files.
pub open spec fn without_files(g: GraphView, files: Seq<Seq<char>>) -> GraphView
    decreases files.len(),
{
    if files.len() == 0 {
        g
    } else {
        without_files(g, files.drop_last()).forgetting(files.last())
    }
}

pub open spec fn with_symbols(g: GraphView, symbols: Seq<SymbolNode>) -> GraphView
    decreases symbols.len(),
{
    if symbols.len() == 0 {
        g
    } else {
        with_symbols(g, symbols.drop_last()).with_symbol(symbols.last())
    }
}

/// The graph with the symbols of a file replaced.
pub open spec fn with_result(g: GraphView, r: FileParseResult) -> GraphView {
    let fresh = with_symbols(g.without_file(r.path@), r.symbols@);
    GraphView { file_mtimes: fresh.file_mtimes.insert(canonical(r.path@), r.mtime), ..fresh }
}

pub open spec fn with_results(g: GraphView, results: Seq<FileParseResult>) -> GraphView
    decreases results.len(),
{
    if results.len() == 0 {
        g
    } else {
        with_result(with_results(g, results.drop_last()), results.last())
    }
}

/// Whether `after` is `before` with the edge of a call, if both its ends are
/// known.
pub open spec fn call_added(before: GraphView, after: GraphView, c: RawCall) -> bool {
    ||| exists|k: SymbolId, to: SymbolId|
        #![trigger named(before.nodes, k, c.caller_name@), resolves(before.nodes, c.callee_name@, before.nodes[k].file@, Seq::empty(), to)]
        named(before.nodes, k, c.caller_name@) && resolves(
            before.nodes,
            c.callee_name@,
            before.nodes[k].file@,
            Seq::empty(),
            to,
        ) && after == before.with_edge(
            before.nodes[k].id,
            Edge { to, kind: EdgeKind::Calls, line: c.line },
        )
    ||| after == before && ((forall|k: SymbolId| !#[trigger] named(before.nodes, k, c.caller_name@)) || (
    forall|k: SymbolId| !#[trigger] named(before.nodes, k, c.callee_name@)))
}

/// Whether `after` is `before` with the edges of some calls, one after the
/// other.
pub open spec fn calls_added(before: GraphView, after: GraphView, calls: Seq<RawCall>) -> bool
    decreases calls.len(),
{
    if calls.len() == 0 {
        after == before
    } else {
        exists|mid: GraphView|
            calls_added(before, mid, calls.drop_last()) && #[trigger] call_added(
                mid,
                after,
                calls.last(),
            )
    }
}

/// All the calls of some results, in order.
pub open spec fn all_calls(results: Seq<FileParseResult>) -> Seq<RawCall>
    decreases results.len(),
{
    if results.len() == 0 {
        Seq::empty()
    } else {
        all_calls(results.drop_last()) + results.last().raw_calls@
    }
}

fn add_call(graph: &mut CodeGraph, c: &RawCall)
    requires
        old(graph).wf(),
    ensures
        final(graph).wf(),
        call_added(old(graph)@, final(graph)@, *c),
{
    let ghost before = graph@;
    let callers = graph.ids_by_name(c.caller_name.as_str());
    if callers.len() == 0 {
        assert forall|k: SymbolId| !#[trigger] named(before.nodes, k, c.caller_name@) by {
            assert(!callers@.contains(k));
        }
        return;
    }
    let k = callers[0];
    assert(callers@.contains(k));
    let (from, file) = match graph.node(k) {
        Some(n) => (n.id, n.file.clone()),
        None => (k, String::new()),
    };
    let none: Vec<String> = Vec::new();
    assert(texts(none@) =~= Seq::<Seq<char>>::empty());
    match resolve_callee(graph, c.callee_name.as_str(), file.as_str(), &none) {
        Some(to) => {
            graph.add_edge(from, Edge { to, kind: EdgeKind::Calls, line: c.line });
            assert(named(before.nodes, k, c.caller_name@));
            assert(resolves(
                before.nodes,
                c.callee_name@,
                before.nodes[k].file@,
                Seq::empty(),
                to,
            ));
        },
        None => {},
    }
}

fn insert_result(graph: &mut CodeGraph, r: &FileParseResult)
    requires
        old(graph).wf(),
    ensures
        final(graph).wf(),
        final(graph)@ == with_result(old(graph)@, *r),
{
    let ghost before = graph@;
    graph.remove_file(r.path.as_str());
    let ghost base = graph@;
    let mut i: usize = 0;
    while i < r.symbols.len()
        invariant
            i <= r.symbols.len(),
            graph.wf(),
            graph@ == with_symbols(base, r.symbols@.take(i as int)),
        decreases r.symbols.len() - i,
    {
        assert(r.symbols@.take(i + 1).drop_last() =~= r.symbols@.take(i as int));
        let node = r.symbols[i].clone();
        graph.add_symbol(node);
        i = i + 1;
    }
    assert(r.symbols@.take(r.symbols@.len() as int) =~= r.symbols@);
    graph.file_mtimes.insert(canonical_path(r.path.as_str()), r.mtime);
    assert(graph@ =~= with_result(before, *r));
}

/// Brings the graph up to date: removes the files that are gone, replaces the
/// symbols of those that were parsed, and then adds an edge for every call
/// whose ends are known.
pub fn apply_index(graph: &mut CodeGraph, deleted: &Vec<String>, results: &Vec<FileParseResult>)
    requires
        old(graph).wf(),
    ensures
        final(graph).wf(),
        calls_added(
            with_results(without_files(old(graph)@, texts(deleted@)), results@),
            final(graph)@,
            all_calls(results@),
        ),
        forall|i: int|
            0 <= i < deleted@.len() && !mentioned(results@, canonical((#[trigger] deleted@[i])@))
                ==> unrecorded(final(graph)@, canonical(deleted@[i]@)),
        forall|i: int|
            0 <= i < deleted@.len() && !mentioned(results@, canonical((#[trigger] deleted@[i])@)) && apart_from(
                results@,
                symbols_at(old(graph)@, canonical(deleted@[i]@)),
            ) ==> free_of(
                final(graph)@,
                canonical(deleted@[i]@),
                symbols_at(old(graph)@, canonical(deleted@[i]@)),
            ),
{
    let ghost before = graph@;
    let ghost gone = texts(deleted@);
    let mut i: usize = 0;
    while i < deleted.len()
        invariant
            i <= deleted.len(),
            gone == texts(deleted@),
            graph.wf(),
            graph@ == without_files(before, gone.take(i as int)),
        decreases deleted.len() - i,
    {
        assert(gone.take(i + 1).drop_last() =~= gone.take(i as int));
        assert(gone.take(i + 1).last() == deleted@[i as int]@);
        graph.forget_file(deleted[i].as_str());
        i = i + 1;
    }
    assert(gone.take(gone.len() as int) =~= gone);
    let ghost pruned = graph@;
    let mut j: usize = 0;
    while j < results.len()
        invariant
            j <= results.len(),
            graph.wf(),
            graph@ == with_results(pruned, results@.take(j as int)),
        decreases results.len() - j,
    {
        assert(results@.take(j + 1).drop_last() =~= results@.take(j as int));
        insert_result(graph, &results[j]);
        j = j + 1;
    }
    assert(results@.take(results@.len() as int) =~= results@);
    let ghost fresh = graph@;
    let mut k: usize = 0;
    assert(calls_added(fresh, graph@, all_calls(results@.take(0))));
    while k < results.len()
        invariant
            k <= results.len(),
            graph.wf(),
            calls_added(fresh, graph@, all_calls(results@.take(k as int))),
        decreases results.len() - k,
    {
        assert(results@.take(k + 1).drop_last() =~= results@.take(k as int));
        let ghost done = all_calls(results@.take(k as int));
        let ghost mine = results@[k as int].raw_calls@;
        let calls = &results[k].raw_calls;
        let mut c: usize = 0;
        assert(done + mine.take(0) =~= done);
        while c < calls.len()
            invariant
                c <= calls.len(),
                mine == calls@,
                graph.wf(),
                calls_added(fresh, graph@, done + mine.take(c as int)),
            decreases calls.len() - c,
        {
            let ghost mid = graph@;
            add_call(graph, &calls[c]);
            let ghost more = done + mine.take(c + 1);
            assert(more.drop_last() =~= done + mine.take(c as int));
            assert(more.last() == mine[c as int]);
            assert(calls_added(fresh, mid, more.drop_last()) && call_added(mid, graph@, more.last()));
            c = c + 1;
        }
        assert(done + mine.take(mine.len() as int) =~= done + mine);
        k = k + 1;
    }
    assert(results@.take(results@.len() as int) =~= results@);
    assert forall|i: int| 0 <= i < deleted@.len() && !mentioned(results@, canonical((#[trigger] deleted@[i])@)) implies unrecorded(
        graph@,
        canonical(deleted@[i]@),
    ) by {
        assert(gone[i] == deleted@[i]@);
        lemma_forgotten(before, gone, i);
        lemma_results_leave(pruned, results@, canonical(gone[i]));
        lemma_calls_keep_files(fresh, graph@, all_calls(results@));
    }
    assert forall|i: int|
        0 <= i < deleted@.len() && !mentioned(results@, canonical((#[trigger] deleted@[i])@)) && apart_from(
            results@,
            symbols_at(before, canonical(deleted@[i]@)),
        ) implies free_of(graph@, canonical(deleted@[i]@), symbols_at(before, canonical(deleted@[i]@))) by {
        assert(gone[i] == deleted@[i]@);
        deleted_files_leave_nothing(before, graph@, gone, results@, i);
    }
}

/// What comes next in bringing a graph up to date with a project.
#[derive(Debug, Clone, Copy, PartialEq, Eq, Structural)]
pub enum IndexStep {
    /// Leave the graph as it is.
    Stop,
    /// Look for the files of the project.
    Walk,
    /// Parse what changed.
    Parse,
    /// Take what was parsed into the graph.
    Apply,
}

/// What comes next, by how far a run is. A run on a directory that is not indexed, one
/// that was cancelled and one that found no change leave the graph as it is.
pub fn index_step(allowed: bool, cancelled: bool, walked: bool, parsed: bool, nothing_changed: bool) -> (r: IndexStep)
    ensures
        r == (if !allowed || cancelled {
            IndexStep::Stop
        } else if !walked {
            IndexStep::Walk
        } else if !parsed {
            IndexStep::Parse
        } else if nothing_changed {
            IndexStep::Stop
        } else {
            IndexStep::Apply
        }),
{
    if !allowed || cancelled {
        IndexStep::Stop
    } else if !walked {
        IndexStep::Walk
    } else if !parsed {
        IndexStep::Parse
    } else if nothing_changed {
        IndexStep::Stop
    } else {
        IndexStep::Apply
    }
}

/// Brings the graph up to date with one file: a file that is gone is removed, a
/// file that could not be parsed is left as it was.
pub fn apply_reindex(
    graph: &mut CodeGraph,
    path: &str,
    exists_on_disk: bool,
    parsed: Option<FileParseResult>,
)
    requires
        old(graph).wf(),
    ensures
        final(graph).wf(),
        !exists_on_disk ==> final(graph)@ == old(graph)@.without_file(path@),
        exists_on_disk && parsed is None ==> final(graph)@ == old(graph)@,
        exists_on_disk && parsed is Some ==> calls_added(
            with_result(old(graph)@, parsed->0),
            final(graph)@,
            parsed->0.raw_calls@,
        ),
{
    if !exists_on_disk {
        graph.remove_file(path);
        return;
    }
    if let Some(result) = parsed {
        let ghost before = graph@;
        let none: Vec<String> = Vec::new();
        let mut one: Vec<FileParseResult> = Vec::new();
        one.push(result);
        apply_index(graph, &none, &one);
        proof {
            assert(texts(none@) =~= Seq::<Seq<char>>::empty());
            assert(one@.drop_last() =~= Seq::<FileParseResult>::empty());
            assert(with_results(before, one@.drop_last()) == before);
            assert(all_calls(one@.drop_last()) =~= Seq::<RawCall>::empty());
            assert(all_calls(one@) =~= result.raw_calls@);
        }
    }
}

// ---- What is left of a file that is gone ----

/// Whether a path is that of a parsed file or of a symbol in one.
pub open spec fn mentioned(results: Seq<FileParseResult>, path: Seq<char>) -> bool {
    exists|k: int| 0 <= k < results.len() && #[trigger] mentions(results[k], path)
}

pub open spec fn mentions(r: FileParseResult, path: Seq<char>) -> bool {
    canonical(r.path@) == path || exists|j: int|
        0 <= j < r.symbols@.len() && canonical((#[trigger] r.symbols@[j]).file@) == path
}

/// Whether nothing is recorded under a path.
pub open spec fn unrecorded(g: GraphView, path: Seq<char>) -> bool {
    !g.file_mtimes.contains_key(path) && !g.file_symbols.contains_key(path)
}

proof fn lemma_forgotten(g: GraphView, files: Seq<Seq<char>>, i: int)
    requires
        0 <= i < files.len(),
    ensures
        unrecorded(without_files(g, files), canonical(files[i])),
    decreases files.len(),
{
    if i < files.len() - 1 {
        assert(files.drop_last()[i] == files[i]);
        lemma_forgotten(g, files.drop_last(), i);
    }
}

proof fn lemma_symbols_leave(g: GraphView, symbols: Seq<SymbolNode>, path: Seq<char>)
    requires
        unrecorded(g, path),
        forall|j: int| 0 <= j < symbols.len() ==> canonical((#[trigger] symbols[j]).file@) != path,
    ensures
        unrecorded(with_symbols(g, symbols), path),
    decreases symbols.len(),
{
    if symbols.len() > 0 {
        let t = symbols.drop_last();
        assert forall|j: int| 0 <= j < t.len() implies canonical((#[trigger] t[j]).file@) != path by {
            assert(t[j] == symbols[j]);
        }
        lemma_symbols_leave(g, t, path);
        assert(canonical(symbols[symbols.len() - 1].file@) != path);
    }
}

proof fn lemma_results_leave(g: GraphView, results: Seq<FileParseResult>, path: Seq<char>)
    requires
        unrecorded(g, path),
        !mentioned(results, path),
    ensures
        unrecorded(with_results(g, results), path),
    decreases results.len(),
{
    if results.len() > 0 {
        let t = results.drop_last();
        assert(!mentioned(t, path)) by {
            if mentioned(t, path) {
                let k = choose|k: int| 0 <= k < t.len() && #[trigger] mentions(t[k], path);
                assert(mentions(results[k], path));
            }
        }
        lemma_results_leave(g, t, path);
        let r = results[results.len() - 1];
        assert(!mentions(r, path));
        lemma_symbols_leave(with_results(g, t).without_file(r.path@), r.symbols@, path);
    }
}

proof fn lemma_calls_keep_files(before: GraphView, after: GraphView, calls: Seq<RawCall>)
    requires
        calls_added(before, after, calls),
    ensures
        after.file_mtimes == before.file_mtimes,
        after.file_symbols == before.file_symbols,
        after.nodes == before.nodes,
    decreases calls.len(),
{
    if calls.len() > 0 {
        let mid = choose|mid: GraphView|
            calls_added(before, mid, calls.drop_last()) && #[trigger] call_added(mid, after, calls.last());
        lemma_calls_keep_files(before, mid, calls.drop_last());
    }
}

/// Whether none of `ids` is a symbol or an end of an edge, and no symbol is of the
/// file at `path`.
pub open spec fn free_of(g: GraphView, path: Seq<char>, ids: Seq<SymbolId>) -> bool {
    &&& unrecorded(g, path)
    &&& forall|k: SymbolId| #[trigger]
        g.nodes.contains_key(k) ==> !ids.contains(k) && canonical(g.nodes[k].file@) != path
    &&& forall|u: SymbolId, e: Edge| #[trigger]
        edges_of(g.out, u).contains(e) ==> !ids.contains(u) && !ids.contains(e.to)
    &&& forall|u: SymbolId, e: Edge| #[trigger]
        edges_of(g.into, u).contains(e) ==> !ids.contains(u) && !ids.contains(e.to)
}

/// The symbols that a graph lists under a path.
pub open spec fn symbols_at(g: GraphView, path: Seq<char>) -> Seq<SymbolId> {
    if g.file_symbols.contains_key(path) {
        g.file_symbols[path]
    } else {
        Seq::empty()
    }
}

/// Forgetting a file leaves nothing of it behind.
pub proof fn forgotten_files_leave_nothing(g: GraphView, file: Seq<char>)
    requires
        all_listed(g),
    ensures
        free_of(g.forgetting(file), canonical(file), symbols_at(g, canonical(file))),
        all_listed(g.forgetting(file)),
{
    let path = canonical(file);
    removal_keeps_listing(g, file);
    if g.file_symbols.contains_key(path) {
        removal_is_complete(g, file);
    } else {
        assert(g.without_file(file) == g);
    }
    let after = g.forgetting(file);
    assert forall|k: SymbolId| #[trigger] after.nodes.contains_key(k) implies canonical(after.nodes[k].file@) != path by {
        assert(g.nodes.contains_key(k));
    }
}

proof fn lemma_removal_keeps_free(g: GraphView, file: Seq<char>, path: Seq<char>, ids: Seq<SymbolId>)
    requires
        free_of(g, path, ids),
    ensures
        free_of(g.without_file(file), path, ids),
        free_of(g.forgetting(file), path, ids),
{
    if g.file_symbols.contains_key(canonical(file)) {
        removal_is_complete(g, file);
        let after = g.without_file(file);
        assert forall|k: SymbolId| #[trigger] after.nodes.contains_key(k) implies !ids.contains(k) && canonical(
            after.nodes[k].file@,
        ) != path by {
            assert(g.nodes.contains_key(k));
        }
        assert forall|u: SymbolId, e: Edge| #[trigger] edges_of(after.out, u).contains(e) implies !ids.contains(u)
            && !ids.contains(e.to) by {
            assert(edges_of(g.out, u).contains(e));
        }
        assert forall|u: SymbolId, e: Edge| #[trigger] edges_of(after.into, u).contains(e) implies !ids.contains(u)
            && !ids.contains(e.to) by {
            assert(edges_of(g.into, u).contains(e));
        }
    }
}

proof fn lemma_symbols_keep_free(g: GraphView, symbols: Seq<SymbolNode>, path: Seq<char>, ids: Seq<SymbolId>)
    requires
        free_of(g, path, ids),
        forall|j: int|
            0 <= j < symbols.len() ==> canonical((#[trigger] symbols[j]).file@) != path && !ids.contains(symbols[j].id),
    ensures
        free_of(with_symbols(g, symbols), path, ids),
        with_symbols(g, symbols).out == g.out,
        with_symbols(g, symbols).into == g.into,
    decreases symbols.len(),
{
    if symbols.len() > 0 {
        let t = symbols.drop_last();
        assert forall|j: int| 0 <= j < t.len() implies canonical((#[trigger] t[j]).file@) != path && !ids.contains(
            t[j].id,
        ) by {
            assert(t[j] == symbols[j]);
        }
        lemma_symbols_keep_free(g, t, path, ids);
        assert(canonical(symbols[symbols.len() - 1].file@) != path);
    }
}

proof fn lemma_keyed_symbols(g: GraphView, symbols: Seq<SymbolNode>)
    requires
        keyed(g),
    ensures
        keyed(with_symbols(g, symbols)),
    decreases symbols.len(),
{
    if symbols.len() > 0 {
        lemma_keyed_symbols(g, symbols.drop_last());
    }
}

/// Whether no symbol of some parsed files has one of these identifiers.
pub open spec fn apart_from(results: Seq<FileParseResult>, ids: Seq<SymbolId>) -> bool {
    forall|k: int, j: int|
        0 <= k < results.len() && 0 <= j < results[k].symbols@.len() ==> !ids.contains(
            (#[trigger] results[k].symbols@[j]).id,
        )
}

proof fn lemma_results_keep_free(g: GraphView, results: Seq<FileParseResult>, path: Seq<char>, ids: Seq<SymbolId>)
    requires
        free_of(g, path, ids),
        keyed(g),
        !mentioned(results, path),
        apart_from(results, ids),
    ensures
        free_of(with_results(g, results), path, ids),
        keyed(with_results(g, results)),
    decreases results.len(),
{
    if results.len() > 0 {
        let t = results.drop_last();
        assert(!mentioned(t, path)) by {
            if mentioned(t, path) {
                let k = choose|k: int| 0 <= k < t.len() && #[trigger] mentions(t[k], path);
                assert(mentions(results[k], path));
            }
        }
        assert(apart_from(t, ids)) by {
            assert forall|k: int, j: int| 0 <= k < t.len() && 0 <= j < t[k].symbols@.len() implies !ids.contains(
                (#[trigger] t[k].symbols@[j]).id,
            ) by {
                assert(!ids.contains(results[k].symbols@[j].id));
            }
        }
        lemma_results_keep_free(g, t, path, ids);
        let last = results.len() - 1;
        let r = results[last];
        assert(!mentions(r, path));
        let base = with_results(g, t).without_file(r.path@);
        lemma_removal_keeps_free(with_results(g, t), r.path@, path, ids);
        assert forall|j: int| 0 <= j < r.symbols@.len() implies canonical((#[trigger] r.symbols@[j]).file@) != path
            && !ids.contains(r.symbols@[j].id) by {
            assert(!ids.contains(results[last].symbols@[j].id));
        }
        lemma_symbols_keep_free(base, r.symbols@, path, ids);
        lemma_keyed_symbols(base, r.symbols@);
    }
}

proof fn lemma_call_keeps_free(before: GraphView, after: GraphView, c: RawCall, path: Seq<char>, ids: Seq<SymbolId>)
    requires
        call_added(before, after, c),
        free_of(before, path, ids),
        keyed(before),
    ensures
        free_of(after, path, ids),
        keyed(after),
{
    if after != before {
        let (k, to) = choose|k: SymbolId, to: SymbolId|
            #![trigger named(before.nodes, k, c.caller_name@), resolves(before.nodes, c.callee_name@, before.nodes[k].file@, Seq::empty(), to)]
            named(before.nodes, k, c.caller_name@) && resolves(
                before.nodes,
                c.callee_name@,
                before.nodes[k].file@,
                Seq::empty(),
                to,
            ) && after == before.with_edge(
                before.nodes[k].id,
                Edge { to, kind: EdgeKind::Calls, line: c.line },
            );
        let from = before.nodes[k].id;
        let e = Edge { to, kind: EdgeKind::Calls, line: c.line };
        let back = Edge { to: from, ..e };
        assert(before.nodes.contains_key(to)) by {
            let j = choose|j: SymbolId| #[trigger]
                named(before.nodes, j, c.callee_name@) && before.nodes[j].id == to && forall|i: SymbolId| #[trigger]
                    named(before.nodes, i, c.callee_name@) ==> crate::graph::resolve::fit(
                        before.nodes[i],
                        before.nodes[k].file@,
                        Seq::empty(),
                    ) <= crate::graph::resolve::fit(before.nodes[j], before.nodes[k].file@, Seq::empty());
            assert(before.nodes[j].id == j);
        }
        assert(!ids.contains(from) && !ids.contains(to));
        lemma_pushed_edge(before.out, from, e);
        lemma_pushed_edge(before.into, to, back);
    }
}

proof fn lemma_pushed_edge(adj: Map<SymbolId, Seq<Edge>>, from: SymbolId, e: Edge)
    ensures
        forall|u: SymbolId, x: Edge| #[trigger]
            edges_of(with_edge(adj, from, e), u).contains(x) ==> edges_of(adj, u).contains(x) || (u == from && x
                == e),
{
    assert forall|u: SymbolId, x: Edge| #[trigger] edges_of(with_edge(adj, from, e), u).contains(x) implies edges_of(
        adj,
        u,
    ).contains(x) || (u == from && x == e) by {
        let list = edges_of(with_edge(adj, from, e), u);
        let i = choose|i: int| 0 <= i < list.len() && list[i] == x;
        if u == from && i < edges_of(adj, u).len() {
            assert(edges_of(adj, u)[i] == x);
        }
    }
}

proof fn lemma_calls_keep_free(
    before: GraphView,
    after: GraphView,
    calls: Seq<RawCall>,
    path: Seq<char>,
    ids: Seq<SymbolId>,
)
    requires
        calls_added(before, after, calls),
        free_of(before, path, ids),
        keyed(before),
    ensures
        free_of(after, path, ids),
    decreases calls.len(),
{
    if calls.len() > 0 {
        let mid = choose|mid: GraphView|
            calls_added(before, mid, calls.drop_last()) && #[trigger] call_added(mid, after, calls.last());
        lemma_calls_keep_free(before, mid, calls.drop_last(), path, ids);
        lemma_calls_keep_files(before, mid, calls.drop_last());
        lemma_call_keeps_free(mid, after, calls.last(), path, ids);
    }
}

proof fn lemma_forget_all(g: GraphView, files: Seq<Seq<char>>, i: int)
    requires
        0 <= i < files.len(),
        all_listed(g),
        keyed(g),
    ensures
        free_of(without_files(g, files), canonical(files[i]), symbols_at(g, canonical(files[i]))),
        keyed(without_files(g, files)),
    decreases files.len(),
{
    let t = files.drop_last();
    let path = canonical(files[i]);
    let ids = symbols_at(g, path);
    lemma_listed_all(g, t);
    let before = without_files(g, t);
    if i < t.len() {
        assert(t[i] == files[i]);
        lemma_forget_all(g, t, i);
        lemma_removal_keeps_free(before, files.last(), path, ids);
    } else {
        lemma_symbols_shrink(g, t, path);
        if before.file_symbols.contains_key(path) {
            forgotten_files_leave_nothing(before, files[i]);
        } else {
            if g.file_symbols.contains_key(path) {
                let j = choose|j: int| 0 <= j < t.len() && canonical(#[trigger] t[j]) == path;
                lemma_forget_all(g, t, j);
                lemma_removal_keeps_free(before, files.last(), path, ids);
            } else {
                forgotten_files_leave_nothing(before, files[i]);
            }
        }
    }
}

proof fn lemma_listed_all(g: GraphView, files: Seq<Seq<char>>)
    requires
        all_listed(g),
        keyed(g),
    ensures
        all_listed(without_files(g, files)),
        keyed(without_files(g, files)),
    decreases files.len(),
{
    if files.len() > 0 {
        lemma_listed_all(g, files.drop_last());
        forgotten_files_leave_nothing(without_files(g, files.drop_last()), files.last());
    }
}

proof fn lemma_symbols_shrink(g: GraphView, files: Seq<Seq<char>>, path: Seq<char>)
    ensures
        without_files(g, files).file_symbols.contains_key(path) ==> g.file_symbols.contains_key(path)
            && without_files(g, files).file_symbols[path] == g.file_symbols[path],
        g.file_symbols.contains_key(path) && !without_files(g, files).file_symbols.contains_key(path)
            ==> exists|j: int| 0 <= j < files.len() && canonical(#[trigger] files[j]) == path,
    decreases files.len(),
{
    if files.len() > 0 {
        let t = files.drop_last();
        lemma_symbols_shrink(g, t, path);
        if g.file_symbols.contains_key(path) && !without_files(g, files).file_symbols.contains_key(path) {
            if without_files(g, t).file_symbols.contains_key(path) {
                assert(canonical(files[files.len() - 1]) == path);
            } else {
                let j = choose|j: int| 0 <= j < t.len() && canonical(#[trigger] t[j]) == path;
                assert(canonical(files[j]) == path);
            }
        }
    }
}

/// After an update, nothing is left of a file that is gone and that the update does
/// not bring back: no record of it, no symbol in it, and no edge from or to a symbol
/// that was in it.
pub proof fn deleted_files_leave_nothing(
    before: GraphView,
    after: GraphView,
    deleted: Seq<Seq<char>>,
    results: Seq<FileParseResult>,
    i: int,
)
    requires
        calls_added(with_results(without_files(before, deleted), results), after, all_calls(results)),
        all_listed(before),
        keyed(before),
        0 <= i < deleted.len(),
        !mentioned(results, canonical(deleted[i])),
        apart_from(results, symbols_at(before, canonical(deleted[i]))),
    ensures
        free_of(after, canonical(deleted[i]), symbols_at(before, canonical(deleted[i]))),
{
    let path = canonical(deleted[i]);
    let ids = symbols_at(before, path);
    lemma_forget_all(before, deleted, i);
    lemma_results_keep_free(without_files(before, deleted), results, path, ids);
    lemma_calls_keep_free(
        with_results(without_files(before, deleted), results),
        after,
        all_calls(results),
        path,
        ids,
    );
}

// ---- What indexing promises ----

/// The extension of a file is what follows the last dot of its name; a dot at the start
/// of the name, and a name without one, give none.
pub proof fn extensions_follow_the_last_dot(p: Seq<char>, stem: Seq<char>, ext: Seq<char>)
    requires
        forall|i: int| 0 <= i < ext.len() ==> #[trigger] ext[i] != '.',
    ensures
        file_name(p) == Some(stem + seq!['.'] + ext) && stem.len() > 0 ==> extension(p) == Some(ext),
        file_name(p) == Some(seq!['.'] + ext) ==> extension(p) is None,
        file_name(p) == Some(ext) ==> extension(p) is None,
        file_name(p) is None ==> extension(p) is None,
{
    lemma_last_dot(stem + seq!['.'], ext);
    lemma_last_dot(seq!['.'], ext);
    lemma_last_dot(Seq::empty(), ext);
    assert(Seq::<char>::empty() + ext =~= ext);
    let whole = stem + seq!['.'] + ext;
    assert((stem + seq!['.']).last() == '.');
    assert(whole.skip(stem.len() as int + 1) =~= ext);
}

proof fn lemma_last_dot(a: Seq<char>, ext: Seq<char>)
    requires
        forall|i: int| 0 <= i < ext.len() ==> #[trigger] ext[i] != '.',
    ensures
        last_dot(a + ext) == last_dot(a),
    decreases ext.len(),
{
    if ext.len() == 0 {
        assert(a + ext =~= a);
    } else {
        assert(ext[ext.len() - 1] != '.');
        let t = ext.drop_last();
        assert forall|i: int| 0 <= i < t.len() implies #[trigger] t[i] != '.' by {
            assert(t[i] == ext[i]);
        }
        lemma_last_dot(a, t);
        assert((a + ext).drop_last() =~= a + t);
    }
}

/// Three directories that are projects, among the first 200 entries, make an umbrella;
/// where all projects there are one or two of the entries, it is none.
pub proof fn three_projects_make_an_umbrella(children: Seq<ChildEntry>, i: int, j: int, k: int)
    requires
        0 <= i < j < children.len(),
    ensures
        j < k < children.len() && k < 200 && is_child_project(children[i]) && is_child_project(children[j])
            && is_child_project(children[k]) ==> umbrella(children),
        (forall|n: int|
            0 <= n < 200 && n < children.len() && n != i && n != j ==> !is_child_project(#[trigger] children[n]))
            ==> !umbrella(children),
{
    let end: nat = if children.len() <= 200 {
        children.len()
    } else {
        200
    };
    if j < k < children.len() && k < 200 && is_child_project(children[i]) && is_child_project(children[j])
        && is_child_project(children[k]) {
        lemma_child_projects_grow(children, 0, i as nat);
        lemma_child_projects_grow(children, (i + 1) as nat, j as nat);
        lemma_child_projects_grow(children, (j + 1) as nat, k as nat);
        lemma_child_projects_grow(children, (k + 1) as nat, end);
    }
    if forall|n: int|
        0 <= n < 200 && n < children.len() && n != i && n != j ==> !is_child_project(#[trigger] children[n]) {
        lemma_few_projects(children, end, i, j);
    }
}

proof fn lemma_few_projects(children: Seq<ChildEntry>, n: nat, i: int, j: int)
    requires
        n <= children.len(),
        i < j,
        forall|k: int| 0 <= k < n && k != i && k != j ==> !is_child_project(#[trigger] children[k]),
    ensures
        child_projects(children, n) <= (if n > i {
            1int
        } else {
            0
        }) + (if n > j {
            1int
        } else {
            0
        }),
    decreases n,
{
    if n > 0 {
        lemma_few_projects(children, (n - 1) as nat, i, j);
        if n - 1 != i && n - 1 != j {
            assert(!is_child_project(children[n - 1]));
        }
    }
}

/// A directory is a project where one of its entries is of a version control or of a
/// build tool; the directory of this tool's own settings is no such entry.
pub proof fn projects_are_marked(entries: Seq<Seq<char>>, i: int)
    requires
        0 <= i < entries.len(),
    ensures
        entries[i] == ".git"@ || entries[i] == "Cargo.toml"@ || entries[i] == "package.json"@ || entries[i]
            == "pyproject.toml"@ || entries[i] == "go.mod"@ || entries[i] == "pom.xml"@ || entries[i]
            == "build.gradle"@ || entries[i] == "build.gradle.kts"@ ==> project_like(entries),
        entries == seq![".atomcode"@] ==> !project_like(entries),
        !project_like(Seq::empty()),
{
    if is_marker(entries[i]) {
        assert(project_like(entries));
    }
    if entries == seq![".atomcode"@] && project_like(entries) {
        let k = choose|k: int| 0 <= k < entries.len() && is_marker(#[trigger] entries[k]);
        reveal_strlit(".atomcode");
        reveal_strlit(".git");
        reveal_strlit("Cargo.toml");
        reveal_strlit("package.json");
        reveal_strlit("pyproject.toml");
        reveal_strlit("go.mod");
        reveal_strlit("pom.xml");
        reveal_strlit("build.gradle");
        reveal_strlit("build.gradle.kts");
        assert(entries[k] == ".atomcode"@);
        assert(".atomcode"@.len() == 9);
    }
}

/// Every definition with a name gives a symbol, and each only one: the first match of its
/// bytes. Symbols keep the order of the matches.
pub proof fn every_definition_gives_a_symbol(
    symbols: Seq<SymbolNode>,
    path: Seq<char>,
    matches: Seq<SymbolMatchView>,
    i: int,
)
    requires
        symbols_told(symbols, path, matches),
        0 <= i < matches.len(),
        matches[i].name is Some && matches[i].definition is Some,
        forall|j: int|
            0 <= j < i && (#[trigger] matches[j]).name is Some && matches[j].definition is Some ==> (
            matches[j].definition->0.start_byte != matches[i].definition->0.start_byte
                || matches[j].definition->0.end_byte != matches[i].definition->0.end_byte),
    ensures
        exists|k: int|
            0 <= k < symbols.len() && (#[trigger] symbols[k]).name@ == matches[i].name->0 && symbols[k].file@ == path
                && symbols[k].start_line == matches[i].definition->0.start_line && symbols[k].end_line
                == matches[i].definition->0.end_line && is_kind(symbols[k].kind, matches[i].definition->0.kind),
        symbols.len() <= matches.len(),
{
    assert(is_first(matches, i));
    lemma_positions(matches, matches.len(), i);
    let at = symbol_positions(matches, matches.len());
    let k = choose|k: int| 0 <= k < at.len() && at[k] == i;
    assert(describes(symbols[k], path, matches[at[k]]));
}

proof fn lemma_positions(matches: Seq<SymbolMatchView>, n: nat, i: int)
    requires
        n <= matches.len(),
    ensures
        symbol_positions(matches, n).contains(i) <==> 0 <= i < n && is_first(matches, i),
        symbol_positions(matches, n).len() <= n,
        forall|a: int, b: int|
            0 <= a < b < symbol_positions(matches, n).len() ==> 0 <= (#[trigger] symbol_positions(matches, n)[a])
                < (#[trigger] symbol_positions(matches, n)[b]) < n,
        forall|a: int| 0 <= a < symbol_positions(matches, n).len() ==> 0 <= #[trigger] symbol_positions(matches, n)[a] < n,
    decreases n,
{
    if n > 0 {
        lemma_positions(matches, (n - 1) as nat, i);
        let before = symbol_positions(matches, (n - 1) as nat);
        let now = symbol_positions(matches, n);
        if before.contains(i) {
            let k = choose|k: int| 0 <= k < before.len() && before[k] == i;
            assert(now[k] == i);
        }
        if is_first(matches, n - 1) {
            assert(now[now.len() - 1] == n - 1);
        }
        if now.contains(i) && i != n - 1 {
            let k = choose|k: int| 0 <= k < now.len() && now[k] == i;
            assert(before[k] == i);
        }
    }
}

/// Symbols of one file stand in the order of the matches, and none is made up: each is
/// of a definition that has its name.
pub proof fn symbols_are_of_definitions(
    symbols: Seq<SymbolNode>,
    path: Seq<char>,
    matches: Seq<SymbolMatchView>,
    a: int,
)
    requires
        symbols_told(symbols, path, matches),
        0 <= a < symbols.len(),
    ensures
        exists|i: int|
            0 <= i < matches.len() && (#[trigger] matches[i]).name == Some(symbols[a].name@) && matches[i].definition is Some
                && matches[i].definition->0.start_line == symbols[a].start_line && symbols[a].id == symbol_id(
                path,
                symbols[a].name@,
                symbols[a].start_line as nat,
            ),
{
    let at = symbol_positions(matches, matches.len());
    let i = at[a];
    lemma_positions(matches, matches.len(), i);
    assert(describes(symbols[a], path, matches[i]));
    assert(at.contains(i));
    assert(is_first(matches, i));
}

/// A call in a function is one of that function, unless it is a call of its own name. The
/// function is the last one that holds the line, so the innermost of nested ones.
pub proof fn calls_are_of_the_function_around_them(
    raw: Seq<RawCall>,
    calls: Seq<CallMatchView>,
    symbols: Seq<SymbolNode>,
    i: int,
    f: int,
)
    requires
        calls_told(raw, calls, symbols),
        0 <= i < calls.len(),
        0 <= f < symbols.len(),
        symbols[f].kind is Function || symbols[f].kind is Method,
        symbols[f].start_line <= calls[i].line <= symbols[f].end_line,
        forall|g: int|
            f < g < symbols.len() && ((#[trigger] symbols[g]).kind is Function || symbols[g].kind is Method) ==> (
            calls[i].line < symbols[g].start_line || symbols[g].end_line < calls[i].line),
        symbols[f].name@ != calls[i].callee_name,
    ensures
        exists|k: int|
            0 <= k < raw.len() && (#[trigger] raw[k]).caller_name@ == symbols[f].name@ && raw[k].callee_name@
                == calls[i].callee_name && raw[k].line == calls[i].line,
{
    lemma_enclosing(symbols, symbols.len(), calls[i].line, f);
    lemma_call_positions(calls, symbols, calls.len(), i);
    let at = call_positions(calls, symbols, calls.len());
    let k = choose|k: int| 0 <= k < at.len() && at[k] == i;
    assert(records(raw[k], calls[at[k]], symbols));
}

proof fn lemma_enclosing(symbols: Seq<SymbolNode>, n: nat, line: usize, f: int)
    requires
        n <= symbols.len(),
        0 <= f < n,
        encloses(symbols[f], line),
        forall|g: int| f < g < n ==> !encloses(#[trigger] symbols[g], line),
    ensures
        enclosing(symbols, n, line) == Some(f),
    decreases n,
{
    if f < n - 1 {
        assert(!encloses(symbols[n - 1], line));
        lemma_enclosing(symbols, (n - 1) as nat, line, f);
    }
}

proof fn lemma_call_positions(calls: Seq<CallMatchView>, symbols: Seq<SymbolNode>, n: nat, i: int)
    requires
        n <= calls.len(),
    ensures
        call_positions(calls, symbols, n).contains(i) <==> 0 <= i < n && is_call(calls[i], symbols),
        forall|a: int| 0 <= a < call_positions(calls, symbols, n).len() ==> 0 <= #[trigger] call_positions(calls, symbols, n)[a]
            < n,
    decreases n,
{
    if n > 0 {
        lemma_call_positions(calls, symbols, (n - 1) as nat, i);
        let before = call_positions(calls, symbols, (n - 1) as nat);
        let now = call_positions(calls, symbols, n);
        if before.contains(i) {
            let k = choose|k: int| 0 <= k < before.len() && before[k] == i;
            assert(now[k] == i);
        }
        if is_call(calls[n - 1], symbols) {
            assert(now[now.len() - 1] == n - 1);
        }
        if now.contains(i) && i != n - 1 {
            let k = choose|k: int| 0 <= k < now.len() && now[k] == i;
            assert(before[k] == i);
        }
    }
}

/// No call is made up: each was found at its line, within a function of its caller's
/// name, and is no call of that name.
pub proof fn recorded_calls_were_found(
    raw: Seq<RawCall>,
    calls: Seq<CallMatchView>,
    symbols: Seq<SymbolNode>,
    k: int,
)
    requires
        calls_told(raw, calls, symbols),
        0 <= k < raw.len(),
    ensures
        raw[k].caller_name@ != raw[k].callee_name@,
        exists|i: int| 0 <= i < calls.len() && (#[trigger] calls[i]).callee_name == raw[k].callee_name@ && calls[i].line == raw[k].line,
        exists|f: int|
            0 <= f < symbols.len() && (#[trigger] symbols[f]).name@ == raw[k].caller_name@ && (symbols[f].kind is Function
                || symbols[f].kind is Method) && symbols[f].start_line <= raw[k].line <= symbols[f].end_line,
{
    let at = call_positions(calls, symbols, calls.len());
    let i = at[k];
    lemma_call_positions(calls, symbols, calls.len(), i);
    assert(at.contains(i));
    assert(records(raw[k], calls[i], symbols));
    let f = enclosing(symbols, symbols.len(), calls[i].line)->0;
    lemma_enclosing_is(symbols, symbols.len(), calls[i].line);
    assert(symbols[f].name@ == raw[k].caller_name@);
}

proof fn lemma_enclosing_is(symbols: Seq<SymbolNode>, n: nat, line: usize)
    requires
        n <= symbols.len(),
    ensures
        enclosing(symbols, n, line) is Some ==> 0 <= enclosing(symbols, n, line)->0 < n && encloses(
            symbols[enclosing(symbols, n, line)->0],
            line,
        ),
    decreases n,
{
    if n > 0 && !encloses(symbols[n - 1], line) {
        lemma_enclosing_is(symbols, (n - 1) as nat, line);
    }
}

/// A file is parsed again exactly where it is new or its time is another than the one it
/// was indexed with, older or newer.
pub proof fn changed_times_are_dirty(mtimes: Map<Seq<char>, u64>, f: (String, u64), files: Seq<(String, u64)>)
    ensures
        !mtimes.contains_key(canonical(f.0@)) ==> is_dirty(mtimes, f),
        mtimes.contains_key(canonical(f.0@)) ==> (is_dirty(mtimes, f) <==> mtimes[canonical(f.0@)] != f.1),
        files.contains(f) && is_dirty(mtimes, f) ==> files.filter(|g: (String, u64)| is_dirty(mtimes, g)).contains(f),
{
    if files.contains(f) && is_dirty(mtimes, f) {
        crate::seqs::lemma_filter_keeps(files, |g: (String, u64)| is_dirty(mtimes, g), f);
    }
}

/// After a file was taken in, its time is recorded, and each of its symbols is known and
/// listed under the file it says, as long as identifiers differ.
pub proof fn parsed_files_are_recorded(g: GraphView, r: FileParseResult, i: int)
    requires
        0 <= i < r.symbols@.len(),
        forall|k: int| i < k < r.symbols@.len() ==> (#[trigger] r.symbols@[k]).id != r.symbols@[i].id,
    ensures
        with_result(g, r).file_mtimes.contains_key(canonical(r.path@)),
        with_result(g, r).file_mtimes[canonical(r.path@)] == r.mtime,
        with_result(g, r).nodes.contains_key(r.symbols@[i].id),
        with_result(g, r).nodes[r.symbols@[i].id] == r.symbols@[i],
        with_result(g, r).file_symbols.contains_key(canonical(r.symbols@[i].file@)),
        with_result(g, r).file_symbols[canonical(r.symbols@[i].file@)].contains(r.symbols@[i].id),
{
    lemma_with_symbols(g.without_file(r.path@), r.symbols@, i);
}

proof fn lemma_with_symbols(g: GraphView, symbols: Seq<SymbolNode>, i: int)
    requires
        0 <= i < symbols.len(),
        forall|k: int| i < k < symbols.len() ==> (#[trigger] symbols[k]).id != symbols[i].id,
    ensures
        ({
            let now = with_symbols(g, symbols);
            let path = canonical(symbols[i].file@);
            &&& now.nodes.contains_key(symbols[i].id)
            &&& now.nodes[symbols[i].id] == symbols[i]
            &&& now.file_symbols.contains_key(path)
            &&& now.file_symbols[path].contains(symbols[i].id)
        }),
    decreases symbols.len(),
{
    let t = symbols.drop_last();
    let now = with_symbols(g, symbols);
    let path = canonical(symbols[i].file@);
    if i < symbols.len() - 1 {
        assert(t[i] == symbols[i]);
        assert forall|k: int| i < k < t.len() implies (#[trigger] t[k]).id != t[i].id by {
            assert(t[k] == symbols[k]);
        }
        lemma_with_symbols(g, t, i);
        assert(symbols[symbols.len() - 1].id != symbols[i].id);
        let was = with_symbols(g, t).file_symbols[path];
        let j = choose|j: int| 0 <= j < was.len() && was[j] == symbols[i].id;
        assert(now.file_symbols[path][j] == symbols[i].id);
    } else {
        let list = now.file_symbols[path];
        assert(list[list.len() - 1] == symbols[i].id);
    }
}

/// Taking calls in only adds to the edges: no symbol, no file and no edge is lost, and
/// all that is new is a call.
pub proof fn calls_only_add_edges(before: GraphView, after: GraphView, calls: Seq<RawCall>, u: SymbolId, e: Edge)
    requires
        calls_added(before, after, calls),
    ensures
        after.nodes == before.nodes,
        after.file_symbols == before.file_symbols,
        after.file_mtimes == before.file_mtimes,
        edges_of(before.out, u).is_prefix_of(edges_of(after.out, u)),
        edges_of(before.into, u).is_prefix_of(edges_of(after.into, u)),
        edges_of(after.out, u).contains(e) && !edges_of(before.out, u).contains(e) ==> e.kind == EdgeKind::Calls,
    decreases calls.len(),
{
    lemma_calls_keep_files(before, after, calls);
    if calls.len() > 0 {
        let mid = choose|mid: GraphView|
            calls_added(before, mid, calls.drop_last()) && #[trigger] call_added(mid, after, calls.last());
        calls_only_add_edges(before, mid, calls.drop_last(), u, e);
        lemma_call_adds(mid, after, calls.last(), u, e);
        let a = edges_of(before.out, u);
        let b = edges_of(mid.out, u);
        let c = edges_of(after.out, u);
        assert(a =~= c.take(a.len() as int)) by {
            assert(a =~= b.take(a.len() as int));
        }
        let x = edges_of(before.into, u);
        let y = edges_of(mid.into, u);
        let z = edges_of(after.into, u);
        assert(x =~= z.take(x.len() as int)) by {
            assert(x =~= y.take(x.len() as int));
        }
    }
}

proof fn lemma_call_adds(before: GraphView, after: GraphView, c: RawCall, u: SymbolId, e: Edge)
    requires
        call_added(before, after, c),
    ensures
        edges_of(before.out, u).is_prefix_of(edges_of(after.out, u)),
        edges_of(before.into, u).is_prefix_of(edges_of(after.into, u)),
        edges_of(after.out, u).contains(e) && !edges_of(before.out, u).contains(e) ==> e.kind == EdgeKind::Calls,
{
    let b = edges_of(before.out, u);
    let a = edges_of(after.out, u);
    if after != before {
        let (k, to) = choose|k: SymbolId, to: SymbolId|
            #![trigger named(before.nodes, k, c.caller_name@), resolves(before.nodes, c.callee_name@, before.nodes[k].file@, Seq::empty(), to)]
            named(before.nodes, k, c.caller_name@) && resolves(
                before.nodes,
                c.callee_name@,
                before.nodes[k].file@,
                Seq::empty(),
                to,
            ) && after == before.with_edge(
                before.nodes[k].id,
                Edge { to, kind: EdgeKind::Calls, line: c.line },
            );
        if a.contains(e) && !b.contains(e) {
            let i = choose|i: int| 0 <= i < a.len() && a[i] == e;
            if i < b.len() {
                assert(b[i] == e);
            }
        }
    }
}

/// A call from one known function to another becomes an edge between them: its source has
/// the caller's name, its target the callee's, and it has the line of the call.
pub proof fn known_calls_become_edges(before: GraphView, after: GraphView, c: RawCall, from: SymbolId, to: SymbolId)
    requires
        call_added(before, after, c),
        forall|k: SymbolId| #[trigger] before.nodes.contains_key(k) ==> before.nodes[k].id == k,
        before.nodes.contains_key(from) && before.nodes[from].name@ == c.caller_name@,
        before.nodes.contains_key(to) && before.nodes[to].name@ == c.callee_name@,
    ensures
        exists|u: SymbolId, v: SymbolId|
            #![trigger before.nodes.contains_key(u), before.nodes.contains_key(v)]
            before.nodes.contains_key(u) && before.nodes[u].name@ == c.caller_name@ && before.nodes.contains_key(v)
                && before.nodes[v].name@ == c.callee_name@ && edges_of(after.out, u).contains(
                Edge { to: v, kind: EdgeKind::Calls, line: c.line },
            ) && edges_of(after.into, v).contains(Edge { to: u, kind: EdgeKind::Calls, line: c.line }),
{
    assert(named(before.nodes, from, c.caller_name@));
    assert(named(before.nodes, to, c.callee_name@));
    let (k, v) = choose|k: SymbolId, v: SymbolId|
        #![trigger named(before.nodes, k, c.caller_name@), resolves(before.nodes, c.callee_name@, before.nodes[k].file@, Seq::empty(), v)]
        named(before.nodes, k, c.caller_name@) && resolves(
            before.nodes,
            c.callee_name@,
            before.nodes[k].file@,
            Seq::empty(),
            v,
        ) && after == before.with_edge(before.nodes[k].id, Edge { to: v, kind: EdgeKind::Calls, line: c.line });
    let j = choose|j: SymbolId| #[trigger] named(before.nodes, j, c.callee_name@) && before.nodes[j].id == v;
    let out = edges_of(after.out, k);
    let into = edges_of(after.into, v);
    assert(before.nodes.contains_key(k));
    assert(before.nodes.contains_key(j));
    assert(out[out.len() - 1] == Edge { to: v, kind: EdgeKind::Calls, line: c.line });
    assert(into[into.len() - 1] == Edge { to: k, kind: EdgeKind::Calls, line: c.line });
}

} // verus!
