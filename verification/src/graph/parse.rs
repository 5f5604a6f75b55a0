//! Reading the symbols and calls out of a source file.

use tree_sitter::StreamingIterator;

use vstd::prelude::*;
use vstd::string::*;
use vstd::utf8::{encode_utf8, is_char_boundary};

use crate::graph::indexer::{
    calls_told, extract_calls, extract_symbols, symbols_told, CallMatch, CallMatchView, Definition, DefinitionView,
    FileParseResult, SymbolMatch, SymbolMatchView,
};
use crate::text::{byte_count, same};

verus! {

#[verifier::external_type_specification]
#[verifier::external_body]
pub struct ExLanguage(tree_sitter::Language);

#[verifier::external_type_specification]
#[verifier::external_body]
pub struct ExTree(tree_sitter::Tree);

/// A piece of source that a query has picked out, under a name of the query. The rows
/// are counted from zero.
#[derive(Debug)]
pub struct Capture {
    pub name: String,
    pub text: String,
    pub start_byte: usize,
    pub end_byte: usize,
    pub start_row: usize,
    pub end_row: usize,
    pub kind: String,
}

#[verifier::ext_equal]
pub struct CaptureView {
    pub name: Seq<char>,
    pub text: Seq<char>,
    pub start_byte: usize,
    pub end_byte: usize,
    pub start_row: usize,
    pub end_row: usize,
    pub kind: Seq<char>,
}

impl View for Capture {
    type V = CaptureView;

    open spec fn view(&self) -> CaptureView {
        CaptureView {
            name: self.name@,
            text: self.text@,
            start_byte: self.start_byte,
            end_byte: self.end_byte,
            start_row: self.start_row,
            end_row: self.end_row,
            kind: self.kind@,
        }
    }
}

/// The captures of one match.
pub open spec fn capture_views(v: Seq<Capture>) -> Seq<CaptureView> {
    v.map_values(|c: Capture| c@)
}

/// The captures of some matches.
pub open spec fn match_captures(v: Seq<Vec<Capture>>) -> Seq<Seq<CaptureView>> {
    v.map_values(|m: Vec<Capture>| capture_views(m@))
}

// ---- What the parser tells ----

/// The grammar and the source that a tree was made from.
pub uninterp spec fn tree_origin(t: tree_sitter::Tree) -> (tree_sitter::Language, Seq<char>);

/// Whether a source is parsed by a grammar at all. Errors in the source do not count.
pub uninterp spec fn is_parsed(language: tree_sitter::Language, source: Seq<char>) -> bool;

/// What a query picks out of a source, match by match, if it is a query of the
/// grammar.
pub uninterp spec fn picked_out(language: tree_sitter::Language, query: Seq<char>, source: Seq<char>) -> Option<
    Seq<Seq<CaptureView>>,
>;

/// Whether a capture lies in a source and has the text there; one that does not start
/// and end with characters has none. No more rows than bytes come before it.
pub open spec fn lies_within(c: Capture, source: Seq<char>) -> bool {
    let bytes = encode_utf8(source);
    &&& c.start_byte <= c.end_byte <= bytes.len() && c.start_row <= c.start_byte && c.end_row <= c.end_byte
    &&& if is_char_boundary(bytes, c.start_byte as int) && is_char_boundary(bytes, c.end_byte as int) {
        encode_utf8(c.text@) == bytes.subrange(c.start_byte as int, c.end_byte as int)
    } else {
        c.text@.len() == 0
    }
}

/// `tree_sitter::Parser::parse`, with a new parser of a grammar and without an earlier
/// tree. There is a tree unless the grammar is of a version that the parser does not
/// take. Positions are counted in 32 bits, so the source is shorter than that.
#[verifier::external_body]
fn parse(language: &tree_sitter::Language, source: &str) -> (r: Option<tree_sitter::Tree>)
    requires
        byte_count(source@) < u32::MAX,
    ensures
        r is Some <==> is_parsed(*language, source@),
        r is Some ==> tree_origin(r->0) == (*language, source@),
{
    let mut parser = tree_sitter::Parser::new();
    parser.set_language(language).ok()?;
    parser.parse(source, None)
}

/// `tree_sitter::QueryCursor::matches` over a whole tree, each match as the list of its
/// captures; nothing where `tree_sitter::Query::new` refuses the query. What is found
/// depends on the grammar, the query and the source alone, and is a piece of the source.
#[verifier::external_body]
fn captures(language: &tree_sitter::Language, query: &str, tree: &tree_sitter::Tree, source: &str) -> (r: Option<
    Vec<Vec<Capture>>,
>)
    requires
        tree_origin(*tree) == (*language, source@),
        byte_count(source@) < u32::MAX,
        byte_count(query@) < u32::MAX,
    ensures
        match r {
            Some(v) => picked_out(*language, query@, source@) == Some(match_captures(v@)),
            None => picked_out(*language, query@, source@) is None,
        },
        r is Some ==> forall|i: int, j: int|
            0 <= i < r->0@.len() && 0 <= j < r->0@[i]@.len() ==> lies_within(
                #[trigger] r->0@[i]@[j],
                source@,
            ),
{
    let query = tree_sitter::Query::new(language, query).ok()?;
    let mut cursor = tree_sitter::QueryCursor::new();
    let found = cursor.matches(&query, tree.root_node(), source.as_bytes());
    Some(found.map_deref(|m| m.captures.iter().map(|c| Capture {
        name: query.capture_names()[c.index as usize].to_owned(),
        text: source.get(c.node.byte_range()).unwrap_or_default().to_owned(),
        start_byte: c.node.start_byte(),
        end_byte: c.node.end_byte(),
        start_row: c.node.start_position().row,
        end_row: c.node.end_position().row,
        kind: c.node.kind().to_owned(),
    }).collect()).collect())
}

// ---- From captures to symbols and calls ----

/// The last of some captures that has a name.
pub open spec fn last_named(captures: Seq<CaptureView>, name: Seq<char>) -> Option<CaptureView>
    decreases captures.len(),
{
    if captures.len() == 0 {
        None
    } else if captures.last().name == name {
        Some(captures.last())
    } else {
        last_named(captures.drop_last(), name)
    }
}

/// The symbol that a match tells: its name is the last capture called `name`, its
/// definition the last one called `definition`. Lines are counted from one.
pub open spec fn symbol_match_of(captures: Seq<CaptureView>) -> SymbolMatchView {
    SymbolMatchView {
        name: match last_named(captures, "name"@) {
            Some(c) => Some(c.text),
            None => None,
        },
        definition: match last_named(captures, "definition"@) {
            Some(c) => Some(
                DefinitionView {
                    start_byte: c.start_byte,
                    end_byte: c.end_byte,
                    start_line: (c.start_row + 1) as usize,
                    end_line: (c.end_row + 1) as usize,
                    kind: c.kind,
                },
            ),
            None => None,
        },
    }
}

/// The symbols that some matches tell, match by match.
pub open spec fn symbol_matches_of(found: Seq<Seq<CaptureView>>) -> Seq<SymbolMatchView> {
    found.map_values(|m: Seq<CaptureView>| symbol_match_of(m))
}

/// The calls that a match tells: one for each capture called `callee`.
pub open spec fn callees_of(captures: Seq<CaptureView>) -> Seq<CallMatchView>
    decreases captures.len(),
{
    if captures.len() == 0 {
        Seq::empty()
    } else {
        let before = callees_of(captures.drop_last());
        let c = captures.last();
        if c.name == "callee"@ {
            before.push(CallMatchView { callee_name: c.text, line: (c.start_row + 1) as usize })
        } else {
            before
        }
    }
}

/// The calls that some matches tell, in order.
pub open spec fn call_matches_of(found: Seq<Seq<CaptureView>>) -> Seq<CallMatchView>
    decreases found.len(),
{
    if found.len() == 0 {
        Seq::empty()
    } else {
        call_matches_of(found.drop_last()) + callees_of(found.last())
    }
}

/// Whether the rows of all captures can be counted from one.
pub open spec fn countable(found: Seq<Vec<Capture>>) -> bool {
    forall|i: int, j: int|
        0 <= i < found.len() && 0 <= j < found[i]@.len() ==> (#[trigger] found[i]@[j]).start_row < usize::MAX
            && found[i]@[j].end_row < usize::MAX
}

fn find_last<'a>(captures: &'a Vec<Capture>, name: &str) -> (r: Option<&'a Capture>)
    ensures
        match r {
            Some(c) => last_named(capture_views(captures@), name@) == Some(c@) && captures@.contains(*c),
            None => last_named(capture_views(captures@), name@) is None,
        },
{
    let ghost all = capture_views(captures@);
    let mut n: usize = captures.len();
    assert(all.take(n as int) =~= all);
    while n > 0
        invariant
            n <= captures.len(),
            all == capture_views(captures@),
            last_named(all, name@) == last_named(all.take(n as int), name@),
        decreases n,
    {
        assert(all.take(n as int).last() == captures@[n - 1]@);
        assert(all.take(n as int).drop_last() =~= all.take(n - 1));
        if same(captures[n - 1].name.as_str(), name) {
            return Some(&captures[n - 1]);
        }
        n = n - 1;
    }
    None
}

/// The symbols that the matches of a query tell.
pub fn symbol_matches(found: &Vec<Vec<Capture>>) -> (r: Vec<SymbolMatch>)
    requires
        countable(found@),
    ensures
        r@.map_values(|m: SymbolMatch| m@) == symbol_matches_of(match_captures(found@)),
{
    let mut out: Vec<SymbolMatch> = Vec::new();
    let mut i: usize = 0;
    while i < found.len()
        invariant
            i <= found.len(),
            countable(found@),
            out@.len() == i,
            forall|k: int| 0 <= k < i ==> (#[trigger] out@[k])@ == symbol_match_of(capture_views(found@[k]@)),
        decreases found.len() - i,
    {
        let captures = &found[i];
        let name = match find_last(captures, "name") {
            Some(c) => Some(c.text.clone()),
            None => None,
        };
        let definition = match find_last(captures, "definition") {
            Some(c) => {
                let ghost j = choose|j: int| 0 <= j < captures@.len() && captures@[j] == *c;
                assert(found@[i as int]@[j] == *c);
                Some(
                    Definition {
                        start_byte: c.start_byte,
                        end_byte: c.end_byte,
                        start_line: c.start_row + 1,
                        end_line: c.end_row + 1,
                        kind: c.kind.clone(),
                    },
                )
            },
            None => None,
        };
        let m = SymbolMatch { name, definition };
        assert(m@ =~= symbol_match_of(capture_views(found@[i as int]@)));
        out.push(m);
        i = i + 1;
    }
    assert(out@.map_values(|m: SymbolMatch| m@) =~= symbol_matches_of(match_captures(found@)));
    out
}

/// The calls that the matches of a query tell.
pub fn call_matches(found: &Vec<Vec<Capture>>) -> (r: Vec<CallMatch>)
    requires
        countable(found@),
    ensures
        r@.map_values(|c: CallMatch| c@) == call_matches_of(match_captures(found@)),
{
    let ghost all = match_captures(found@);
    let mut out: Vec<CallMatch> = Vec::new();
    let mut i: usize = 0;
    assert(all.take(0) =~= Seq::<Seq<CaptureView>>::empty());
    assert(out@.map_values(|c: CallMatch| c@) =~= call_matches_of(all.take(0)));
    while i < found.len()
        invariant
            i <= found.len(),
            countable(found@),
            all == match_captures(found@),
            out@.map_values(|c: CallMatch| c@) == call_matches_of(all.take(i as int)),
        decreases found.len() - i,
    {
        let captures = &found[i];
        let ghost mine = capture_views(captures@);
        let ghost before = call_matches_of(all.take(i as int));
        let mut j: usize = 0;
        assert(mine.take(0) =~= Seq::<CaptureView>::empty());
        assert(before + callees_of(mine.take(0)) =~= before);
        while j < captures.len()
            invariant
                i < found.len(),
                countable(found@),
                captures == &found@[i as int],
                j <= captures.len(),
                mine == capture_views(captures@),
                out@.map_values(|c: CallMatch| c@) == before + callees_of(mine.take(j as int)),
            decreases captures.len() - j,
        {
            let c = &captures[j];
            assert(found@[i as int]@[j as int] == *c);
            assert(mine.take(j + 1).drop_last() =~= mine.take(j as int));
            assert(mine.take(j + 1).last() == c@);
            if same(c.name.as_str(), "callee") {
                let ghost was = out@;
                let call = CallMatch { callee_name: c.text.clone(), line: c.start_row + 1 };
                out.push(call);
                assert(out@.map_values(|c: CallMatch| c@) =~= was.map_values(|c: CallMatch| c@).push(call@));
                assert(before + callees_of(mine.take(j + 1)) =~= (before + callees_of(mine.take(j as int))).push(
                    call@,
                ));
            }
            j = j + 1;
        }
        assert(mine.take(j as int) =~= mine);
        assert(all.take(i + 1).drop_last() =~= all.take(i as int));
        assert(all.take(i + 1).last() == mine);
        i = i + 1;
    }
    assert(all.take(i as int) =~= all);
    out
}

/// What a query finds in a source: nothing where it is no query of the grammar.
pub open spec fn found_by(language: tree_sitter::Language, query: Seq<char>, source: Seq<char>) -> Seq<
    Seq<CaptureView>,
> {
    match picked_out(language, query, source) {
        Some(v) => v,
        None => Seq::empty(),
    }
}

fn find(language: &tree_sitter::Language, query: &str, tree: &tree_sitter::Tree, source: &str) -> (r: Vec<
    Vec<Capture>,
>)
    requires
        tree_origin(*tree) == (*language, source@),
        byte_count(source@) < u32::MAX,
        byte_count(query@) < u32::MAX,
    ensures
        match_captures(r@) == found_by(*language, query@, source@),
        countable(r@),
{
    match captures(language, query, tree, source) {
        Some(v) => {
            assert forall|i: int, j: int| 0 <= i < v@.len() && 0 <= j < v@[i]@.len() implies (
            #[trigger] v@[i]@[j]).start_row < usize::MAX && v@[i]@[j].end_row < usize::MAX by {
                assert(lies_within(v@[i]@[j], source@));
            }
            v
        },
        None => {
            let none: Vec<Vec<Capture>> = Vec::new();
            assert(match_captures(none@) =~= Seq::<Seq<CaptureView>>::empty());
            none
        },
    }
}

/// Whether `r` is what the matches of two queries tell of a file.
pub open spec fn tells(
    r: FileParseResult,
    path: Seq<char>,
    mtime: u64,
    symbols: Seq<Seq<CaptureView>>,
    calls: Seq<Seq<CaptureView>>,
) -> bool {
    &&& r.path@ == path
    &&& r.mtime == mtime
    &&& symbols_told(r.symbols@, path, symbol_matches_of(symbols))
    &&& calls_told(r.raw_calls@, call_matches_of(calls), r.symbols@)
}

/// Puts together what the matches of the two queries tell of a file.
pub fn file_result(path: &str, mtime: u64, symbols: &Vec<Vec<Capture>>, calls: &Vec<Vec<Capture>>) -> (r:
    FileParseResult)
    requires
        countable(symbols@),
        countable(calls@),
    ensures
        tells(r, path@, mtime, match_captures(symbols@), match_captures(calls@)),
{
    let defined = symbol_matches(symbols);
    let called = call_matches(calls);
    let nodes = extract_symbols(path, &defined);
    let raw_calls = extract_calls(&called, &nodes);
    FileParseResult { path: path.to_owned(), mtime, symbols: nodes, raw_calls }
}

/// Parses a source and reads its symbols and calls: nothing where the grammar cannot
/// be used. The sizes are those that the parser can count.
pub fn parse_source(
    path: &str,
    mtime: u64,
    source: &str,
    language: &tree_sitter::Language,
    symbols_query: &str,
    calls_query: Option<&str>,
) -> (r: Option<FileParseResult>)
    requires
        byte_count(source@) < u32::MAX,
        byte_count(symbols_query@) < u32::MAX,
        calls_query is Some ==> byte_count(calls_query->0@) < u32::MAX,
    ensures
        r is Some <==> is_parsed(*language, source@),
        r is Some ==> tells(
            r->0,
            path@,
            mtime,
            found_by(*language, symbols_query@, source@),
            match calls_query {
                Some(q) => found_by(*language, q@, source@),
                None => Seq::empty(),
            },
        ),
{
    let tree = match parse(language, source) {
        Some(t) => t,
        None => return None,
    };
    let symbols = find(language, symbols_query, &tree, source);
    let calls: Vec<Vec<Capture>> = match calls_query {
        Some(q) => find(language, q, &tree, source),
        None => {
            let none: Vec<Vec<Capture>> = Vec::new();
            assert(match_captures(none@) =~= Seq::<Seq<CaptureView>>::empty());
            none
        },
    };
    Some(file_result(path, mtime, &symbols, &calls))
}

/// A symbol has the name and the place of the last captures for them; rows count from
/// zero, lines from one. A match without one of the two says nothing of it.
pub proof fn matches_tell_names_and_places(captures: Seq<CaptureView>, i: int)
    requires
        0 <= i < captures.len(),
        captures[i].start_row < usize::MAX,
        captures[i].end_row < usize::MAX,
        forall|k: int| i < k < captures.len() ==> (#[trigger] captures[k]).name != captures[i].name,
    ensures
        captures[i].name == "name"@ ==> symbol_match_of(captures).name == Some(captures[i].text),
        captures[i].name == "definition"@ ==> {
            let d = symbol_match_of(captures).definition->0;
            &&& symbol_match_of(captures).definition is Some
            &&& d.start_line == captures[i].start_row + 1 && d.end_line == captures[i].end_row + 1
            &&& d.start_byte == captures[i].start_byte && d.end_byte == captures[i].end_byte
            &&& d.kind == captures[i].kind
        },
        symbol_match_of(Seq::empty()).name is None && symbol_match_of(Seq::empty()).definition is None,
{
    lemma_last_named(captures, i);
}

proof fn lemma_last_named(captures: Seq<CaptureView>, i: int)
    requires
        0 <= i < captures.len(),
        forall|k: int| i < k < captures.len() ==> (#[trigger] captures[k]).name != captures[i].name,
    ensures
        last_named(captures, captures[i].name) == Some(captures[i]),
    decreases captures.len(),
{
    if i < captures.len() - 1 {
        let t = captures.drop_last();
        assert(captures[captures.len() - 1].name != captures[i].name);
        assert(t[i] == captures[i]);
        assert forall|k: int| i < k < t.len() implies (#[trigger] t[k]).name != t[i].name by {
            assert(t[k] == captures[k]);
        }
        lemma_last_named(t, i);
    }
}

/// Every capture of a callee is a call of what it says, at its line, in order; other
/// captures are none.
pub proof fn captured_callees_are_calls(captures: Seq<CaptureView>, c: CaptureView)
    requires
        c.start_row < usize::MAX,
    ensures
        c.name == "callee"@ ==> callees_of(captures.push(c)) == callees_of(captures).push(
            CallMatchView { callee_name: c.text, line: (c.start_row + 1) as usize },
        ),
        c.name != "callee"@ ==> callees_of(captures.push(c)) == callees_of(captures),
        callees_of(Seq::empty()).len() == 0,
{
    assert(captures.push(c).drop_last() =~= captures);
}

} // verus!
