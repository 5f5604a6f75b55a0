//! What servers publish about files.

use vstd::prelude::*;
use vstd::string::*;

use crate::json::{json_views, Json, JsonView};
use crate::lsp::types::{severity, Diagnostic, DiagnosticSeverity, DiagnosticView};
use crate::lsp::uri::{lossy_text, path_key, shows_texts, LocalPath};
use crate::text::{decimal, opt, push_decimal};
use crate::text_map::TextMap;

verus! {

pub open spec fn diagnostic_views(v: Seq<Diagnostic>) -> Seq<DiagnosticView> {
    v.map_values(|d: Diagnostic| d@)
}

/// What is known of each file.
pub open spec fn cache_view(m: Map<Seq<char>, Vec<Diagnostic>>) -> Map<Seq<char>, Seq<DiagnosticView>> {
    m.map_values(|v: Vec<Diagnostic>| diagnostic_views(v@))
}

/// A place that counts from zero, counted from one, in 32 bits.
pub open spec fn one_based(v: u64) -> u32 {
    ((v as int % 0x1_0000_0000 + 1) % 0x1_0000_0000) as u32
}

pub open spec fn one_based_opt(v: Option<u64>) -> Option<u32> {
    match v {
        Some(n) => Some(one_based(n)),
        None => None,
    }
}

pub open spec fn severity_of(d: JsonView) -> DiagnosticSeverity {
    match d.uint_at("severity"@) {
        Some(v) => severity((v as int % 0x1_0000_0000) as nat),
        None => DiagnosticSeverity::Error,
    }
}

/// The code of a diagnostic: a text, or a number written out.
pub open spec fn code_of(d: JsonView) -> Option<Seq<char>> {
    match d.get("code"@) {
        Some(v) => match v.text() {
            Some(s) => Some(s),
            None => match v.uint() {
                Some(n) => Some(decimal(n as nat)),
                None => None,
            },
        },
        None => None,
    }
}

/// The diagnostic that a published item describes; an item that does not say
/// where it starts describes none.
pub open spec fn diagnostic_of(d: JsonView, file: Seq<char>) -> Option<DiagnosticView> {
    match d.get("range"@) {
        Some(range) => match range.get("start"@) {
            Some(start) => match (start.uint_at("line"@), start.uint_at("character"@)) {
                (Some(line), Some(column)) => Some(
                    DiagnosticView {
                        file,
                        line: one_based(line),
                        column: one_based(column),
                        end_line: match range.get("end"@) {
                            Some(e) => one_based_opt(e.uint_at("line"@)),
                            None => None,
                        },
                        end_column: match range.get("end"@) {
                            Some(e) => one_based_opt(e.uint_at("character"@)),
                            None => None,
                        },
                        severity: severity_of(d),
                        message: match d.text_at("message"@) {
                            Some(m) => m,
                            None => Seq::empty(),
                        },
                        source: d.text_at("source"@),
                        code: code_of(d),
                    },
                ),
                _ => None,
            },
            None => None,
        },
        None => None,
    }
}

/// The diagnostics that a list of published items describes, in order.
pub open spec fn diagnostics_of(items: Seq<JsonView>, file: Seq<char>) -> Seq<DiagnosticView>
    decreases items.len(),
{
    if items.len() == 0 {
        Seq::empty()
    } else {
        let before = diagnostics_of(items.drop_last(), file);
        match diagnostic_of(items.last(), file) {
            Some(d) => before.push(d),
            None => before,
        }
    }
}

/// The diagnostics that a notification publishes for a file.
pub open spec fn published_for(params: JsonView, file: Seq<char>) -> Seq<DiagnosticView> {
    match params.get("diagnostics"@) {
        Some(v) => match v.array() {
            Some(items) => diagnostics_of(items, file),
            None => Seq::empty(),
        },
        None => Seq::empty(),
    }
}

/// What is known after a notification for a file: what it publishes in place of
/// what was known, and nothing where it publishes nothing.
pub open spec fn stored(
    cache: Map<Seq<char>, Seq<DiagnosticView>>,
    file: Seq<u8>,
    params: JsonView,
) -> Map<Seq<char>, Seq<DiagnosticView>> {
    let now = published_for(params, lossy_text(file));
    if now.len() == 0 {
        cache.remove(path_key(file))
    } else {
        cache.insert(path_key(file), now)
    }
}

fn to_one_based(v: u64) -> (r: u32)
    ensures
        r == one_based(v),
{
    let low: u32 = (v % 0x1_0000_0000) as u32;
    if low == 0xffff_ffff {
        0
    } else {
        low + 1
    }
}

fn to_one_based_opt(v: Option<u64>) -> (r: Option<u32>)
    ensures
        r == one_based_opt(v),
{
    match v {
        Some(n) => Some(to_one_based(n)),
        None => None,
    }
}

fn read_severity(d: &Json) -> (r: DiagnosticSeverity)
    ensures
        r == severity_of(d@),
{
    match d.u64_at("severity") {
        Some(v) => DiagnosticSeverity::from_lsp((v % 0x1_0000_0000) as u32),
        None => DiagnosticSeverity::Error,
    }
}

fn read_code(d: &Json) -> (r: Option<String>)
    ensures
        opt(r) == code_of(d@),
{
    match d.get("code") {
        Some(v) => match v.as_str() {
            Some(s) => Some(s.to_owned()),
            None => match v.as_u64() {
                Some(n) => {
                    let mut out = String::new();
                    push_decimal(&mut out, n);
                    assert(out@ =~= decimal(n as nat));
                    Some(out)
                },
                None => None,
            },
        },
        None => None,
    }
}

/// Reads one published item.
pub fn read_diagnostic(d: &Json, file: &str) -> (r: Option<Diagnostic>)
    ensures
        match r {
            Some(x) => diagnostic_of(d@, file@) == Some(x@),
            None => diagnostic_of(d@, file@) is None,
        },
{
    let range = match d.get("range") {
        Some(range) => range,
        None => return None,
    };
    let start = match range.get("start") {
        Some(start) => start,
        None => return None,
    };
    let line: u64 = match start.u64_at("line") {
        Some(n) => n,
        None => return None,
    };
    let column: u64 = match start.u64_at("character") {
        Some(n) => n,
        None => return None,
    };
    let end = range.get("end");
    let end_line = match end {
        Some(e) => to_one_based_opt(e.u64_at("line")),
        None => None,
    };
    let end_column = match end {
        Some(e) => to_one_based_opt(e.u64_at("character")),
        None => None,
    };
    let message = match d.str_at("message") {
        Some(m) => m.to_owned(),
        None => String::new(),
    };
    let source = match d.str_at("source") {
        Some(s) => Some(s.to_owned()),
        None => None,
    };
    let r = Diagnostic {
        file: file.to_owned(),
        line: to_one_based(line),
        column: to_one_based(column),
        end_line,
        end_column,
        severity: read_severity(d),
        message,
        source,
        code: read_code(d),
    };
    assert(diagnostic_of(d@, file@) == Some(r@));
    Some(r)
}

fn read_diagnostics(items: &Vec<Json>, file: &str) -> (r: Vec<Diagnostic>)
    ensures
        diagnostic_views(r@) == diagnostics_of(json_views(items@), file@),
{
    let mut out: Vec<Diagnostic> = Vec::new();
    let ghost all = json_views(items@);
    let mut i: usize = 0;
    assert(diagnostic_views(out@) =~= diagnostics_of(all.take(0), file@));
    while i < items.len()
        invariant
            i <= items.len(),
            all == json_views(items@),
            diagnostic_views(out@) == diagnostics_of(all.take(i as int), file@),
        decreases items.len() - i,
    {
        let ghost was = out@;
        assert(all.take(i + 1).drop_last() =~= all.take(i as int));
        assert(all.take(i + 1).last() == items@[i as int]@);
        if let Some(d) = read_diagnostic(&items[i], file) {
            out.push(d);
            assert(diagnostic_views(out@) =~= diagnostic_views(was).push(d@));
        }
        i = i + 1;
    }
    assert(all.take(i as int) =~= all);
    out
}

/// Takes in what a notification publishes for a file.
pub fn store_diagnostics(cache: &mut TextMap<Vec<Diagnostic>>, file: &LocalPath, params: &Json)
    requires
        old(cache).wf(),
    ensures
        final(cache).wf(),
        cache_view(final(cache)@) == stored(cache_view(old(cache)@), file@, params@),
        shows_texts(file@),
{
    let ghost was = cache@;
    let shown = file.shown();
    let none: Vec<Diagnostic> = Vec::new();
    assert(diagnostic_views(none@) =~= Seq::<DiagnosticView>::empty());
    let now = match params.get("diagnostics") {
        Some(v) => match v.as_array() {
            Some(items) => read_diagnostics(items, shown.as_str()),
            None => none,
        },
        None => none,
    };
    assert(diagnostic_views(now@) == published_for(params@, lossy_text(file@)));
    assert(diagnostic_views(now@).len() == now@.len());
    let key = file.key();
    if now.len() == 0 {
        let _gone = cache.remove(key.as_str());
        assert(cache_view(cache@) =~= cache_view(was).remove(key@));
    } else {
        cache.insert(key, now);
        assert(cache_view(cache@) =~= cache_view(was).insert(key@, diagnostic_views(now@)));
    }
}

/// A notification touches what is known of its own file alone.
pub proof fn publishing_touches_one_file(
    cache: Map<Seq<char>, Seq<DiagnosticView>>,
    file: Seq<u8>,
    params: JsonView,
    other: Seq<char>,
)
    requires
        other != path_key(file),
    ensures
        stored(cache, file, params).contains_key(other) <==> cache.contains_key(other),
        cache.contains_key(other) ==> stored(cache, file, params)[other] == cache[other],
{
}

/// What is known of a file after a notification does not depend on what was
/// known before.
pub proof fn publishing_replaces(
    a: Map<Seq<char>, Seq<DiagnosticView>>,
    b: Map<Seq<char>, Seq<DiagnosticView>>,
    file: Seq<u8>,
    params: JsonView,
)
    ensures
        stored(a, file, params).contains_key(path_key(file)) <==> published_for(params, lossy_text(file)).len() > 0,
        stored(a, file, params).contains_key(path_key(file)) <==> stored(b, file, params).contains_key(path_key(file)),
        stored(a, file, params).contains_key(path_key(file)) ==> stored(a, file, params)[path_key(file)] == stored(
            b,
            file,
            params,
        )[path_key(file)],
{
}

/// No file is kept with nothing known of it.
pub open spec fn no_empty(cache: Map<Seq<char>, Seq<DiagnosticView>>) -> bool {
    forall|f: Seq<char>| cache.contains_key(f) ==> (#[trigger] cache[f]).len() > 0
}

/// Publishing keeps no file with nothing known of it.
pub proof fn publishing_keeps_no_empty(
    cache: Map<Seq<char>, Seq<DiagnosticView>>,
    file: Seq<u8>,
    params: JsonView,
)
    requires
        no_empty(cache),
    ensures
        no_empty(stored(cache, file, params)),
{
    let after = stored(cache, file, params);
    assert forall|f: Seq<char>| after.contains_key(f) implies (#[trigger] after[f]).len() > 0 by {
        if f != path_key(file) {
            assert(cache[f].len() > 0);
        }
    }
}

/// The protocol counts lines and columns from zero; they are shown from one.
pub proof fn places_count_from_one(v: u64)
    ensures
        v < u32::MAX ==> one_based(v) == v + 1,
{
}

/// A published item says where it starts, and more where it does: its end, its message,
/// its source and its code. Without a severity it is an error; without a start it is
/// passed over.
pub proof fn items_are_read_as_published(d: JsonView, file: Seq<char>, range: JsonView, start: JsonView, line: u64, column: u64)
    requires
        d.get("range"@) == Some(range),
        range.get("start"@) == Some(start),
        start.uint_at("line"@) == Some(line),
        start.uint_at("character"@) == Some(column),
        line < u32::MAX,
        column < u32::MAX,
    ensures
        ({
            let x = diagnostic_of(d, file)->0;
            &&& diagnostic_of(d, file) is Some
            &&& x.file == file && x.line == line + 1 && x.column == column + 1
            &&& d.uint_at("severity"@) is None ==> x.severity == DiagnosticSeverity::Error
            &&& d.uint_at("severity"@) == Some(1u64) ==> x.severity == DiagnosticSeverity::Error
            &&& d.uint_at("severity"@) == Some(2u64) ==> x.severity == DiagnosticSeverity::Warning
            &&& d.uint_at("severity"@) == Some(3u64) ==> x.severity == DiagnosticSeverity::Info
            &&& d.uint_at("severity"@) == Some(4u64) ==> x.severity == DiagnosticSeverity::Hint
            &&& d.text_at("message"@) is Some ==> x.message == d.text_at("message"@)->0
            &&& x.source == d.text_at("source"@)
            &&& d.text_at("code"@) is Some ==> x.code == d.text_at("code"@)
            &&& range.get("end"@) is None ==> x.end_line is None && x.end_column is None
            &&& range.get("end"@) is Some && range.get("end"@)->0.uint_at("line"@) is Some
                && range.get("end"@)->0.uint_at("line"@)->0 < u32::MAX ==> x.end_line == Some(
                (range.get("end"@)->0.uint_at("line"@)->0 + 1) as u32,
            )
            &&& range.get("end"@) is Some && range.get("end"@)->0.uint_at("character"@) is Some
                && range.get("end"@)->0.uint_at("character"@)->0 < u32::MAX ==> x.end_column == Some(
                (range.get("end"@)->0.uint_at("character"@)->0 + 1) as u32,
            )
        }),
        d.get("range"@) is None ==> diagnostic_of(d, file) is None,
{
}

/// Every item that says where it starts is kept, in the order in which it is published.
pub proof fn published_items_are_kept_in_order(items: Seq<JsonView>, more: Seq<JsonView>, file: Seq<char>, d: JsonView)
    ensures
        diagnostics_of(items + more, file) == diagnostics_of(items, file) + diagnostics_of(more, file),
        diagnostics_of(seq![d], file) == (match diagnostic_of(d, file) {
            Some(x) => seq![x],
            None => Seq::empty(),
        }),
    decreases more.len(),
{
    let one = seq![d];
    assert(one.drop_last().len() == 0);
    assert(one.last() == d);
    assert(diagnostics_of(one.drop_last(), file) =~= Seq::<DiagnosticView>::empty());
    assert(diagnostics_of(one, file) =~= (match diagnostic_of(d, file) {
        Some(x) => seq![x],
        None => Seq::empty(),
    }));
    if more.len() == 0 {
        assert(items + more =~= items);
        assert(diagnostics_of(items, file) + diagnostics_of(more, file) =~= diagnostics_of(items, file));
    } else {
        published_items_are_kept_in_order(items, more.drop_last(), file, d);
        assert((items + more).drop_last() =~= items + more.drop_last());
        assert(diagnostics_of(items + more, file) =~= diagnostics_of(items, file) + diagnostics_of(more, file));
    }
}

} // verus!
