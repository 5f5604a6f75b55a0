//! Positions and diagnostics.

use vstd::prelude::*;
use vstd::string::*;

use crate::text::{
    contains, decimal, lemma_holds, opt, push_decimal, starts_with,
};

verus! {

#[derive(Debug, Clone, Copy, PartialEq, Eq, Structural)]
pub struct Position {
    pub line: u32,
    pub character: u32,
}

#[derive(Debug, Clone, Copy, PartialEq, Eq, Structural)]
pub struct Range {
    pub start: Position,
    pub end: Position,
}

#[derive(Debug)]
pub struct Location {
    pub uri: String,
    pub range: Range,
}

/// How bad a diagnostic is, worst first.
#[derive(Debug, Clone, Copy, PartialEq, Eq, PartialOrd, Ord, Structural)]
pub enum DiagnosticSeverity {
    Error,
    Warning,
    Info,
    Hint,
}

/// The severity of a protocol number.
pub open spec fn severity(value: nat) -> DiagnosticSeverity {
    if value == 1 {
        DiagnosticSeverity::Error
    } else if value == 2 {
        DiagnosticSeverity::Warning
    } else if value == 3 {
        DiagnosticSeverity::Info
    } else {
        DiagnosticSeverity::Hint
    }
}

pub open spec fn severity_label(s: DiagnosticSeverity) -> Seq<char> {
    match s {
        DiagnosticSeverity::Error => "ERROR"@,
        DiagnosticSeverity::Warning => "WARN"@,
        DiagnosticSeverity::Info => "INFO"@,
        DiagnosticSeverity::Hint => "HINT"@,
    }
}

impl DiagnosticSeverity {
    /// The severity of a protocol number; unknown numbers are hints.
    pub fn from_lsp(value: u32) -> (r: DiagnosticSeverity)
        ensures
            r == severity(value as nat),
    {
        if value == 1 {
            DiagnosticSeverity::Error
        } else if value == 2 {
            DiagnosticSeverity::Warning
        } else if value == 3 {
            DiagnosticSeverity::Info
        } else {
            DiagnosticSeverity::Hint
        }
    }

    pub fn label(&self) -> (r: &'static str)
        ensures
            r@ == severity_label(*self),
    {
        match self {
            DiagnosticSeverity::Error => "ERROR",
            DiagnosticSeverity::Warning => "WARN",
            DiagnosticSeverity::Info => "INFO",
            DiagnosticSeverity::Hint => "HINT",
        }
    }
}

/// What a language server has to say about a place in a file. Lines and columns
/// count from one.
#[derive(Debug)]
pub struct Diagnostic {
    pub file: String,
    pub line: u32,
    pub column: u32,
    pub end_line: Option<u32>,
    pub end_column: Option<u32>,
    pub severity: DiagnosticSeverity,
    pub message: String,
    pub source: Option<String>,
    pub code: Option<String>,
}

#[verifier::ext_equal]
pub struct DiagnosticView {
    pub file: Seq<char>,
    pub line: u32,
    pub column: u32,
    pub end_line: Option<u32>,
    pub end_column: Option<u32>,
    pub severity: DiagnosticSeverity,
    pub message: Seq<char>,
    pub source: Option<Seq<char>>,
    pub code: Option<Seq<char>>,
}

impl View for Diagnostic {
    type V = DiagnosticView;

    open spec fn view(&self) -> DiagnosticView {
        DiagnosticView {
            file: self.file@,
            line: self.line,
            column: self.column,
            end_line: self.end_line,
            end_column: self.end_column,
            severity: self.severity,
            message: self.message@,
            source: opt(self.source),
            code: opt(self.code),
        }
    }
}

impl Clone for Diagnostic {
    fn clone(&self) -> (r: Self)
        ensures
            r@ == self@,
    {
        Diagnostic {
            file: self.file.clone(),
            line: self.line,
            column: self.column,
            end_line: self.end_line,
            end_column: self.end_column,
            severity: self.severity,
            message: self.message.clone(),
            source: crate::conversation::clone_opt(&self.source),
            code: crate::conversation::clone_opt(&self.code),
        }
    }
}

/// A diagnostic on one line.
pub open spec fn diagnostic_line(d: DiagnosticView) -> Seq<char> {
    d.file + ":"@ + decimal(d.line as nat) + ":"@ + decimal(d.column as nat) + " ["@ + severity_label(
        d.severity,
    ) + "]"@ + (match d.code {
        Some(c) => " "@ + c,
        None => Seq::empty(),
    }) + " "@ + d.message + (match d.source {
        Some(s) => " ("@ + s + ")"@,
        None => Seq::empty(),
    })
}

impl Diagnostic {
    pub fn display_line(&self) -> (r: String)
        ensures
            r@ == diagnostic_line(self@),
    {
        let mut out = self.file.clone();
        out.append(":");
        push_decimal(&mut out, self.line as u64);
        out.append(":");
        push_decimal(&mut out, self.column as u64);
        out.append(" [");
        out.append(self.severity.label());
        out.append("]");
        let ghost a = out@;
        match &self.code {
            Some(c) => {
                out.append(" ");
                out.append(c.as_str());
                assert(out@ =~= a + (" "@ + c@));
            },
            None => {
                assert(out@ =~= a + Seq::<char>::empty());
            },
        }
        out.append(" ");
        out.append(self.message.as_str());
        let ghost b = out@;
        match &self.source {
            Some(s) => {
                out.append(" (");
                out.append(s.as_str());
                out.append(")");
                assert(out@ =~= b + (" ("@ + s@ + ")"@));
            },
            None => {
                assert(out@ =~= b + Seq::<char>::empty());
            },
        }
        out
    }
}

/// The numbers of the protocol go from errors down to hints; the labels say which it is.
pub proof fn severities_follow_the_protocol()
    ensures
        severity(1) == DiagnosticSeverity::Error,
        severity(2) == DiagnosticSeverity::Warning,
        severity(3) == DiagnosticSeverity::Info,
        severity(4) == DiagnosticSeverity::Hint,
        severity_label(DiagnosticSeverity::Error) == "ERROR"@,
        severity_label(DiagnosticSeverity::Warning) == "WARN"@,
        severity_label(DiagnosticSeverity::Info) == "INFO"@,
        severity_label(DiagnosticSeverity::Hint) == "HINT"@,
{
}

/// A diagnostic on one line says where it is, how bad it is and what it is, and its code
/// and source where it has them.
pub proof fn diagnostic_lines_say_where_and_what(d: DiagnosticView)
    ensures
        starts_with(
            diagnostic_line(d),
            d.file + ":"@ + decimal(d.line as nat) + ":"@ + decimal(d.column as nat) + " ["@ + severity_label(
                d.severity,
            ) + "]"@,
        ),
        contains(diagnostic_line(d), " "@ + d.message),
        d.code is Some ==> contains(diagnostic_line(d), " "@ + d.code->0 + " "@ + d.message),
        d.source is Some ==> contains(diagnostic_line(d), d.message + " ("@ + d.source->0 + ")"@),
{
    let head = d.file + ":"@ + decimal(d.line as nat) + ":"@ + decimal(d.column as nat) + " ["@ + severity_label(
        d.severity,
    ) + "]"@;
    let code = match d.code {
        Some(c) => " "@ + c,
        None => Seq::empty(),
    };
    let source = match d.source {
        Some(s) => " ("@ + s + ")"@,
        None => Seq::empty(),
    };
    assert(diagnostic_line(d) =~= head + code + " "@ + d.message + source);
    lemma_line_parts(head, code, d.message, source);
    if d.code is Some {
        assert(code + " "@ + d.message =~= " "@ + d.code->0 + " "@ + d.message);
    }
    if d.source is Some {
        assert(d.message + source =~= d.message + " ("@ + d.source->0 + ")"@);
    }
}

proof fn lemma_line_parts(head: Seq<char>, code: Seq<char>, message: Seq<char>, source: Seq<char>)
    ensures
        starts_with(head + code + " "@ + message + source, head),
        contains(head + code + " "@ + message + source, " "@ + message),
        contains(head + code + " "@ + message + source, code + " "@ + message),
        contains(head + code + " "@ + message + source, message + source),
{
    let sp = " "@;
    let all = head + code + sp + message + source;
    assert(all.subrange(0, head.len() as int) =~= head);
    lemma_message_part(head, code, sp, message, source);
    lemma_code_part(head, code, sp, message, source);
    lemma_source_part(head, code, sp, message, source);
}

proof fn lemma_message_part(h: Seq<char>, c: Seq<char>, sp: Seq<char>, m: Seq<char>, s: Seq<char>)
    ensures
        contains(h + c + sp + m + s, sp + m),
{
    let all = h + c + sp + m + s;
    assert(all =~= (h + c) + (sp + m) + s);
    lemma_holds(all, h + c, sp + m, s);
}

proof fn lemma_code_part(h: Seq<char>, c: Seq<char>, sp: Seq<char>, m: Seq<char>, s: Seq<char>)
    ensures
        contains(h + c + sp + m + s, c + sp + m),
{
    let all = h + c + sp + m + s;
    assert(all =~= h + (c + sp + m) + s);
    lemma_holds(all, h, c + sp + m, s);
}

proof fn lemma_source_part(h: Seq<char>, c: Seq<char>, sp: Seq<char>, m: Seq<char>, s: Seq<char>)
    ensures
        contains(h + c + sp + m + s, m + s),
{
    let all = h + c + sp + m + s;
    assert(all =~= (h + c + sp) + (m + s) + Seq::<char>::empty());
    lemma_holds(all, h + c + sp, m + s, Seq::empty());
}

} // verus!
