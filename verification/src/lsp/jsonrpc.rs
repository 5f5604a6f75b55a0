//! JSON-RPC messages and their framing: a header of lines, an empty line, and
//! a body of as many bytes as the header says.

use vstd::prelude::*;
use vstd::string::*;

use crate::json::{
    digits_number, is_digit, json_bytes, lemma_decimal_reads_back, opt_json, parse_json_bytes, unsigned, Json,
};
use crate::text::{
    chars_of, decimal, push_decimal, starts_with, strip_prefix_text, trim, trim_end, trim_start, trim_text, without_prefix,
};

verus! {

#[derive(Debug)]
pub struct Request {
    pub jsonrpc: String,
    pub id: u64,
    pub method: String,
    pub params: Option<Json>,
}

#[derive(Debug)]
pub struct Notification {
    pub jsonrpc: String,
    pub method: String,
    pub params: Option<Json>,
}

/// A message with an id, which will be answered.
pub fn request(id: u64, method: &str, params: Option<Json>) -> (r: Request)
    ensures
        r.jsonrpc@ == "2.0"@,
        r.id == id,
        r.method@ == method@,
        r.params == params,
{
    Request { jsonrpc: "2.0".to_owned(), id, method: method.to_owned(), params }
}

/// A message without an id, which will not be answered.
pub fn notification(method: &str, params: Option<Json>) -> (r: Notification)
    ensures
        r.jsonrpc@ == "2.0"@,
        r.method@ == method@,
        r.params == params,
{
    Notification { jsonrpc: "2.0".to_owned(), method: method.to_owned(), params }
}

/// The header of a body of `n` bytes.
pub open spec fn header(n: nat) -> Seq<char> {
    "Content-Length: "@ + decimal(n) + "\r\n\r\n"@
}

/// The bytes of an ASCII text.
pub open spec fn ascii_bytes(s: Seq<char>) -> Seq<u8> {
    s.map_values(|c: char| c as u8)
}

/// Frames a body for the wire.
pub fn encode(body: &[u8]) -> (r: Vec<u8>)
    ensures
        r@ == ascii_bytes(header(body@.len())) + body@,
{
    let mut head: String = "Content-Length: ".to_owned();
    push_decimal(&mut head, body.len() as u64);
    head.append("\r\n\r\n");
    let chars = chars_of(head.as_str());
    let mut out: Vec<u8> = Vec::new();
    let mut i: usize = 0;
    while i < chars.len()
        invariant
            i <= chars.len(),
            out@ =~= ascii_bytes(chars@.take(i as int)),
        decreases chars.len() - i,
    {
        assert(chars@.take(i + 1) =~= chars@.take(i as int).push(chars@[i as int]));
        out.push(chars[i] as u8);
        i = i + 1;
    }
    assert(chars@.take(i as int) =~= chars@);
    let mut k: usize = 0;
    while k < body.len()
        invariant
            k <= body.len(),
            out@ =~= ascii_bytes(header(body@.len())) + body@.take(k as int),
        decreases body.len() - k,
    {
        out.push(body[k]);
        k = k + 1;
    }
    assert(body@.take(k as int) =~= body@);
    out
}

#[derive(Debug, Clone, Copy, PartialEq, Eq, Structural)]
pub enum ReadError {
    /// The input ended inside the header.
    Eof,
    /// The length in the header is not a number that fits.
    BadLength,
    /// The header ended without a length, or with a length of zero.
    NoLength,
}

impl ReadError {
    pub fn text(&self) -> (r: &'static str)
        ensures
            r@ == match *self {
                ReadError::Eof => "EOF while reading LSP header"@,
                ReadError::BadLength => "Invalid Content-Length in LSP header"@,
                ReadError::NoLength => "No Content-Length in LSP message"@,
            },
    {
        match self {
            ReadError::Eof => "EOF while reading LSP header",
            ReadError::BadLength => "Invalid Content-Length in LSP header",
            ReadError::NoLength => "No Content-Length in LSP message",
        }
    }
}

/// What to do after a line of the header.
#[derive(Debug, Clone, Copy, PartialEq, Eq, Structural)]
pub enum ReadStep {
    /// Read another line; the length so far.
    Line(usize),
    /// Read a body of this many bytes.
    Body(usize),
    Failed(ReadError),
}

/// The length that a text of digits stands for; a leading plus is allowed.
pub open spec fn length_value(s: Seq<char>) -> Option<usize> {
    match unsigned(if s.len() > 0 && s[0] == '+' { s.drop_first() } else { s }) {
        Some(n) => if n <= usize::MAX {
            Some(n as usize)
        } else {
            None
        },
        None => None,
    }
}

/// What a line of the header calls for, after earlier lines gave `length`.
/// No line at all is the end of the input.
pub open spec fn header_step(length: usize, line: Option<Seq<char>>) -> ReadStep {
    match line {
        None => ReadStep::Failed(ReadError::Eof),
        Some(l) => {
            let t = trim(l);
            if t.len() == 0 {
                if length == 0 {
                    ReadStep::Failed(ReadError::NoLength)
                } else {
                    ReadStep::Body(length)
                }
            } else {
                match without_prefix(t, "Content-Length:"@) {
                    Some(rest) => match length_value(trim(rest)) {
                        Some(n) => ReadStep::Line(n),
                        None => ReadStep::Failed(ReadError::BadLength),
                    },
                    None => ReadStep::Line(length),
                }
            }
        },
    }
}

fn parse_length(s: &str) -> (r: Option<usize>)
    ensures
        r == length_value(s@),
{
    let v = chars_of(s);
    let mut from: usize = 0;
    if v.len() > 0 && v[0] == '+' {
        from = 1;
        assert(v@.skip(1) =~= v@.drop_first());
    } else {
        assert(v@.skip(0) =~= v@);
    }
    match digits_number(&v, from) {
        Some(n) => if n <= usize::MAX as u64 {
            Some(n as usize)
        } else {
            None
        },
        None => None,
    }
}

/// Takes one line of a header in.
pub fn read_header_line(length: usize, line: Option<&str>) -> (r: ReadStep)
    ensures
        r == header_step(
            length,
            match line {
                Some(l) => Some(l@),
                None => None,
            },
        ),
{
    match line {
        None => ReadStep::Failed(ReadError::Eof),
        Some(l) => {
            let t = trim_text(l);
            if t.as_str().is_empty() {
                if length == 0 {
                    return ReadStep::Failed(ReadError::NoLength);
                }
                return ReadStep::Body(length);
            }
            match strip_prefix_text(t.as_str(), "Content-Length:") {
                Some(rest) => {
                    let digits = trim_text(rest.as_str());
                    match parse_length(digits.as_str()) {
                        Some(n) => ReadStep::Line(n),
                        None => ReadStep::Failed(ReadError::BadLength),
                    }
                },
                None => ReadStep::Line(length),
            }
        },
    }
}

/// Reads a body.
pub fn read_body(body: &[u8]) -> (r: Option<Json>)
    ensures
        opt_json(r) == json_bytes(body@),
{
    parse_json_bytes(body)
}

/// The header of a body, line by line, leads a reader to the length of the
/// body.
pub proof fn framed_length_is_read_back(n: usize)
    requires
        n > 0,
    ensures
        header(n as nat) == "Content-Length: "@ + decimal(n as nat) + "\r\n"@ + "\r\n"@,
        header_step(0, Some("Content-Length: "@ + decimal(n as nat) + "\r\n"@)) == ReadStep::Line(n),
        header_step(n, Some("\r\n"@)) == ReadStep::Body(n),
{
    reveal_strlit("Content-Length: ");
    reveal_strlit("Content-Length:");
    reveal_strlit("\r\n");
    reveal_strlit("\r\n\r\n");
    reveal_with_fuel(trim_start, 3);
    let d = decimal(n as nat);
    lemma_decimal_reads_back(n as nat);
    assert("\r\n\r\n"@ =~= "\r\n"@ + "\r\n"@);
    assert(header(n as nat) =~= "Content-Length: "@ + d + "\r\n"@ + "\r\n"@);
    let line = "Content-Length: "@ + d + "\r\n"@;
    let t = "Content-Length: "@ + d;
    assert(is_digit(d[0]) && is_digit(d.last()));
    assert(trim_start(line) == line);
    assert(line.drop_last() =~= t + seq!['\r']);
    assert((t + seq!['\r']).drop_last() =~= t);
    assert(t.last() == d.last());
    assert(trim_end(t) == t);
    assert(trim_end(t + seq!['\r']) == t);
    assert(trim(line) == t);
    assert(t.subrange(0, "Content-Length:"@.len() as int) =~= "Content-Length:"@);
    assert(starts_with(t, "Content-Length:"@));
    let rest = t.skip("Content-Length:"@.len() as int);
    assert(rest =~= seq![' '] + d);
    assert(rest.drop_first() =~= d);
    assert(trim_start(d) == d);
    assert(trim_start(rest) == d);
    assert(trim(rest) == d);
    assert(unsigned(d) == Some(n as u64));
    assert("\r\n"@.drop_first() =~= seq!['\n']);
    assert(seq!['\n'].drop_first() =~= Seq::<char>::empty());
    assert(trim_start(seq!['\n']) == Seq::<char>::empty());
    assert(trim_start("\r\n"@) == Seq::<char>::empty());
}

/// An empty line ends the header: the body has the length that was given, and a header
/// without one, or with a length of zero, is refused. Lines other than that of the length
/// change nothing, and the end of the input within the header is an error.
pub proof fn headers_lead_to_the_body(length: usize, line: Seq<char>)
    ensures
        header_step(length, None) == ReadStep::Failed(ReadError::Eof),
        trim(line).len() == 0 && length > 0 ==> header_step(length, Some(line)) == ReadStep::Body(length),
        trim(line).len() == 0 && length == 0 ==> header_step(length, Some(line)) == ReadStep::Failed(
            ReadError::NoLength,
        ),
        trim(line).len() > 0 && !starts_with(trim(line), "Content-Length:"@) ==> header_step(length, Some(line))
            == ReadStep::Line(length),
        starts_with(trim(line), "Content-Length:"@) && unsigned(trim(trim(line).skip(15))) is Some && unsigned(
            trim(trim(line).skip(15)),
        )->0 <= usize::MAX && trim(trim(line).skip(15))[0] != '+' ==> header_step(length, Some(line))
            == ReadStep::Line(unsigned(trim(trim(line).skip(15)))->0 as usize),
        starts_with(trim(line), "Content-Length:"@) && trim(trim(line).skip(15)).len() == 0 ==> header_step(
            length,
            Some(line),
        ) == ReadStep::Failed(ReadError::BadLength),
{
    reveal_strlit("Content-Length:");
    assert("Content-Length:"@.len() == 15);
}

} // verus!
