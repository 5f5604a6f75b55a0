//! File paths as `file://` URIs.

use vstd::prelude::*;
use vstd::string::*;
use vstd::utf8::{encode_scalar, encode_utf8, encode_utf8_decode_utf8};

use crate::paths::{canonical, canonical_path, is_segment, path_view};
use crate::text::{byte_count, join, lemma_split_on_nonempty, opt, split_on, starts_with, starts_with_text};

verus! {

#[verifier::external_type_specification]
#[verifier::external_body]
pub struct ExUrl(url::Url);

/// The text of a URL.
pub uninterp spec fn url_text(u: url::Url) -> Seq<char>;

/// The text of the URL that a text is read as, if it is read as one.
pub uninterp spec fn url_parsed(text: Seq<char>) -> Option<Seq<char>>;

/// The bytes of the local path that a URL stands for, if it stands for one on the
/// platform that the library is built for.
pub uninterp spec fn url_file_path(url: Seq<char>) -> Option<Seq<u8>>;

/// The text of the URL of a local path, if the path has one on the platform that
/// the library is built for.
pub uninterp spec fn file_path_url(path: Seq<char>) -> Option<Seq<char>>;

/// `url::Url::parse`.
#[verifier::external_body]
fn parse_url(text: &str) -> (r: Option<url::Url>)
    ensures
        match r {
            Some(u) => url_parsed(text@) == Some(url_text(u)),
            None => url_parsed(text@) is None,
        },
{
    url::Url::parse(text).ok()
}

/// `url::Url::to_file_path`: a function of the URL's text. The path is handed on in
/// the bytes that it is kept in, whether they are text or not.
#[verifier::external_body]
fn url_to_path(u: &url::Url) -> (r: Option<Vec<u8>>)
    ensures
        opt_bytes(r) == url_file_path(url_text(*u)),
{
    u.to_file_path().ok().map(|p| p.into_os_string().into_encoded_bytes())
}

pub open spec fn opt_bytes(b: Option<Vec<u8>>) -> Option<Seq<u8>> {
    match b {
        Some(v) => Some(v@),
        None => None,
    }
}

/// What is shown for a row of bytes.
pub uninterp spec fn lossy_text(bytes: Seq<u8>) -> Seq<char>;

/// `String::from_utf8_lossy`: the text whose UTF-8 the bytes are. Where they are no
/// UTF-8, the text has replacement characters in it, and nothing is said of it but
/// that the bytes decide it.
#[verifier::external_body]
fn show_bytes(bytes: &[u8]) -> (r: String)
    ensures
        r@ == lossy_text(bytes@),
        forall|s: Seq<char>| bytes@ == #[trigger] encode_utf8(s) ==> r@ == s,
{
    String::from_utf8_lossy(bytes).into_owned()
}

/// Whether a path that is text is shown as the text.
pub open spec fn shows_texts(path: Seq<u8>) -> bool {
    forall|s: Seq<char>| path == #[trigger] encode_utf8(s) ==> lossy_text(path) == s
}

/// A local path in bytes. The path that a text stands for is the text in UTF-8; not
/// every path is text.
#[derive(Debug)]
pub struct LocalPath {
    pub bytes: Vec<u8>,
}

impl View for LocalPath {
    type V = Seq<u8>;

    open spec fn view(&self) -> Seq<u8> {
        self.bytes@
    }
}

/// Bytes taken as characters, one by one.
pub open spec fn byte_text(b: Seq<u8>) -> Seq<char> {
    b.map_values(|x: u8| x as char)
}

/// The text that a path is found under: the same for two paths where they differ in
/// nothing but separators and dots that make no difference.
pub open spec fn path_key(path: Seq<u8>) -> Seq<char> {
    canonical(byte_text(path))
}

fn key_of_bytes(bytes: &[u8]) -> (r: String)
    ensures
        r@ == path_key(bytes@),
{
    let mut out = String::new();
    let mut i: usize = 0;
    assert(out@ =~= byte_text(bytes@.take(0)));
    while i < bytes.len()
        invariant
            i <= bytes.len(),
            out@ == byte_text(bytes@.take(i as int)),
        decreases bytes.len() - i,
    {
        let ghost was = out@;
        let b: u8 = bytes[i];
        out.push(b as char);
        i = i + 1;
        assert(byte_text(bytes@.take(i as int)) =~= was.push(b as char));
    }
    assert(bytes@.take(i as int) =~= bytes@);
    canonical_path(out.as_str())
}

/// What the path of a text is found under.
pub fn text_key(path: &str) -> (r: String)
    ensures
        r@ == path_key(encode_utf8(path@)),
{
    key_of_bytes(path.as_bytes())
}

impl LocalPath {
    /// The path that a text stands for.
    pub fn of_text(text: &str) -> (r: LocalPath)
        ensures
            r@ == encode_utf8(text@),
    {
        LocalPath { bytes: text.as_bytes_vec() }
    }

    /// What the path is found under.
    pub fn key(&self) -> (r: String)
        ensures
            r@ == path_key(self@),
    {
        key_of_bytes(self.bytes.as_slice())
    }

    /// The path as it is shown: the text that it is, where it is text.
    pub fn shown(&self) -> (r: String)
        ensures
            r@ == lossy_text(self@),
            shows_texts(self@),
    {
        show_bytes(self.bytes.as_slice())
    }
}

/// Whether a path is written in one way only and needs no attention: it starts at
/// the root, no name in it is empty or made of one or two dots, and nothing in it
/// can be taken for a drive. Its URL stays below four gigabytes.
pub open spec fn plain_path(p: Seq<char>) -> bool {
    &&& p.len() > 1 && p[0] == '/'
    &&& !p.contains(':') && !p.contains('|')
    &&& forall|i: int|
        0 <= i < split_on(p.drop_first(), '/').len() ==> {
            let name = #[trigger] split_on(p.drop_first(), '/')[i];
            name.len() > 0 && name != "."@ && name != ".."@
        }
    &&& byte_count(p) <= 0x1000_0000
}

/// `url::Url::from_file_path`, and the URL's text. The names in the path are percent
/// encoded one by one, with all that a URL's syntax could take another way, so the
/// URL of a plain path is read as itself and stands for that path again. Whether a
/// path has a URL is left to the platform.
#[verifier::external_body]
fn path_to_url(path: &str) -> (r: Option<String>)
    ensures
        opt(r) == file_path_url(path@),
        r is Some ==> starts_with(r->0@, "file://"@),
        r is Some && plain_path(path@) ==> url_parsed(r->0@) == Some(r->0@) && url_file_path(r->0@) == Some(
            encode_utf8(path@),
        ),
{
    url::Url::from_file_path(path).ok().map(|u| u.to_string())
}

/// The path that `decoded` gives for `uri`, or the URI itself as a path.
pub open spec fn path_or_uri(uri: Seq<char>, decoded: Option<Seq<u8>>) -> Seq<u8> {
    match decoded {
        Some(p) => if starts_with(uri, "file://"@) {
            p
        } else {
            encode_utf8(uri)
        },
        None => encode_utf8(uri),
    }
}

/// The path that a URI stands for.
pub open spec fn uri_path(uri: Seq<char>) -> Seq<u8> {
    path_or_uri(
        uri,
        match url_parsed(uri) {
            Some(u) => url_file_path(u),
            None => None,
        },
    )
}

/// Picks the path of a URI, given what the URI decodes to.
pub fn decoded_path(uri: &str, decoded: Option<Vec<u8>>) -> (r: LocalPath)
    ensures
        r@ == path_or_uri(uri@, opt_bytes(decoded)),
{
    match decoded {
        Some(bytes) => if starts_with_text(uri, "file://") {
            LocalPath { bytes }
        } else {
            LocalPath::of_text(uri)
        },
        None => LocalPath::of_text(uri),
    }
}

/// The path that a URI stands for. What is no `file://` URI, or does not decode,
/// is taken as a path as it is.
pub fn uri_to_path(uri: &str) -> (r: LocalPath)
    ensures
        r@ == uri_path(uri@),
{
    let decoded = match parse_url(uri) {
        Some(u) => url_to_path(&u),
        None => None,
    };
    decoded_path(uri, decoded)
}

/// The URI that `encoded` gives for `path`, or the plain one.
pub open spec fn uri_or_plain(path: Seq<char>, encoded: Option<Seq<char>>) -> Seq<char> {
    match encoded {
        Some(u) => u,
        None => "file://"@ + path,
    }
}

pub open spec fn path_uri(path: Seq<char>) -> Seq<char> {
    uri_or_plain(path, file_path_url(path))
}

/// Picks the URI of a path, given the URL that the path encodes to.
pub fn encoded_uri(path: &str, encoded: Option<String>) -> (r: String)
    ensures
        r@ == uri_or_plain(path@, opt(encoded)),
{
    match encoded {
        Some(u) => u,
        None => {
            let mut out: String = "file://".to_owned();
            out.append(path);
            out
        },
    }
}

/// The URI of a local path. A path without a URL of its own is put behind
/// `file://` as it is. The URI of a plain path is read back as that path.
pub fn path_to_uri(path: &str) -> (r: String)
    ensures
        r@ == path_uri(path@),
        starts_with(r@, "file://"@),
        plain_path(path@) && file_path_url(path@) is Some ==> uri_path(r@) == encode_utf8(path@),
{
    let encoded = path_to_url(path);
    assert(("file://"@ + path@).subrange(0, "file://"@.len() as int) =~= "file://"@);
    encoded_uri(path, encoded)
}

// ---- The keys of paths that are text ----

/// A text's UTF-8, with its bytes taken as characters.
pub open spec fn widened(s: Seq<char>) -> Seq<char> {
    byte_text(encode_utf8(s))
}

/// Below 128 a character's only byte is itself; from there on all its bytes are too.
proof fn lemma_scalar_bytes(c: char)
    ensures
        (c as u32) < 0x80 ==> byte_text(encode_scalar(c as u32)) == seq![c],
        (c as u32) >= 0x80 ==> forall|i: int|
            0 <= i < encode_scalar(c as u32).len() ==> (#[trigger] byte_text(encode_scalar(c as u32))[i]) as u32
                >= 0x80,
        encode_scalar(c as u32).len() > 0,
{
    let u = c as u32;
    if u < 0x80 {
        assert((u & 0x7F) as u8 == u as u8) by (bit_vector)
            requires
                u < 0x80,
        ;
        assert(byte_text(encode_scalar(u)) =~= seq![c]);
    } else {
        assert forall|x: u8| 0xC0u8 | x >= 0x80 by {
            assert(0xC0u8 | x >= 0x80) by (bit_vector);
        }
        assert forall|x: u8| 0xE0u8 | x >= 0x80 by {
            assert(0xE0u8 | x >= 0x80) by (bit_vector);
        }
        assert forall|x: u8| 0xF0u8 | x >= 0x80 by {
            assert(0xF0u8 | x >= 0x80) by (bit_vector);
        }
        assert forall|x: u8| 0x80u8 | x >= 0x80 by {
            assert(0x80u8 | x >= 0x80) by (bit_vector);
        }
    }
}

proof fn lemma_widened_push(s: Seq<char>, c: char)
    ensures
        widened(s.push(c)) == widened(s) + byte_text(encode_scalar(c as u32)),
    decreases s.len(),
{
    let all = s.push(c);
    if s.len() == 0 {
        assert(all.drop_first() =~= s);
        assert(all[0] == c);
        assert(encode_utf8(s) =~= Seq::<u8>::empty());
        assert(encode_utf8(all) =~= encode_scalar(c as u32) + encode_utf8(all.drop_first()));
        assert(encode_utf8(all) =~= encode_scalar(c as u32));
        assert(widened(all) =~= widened(s) + byte_text(encode_scalar(c as u32)));
    } else {
        lemma_widened_push(s.drop_first(), c);
        assert(all.drop_first() =~= s.drop_first().push(c));
        assert(widened(all) =~= byte_text(encode_scalar(s[0] as u32)) + widened(s.drop_first().push(c)));
        assert(widened(s) =~= byte_text(encode_scalar(s[0] as u32)) + widened(s.drop_first()));
        assert(widened(all) =~= widened(s) + byte_text(encode_scalar(c as u32)));
    }
}

proof fn lemma_widened_sum(a: Seq<char>, b: Seq<char>)
    ensures
        widened(a + b) == widened(a) + widened(b),
    decreases b.len(),
{
    if b.len() == 0 {
        assert(a + b =~= a);
        assert(widened(a) + widened(b) =~= widened(a));
    } else {
        let t = b.drop_last();
        lemma_widened_sum(a, t);
        lemma_widened_push(a + t, b.last());
        lemma_widened_push(t, b.last());
        assert((a + t).push(b.last()) =~= a + b);
        assert(t.push(b.last()) =~= b);
        assert(widened(a + b) =~= widened(a) + widened(b));
    }
}

proof fn lemma_widened_apart(a: Seq<char>, b: Seq<char>)
    requires
        widened(a) == widened(b),
    ensures
        a == b,
{
    let x = encode_utf8(a);
    let y = encode_utf8(b);
    assert(byte_text(x).len() == byte_text(y).len());
    assert forall|i: int| 0 <= i < x.len() implies x[i] == y[i] by {
        assert(byte_text(x)[i] == byte_text(y)[i]);
    }
    assert(x =~= y);
    encode_utf8_decode_utf8(a);
    encode_utf8_decode_utf8(b);
}

proof fn lemma_widened_ascii(c: char)
    requires
        (c as u32) < 0x80,
    ensures
        widened(seq![c]) == seq![c],
{
    lemma_scalar_bytes(c);
    lemma_widened_push(Seq::empty(), c);
    assert(Seq::<char>::empty().push(c) =~= seq![c]);
    assert(widened(Seq::empty()) =~= Seq::<char>::empty());
    assert(widened(seq![c]) =~= seq![c]);
}

proof fn lemma_split_append(s: Seq<char>, t: Seq<char>)
    requires
        forall|i: int| 0 <= i < t.len() ==> t[i] != '/',
    ensures
        split_on(s + t, '/') == split_on(s, '/').drop_last().push(split_on(s, '/').last() + t),
    decreases t.len(),
{
    lemma_split_on_nonempty(s, '/');
    let parts = split_on(s, '/');
    if t.len() == 0 {
        assert(s + t =~= s);
        assert(parts.last() + t =~= parts.last());
        assert(parts.drop_last().push(parts.last()) =~= parts);
    } else {
        let u = t.drop_last();
        lemma_split_append(s, u);
        assert((s + t).drop_last() =~= s + u);
        assert((s + t).last() == t.last());
        assert(t[t.len() - 1] != '/');
        assert((parts.last() + u).push(t.last()) =~= parts.last() + t);
        assert(parts.drop_last().push(parts.last() + u).drop_last() =~= parts.drop_last());
    }
}

pub open spec fn widened_all(parts: Seq<Seq<char>>) -> Seq<Seq<char>> {
    parts.map_values(|s: Seq<char>| widened(s))
}

proof fn lemma_split_widened(p: Seq<char>)
    ensures
        split_on(widened(p), '/') == widened_all(split_on(p, '/')),
    decreases p.len(),
{
    lemma_split_on_nonempty(p, '/');
    if p.len() == 0 {
        assert(widened(p) =~= p);
        assert(widened(Seq::empty()) =~= Seq::<char>::empty());
        assert(widened_all(split_on(p, '/')) =~= split_on(p, '/'));
    } else {
        let q = p.drop_last();
        let c = p.last();
        let parts = split_on(q, '/');
        lemma_split_on_nonempty(q, '/');
        lemma_split_widened(q);
        lemma_widened_push(q, c);
        assert(q.push(c) =~= p);
        lemma_scalar_bytes(c);
        let more = byte_text(encode_scalar(c as u32));
        if c == '/' {
            assert(widened(p) =~= widened(q).push('/'));
            assert(widened(p).drop_last() =~= widened(q));
            assert(widened(Seq::empty()) =~= Seq::<char>::empty());
            assert(widened_all(parts.push(Seq::empty())) =~= widened_all(parts).push(Seq::empty()));
        } else {
            lemma_split_append(widened(q), more);
            lemma_widened_push(parts.last(), c);
            assert(widened_all(parts).last() == widened(parts.last()));
            assert(widened_all(parts.drop_last().push(parts.last().push(c))) =~= widened_all(parts).drop_last().push(
                widened(parts.last()) + more,
            ));
        }
    }
}

proof fn lemma_widened_segment(s: Seq<char>)
    ensures
        is_segment(widened(s)) == is_segment(s),
{
    if s.len() == 0 {
        assert(widened(s) =~= s);
    } else {
        lemma_scalar_bytes(s[0]);
        lemma_widened_ascii('.');
        if widened(s) == seq!['.'] {
            lemma_widened_apart(s, seq!['.']);
        }
    }
}

proof fn lemma_filter_widened(parts: Seq<Seq<char>>)
    ensures
        widened_all(parts).filter(|s: Seq<char>| is_segment(s)) == widened_all(
            parts.filter(|s: Seq<char>| is_segment(s)),
        ),
    decreases parts.len(),
{
    let keep = |s: Seq<char>| is_segment(s);
    reveal(Seq::filter);
    if parts.len() == 0 {
        assert(widened_all(parts).filter(keep) =~= widened_all(parts.filter(keep)));
    } else {
        lemma_filter_widened(parts.drop_last());
        lemma_widened_segment(parts.last());
        assert(widened_all(parts).drop_last() =~= widened_all(parts.drop_last()));
        assert(widened_all(parts).last() == widened(parts.last()));
        assert(widened_all(parts).filter(keep) =~= widened_all(parts.filter(keep)));
    }
}

proof fn lemma_join_widened(parts: Seq<Seq<char>>)
    ensures
        join(widened_all(parts), seq!['/']) == widened(join(parts, seq!['/'])),
    decreases parts.len(),
{
    if parts.len() == 0 {
        assert(widened(Seq::empty()) =~= Seq::<char>::empty());
    } else if parts.len() > 1 {
        let before = join(parts.drop_last(), seq!['/']);
        lemma_join_widened(parts.drop_last());
        assert(widened_all(parts).drop_last() =~= widened_all(parts.drop_last()));
        lemma_widened_ascii('/');
        lemma_widened_sum(before, seq!['/']);
        lemma_widened_sum(before + seq!['/'], parts.last());
    }
}

/// The key of a path that is text is the UTF-8 of the text without the separators
/// and dots that make no difference.
pub proof fn keys_of_texts_are_canonical(p: Seq<char>)
    ensures
        path_key(encode_utf8(p)) == widened(canonical(p)),
{
    let v = path_view(p);
    let w = path_view(widened(p));
    lemma_split_on_nonempty(p, '/');
    lemma_split_widened(p);
    lemma_filter_widened(split_on(p, '/'));
    lemma_join_widened(v.names);
    lemma_widened_ascii('.');
    lemma_widened_ascii('/');
    lemma_widened_sum(seq!['/'], join(v.names, seq!['/']));
    lemma_widened_sum(seq!['.'], seq!['/']);
    lemma_widened_sum(seq!['.', '/'], join(v.names, seq!['/']));
    assert(seq!['.'] + seq!['/'] =~= seq!['.', '/']);
    assert(w.names == widened_all(v.names));
    assert(w.names.len() == v.names.len());
    if p.len() > 0 {
        lemma_scalar_bytes(p[0]);
        assert(widened(p)[0] == byte_text(encode_scalar(p[0] as u32))[0]);
    }
    assert(w.root == v.root);
    let first = split_on(p, '/')[0];
    assert(split_on(widened(p), '/')[0] == widened(first));
    if widened(first) == seq!['.'] {
        lemma_widened_apart(first, seq!['.']);
    }
    assert(w.here == v.here);
}

/// Two texts have the same key where they name the same path.
pub proof fn keys_tell_texts_apart(a: Seq<char>, b: Seq<char>)
    ensures
        path_key(encode_utf8(a)) == path_key(encode_utf8(b)) <==> canonical(a) == canonical(b),
{
    keys_of_texts_are_canonical(a);
    keys_of_texts_are_canonical(b);
    if widened(canonical(a)) == widened(canonical(b)) {
        lemma_widened_apart(canonical(a), canonical(b));
    }
}

/// A `file://` URI that decodes stands for what it decodes to; every other text is a path
/// as it is.
pub proof fn only_file_uris_are_decoded(uri: Seq<char>, decoded: Seq<u8>)
    ensures
        starts_with(uri, "file://"@) ==> path_or_uri(uri, Some(decoded)) == decoded,
        !starts_with(uri, "file://"@) ==> path_or_uri(uri, Some(decoded)) == encode_utf8(uri),
        path_or_uri(uri, None) == encode_utf8(uri),
        uri_or_plain(uri, None) == "file://"@ + uri,
        uri_or_plain(Seq::empty(), Some(uri)) == uri,
{
}

} // verus!
