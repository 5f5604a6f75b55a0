//! Text as sequences of characters: the string operations that the rest of
//! the library is stated over.

use vstd::prelude::*;
use vstd::string::*;
use vstd::utf8::{encode_utf8, is_ascii_chars, is_ascii_chars_encode_utf8};

verus! {

/// `String::push` appends one character.
pub assume_specification[ String::push ](s: &mut String, c: char)
    ensures
        final(s)@ == old(s)@.push(c),
;

/// What `str::to_lowercase` gives for a text.
pub uninterp spec fn lowercase(s: Seq<char>) -> Seq<char>;

/// `str::to_lowercase` gives the lower case of a text by the Unicode tables of
/// the standard library; on ASCII text it lowers each letter.
pub assume_specification[ str::to_lowercase ](s: &str) -> (r: String)
    ensures
        r@ == lowercase(s@),
        is_ascii_chars(s@) ==> r@ == ascii_lower_text(s@),
;

/// The length of a text in UTF-8 bytes.
pub open spec fn byte_count(s: Seq<char>) -> nat {
    encode_utf8(s).len()
}

/// The length of `s` in bytes.
pub fn byte_len(s: &str) -> (n: usize)
    ensures
        n == byte_count(s@),
{
    s.as_bytes().len()
}

/// The characters of `s`.
pub fn chars_of(s: &str) -> (v: Vec<char>)
    ensures
        v@ == s@,
{
    let mut v: Vec<char> = Vec::new();
    for c in it: s.chars()
        invariant
            it.seq() == s@,
            v@ == s@.take(it.index() as int),
    {
        v.push(c);
        assert(s@.take(it.index() as int).push(c) == s@.take(it.index() + 1));
    }
    assert(s@.take(s@.len() as int) == s@);
    v
}

/// The string of the characters `from..to` of `v`.
pub fn string_of(v: &Vec<char>, from: usize, to: usize) -> (s: String)
    requires
        from <= to <= v.len(),
    ensures
        s@ == v@.subrange(from as int, to as int),
{
    let mut s = String::new();
    let mut i: usize = from;
    while i < to
        invariant
            from <= i <= to <= v.len(),
            s@ == v@.subrange(from as int, i as int),
        decreases to - i,
    {
        s.push(v[i]);
        i = i + 1;
        assert(v@.subrange(from as int, i as int) == v@.subrange(from as int, i - 1).push(v@[i - 1]));
    }
    s
}

/// Whether two texts are equal.
pub fn same(a: &str, b: &str) -> (r: bool)
    ensures
        r == (a@ == b@),
{
    let x = chars_of(a);
    let y = chars_of(b);
    same_chars(&x, &y)
}

pub fn same_chars(x: &Vec<char>, y: &Vec<char>) -> (r: bool)
    ensures
        r == (x@ == y@),
{
    if x.len() != y.len() {
        return false;
    }
    let mut i: usize = 0;
    while i < x.len()
        invariant
            i <= x.len() == y.len(),
            forall|k: int| 0 <= k < i ==> x@[k] == y@[k],
        decreases x.len() - i,
    {
        if x[i] != y[i] {
            assert(x@[i as int] != y@[i as int]);
            return false;
        }
        i = i + 1;
    }
    assert(x@ == y@);
    true
}

/// The decimal digit `d` as a character.
pub open spec fn digit(d: nat) -> char {
    (48 + d) as char
}

/// The decimal notation of `n`.
pub open spec fn decimal(n: nat) -> Seq<char>
    decreases n,
{
    if n < 10 {
        seq![digit(n)]
    } else {
        decimal(n / 10).push(digit(n % 10))
    }
}

pub fn push_decimal(out: &mut String, n: u64)
    ensures
        final(out)@ == old(out)@ + decimal(n as nat),
    decreases n,
{
    if n >= 10 {
        push_decimal(out, n / 10);
    }
    let d: u8 = 48 + (n % 10) as u8;
    out.push(d as char);
    assert(out@ == old(out)@ + decimal(n as nat));
}

/// The decimal notation of a signed number.
pub open spec fn decimal_int(i: int) -> Seq<char> {
    if i < 0 {
        seq!['-'] + decimal((-i) as nat)
    } else {
        decimal(i as nat)
    }
}

pub fn push_decimal_int(out: &mut String, i: i64)
    ensures
        final(out)@ == old(out)@ + decimal_int(i as int),
{
    if i < 0 {
        out.push('-');
        let n: u64 = (-(i as i128)) as u64;
        push_decimal(out, n);
        assert(out@ == old(out)@ + decimal_int(i as int));
    } else {
        push_decimal(out, i as u64);
    }
}

/// Whether `needle` stands in `hay` at position `i`.
pub open spec fn occurs_at(hay: Seq<char>, needle: Seq<char>, i: int) -> bool {
    0 <= i && i + needle.len() <= hay.len() && hay.subrange(i, i + needle.len()) == needle
}

/// Whether `needle` stands anywhere in `hay`.
pub open spec fn contains(hay: Seq<char>, needle: Seq<char>) -> bool {
    exists|i: int| occurs_at(hay, needle, i)
}

pub open spec fn starts_with(s: Seq<char>, p: Seq<char>) -> bool {
    occurs_at(s, p, 0)
}

pub fn chars_occur_at(hay: &Vec<char>, needle: &Vec<char>, i: usize) -> (r: bool)
    ensures
        r == occurs_at(hay@, needle@, i as int),
{
    if i > hay.len() || needle.len() > hay.len() - i {
        return false;
    }
    let mut k: usize = 0;
    while k < needle.len()
        invariant
            k <= needle.len(),
            i + needle.len() <= hay.len(),
            forall|j: int| 0 <= j < k ==> hay@[i + j] == needle@[j],
        decreases needle.len() - k,
    {
        if hay[i + k] != needle[k] {
            assert(hay@.subrange(i as int, i + needle@.len())[k as int] != needle@[k as int]);
            return false;
        }
        k = k + 1;
    }
    assert(hay@.subrange(i as int, i + needle@.len()) == needle@);
    true
}

pub fn contains_text(hay: &str, needle: &str) -> (r: bool)
    ensures
        r == contains(hay@, needle@),
{
    let h = chars_of(hay);
    let n = chars_of(needle);
    let mut i: usize = 0;
    while i <= h.len()
        invariant
            h@ == hay@,
            n@ == needle@,
            i <= h.len() + 1,
            forall|j: int| 0 <= j < i ==> !occurs_at(h@, n@, j),
        decreases h.len() + 1 - i,
    {
        if chars_occur_at(&h, &n, i) {
            assert(occurs_at(hay@, needle@, i as int));
            return true;
        }
        if i == h.len() {
            assert forall|j: int| !occurs_at(hay@, needle@, j) by {
                if j <= i {
                } else {
                    assert(j + n@.len() > h@.len());
                }
            }
            return false;
        }
        i = i + 1;
    }
    false
}

pub fn starts_with_text(s: &str, p: &str) -> (r: bool)
    ensures
        r == starts_with(s@, p@),
{
    let h = chars_of(s);
    let n = chars_of(p);
    chars_occur_at(&h, &n, 0)
}

/// What follows the prefix `p` of `s`.
pub open spec fn without_prefix(s: Seq<char>, p: Seq<char>) -> Option<Seq<char>> {
    if starts_with(s, p) {
        Some(s.skip(p.len() as int))
    } else {
        None
    }
}

/// The view of an optional string.
pub open spec fn opt(s: Option<String>) -> Option<Seq<char>> {
    match s {
        Some(t) => Some(t@),
        None => None,
    }
}

pub fn strip_prefix_text(s: &str, p: &str) -> (r: Option<String>)
    ensures
        opt(r) == without_prefix(s@, p@),
{
    let h = chars_of(s);
    let n = chars_of(p);
    if chars_occur_at(&h, &n, 0) {
        let rest = string_of(&h, n.len(), h.len());
        assert(rest@ == s@.skip(p@.len() as int));
        Some(rest)
    } else {
        None
    }
}

/// The first `n` characters of `s`, or all of it where it is shorter.
pub open spec fn prefix(s: Seq<char>, n: nat) -> Seq<char> {
    if s.len() <= n {
        s
    } else {
        s.take(n as int)
    }
}

pub fn prefix_of(s: &str, n: usize) -> (r: String)
    ensures
        r@ == prefix(s@, n as nat),
{
    let v = chars_of(s);
    let end: usize = if v.len() <= n { v.len() } else { n };
    let r = string_of(&v, 0, end);
    assert(r@ == prefix(s@, n as nat));
    r
}

/// The characters with the Unicode property White_Space.
pub open spec fn is_space(c: char) -> bool {
    ||| '\u{9}' <= c <= '\u{d}'
    ||| c == ' '
    ||| c == '\u{85}'
    ||| c == '\u{a0}'
    ||| c == '\u{1680}'
    ||| '\u{2000}' <= c <= '\u{200a}'
    ||| c == '\u{2028}'
    ||| c == '\u{2029}'
    ||| c == '\u{202f}'
    ||| c == '\u{205f}'
    ||| c == '\u{3000}'
}

pub fn char_is_space(c: char) -> (r: bool)
    ensures
        r == is_space(c),
{
    ('\u{9}' <= c && c <= '\u{d}') || c == ' ' || c == '\u{85}' || c == '\u{a0}' || c == '\u{1680}'
        || ('\u{2000}' <= c && c <= '\u{200a}') || c == '\u{2028}' || c == '\u{2029}'
        || c == '\u{202f}' || c == '\u{205f}' || c == '\u{3000}'
}

/// `s` without the white space it starts with.
pub open spec fn trim_start(s: Seq<char>) -> Seq<char>
    decreases s.len(),
{
    if s.len() > 0 && is_space(s[0]) {
        trim_start(s.drop_first())
    } else {
        s
    }
}

/// `s` without the white space it ends with.
pub open spec fn trim_end(s: Seq<char>) -> Seq<char>
    decreases s.len(),
{
    if s.len() > 0 && is_space(s.last()) {
        trim_end(s.drop_last())
    } else {
        s
    }
}

pub open spec fn trim(s: Seq<char>) -> Seq<char> {
    trim_end(trim_start(s))
}

pub fn trim_text(s: &str) -> (r: String)
    ensures
        r@ == trim(s@),
{
    let v = chars_of(s);
    let mut from: usize = 0;
    assert(v@.subrange(0, v@.len() as int) == v@);
    while from < v.len() && char_is_space(v[from])
        invariant
            from <= v.len(),
            trim_start(v@.subrange(from as int, v@.len() as int)) == trim_start(v@),
        decreases v.len() - from,
    {
        assert(v@.subrange(from as int, v@.len() as int).drop_first()
            == v@.subrange(from + 1, v@.len() as int));
        from = from + 1;
    }
    let ghost rest = v@.subrange(from as int, v@.len() as int);
    assert(trim_start(v@) == rest);
    let mut to: usize = v.len();
    while to > from && char_is_space(v[to - 1])
        invariant
            from <= to <= v.len(),
            trim_end(v@.subrange(from as int, to as int)) == trim_end(rest),
        decreases to - from,
    {
        assert(v@.subrange(from as int, to as int).drop_last() == v@.subrange(from as int, to - 1));
        to = to - 1;
    }
    string_of(&v, from, to)
}

/// Whether `s` holds nothing but white space.
pub fn is_blank_text(s: &str) -> (r: bool)
    ensures
        r == (trim(s@).len() == 0),
{
    let t = trim_text(s);
    t.as_str().is_empty()
}

/// The views of a list of strings.
pub open spec fn texts(v: Seq<String>) -> Seq<Seq<char>> {
    v.map_values(|s: String| s@)
}

/// The views of a list of pairs of strings.
pub open spec fn pairs(v: Seq<(String, String)>) -> Seq<(Seq<char>, Seq<char>)> {
    v.map_values(|e: (String, String)| (e.0@, e.1@))
}

pub fn push_pair(out: &mut Vec<(String, String)>, name: &str, value: &str)
    ensures
        pairs(final(out)@) == pairs(old(out)@).push((name@, value@)),
{
    let ghost was = out@;
    out.push((name.to_owned(), value.to_owned()));
    assert(pairs(out@) =~= pairs(was).push((name@, value@)));
}

/// The parts of `s` between the characters `sep`: always at least one.
pub open spec fn split_on(s: Seq<char>, sep: char) -> Seq<Seq<char>>
    decreases s.len(),
{
    if s.len() == 0 {
        seq![Seq::<char>::empty()]
    } else {
        let rest = split_on(s.drop_last(), sep);
        if s.last() == sep {
            rest.push(Seq::<char>::empty())
        } else {
            rest.drop_last().push(rest.last().push(s.last()))
        }
    }
}

pub proof fn lemma_split_on_nonempty(s: Seq<char>, sep: char)
    ensures
        split_on(s, sep).len() >= 1,
    decreases s.len(),
{
    if s.len() > 0 {
        lemma_split_on_nonempty(s.drop_last(), sep);
    }
}

pub fn split_text(s: &str, sep: char) -> (r: Vec<String>)
    ensures
        texts(r@) == split_on(s@, sep),
{
    let v = chars_of(s);
    let mut done: Vec<String> = Vec::new();
    let mut cur = String::new();
    let mut i: usize = 0;
    assert(v@.take(0) == Seq::<char>::empty());
    assert(texts(done@).push(cur@) == split_on(v@.take(0), sep));
    while i < v.len()
        invariant
            v@ == s@,
            i <= v.len(),
            texts(done@).push(cur@) == split_on(v@.take(i as int), sep),
        decreases v.len() - i,
    {
        let c = v[i];
        let ghost before = split_on(v@.take(i as int), sep);
        assert(v@.take(i + 1).drop_last() == v@.take(i as int));
        assert(before.drop_last() == texts(done@));
        assert(before.last() == cur@);
        if c == sep {
            let ghost old_done = done@;
            done.push(cur);
            assert(texts(done@) == texts(old_done).push(cur@));
            cur = String::new();
        } else {
            cur.push(c);
        }
        i = i + 1;
    }
    let ghost old_done = done@;
    done.push(cur);
    assert(texts(done@) == texts(old_done).push(cur@));
    assert(v@.take(v@.len() as int) == s@);
    done
}

pub open spec fn without_cr(s: Seq<char>) -> Seq<char> {
    if s.len() > 0 && s.last() == '\r' {
        s.drop_last()
    } else {
        s
    }
}

/// The lines of `s`: each ends with a line feed, or a carriage return and a
/// line feed, which are not part of it; the last may lack its end.
pub open spec fn lines(s: Seq<char>) -> Seq<Seq<char>> {
    let parts = split_on(s, '\n');
    let closed = parts.drop_last().map_values(|l: Seq<char>| without_cr(l));
    if parts.last().len() == 0 {
        closed
    } else {
        closed.push(parts.last())
    }
}

pub fn without_cr_text(s: String) -> (r: String)
    ensures
        r@ == without_cr(s@),
{
    let v = chars_of(s.as_str());
    if v.len() > 0 && v[v.len() - 1] == '\r' {
        string_of(&v, 0, v.len() - 1)
    } else {
        s
    }
}

pub fn lines_of(s: &str) -> (r: Vec<String>)
    ensures
        texts(r@) == lines(s@),
{
    let parts = split_text(s, '\n');
    let ghost all = split_on(s@, '\n');
    proof {
        lemma_split_on_nonempty(s@, '\n');
        assert(texts(parts@).len() == parts@.len());
    }
    let mut out: Vec<String> = Vec::new();
    let mut i: usize = 0;
    let n: usize = parts.len();
    while i < n - 1
        invariant
            n == parts.len(),
            n >= 1,
            i <= n - 1,
            texts(parts@) == all,
            texts(out@) == all.take(i as int).map_values(|l: Seq<char>| without_cr(l)),
        decreases n - i,
    {
        let ghost before = out@;
        assert(all[i as int] == parts@[i as int]@);
        out.push(without_cr_text(parts[i].clone()));
        i = i + 1;
        assert(texts(out@) == texts(before).push(without_cr(all[i - 1])));
        assert(all.take(i as int).map_values(|l: Seq<char>| without_cr(l))
            == all.take(i - 1).map_values(|l: Seq<char>| without_cr(l)).push(without_cr(all[i - 1])));
    }
    assert(all.take(n - 1) == all.drop_last());
    assert(all.last() == parts@[n - 1]@);
    if !parts[n - 1].as_str().is_empty() {
        let ghost before = out@;
        out.push(parts[n - 1].clone());
        assert(texts(out@) == texts(before).push(all.last()));
    }
    out
}

/// The parts in order with `sep` between them.
pub open spec fn join(parts: Seq<Seq<char>>, sep: Seq<char>) -> Seq<char>
    decreases parts.len(),
{
    if parts.len() == 0 {
        Seq::<char>::empty()
    } else if parts.len() == 1 {
        parts[0]
    } else {
        join(parts.drop_last(), sep) + sep + parts.last()
    }
}

pub fn join_texts(parts: &Vec<String>, sep: &str) -> (r: String)
    ensures
        r@ == join(texts(parts@), sep@),
{
    let mut out = String::new();
    let mut i: usize = 0;
    let ghost all = texts(parts@);
    while i < parts.len()
        invariant
            i <= parts.len(),
            all == texts(parts@),
            out@ == join(all.take(i as int), sep@),
        decreases parts.len() - i,
    {
        assert(all.take(i + 1).drop_last() == all.take(i as int));
        assert(all.take(i + 1).last() == parts@[i as int]@);
        if i > 0 {
            out.append(sep);
        }
        out.append(parts[i].as_str());
        i = i + 1;
        if i == 1 {
            assert(out@ == all.take(1)[0]);
        }
    }
    assert(all.take(all.len() as int) == all);
    out
}

/// The lower case of an ASCII letter; any other character itself.
pub open spec fn ascii_lower(c: char) -> char {
    if 'A' <= c <= 'Z' {
        (c as u8 + 32) as char
    } else {
        c
    }
}

pub open spec fn ascii_lower_text(s: Seq<char>) -> Seq<char> {
    s.map_values(|c: char| ascii_lower(c))
}

pub fn to_ascii_lower(s: &str) -> (r: String)
    ensures
        r@ == ascii_lower_text(s@),
{
    let v = chars_of(s);
    let mut out = String::new();
    let mut i: usize = 0;
    while i < v.len()
        invariant
            v@ == s@,
            i <= v.len(),
            out@ == ascii_lower_text(v@.take(i as int)),
        decreases v.len() - i,
    {
        let c = v[i];
        let l = if 'A' <= c && c <= 'Z' { (c as u8 + 32) as char } else { c };
        out.push(l);
        assert(v@.take(i + 1) == v@.take(i as int).push(c));
        assert(ascii_lower_text(v@.take(i + 1)) == ascii_lower_text(v@.take(i as int)).push(ascii_lower(c)));
        i = i + 1;
    }
    assert(v@.take(v@.len() as int) == v@);
    out
}

pub fn same_ignoring_ascii_case(a: &str, b: &str) -> (r: bool)
    ensures
        r == (ascii_lower_text(a@) == ascii_lower_text(b@)),
{
    let x = to_ascii_lower(a);
    let y = to_ascii_lower(b);
    same(x.as_str(), y.as_str())
}

/// Whether `t` is one of `v`.
pub fn list_has(v: &Vec<String>, t: &str) -> (r: bool)
    ensures
        r == texts(v@).contains(t@),
{
    let mut i: usize = 0;
    while i < v.len()
        invariant
            i <= v.len(),
            forall|k: int| 0 <= k < i ==> v@[k]@ != t@,
        decreases v.len() - i,
    {
        if same(v[i].as_str(), t) {
            assert(texts(v@)[i as int] == t@);
            return true;
        }
        i = i + 1;
    }
    assert forall|k: int| 0 <= k < texts(v@).len() implies texts(v@)[k] != t@ by {
        assert(texts(v@)[k] == v@[k]@);
    }
    false
}

// ---- Sizes ----

pub proof fn lemma_byte_concat(a: Seq<char>, b: Seq<char>)
    ensures
        byte_count(a + b) == byte_count(a) + byte_count(b),
    decreases a.len(),
{
    if a.len() == 0 {
        assert(a + b =~= b);
    } else {
        lemma_byte_concat(a.drop_first(), b);
        assert((a + b).drop_first() =~= a.drop_first() + b);
    }
}

pub proof fn lemma_byte_bounds(s: Seq<char>)
    ensures
        s.len() <= byte_count(s) <= 4 * s.len(),
    decreases s.len(),
{
    if s.len() > 0 {
        lemma_byte_bounds(s.drop_first());
    }
}

pub proof fn lemma_byte_ascii(s: Seq<char>)
    requires
        is_ascii_chars(s),
    ensures
        byte_count(s) == s.len(),
{
    is_ascii_chars_encode_utf8(s);
}

/// Ten to the power of `k`.
pub open spec fn ten_to(k: nat) -> nat
    decreases k,
{
    if k == 0 {
        1
    } else {
        10 * ten_to((k - 1) as nat)
    }
}

pub proof fn lemma_decimal_size(n: nat, k: nat)
    requires
        n < ten_to(k),
        k >= 1,
    ensures
        1 <= decimal(n).len() <= k,
        is_ascii_chars(decimal(n)),
        byte_count(decimal(n)) <= k,
    decreases n,
{
    if n >= 10 {
        assert(k >= 2) by {
            if k == 1 {
                assert(ten_to(1) == 10) by {
                    reveal_with_fuel(ten_to, 2);
                }
            }
        }
        assert(n / 10 < ten_to((k - 1) as nat));
        lemma_decimal_size(n / 10, (k - 1) as nat);
    }
    lemma_byte_ascii(decimal(n));
}

/// How many bytes a character takes.
pub open spec fn char_bytes(c: char) -> nat {
    vstd::utf8::encode_scalar(c as u32).len()
}

/// How many characters `s` starts with that fit `cap` bytes.
pub open spec fn fitting(s: Seq<char>, cap: nat) -> nat
    decreases s.len(),
{
    if s.len() == 0 || char_bytes(s[0]) > cap {
        0
    } else {
        1 + fitting(s.drop_first(), (cap - char_bytes(s[0])) as nat)
    }
}

/// The longest start of `s` that fits `cap` bytes.
pub open spec fn byte_prefix(s: Seq<char>, cap: nat) -> Seq<char> {
    s.take(fitting(s, cap) as int)
}

/// The longest start of a text within `cap` bytes is within them, and no
/// longer start is.
pub proof fn byte_prefix_is_longest(s: Seq<char>, cap: nat)
    ensures
        fitting(s, cap) <= s.len(),
        byte_count(byte_prefix(s, cap)) <= cap,
        fitting(s, cap) < s.len() ==> byte_count(s.take(fitting(s, cap) as int + 1)) > cap,
    decreases s.len(),
{
    if s.len() == 0 {
    } else if char_bytes(s[0]) > cap {
        assert(s.take(0) =~= Seq::<char>::empty());
        assert(s.take(1).drop_first() =~= Seq::<char>::empty());
        assert(byte_count(s.take(1)) == char_bytes(s[0])) by {
            assert(encode_utf8(Seq::<char>::empty()) =~= Seq::<u8>::empty());
            assert(s.take(1)[0] == s[0]);
        }
    } else {
        let t = s.drop_first();
        let left = (cap - char_bytes(s[0])) as nat;
        byte_prefix_is_longest(t, left);
        let k = fitting(s, cap) as int;
        assert(s.take(k)[0] == s[0]);
        assert(s.take(k).drop_first() =~= t.take(k - 1));
        if k < s.len() {
            assert(s.take(k + 1)[0] == s[0]);
            assert(s.take(k + 1).drop_first() =~= t.take(k));
        }
    }
}

fn char_width(c: char) -> (n: usize)
    ensures
        n == char_bytes(c),
        1 <= n <= 4,
{
    let v = c as u32;
    if v <= 0x7f {
        1
    } else if v <= 0x7ff {
        2
    } else if v <= 0xffff {
        3
    } else {
        4
    }
}

pub fn byte_prefix_of(s: &str, cap: usize) -> (r: String)
    ensures
        r@ == byte_prefix(s@, cap as nat),
{
    let v = chars_of(s);
    let mut left: usize = cap;
    let mut i: usize = 0;
    assert(v@.skip(0) =~= v@);
    while i < v.len() && char_width(v[i]) <= left
        invariant
            i <= v.len(),
            fitting(v@, cap as nat) == i + fitting(v@.skip(i as int), left as nat),
        decreases v.len() - i,
    {
        assert(v@.skip(i as int)[0] == v@[i as int]);
        assert(v@.skip(i as int).drop_first() =~= v@.skip(i + 1));
        left = left - char_width(v[i]);
        i = i + 1;
    }
    if i < v.len() {
        assert(v@.skip(i as int)[0] == v@[i as int]);
    }
    let r = string_of(&v, 0, i);
    assert(r@ =~= byte_prefix(s@, cap as nat));
    r
}

/// The hexadecimal digit `d`.
pub open spec fn hex_digit(d: nat) -> char {
    if d < 10 {
        (48 + d) as char
    } else {
        (87 + d) as char
    }
}

/// The lowest `k` hexadecimal digits of `n`.
pub open spec fn hex_digits(n: nat, k: nat) -> Seq<char>
    decreases k,
{
    if k == 0 {
        Seq::empty()
    } else {
        hex_digits(n / 16, (k - 1) as nat).push(hex_digit(n % 16))
    }
}

pub fn push_hex(out: &mut String, n: u64, k: usize)
    ensures
        final(out)@ == old(out)@ + hex_digits(n as nat, k as nat),
    decreases k,
{
    if k > 0 {
        push_hex(out, n / 16, k - 1);
        let d: u8 = (n % 16) as u8;
        let code: u8 = if d < 10 { 48 + d } else { 87 + d };
        out.push(code as char);
        assert(out@ =~= old(out)@ + hex_digits(n as nat, k as nat));
    } else {
        assert(out@ =~= old(out)@ + Seq::<char>::empty());
    }
}

/// `s` written `n` times.
pub open spec fn repeated(s: Seq<char>, n: nat) -> Seq<char>
    decreases n,
{
    if n == 0 {
        Seq::empty()
    } else {
        repeated(s, (n - 1) as nat) + s
    }
}

pub fn push_repeated(out: &mut String, s: &str, n: usize)
    ensures
        final(out)@ == old(out)@ + repeated(s@, n as nat),
{
    let mut i: usize = 0;
    assert(out@ =~= out@ + Seq::<char>::empty());
    while i < n
        invariant
            i <= n,
            out@ == old(out)@ + repeated(s@, i as nat),
        decreases n - i,
    {
        out.append(s);
        i = i + 1;
        assert(out@ =~= old(out)@ + repeated(s@, i as nat));
    }
}

/// A text stands in every text that holds one in which it stands.
pub proof fn lemma_contains_within(a: Seq<char>, b: Seq<char>, c: Seq<char>, t: Seq<char>)
    requires
        contains(b, t),
    ensures
        contains(a + b + c, t),
{
    let i = choose|i: int| occurs_at(b, t, i);
    let all = a + b + c;
    assert(all.subrange(a.len() + i, a.len() + i + t.len()) =~= b.subrange(i, i + t.len()));
    assert(occurs_at(all, t, a.len() + i));
}

pub proof fn lemma_contains_itself(t: Seq<char>)
    ensures
        contains(t, t),
{
    assert(t.subrange(0, t.len() as int) =~= t);
    assert(occurs_at(t, t, 0));
}

/// Each part stands in what the parts are joined to.
pub proof fn joined_parts_are_kept(parts: Seq<Seq<char>>, sep: Seq<char>, i: int)
    requires
        0 <= i < parts.len(),
    ensures
        contains(join(parts, sep), parts[i]),
    decreases parts.len(),
{
    if parts.len() == 1 {
        lemma_contains_itself(parts[0]);
    } else if i == parts.len() - 1 {
        let before = join(parts.drop_last(), sep) + sep;
        lemma_contains_itself(parts[i]);
        lemma_contains_within(before, parts[i], Seq::empty(), parts[i]);
        assert(before + parts[i] + Seq::<char>::empty() =~= before + parts[i]);
    } else {
        let t = parts.drop_last();
        joined_parts_are_kept(t, sep, i);
        assert(t[i] == parts[i]);
        lemma_contains_within(Seq::empty(), join(t, sep), sep + parts.last(), parts[i]);
        assert(Seq::<char>::empty() + join(t, sep) + (sep + parts.last()) =~= join(t, sep) + sep + parts.last());
    }
}

/// What is trimmed away is white space at the ends, and all of it.
pub proof fn trimming_takes_white_space_alone(s: Seq<char>)
    ensures
        exists|i: int, k: int|
            0 <= i <= k <= s.len() && trim(s) == #[trigger] s.subrange(i, k) && (forall|j: int|
                0 <= j < i || k <= j < s.len() ==> is_space(#[trigger] s[j])),
        trim(s).len() > 0 ==> !is_space(trim(s)[0]) && !is_space(trim(s).last()),
{
    lemma_trim_start(s);
    let t = trim_start(s);
    lemma_trim_end(t);
    let i = s.len() - t.len();
    let k = i + trim(s).len();
    assert(trim(s) =~= s.subrange(i, k));
    assert forall|j: int| 0 <= j < i || k <= j < s.len() implies is_space(#[trigger] s[j]) by {
        if k <= j {
            assert(t[j - i] == s[j]);
        }
    }
    if trim(s).len() > 0 {
        assert(trim(s)[0] == t[0]);
    }
}

proof fn lemma_trim_start(s: Seq<char>)
    ensures
        trim_start(s).len() <= s.len(),
        trim_start(s) == s.skip(s.len() - trim_start(s).len()),
        forall|j: int| 0 <= j < s.len() - trim_start(s).len() ==> is_space(#[trigger] s[j]),
        trim_start(s).len() > 0 ==> !is_space(trim_start(s)[0]),
    decreases s.len(),
{
    if s.len() > 0 && is_space(s[0]) {
        let r = s.drop_first();
        lemma_trim_start(r);
        assert(trim_start(s) =~= s.skip(s.len() - trim_start(s).len()));
        assert forall|j: int| 0 <= j < s.len() - trim_start(s).len() implies is_space(#[trigger] s[j]) by {
            if j > 0 {
                assert(r[j - 1] == s[j]);
            }
        }
    } else {
        assert(s.skip(0) =~= s);
    }
}

proof fn lemma_trim_end(s: Seq<char>)
    ensures
        trim_end(s).len() <= s.len(),
        trim_end(s) == s.take(trim_end(s).len() as int),
        forall|j: int| trim_end(s).len() <= j < s.len() ==> is_space(#[trigger] s[j]),
        trim_end(s).len() > 0 ==> !is_space(trim_end(s).last()),
    decreases s.len(),
{
    if s.len() > 0 && is_space(s.last()) {
        let r = s.drop_last();
        lemma_trim_end(r);
        assert(trim_end(s) =~= s.take(trim_end(s).len() as int));
        assert forall|j: int| trim_end(s).len() <= j < s.len() implies is_space(#[trigger] s[j]) by {
            if j < s.len() - 1 {
                assert(r[j] == s[j]);
            }
        }
    } else {
        assert(s.take(s.len() as int) =~= s);
    }
}

pub proof fn lemma_join_concat(a: Seq<Seq<char>>, b: Seq<Seq<char>>, sep: Seq<char>)
    requires
        a.len() > 0,
        b.len() > 0,
    ensures
        join(a + b, sep) == join(a, sep) + sep + join(b, sep),
    decreases b.len(),
{
    let all = a + b;
    assert(all.drop_last() =~= a + b.drop_last());
    if b.len() == 1 {
        assert(a + b.drop_last() =~= a);
    } else {
        lemma_join_concat(a, b.drop_last(), sep);
        assert(join(all, sep) =~= join(a, sep) + sep + join(b, sep));
    }
}

/// A text that is made of three holds the second.
pub proof fn lemma_holds(all: Seq<char>, a: Seq<char>, t: Seq<char>, b: Seq<char>)
    requires
        all == a + t + b,
    ensures
        contains(all, t),
{
    lemma_contains_itself(t);
    lemma_contains_within(a, t, b, t);
}

/// The parts between separators, put together with the separator, are the text again, and
/// none holds the separator.
pub proof fn split_texts_are_put_together_again(s: Seq<char>, sep: char)
    ensures
        join(split_on(s, sep), seq![sep]) == s,
        forall|i: int, k: int|
            0 <= i < split_on(s, sep).len() && 0 <= k < split_on(s, sep)[i].len() ==> #[trigger] split_on(s, sep)[i][k] != sep,
    decreases s.len(),
{
    let all = split_on(s, sep);
    if s.len() == 0 {
        assert(join(all, seq![sep]) =~= s);
    } else {
        let t = s.drop_last();
        let rest = split_on(t, sep);
        split_texts_are_put_together_again(t, sep);
        lemma_split_on_nonempty(t, sep);
        if s.last() == sep {
            assert(all.drop_last() =~= rest);
            assert(join(all, seq![sep]) =~= s);
            assert forall|i: int, k: int| 0 <= i < all.len() && 0 <= k < all[i].len() implies #[trigger] all[i][k] != sep by {
                if i < rest.len() {
                    assert(all[i] == rest[i]);
                    assert(rest[i][k] != sep);
                }
            }
        } else {
            let front = rest.drop_last();
            assert(all.drop_last() =~= front);
            assert(all.last() == rest.last().push(s.last()));
            if rest.len() == 1 {
                assert(join(rest, seq![sep]) == rest[0]);
                assert(join(all, seq![sep]) == all[0]);
                assert(all[0] =~= s);
            } else {
                let head = join(front, seq![sep]) + seq![sep];
                assert(join(rest, seq![sep]) == head + rest.last());
                assert(join(all, seq![sep]) == head + all.last());
                assert(head + rest.last().push(s.last()) =~= (head + rest.last()).push(s.last()));
                assert(t.push(s.last()) =~= s);
            }
            assert forall|i: int, k: int| 0 <= i < all.len() && 0 <= k < all[i].len() implies #[trigger] all[i][k] != sep by {
                if i < front.len() {
                    assert(all[i] == rest[i]);
                    assert(rest[i][k] != sep);
                } else if k < rest.last().len() {
                    assert(rest[rest.len() - 1][k] != sep);
                }
            }
        }
    }
}

/// A text without line breaks is one line; a line feed ends a line, with or without a
/// carriage return before it.
pub proof fn lines_end_at_line_feeds(a: Seq<char>, b: Seq<char>)
    requires
        a.len() > 0,
        b.len() > 0,
        forall|i: int| 0 <= i < a.len() ==> #[trigger] a[i] != '\n',
        forall|i: int| 0 <= i < b.len() ==> #[trigger] b[i] != '\n',
        a.last() != '\r',
    ensures
        lines(Seq::empty()).len() == 0,
        lines(a) == seq![a],
        lines(a.push('\n')) == seq![a],
        lines(a.push('\r').push('\n')) == seq![a],
        lines(a.push('\n') + b) == seq![a, b],
        lines(a.push('\r').push('\n') + b) == seq![a, b],
{
    let none = Seq::<char>::empty();
    assert(split_on(none, '\n') =~= seq![none]);
    assert(lines(none) =~= Seq::<Seq<char>>::empty());
    lemma_split_plain(none, a);
    assert(none + a =~= a);
    assert(split_on(none, '\n').drop_last().len() == 0);
    assert(split_on(a, '\n') =~= seq![a]);
    assert(lines(a) =~= seq![a]);
    lemma_lines_two(a, a, b);
    let r = a.push('\r');
    assert(r.drop_last() =~= a);
    assert forall|i: int| 0 <= i < r.len() implies #[trigger] r[i] != '\n' by {
        if i < a.len() {
            assert(r[i] == a[i]);
        }
    }
    lemma_lines_two(r, a, b);
}

proof fn lemma_lines_two(x: Seq<char>, a: Seq<char>, b: Seq<char>)
    requires
        b.len() > 0,
        without_cr(x) == a,
        forall|i: int| 0 <= i < x.len() ==> #[trigger] x[i] != '\n',
        forall|i: int| 0 <= i < b.len() ==> #[trigger] b[i] != '\n',
    ensures
        lines(x.push('\n')) == seq![a],
        lines(x.push('\n') + b) == seq![a, b],
{
    let none = Seq::<char>::empty();
    lemma_split_plain(none, x);
    assert(none + x =~= x);
    assert(split_on(none, '\n') =~= seq![none]);
    assert(seq![none].last() + x =~= x);
    assert(split_on(x, '\n') =~= seq![x]);
    let ended = x.push('\n');
    assert(ended.drop_last() =~= x);
    assert(split_on(ended, '\n') =~= seq![x, none]);
    assert(split_on(ended, '\n').drop_last() =~= seq![x]);
    assert(lines(ended) =~= seq![a]);
    lemma_split_plain(ended, b);
    let two = ended + b;
    assert(none + b =~= b);
    assert(split_on(two, '\n') =~= seq![x, b]);
    assert(split_on(two, '\n').drop_last() =~= seq![x]);
    assert(lines(two) =~= seq![a, b]);
}

proof fn lemma_split_plain(s: Seq<char>, t: Seq<char>)
    requires
        forall|i: int| 0 <= i < t.len() ==> #[trigger] t[i] != '\n',
    ensures
        split_on(s + t, '\n') == split_on(s, '\n').drop_last().push(split_on(s, '\n').last() + t),
    decreases t.len(),
{
    lemma_split_on_nonempty(s, '\n');
    let parts = split_on(s, '\n');
    if t.len() == 0 {
        assert(s + t =~= s);
        assert(parts.last() + t =~= parts.last());
        assert(parts.drop_last().push(parts.last()) =~= parts);
    } else {
        let u = t.drop_last();
        assert(t[t.len() - 1] != '\n');
        assert forall|i: int| 0 <= i < u.len() implies #[trigger] u[i] != '\n' by {
            assert(u[i] == t[i]);
        }
        lemma_split_plain(s, u);
        assert((s + t).drop_last() =~= s + u);
        assert((parts.last() + u).push(t.last()) =~= parts.last() + t);
        assert(parts.drop_last().push(parts.last() + u).drop_last() =~= parts.drop_last());
    }
}

} // verus!
