//! JSON documents as plain data. Reading and writing the text is
//! `serde_json`'s work; everything in between is stated over [`Json`].

use vstd::prelude::*;
use vstd::string::*;

use crate::text::{decimal, decimal_int, same};
use crate::text_order::{lemma_precedes_total, lemma_precedes_transitive, precedes};

verus! {

/// A JSON value. A number is `serde_json`'s, and stands for the text that is
/// written for it.
#[derive(Debug)]
pub enum Json {
    Null,
    Bool(bool),
    Number(serde_json::Number),
    Text(String),
    Array(Vec<Json>),
    Object(Vec<(String, Json)>),
}

#[verifier::ext_equal]
pub enum JsonView {
    Null,
    Bool(bool),
    Number(Seq<char>),
    Text(Seq<char>),
    Array(Seq<JsonView>),
    Object(Seq<(Seq<char>, JsonView)>),
}

pub open spec fn json_view(j: Json) -> JsonView
    decreases j,
{
    match j {
        Json::Null => JsonView::Null,
        Json::Bool(b) => JsonView::Bool(b),
        Json::Number(n) => JsonView::Number(number_text(n)),
        Json::Text(s) => JsonView::Text(s@),
        Json::Array(a) => JsonView::Array(
            Seq::new(
                a@.len(),
                |i: int|
                    if 0 <= i < a@.len() {
                        json_view(a@[i])
                    } else {
                        JsonView::Null
                    },
            ),
        ),
        Json::Object(o) => JsonView::Object(
            Seq::new(
                o@.len(),
                |i: int|
                    if 0 <= i < o@.len() {
                        (o@[i].0@, json_view(o@[i].1))
                    } else {
                        (Seq::empty(), JsonView::Null)
                    },
            ),
        ),
    }
}

impl View for Json {
    type V = JsonView;

    open spec fn view(&self) -> JsonView {
        json_view(*self)
    }
}

#[verifier::external_type_specification]
#[verifier::external_body]
pub struct ExNumber(serde_json::Number);

/// The text of a number of `serde_json`.
pub uninterp spec fn number_text(n: serde_json::Number) -> Seq<char>;

/// `to_string` on a number.
#[verifier::external_body]
fn write_number(n: &serde_json::Number) -> (r: String)
    ensures
        r@ == number_text(*n),
{
    n.to_string()
}

/// `serde_json::Number::from` on an unsigned integer, whose text is its digits.
#[verifier::external_body]
fn number_of_u64(n: u64) -> (r: serde_json::Number)
    ensures
        number_text(r) == decimal(n as nat),
{
    serde_json::Number::from(n)
}

/// `serde_json::Number::from` on a signed integer, whose text is its digits, with a
/// minus sign before those of a negative one.
#[verifier::external_body]
fn number_of_i64(n: i64) -> (r: serde_json::Number)
    ensures
        number_text(r) == decimal_int(n as int),
{
    serde_json::Number::from(n)
}

/// `clone` on a number, which has the same text.
#[verifier::external_body]
fn copy_number(n: &serde_json::Number) -> (r: serde_json::Number)
    ensures
        number_text(r) == number_text(*n),
{
    n.clone()
}

#[verifier::external_type_specification]
#[verifier::external_body]
pub struct ExValue(serde_json::Value);

/// What a `serde_json` value holds.
pub uninterp spec fn json_model(v: serde_json::Value) -> JsonView;

/// What a text says as a JSON document, if it is one.
pub uninterp spec fn json_text(text: Seq<char>) -> Option<JsonView>;

/// What a row of bytes says as a JSON document, if it is one.
pub uninterp spec fn json_bytes(bytes: Seq<u8>) -> Option<JsonView>;

/// `serde_json::from_slice` on a row of bytes, into an untyped value. Its objects
/// keep their members in the order of the keys; what nests deeper than 127 levels is
/// not read.
#[verifier::external_body]
fn parse_value_bytes(bytes: &[u8]) -> (r: Option<serde_json::Value>)
    ensures
        match r {
            Some(v) => json_bytes(bytes@) == Some(json_model(v)) && is_ordered(json_model(v)) && nests_within(
                json_model(v),
                127,
            ),
            None => json_bytes(bytes@) is None,
        },
{
    serde_json::from_slice::<serde_json::Value>(bytes).ok()
}

/// `serde_json::from_str` on a text, into an untyped value. Its objects keep their
/// members in the order of the keys; what nests deeper than 127 levels is not read.
#[verifier::external_body]
fn parse_value(text: &str) -> (r: Option<serde_json::Value>)
    ensures
        match r {
            Some(v) => json_text(text@) == Some(json_model(v)) && is_ordered(json_model(v)) && nests_within(
                json_model(v),
                127,
            ),
            None => json_text(text@) is None,
        },
{
    serde_json::from_str::<serde_json::Value>(text).ok()
}

/// The value as plain data, variant by variant.
#[verifier::external_body]
fn json_of_value(v: serde_json::Value) -> (r: Json)
    ensures
        r@ == json_model(v),
{
    match v {
        serde_json::Value::Null => Json::Null,
        serde_json::Value::Bool(b) => Json::Bool(b),
        serde_json::Value::Number(n) => Json::Number(n),
        serde_json::Value::String(s) => Json::Text(s),
        serde_json::Value::Array(a) => Json::Array(a.into_iter().map(json_of_value).collect()),
        serde_json::Value::Object(o) => Json::Object(
            o.into_iter().map(|(k, v)| (k, json_of_value(v))).collect(),
        ),
    }
}

pub open spec fn opt_json(j: Option<Json>) -> Option<JsonView> {
    match j {
        Some(v) => Some(v@),
        None => None,
    }
}

/// Reads a JSON document.
pub fn parse_json(text: &str) -> (r: Option<Json>)
    ensures
        opt_json(r) == json_text(text@),
        r is Some ==> is_ordered(r->0@) && nests_within(r->0@, 127),
{
    match parse_value(text) {
        Some(v) => Some(json_of_value(v)),
        None => None,
    }
}

/// Reads a JSON document from its bytes.
pub fn parse_json_bytes(bytes: &[u8]) -> (r: Option<Json>)
    ensures
        opt_json(r) == json_bytes(bytes@),
        r is Some ==> is_ordered(r->0@) && nests_within(r->0@, 127),
{
    match parse_value_bytes(bytes) {
        Some(v) => Some(json_of_value(v)),
        None => None,
    }
}

/// The value of `key` in the members of an object.
pub open spec fn member(o: Seq<(Seq<char>, JsonView)>, key: Seq<char>) -> Option<JsonView>
    decreases o.len(),
{
    if o.len() == 0 {
        None
    } else if o.last().0 == key {
        Some(o.last().1)
    } else {
        member(o.drop_last(), key)
    }
}

/// The number that a row of decimal digits stands for.
pub open spec fn digits_value(s: Seq<char>) -> nat
    decreases s.len(),
{
    if s.len() == 0 {
        0
    } else {
        digits_value(s.drop_last()) * 10 + digit_value(s.last())
    }
}

pub open spec fn is_digit(c: char) -> bool {
    '0' <= c <= '9'
}

pub open spec fn digit_value(c: char) -> nat {
    (c as u32 - 48) as nat
}

/// The unsigned number that a text of digits stands for, if it fits 64 bits.
pub open spec fn unsigned(s: Seq<char>) -> Option<u64> {
    if s.len() > 0 && (forall|i: int| 0 <= i < s.len() ==> is_digit(#[trigger] s[i]))
        && digits_value(s) <= u64::MAX {
        Some(digits_value(s) as u64)
    } else {
        None
    }
}

/// The signed number that a text of digits stands for, if it fits 64 bits.
pub open spec fn signed(s: Seq<char>) -> Option<i64> {
    if s.len() > 0 && s[0] == '-' {
        match unsigned(s.drop_first()) {
            Some(n) => if n <= i64::MAX + 1 {
                Some((-n) as i64)
            } else {
                None
            },
            None => None,
        }
    } else {
        match unsigned(s) {
            Some(n) => if n <= i64::MAX {
                Some(n as i64)
            } else {
                None
            },
            None => None,
        }
    }
}

/// Written out in decimal, a number reads back as itself.
pub proof fn lemma_decimal_reads_back(n: nat)
    ensures
        digits_value(decimal(n)) == n,
        decimal(n).len() > 0,
        forall|i: int| 0 <= i < decimal(n).len() ==> is_digit(#[trigger] decimal(n)[i]),
    decreases n,
{
    reveal_with_fuel(digits_value, 3);
    if n >= 10 {
        lemma_decimal_reads_back(n / 10);
        assert(decimal(n).drop_last() =~= decimal(n / 10));
    } else {
        assert(decimal(n).drop_last() =~= Seq::<char>::empty());
    }
}

impl JsonView {
    /// The member `key` of an object.
    pub open spec fn get(self, key: Seq<char>) -> Option<JsonView> {
        match self {
            JsonView::Object(o) => member(o, key),
            _ => None,
        }
    }

    pub open spec fn text(self) -> Option<Seq<char>> {
        match self {
            JsonView::Text(s) => Some(s),
            _ => None,
        }
    }

    pub open spec fn uint(self) -> Option<u64> {
        match self {
            JsonView::Number(n) => unsigned(n),
            _ => None,
        }
    }

    pub open spec fn integer(self) -> Option<i64> {
        match self {
            JsonView::Number(n) => signed(n),
            _ => None,
        }
    }

    /// The text of the member `key` of an object.
    pub open spec fn text_at(self, key: Seq<char>) -> Option<Seq<char>> {
        match self.get(key) {
            Some(v) => v.text(),
            None => None,
        }
    }

    /// The unsigned number of the member `key` of an object.
    pub open spec fn uint_at(self, key: Seq<char>) -> Option<u64> {
        match self.get(key) {
            Some(v) => v.uint(),
            None => None,
        }
    }
}

pub fn digits_number(v: &Vec<char>, from: usize) -> (r: Option<u64>)
    requires
        from <= v.len(),
    ensures
        r == unsigned(v@.skip(from as int)),
{
    let ghost s = v@.skip(from as int);
    if from == v.len() {
        return None;
    }
    let mut acc: u128 = 0;
    let mut i: usize = from;
    while i < v.len()
        invariant
            from <= i <= v.len(),
            s == v@.skip(from as int),
            acc <= u64::MAX,
            acc == digits_value(s.take(i - from)),
            forall|k: int| 0 <= k < i - from ==> is_digit(#[trigger] s[k]),
        decreases v.len() - i,
    {
        let c = v[i];
        assert(s[i - from] == c);
        if !('0' <= c && c <= '9') {
            return None;
        }
        assert(s.take(i + 1 - from).drop_last() =~= s.take(i - from));
        acc = acc * 10 + (c as u32 - 48) as u128;
        i = i + 1;
        if acc > u64::MAX as u128 {
            proof {
                lemma_digits_grow(s, (i - from) as int);
            }
            return None;
        }
    }
    assert(s.take(s.len() as int) =~= s);
    Some(acc as u64)
}

proof fn lemma_digits_grow(s: Seq<char>, k: int)
    requires
        0 <= k <= s.len(),
    ensures
        digits_value(s.take(k)) <= digits_value(s),
    decreases s.len() - k,
{
    if k < s.len() {
        lemma_digits_grow(s, k + 1);
        assert(s.take(k + 1).drop_last() =~= s.take(k));
    } else {
        assert(s.take(k) =~= s);
    }
}

impl Json {
    /// The member `key` of an object.
    pub fn get(&self, key: &str) -> (r: Option<&Json>)
        ensures
            match r {
                Some(v) => self@.get(key@) == Some(v@),
                None => self@.get(key@) is None,
            },
    {
        match self {
            Json::Object(o) => {
                let ghost all = self@->Object_0;
                let mut n: usize = o.len();
                assert(all.take(n as int) =~= all);
                while n > 0
                    invariant
                        n <= o.len(),
                        self@ == JsonView::Object(all),
                        all.len() == o.len(),
                        forall|k: int| 0 <= k < o.len() ==> #[trigger] all[k] == (o@[k].0@, o@[k].1@),
                        member(all, key@) == member(all.take(n as int), key@),
                    decreases n,
                {
                    assert(all.take(n as int).last() == all[n - 1]);
                    assert(all.take(n as int).drop_last() =~= all.take(n - 1));
                    if same(o[n - 1].0.as_str(), key) {
                        return Some(&o[n - 1].1);
                    }
                    n = n - 1;
                }
                None
            },
            _ => None,
        }
    }

    pub fn as_str(&self) -> (r: Option<&str>)
        ensures
            match r {
                Some(s) => self@.text() == Some(s@),
                None => self@.text() is None,
            },
    {
        match self {
            Json::Text(s) => Some(s.as_str()),
            _ => None,
        }
    }

    pub fn as_u64(&self) -> (r: Option<u64>)
        ensures
            r == self@.uint(),
    {
        match self {
            Json::Number(n) => {
                let t = write_number(n);
                let v = crate::text::chars_of(t.as_str());
                assert(v@.skip(0) =~= v@);
                digits_number(&v, 0)
            },
            _ => None,
        }
    }

    pub fn as_i64(&self) -> (r: Option<i64>)
        ensures
            r == self@.integer(),
    {
        match self {
            Json::Number(n) => {
                let t = write_number(n);
                let v = crate::text::chars_of(t.as_str());
                if v.len() > 0 && v[0] == '-' {
                    assert(v@.skip(1) =~= v@.drop_first());
                    match digits_number(&v, 1) {
                        Some(m) => if m <= 0x8000_0000_0000_0000 {
                            Some((-(m as i128)) as i64)
                        } else {
                            None
                        },
                        None => None,
                    }
                } else {
                    assert(v@.skip(0) =~= v@);
                    match digits_number(&v, 0) {
                        Some(m) => if m <= 0x7fff_ffff_ffff_ffff {
                            Some(m as i64)
                        } else {
                            None
                        },
                        None => None,
                    }
                }
            },
            _ => None,
        }
    }

    /// The text of the member `key` of an object.
    pub fn str_at(&self, key: &str) -> (r: Option<&str>)
        ensures
            match r {
                Some(s) => self@.text_at(key@) == Some(s@),
                None => self@.text_at(key@) is None,
            },
    {
        match self.get(key) {
            Some(v) => v.as_str(),
            None => None,
        }
    }

    /// The unsigned number of the member `key` of an object.
    pub fn u64_at(&self, key: &str) -> (r: Option<u64>)
        ensures
            r == self@.uint_at(key@),
    {
        match self.get(key) {
            Some(v) => v.as_u64(),
            None => None,
        }
    }
}

impl JsonView {
    pub open spec fn array(self) -> Option<Seq<JsonView>> {
        match self {
            JsonView::Array(a) => Some(a),
            _ => None,
        }
    }
}

/// The views of a list of values.
pub open spec fn json_views(v: Seq<Json>) -> Seq<JsonView> {
    v.map_values(|j: Json| j@)
}

impl Json {
    pub fn as_array(&self) -> (r: Option<&Vec<Json>>)
        ensures
            match r {
                Some(a) => self@.array() == Some(json_views(a@)),
                None => self@.array() is None,
            },
    {
        match self {
            Json::Array(a) => {
                assert(self@->Array_0 =~= json_views(a@));
                Some(a)
            },
            _ => None,
        }
    }

    pub fn of_text(s: &str) -> (r: Json)
        ensures
            r@ == JsonView::Text(s@),
    {
        Json::Text(s.to_owned())
    }

    pub fn of_uint(n: u64) -> (r: Json)
        ensures
            r@ == JsonView::Number(decimal(n as nat)),
    {
        Json::Number(number_of_u64(n))
    }

    pub fn of_int(n: i64) -> (r: Json)
        ensures
            r@ == JsonView::Number(decimal_int(n as int)),
    {
        Json::Number(number_of_i64(n))
    }

    pub fn list(items: Vec<Json>) -> (r: Json)
        ensures
            r@ == JsonView::Array(json_views(items@)),
    {
        let r = Json::Array(items);
        assert(r@->Array_0 =~= json_views(items@));
        r
    }

    pub fn empty_object() -> (r: Json)
        ensures
            r@ == JsonView::Object(Seq::empty()),
    {
        let v: Vec<(String, Json)> = Vec::new();
        let r = Json::Object(v);
        assert(r@->Object_0 =~= Seq::empty());
        r
    }

    /// An object with one more member at its end.
    pub fn with(self, key: &str, value: Json) -> (r: Json)
        ensures
            match self@ {
                JsonView::Object(o) => r@ == JsonView::Object(o.push((key@, value@))),
                _ => r@ == self@,
            },
    {
        match self {
            Json::Object(o) => {
                let ghost was = Json::Object(o)@->Object_0;
                let mut o = o;
                o.push((key.to_owned(), value));
                let r = Json::Object(o);
                assert(r@->Object_0 =~= was.push((key@, value@)));
                r
            },
            other => other,
        }
    }
}

impl Clone for Json {
    fn clone(&self) -> (r: Self)
        ensures
            r@ == self@,
        decreases *self,
    {
        match self {
            Json::Null => Json::Null,
            Json::Bool(b) => Json::Bool(*b),
            Json::Number(n) => Json::Number(copy_number(n)),
            Json::Text(s) => Json::Text(s.clone()),
            Json::Array(a) => {
                let mut out: Vec<Json> = Vec::new();
                let mut i: usize = 0;
                while i < a.len()
                    invariant
                        i <= a.len(),
                        *self == Json::Array(*a),
                        out@.len() == i,
                        forall|k: int| 0 <= k < i ==> #[trigger] out@[k]@ == a@[k]@,
                    decreases a.len() - i,
                {
                    assert(decreases_to!(*self => (*self)->Array_0));
                    assert(decreases_to!(*a => a@));
                    assert(decreases_to!(a@ => a@[i as int]));
                    out.push(a[i].clone());
                    i = i + 1;
                }
                let r = Json::Array(out);
                assert forall|k: int| 0 <= k < a@.len() implies r@->Array_0[k] == self@->Array_0[k] by {
                    assert(out@[k]@ == a@[k]@);
                }
                assert(r@->Array_0 =~= self@->Array_0);
                r
            },
            Json::Object(o) => {
                let mut out: Vec<(String, Json)> = Vec::new();
                let mut i: usize = 0;
                while i < o.len()
                    invariant
                        i <= o.len(),
                        *self == Json::Object(*o),
                        out@.len() == i,
                        forall|k: int|
                            0 <= k < i ==> (#[trigger] out@[k]).0@ == o@[k].0@ && out@[k].1@ == o@[k].1@,
                    decreases o.len() - i,
                {
                    assert(decreases_to!(*self => (*self)->Object_0));
                    assert(decreases_to!(*o => o@));
                    assert(decreases_to!(o@ => o@[i as int]));
                    assert(decreases_to!(o@[i as int] => o@[i as int].1));
                    out.push((o[i].0.clone(), o[i].1.clone()));
                    i = i + 1;
                }
                let r = Json::Object(out);
                assert(r@->Object_0 =~= self@->Object_0);
                r
            },
        }
    }
}

/// Whether a text is a whole number as it is written in a document, and fits
/// 64 bits.
pub open spec fn is_whole(n: Seq<char>) -> bool {
    ||| exists|k: nat| k <= u64::MAX && n == #[trigger] decimal(k)
    ||| exists|k: nat| 0 < k <= 0x8000_0000_0000_0000 && n == seq!['-'] + #[trigger] decimal(k)
}

/// Whether reading the text of a number gives the number again: so it is of every whole
/// number; others may be rounded.
pub open spec fn is_steady(n: Seq<char>) -> bool {
    is_whole(n) || json_text(n) == Some(JsonView::Number(n))
}

/// Whether all numbers of a value are read as they are written.
pub open spec fn has_steady_numbers(j: JsonView) -> bool
    decreases j,
{
    match j {
        JsonView::Number(n) => is_steady(n),
        JsonView::Array(a) => forall|i: int| 0 <= i < a.len() ==> has_steady_numbers(#[trigger] a[i]),
        JsonView::Object(o) => forall|i: int| 0 <= i < o.len() ==> has_steady_numbers((#[trigger] o[i]).1),
        _ => true,
    }
}

/// Whether a value holds no more than `n` arrays and objects inside one another.
pub open spec fn nests_within(j: JsonView, n: nat) -> bool
    decreases j,
{
    match j {
        JsonView::Array(a) => n > 0 && forall|i: int|
            0 <= i < a.len() ==> nests_within(#[trigger] a[i], (n - 1) as nat),
        JsonView::Object(o) => n > 0 && forall|i: int|
            0 <= i < o.len() ==> nests_within((#[trigger] o[i]).1, (n - 1) as nat),
        _ => true,
    }
}

// ---- The order of the members ----

pub type Members = Seq<(Seq<char>, JsonView)>;

/// Whether the members stand in the order of their keys, each key once.
pub open spec fn keys_ascend(o: Members) -> bool {
    forall|i: int, k: int| 0 <= i < k < o.len() ==> precedes((#[trigger] o[i]).0, (#[trigger] o[k]).0)
}

/// Whether the members of every object of a value stand in the order of their keys.
pub open spec fn is_ordered(j: JsonView) -> bool
    decreases j,
{
    match j {
        JsonView::Array(a) => forall|i: int| 0 <= i < a.len() ==> is_ordered(#[trigger] a[i]),
        JsonView::Object(o) => keys_ascend(o) && forall|i: int|
            0 <= i < o.len() ==> is_ordered((#[trigger] o[i]).1),
        _ => true,
    }
}

/// The members with one set: in place of the one with the same key, or where the
/// order of the keys has it.
pub open spec fn put(o: Members, key: Seq<char>, v: JsonView) -> Members
    decreases o.len(),
{
    if o.len() == 0 {
        seq![(key, v)]
    } else if o.last().0 == key {
        o.drop_last().push((key, v))
    } else if precedes(key, o.last().0) {
        put(o.drop_last(), key, v).push(o.last())
    } else {
        o.push((key, v))
    }
}

/// The members with all of others set.
pub open spec fn put_all(o: Members, more: Members) -> Members
    decreases more.len(),
{
    if more.len() == 0 {
        o
    } else {
        put(put_all(o, more.drop_last()), more.last().0, more.last().1)
    }
}

/// A value with the members of each object in the order of their keys, where a key
/// has the last value that is given for it.
pub open spec fn settled(j: JsonView) -> JsonView
    decreases j,
{
    match j {
        JsonView::Array(a) => JsonView::Array(
            Seq::new(
                a.len(),
                |i: int|
                    if 0 <= i < a.len() {
                        settled(a[i])
                    } else {
                        JsonView::Null
                    },
            ),
        ),
        JsonView::Object(o) => JsonView::Object(put_all(Seq::empty(), settled_each(o))),
        _ => j,
    }
}

/// The members with each value settled.
pub open spec fn settled_each(o: Members) -> Members
    decreases o,
{
    Seq::new(
        o.len(),
        |i: int|
            if 0 <= i < o.len() {
                (o[i].0, settled(o[i].1))
            } else {
                (Seq::empty(), JsonView::Null)
            },
    )
}

/// What a member is after one was set: what was set, and else what it was.
pub proof fn lemma_put(o: Members, key: Seq<char>, v: JsonView, k: Seq<char>)
    ensures
        member(put(o, key, v), k) == (if k == key {
            Some(v)
        } else {
            member(o, k)
        }),
    decreases o.len(),
{
    if o.len() == 0 {
        assert(put(o, key, v).last() == (key, v));
        assert(put(o, key, v).drop_last() =~= o);
    } else if o.last().0 == key {
        assert(put(o, key, v).drop_last() =~= o.drop_last());
    } else if precedes(key, o.last().0) {
        lemma_put(o.drop_last(), key, v, k);
        assert(put(o, key, v).drop_last() =~= put(o.drop_last(), key, v));
    } else {
        assert(put(o, key, v).drop_last() =~= o);
    }
}

pub proof fn lemma_put_all(o: Members, more: Members, k: Seq<char>)
    ensures
        member(put_all(o, more), k) == (match member(more, k) {
            Some(v) => Some(v),
            None => member(o, k),
        }),
    decreases more.len(),
{
    if more.len() > 0 {
        lemma_put_all(o, more.drop_last(), k);
        lemma_put(put_all(o, more.drop_last()), more.last().0, more.last().1, k);
    }
}

/// Setting a member twice is setting it once.
pub proof fn lemma_put_twice(o: Members, key: Seq<char>, v: JsonView)
    ensures
        put(put(o, key, v), key, v) == put(o, key, v),
    decreases o.len(),
{
    let once = put(o, key, v);
    if o.len() > 0 && o.last().0 != key && precedes(key, o.last().0) {
        lemma_put_twice(o.drop_last(), key, v);
        assert(once.drop_last() =~= put(o.drop_last(), key, v));
    } else {
        assert(once.last() == (key, v));
        assert(once.drop_last().push((key, v)) =~= once);
    }
}

/// Each member after one was set is the one that was set or was there.
pub proof fn lemma_put_from(o: Members, key: Seq<char>, v: JsonView, i: int)
    requires
        0 <= i < put(o, key, v).len(),
    ensures
        put(o, key, v)[i] == (key, v) || o.contains(put(o, key, v)[i]),
    decreases o.len(),
{
    let now = put(o, key, v);
    if o.len() > 0 {
        let t = o.drop_last();
        if o.last().0 != key && precedes(key, o.last().0) {
            if i < now.len() - 1 {
                lemma_put_from(t, key, v, i);
                if t.contains(now[i]) {
                    let k = choose|k: int| 0 <= k < t.len() && t[k] == now[i];
                    assert(o[k] == now[i]);
                }
            } else {
                assert(o[o.len() - 1] == now[i]);
            }
        } else if i < now.len() - 1 {
            assert(o[i] == now[i]);
        }
    }
}

/// Setting a member keeps the order of the keys.
pub proof fn lemma_put_ascends(o: Members, key: Seq<char>, v: JsonView)
    requires
        keys_ascend(o),
    ensures
        keys_ascend(put(o, key, v)),
    decreases o.len(),
{
    let now = put(o, key, v);
    if o.len() > 0 {
        let t = o.drop_last();
        assert forall|i: int, k: int| 0 <= i < k < t.len() implies precedes((#[trigger] t[i]).0, (#[trigger] t[k]).0) by {
            assert(t[i] == o[i] && t[k] == o[k]);
        }
        lemma_precedes_total(key, o.last().0);
        if o.last().0 != key && precedes(key, o.last().0) {
            lemma_put_ascends(t, key, v);
            let inner = put(t, key, v);
            assert forall|i: int, k: int| 0 <= i < k < now.len() implies precedes((#[trigger] now[i]).0, (#[trigger] now[k]).0) by {
                if k < inner.len() {
                    assert(inner[i] == now[i] && inner[k] == now[k]);
                } else {
                    lemma_put_from(t, key, v, i);
                    if t.contains(inner[i]) {
                        let m = choose|m: int| 0 <= m < t.len() && t[m] == inner[i];
                        assert(precedes(o[m].0, o[o.len() - 1].0));
                    }
                }
            }
        } else {
            assert forall|i: int, k: int| 0 <= i < k < now.len() implies precedes((#[trigger] now[i]).0, (#[trigger] now[k]).0) by {
                if k < now.len() - 1 {
                    assert(now[i] == o[i] && now[k] == o[k]);
                } else if o.last().0 == key {
                    assert(precedes(o[i].0, o[o.len() - 1].0));
                } else if i < o.len() - 1 {
                    assert(precedes(o[i].0, o[o.len() - 1].0));
                    lemma_precedes_transitive(o[i].0, o[o.len() - 1].0, key);
                }
            }
        }
    }
}

proof fn lemma_put_all_in_order(o: Members)
    requires
        keys_ascend(o),
    ensures
        put_all(Seq::empty(), o) == o,
    decreases o.len(),
{
    if o.len() > 0 {
        let t = o.drop_last();
        assert forall|i: int, k: int| 0 <= i < k < t.len() implies precedes((#[trigger] t[i]).0, (#[trigger] t[k]).0) by {
            assert(t[i] == o[i] && t[k] == o[k]);
        }
        lemma_put_all_in_order(t);
        if t.len() > 0 {
            assert(t.last() == o[o.len() - 2]);
            assert(precedes(o[o.len() - 2].0, o[o.len() - 1].0));
            lemma_precedes_total(t.last().0, o.last().0);
        }
        assert(put(t, o.last().0, o.last().1) =~= o);
    } else {
        assert(o =~= Seq::empty());
    }
}

/// A value that is in order stays as it is.
pub proof fn lemma_settled(j: JsonView)
    requires
        is_ordered(j),
    ensures
        settled(j) == j,
    decreases j,
{
    match j {
        JsonView::Array(a) => {
            assert forall|i: int| 0 <= i < a.len() implies settled(#[trigger] a[i]) == a[i] by {
                lemma_settled(a[i]);
            }
            assert(settled(j)->Array_0 =~= a);
        },
        JsonView::Object(o) => {
            assert forall|i: int| 0 <= i < o.len() implies settled((#[trigger] o[i]).1) == o[i].1 by {
                lemma_settled(o[i].1);
            }
            assert(settled_each(o) =~= o);
            lemma_put_all_in_order(o);
        },
        _ => {},
    }
}

/// Whether a value can be what a document says, and is said by its own text: the
/// members of its objects stand in order, it nests no deeper than is read, and its
/// numbers are read as they are written.
pub open spec fn is_readable(j: JsonView) -> bool {
    is_ordered(j) && nests_within(j, 127) && has_steady_numbers(j)
}

/// The compact text of a `serde_json` value.
pub uninterp spec fn value_text(j: JsonView) -> Seq<char>;

/// The indented text of a `serde_json` value.
pub uninterp spec fn value_pretty(j: JsonView) -> Seq<char>;

/// The plain data as a `serde_json` value, variant by variant. `serde_json` keeps
/// the members of an object in the order of their keys, and of the members with one
/// key the last.
#[verifier::external_body]
fn value_of_json(j: &Json) -> (r: serde_json::Value)
    ensures
        json_model(r) == settled(j@),
{
    match j {
        Json::Null => serde_json::Value::Null,
        Json::Bool(b) => serde_json::Value::Bool(*b),
        Json::Number(n) => serde_json::Value::Number(n.clone()),
        Json::Text(s) => serde_json::Value::String(s.clone()),
        Json::Array(a) => serde_json::Value::Array(a.iter().map(value_of_json).collect()),
        Json::Object(o) => serde_json::Value::Object(
            o.iter().map(|(k, v)| (k.clone(), value_of_json(v))).collect(),
        ),
    }
}

/// `serde_json::to_string` on a value, which does not fail. What it writes
/// `serde_json` reads back, unless the value nests too deep for its reader or has a
/// number that the reader rounds; it reads a number in a document as it reads the
/// number alone.
#[verifier::external_body]
fn write_value(v: &serde_json::Value) -> (r: String)
    ensures
        r@ == value_text(json_model(*v)),
        is_readable(json_model(*v)) ==> json_text(r@) == Some(json_model(*v)),
{
    serde_json::to_string(v).unwrap_or_default()
}

/// `serde_json::to_string_pretty` on a value, which does not fail. What it writes
/// `serde_json` reads back, with or without a line break after it, unless the value
/// nests too deep for its reader or has a number that the reader rounds; it reads a
/// number in a document as it reads the number alone.
#[verifier::external_body]
fn write_value_pretty(v: &serde_json::Value) -> (r: String)
    ensures
        r@ == value_pretty(json_model(*v)),
        is_readable(json_model(*v)) ==> json_text(r@) == Some(json_model(*v)),
        is_readable(json_model(*v)) ==> json_text(r@ + "\n"@) == Some(json_model(*v)),
{
    serde_json::to_string_pretty(v).unwrap_or_default()
}

/// The text of a document, on one line.
pub fn json_to_text(j: &Json) -> (r: String)
    ensures
        r@ == value_text(settled(j@)),
        is_readable(settled(j@)) ==> json_text(r@) == Some(settled(j@)),
        is_ordered(j@) ==> settled(j@) == j@,
{
    let v = value_of_json(j);
    proof {
        if is_ordered(j@) {
            lemma_settled(j@);
        }
    }
    write_value(&v)
}

/// The text of a document, indented.
pub fn json_to_pretty(j: &Json) -> (r: String)
    ensures
        r@ == value_pretty(settled(j@)),
        is_readable(settled(j@)) ==> json_text(r@) == Some(settled(j@)),
        is_readable(settled(j@)) ==> json_text(r@ + "\n"@) == Some(settled(j@)),
        is_ordered(j@) ==> settled(j@) == j@,
{
    let v = value_of_json(j);
    proof {
        if is_ordered(j@) {
            lemma_settled(j@);
        }
    }
    write_value_pretty(&v)
}

/// A whole number that fits is read back from its digits, with its sign.
pub proof fn whole_numbers_are_read_back(n: nat, i: int)
    ensures
        n <= u64::MAX ==> unsigned(decimal(n)) == Some(n as u64),
        n > u64::MAX ==> unsigned(decimal(n)) is None,
        i64::MIN <= i <= i64::MAX ==> signed(decimal_int(i)) == Some(i as i64),
        unsigned(Seq::empty()) is None,
        JsonView::Number(decimal(n)).uint() == unsigned(decimal(n)),
        JsonView::Number(decimal_int(i)).integer() == signed(decimal_int(i)),
{
    lemma_decimal_reads_back(n);
    if i >= 0 {
        lemma_decimal_reads_back(i as nat);
        let d = decimal(i as nat);
        assert(is_digit(d[0]));
    } else {
        lemma_decimal_reads_back((-i) as nat);
        let s = decimal_int(i);
        assert(s.drop_first() =~= decimal((-i) as nat));
    }
}

/// A member is found by its key, the last one of the key where there are more; a value
/// that is no object has none.
pub proof fn members_are_found_by_their_key(o: Seq<(Seq<char>, JsonView)>, i: int)
    ensures
        0 <= i < o.len() && (forall|k: int| i < k < o.len() ==> (#[trigger] o[k]).0 != o[i].0) ==> JsonView::Object(
            o,
        ).get(o[i].0) == Some(o[i].1),
        JsonView::Null.get(Seq::empty()) is None,
    decreases o.len(),
{
    if 0 <= i < o.len() - 1 && (forall|k: int| i < k < o.len() ==> (#[trigger] o[k]).0 != o[i].0) {
        let t = o.drop_last();
        assert(o[o.len() - 1].0 != o[i].0);
        assert(t[i] == o[i]);
        assert forall|k: int| i < k < t.len() implies (#[trigger] t[k]).0 != t[i].0 by {
            assert(t[k] == o[k]);
        }
        members_are_found_by_their_key(t, i);
    }
}

} // verus!
