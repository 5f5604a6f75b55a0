//! Texts in order, and the keys of a map in that order.

use vstd::prelude::*;
use vstd::string::*;

use crate::text::chars_of;
use crate::text_map::{keys_of, TextMap};

verus! {

/// Whether `a` stands before `b` in a dictionary.
pub open spec fn precedes(a: Seq<char>, b: Seq<char>) -> bool
    decreases a.len(),
{
    if b.len() == 0 {
        false
    } else if a.len() == 0 {
        true
    } else if a[0] != b[0] {
        a[0] < b[0]
    } else {
        precedes(a.drop_first(), b.drop_first())
    }
}

pub proof fn lemma_precedes_total(a: Seq<char>, b: Seq<char>)
    ensures
        precedes(a, b) || a == b || precedes(b, a),
        !(precedes(a, b) && precedes(b, a)),
        !precedes(a, a),
    decreases a.len(),
{
    if a.len() > 0 {
        lemma_precedes_total(a.drop_first(), a.drop_first());
    }
    if a.len() == 0 && b.len() == 0 {
        assert(a =~= b);
    } else if a.len() > 0 && b.len() > 0 {
        lemma_precedes_total(a.drop_first(), b.drop_first());
        if a[0] == b[0] && a.drop_first() == b.drop_first() {
            assert(a =~= seq![a[0]] + a.drop_first());
            assert(b =~= seq![b[0]] + b.drop_first());
        }
    }
}

pub proof fn lemma_precedes_transitive(a: Seq<char>, b: Seq<char>, c: Seq<char>)
    requires
        precedes(a, b),
        precedes(b, c),
    ensures
        precedes(a, c),
    decreases a.len(),
{
    if a.len() > 0 && a[0] == b[0] && b[0] == c[0] {
        lemma_precedes_transitive(a.drop_first(), b.drop_first(), c.drop_first());
    }
}

/// Whether each text stands before all that follow it.
pub open spec fn ascending(v: Seq<Seq<char>>) -> bool {
    forall|i: int, j: int| 0 <= i < j < v.len() ==> precedes(#[trigger] v[i], #[trigger] v[j])
}

fn chars_precede(a: &Vec<char>, b: &Vec<char>) -> (r: bool)
    ensures
        r == precedes(a@, b@),
{
    let mut i: usize = 0;
    assert(a@.skip(0) =~= a@);
    assert(b@.skip(0) =~= b@);
    while i < a.len() && i < b.len()
        invariant
            i <= a.len(),
            i <= b.len(),
            precedes(a@, b@) == precedes(a@.skip(i as int), b@.skip(i as int)),
        decreases a.len() - i,
    {
        assert(a@.skip(i as int)[0] == a@[i as int]);
        assert(b@.skip(i as int)[0] == b@[i as int]);
        assert(a@.skip(i as int).drop_first() =~= a@.skip(i + 1));
        assert(b@.skip(i as int).drop_first() =~= b@.skip(i + 1));
        if a[i] != b[i] {
            return a[i] < b[i];
        }
        i = i + 1;
    }
    i < b.len()
}

pub fn text_precedes(a: &str, b: &str) -> (r: bool)
    ensures
        r == precedes(a@, b@),
{
    let x = chars_of(a);
    let y = chars_of(b);
    chars_precede(&x, &y)
}

/// The views of a list of borrowed texts.
pub open spec fn borrowed(v: Seq<&str>) -> Seq<Seq<char>> {
    v.map_values(|s: &str| s@)
}

/// Whether a list holds the values of a map in the order of their keys.
pub open spec fn in_key_order<V>(list: Seq<V>, m: Map<Seq<char>, V>) -> bool {
    exists|keys: Seq<Seq<char>>| #[trigger]
        ascending(keys) && keys.len() == list.len() && (forall|k: Seq<char>|
            #[trigger] keys.contains(k) <==> m.contains_key(k)) && (forall|i: int|
            0 <= i < list.len() ==> #[trigger] list[i] == m[keys[i]])
}

/// Puts a text that is not in the list yet where it belongs.
fn insert_in_order<'a>(v: &mut Vec<&'a str>, t: &'a str)
    requires
        ascending(borrowed(old(v)@)),
        !borrowed(old(v)@).contains(t@),
    ensures
        ascending(borrowed(final(v)@)),
        forall|x: Seq<char>|
            #[trigger] borrowed(final(v)@).contains(x) <==> borrowed(old(v)@).contains(x) || x == t@,
{
    let ghost old_texts = borrowed(v@);
    let mut i: usize = 0;
    while i < v.len() && text_precedes(v[i], t)
        invariant
            i <= v.len(),
            old_texts == borrowed(v@),
            forall|k: int| 0 <= k < i ==> precedes(#[trigger] old_texts[k], t@),
        decreases v.len() - i,
    {
        assert(old_texts[i as int] == v@[i as int]@);
        i = i + 1;
    }
    proof {
        assert forall|k: int| i <= k < old_texts.len() implies precedes(t@, #[trigger] old_texts[k]) by {
            assert(old_texts[i as int] == v@[i as int]@);
            lemma_precedes_total(old_texts[i as int], t@);
            assert(old_texts.contains(old_texts[i as int]));
            if k > i {
                lemma_precedes_transitive(t@, old_texts[i as int], old_texts[k]);
            }
        }
    }
    v.insert(i, t);
    let ghost now = borrowed(v@);
    assert(now =~= old_texts.insert(i as int, t@));
    assert forall|x: Seq<char>| #[trigger] now.contains(x) <==> old_texts.contains(x) || x == t@ by {
        if old_texts.contains(x) {
            let k = choose|k: int| 0 <= k < old_texts.len() && old_texts[k] == x;
            if k < i {
                assert(now[k] == x);
            } else {
                assert(now[k + 1] == x);
            }
        }
        assert(now[i as int] == t@);
        if now.contains(x) && x != t@ {
            let k = choose|k: int| 0 <= k < now.len() && now[k] == x;
            if k < i {
                assert(old_texts[k] == x);
            } else {
                assert(old_texts[k - 1] == x);
            }
        }
    }
    assert forall|a: int, b: int| 0 <= a < b < now.len() implies precedes(#[trigger] now[a], #[trigger] now[b]) by {
        let x = if a < i { a } else { a - 1 };
        let y = if b < i { b } else { b - 1 };
        if a == i {
            assert(now[b] == old_texts[y]);
        } else if b == i {
            assert(now[a] == old_texts[x]);
        } else {
            assert(now[a] == old_texts[x]);
            assert(now[b] == old_texts[y]);
        }
    }
}

/// The keys of a map in order.
pub fn sorted_keys<'a, V>(m: &'a TextMap<V>) -> (r: Vec<&'a str>)
    requires
        m.wf(),
    ensures
        ascending(borrowed(r@)),
        forall|k: Seq<char>| #[trigger] borrowed(r@).contains(k) <==> m@.contains_key(k),
{
    let n = m.len();
    let ghost keys = keys_of(m.list());
    let mut out: Vec<&'a str> = Vec::new();
    let mut i: usize = 0;
    proof {
        m.lemma_distinct();
        m.lemma_list();
    }
    while i < n
        invariant
            i <= n == m.list().len(),
            m.wf(),
            keys == keys_of(m.list()),
            keys.no_duplicates(),
            ascending(borrowed(out@)),
            forall|k: Seq<char>|
                #[trigger] borrowed(out@).contains(k) <==> exists|j: int| 0 <= j < i && #[trigger] keys[j] == k,
        decreases n - i,
    {
        let key = m.key_at(i);
        assert(keys[i as int] == key@);
        let ghost was = borrowed(out@);
        assert(!was.contains(key@)) by {
            if was.contains(key@) {
                let j = choose|j: int| 0 <= j < i && #[trigger] keys[j] == key@;
                assert(keys[j] == keys[i as int]);
            }
        }
        insert_in_order(&mut out, key.as_str());
        assert forall|k: Seq<char>| #[trigger] borrowed(out@).contains(k) <==> exists|j: int|
            0 <= j < i + 1 && #[trigger] keys[j] == k by {
            if was.contains(k) {
                let j = choose|j: int| 0 <= j < i && #[trigger] keys[j] == k;
                assert(keys[j] == k);
            }
            if exists|j: int| 0 <= j < i + 1 && #[trigger] keys[j] == k {
                let j = choose|j: int| 0 <= j < i + 1 && #[trigger] keys[j] == k;
                if j < i {
                    assert(was.contains(k));
                }
            }
        }
        i = i + 1;
    }
    assert forall|k: Seq<char>| #[trigger] borrowed(out@).contains(k) <==> m@.contains_key(k) by {
        if keys.contains(k) {
            let j = choose|j: int| 0 <= j < keys.len() && keys[j] == k;
            assert(keys[j] == k);
        }
    }
    out
}

} // verus!
