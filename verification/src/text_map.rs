//! A map from texts to values that remembers the order of insertion.

use vstd::prelude::*;
use vstd::string::*;

use crate::text::same;

verus! {

/// The values of distinct keys.
#[derive(Debug)]
pub struct TextMap<V> {
    entries: Vec<(String, V)>,
}

/// The keys of a list of entries.
pub open spec fn keys_of<V>(entries: Seq<(String, V)>) -> Seq<Seq<char>> {
    entries.map_values(|e: (String, V)| e.0@)
}

/// Where a key stands in a list of entries.
pub open spec fn position<V>(entries: Seq<(String, V)>, key: Seq<char>) -> int {
    choose|i: int| 0 <= i < entries.len() && #[trigger] entries[i].0@ == key
}

pub open spec fn as_map<V>(entries: Seq<(String, V)>) -> Map<Seq<char>, V> {
    Map::new(
        |k: Seq<char>| keys_of(entries).contains(k),
        |k: Seq<char>| entries[position(entries, k)].1,
    )
}

proof fn lemma_position<V>(entries: Seq<(String, V)>, i: int)
    requires
        keys_of(entries).no_duplicates(),
        0 <= i < entries.len(),
    ensures
        position(entries, entries[i].0@) == i,
        keys_of(entries).contains(entries[i].0@),
{
    let k = entries[i].0@;
    let j = position(entries, k);
    assert(entries[i].0@ == k);
    assert(0 <= j < entries.len() && entries[j].0@ == k);
    assert(keys_of(entries)[i] == k);
    assert(keys_of(entries)[j] == k);
}

impl<V> View for TextMap<V> {
    type V = Map<Seq<char>, V>;

    closed spec fn view(&self) -> Map<Seq<char>, V> {
        as_map(self.entries@)
    }
}

impl<V> TextMap<V> {
    /// Whether the keys are distinct. It holds of every map that these methods
    /// make.
    pub closed spec fn wf(&self) -> bool {
        keys_of(self.entries@).no_duplicates()
    }

    /// The entries in the order in which they were inserted.
    pub closed spec fn list(&self) -> Seq<(String, V)> {
        self.entries@
    }

    pub fn new() -> (r: TextMap<V>)
        ensures
            r.wf(),
            r@ == Map::<Seq<char>, V>::empty(),
            r.list().len() == 0,
    {
        let entries: Vec<(String, V)> = Vec::new();
        assert(keys_of(entries@).no_duplicates());
        assert(as_map(entries@) =~= Map::<Seq<char>, V>::empty());
        TextMap { entries }
    }

    fn find(&self, key: &str) -> (r: Option<usize>)
        ensures
            match r {
                Some(i) => i < self.entries.len() && self.entries@[i as int].0@ == key@,
                None => !keys_of(self.entries@).contains(key@),
            },
    {
        let mut i: usize = 0;
        while i < self.entries.len()
            invariant
                i <= self.entries.len(),
                forall|k: int| 0 <= k < i ==> #[trigger] self.entries@[k].0@ != key@,
            decreases self.entries.len() - i,
        {
            if same(self.entries[i].0.as_str(), key) {
                return Some(i);
            }
            i = i + 1;
        }
        assert forall|k: int| 0 <= k < keys_of(self.entries@).len() implies keys_of(self.entries@)[k]
            != key@ by {
            assert(self.entries@[k].0@ != key@);
        }
        None
    }

    pub fn get(&self, key: &str) -> (r: Option<&V>)
        requires
            self.wf(),
        ensures
            match r {
                Some(v) => self@.contains_key(key@) && *v == self@[key@],
                None => !self@.contains_key(key@),
            },
    {
        match self.find(key) {
            Some(i) => {
                proof {
                    lemma_position(self.entries@, i as int);
                }
                Some(&self.entries[i].1)
            },
            None => None,
        }
    }

    /// Takes the value of a key out.
    pub fn remove(&mut self, key: &str) -> (r: Option<V>)
        requires
            old(self).wf(),
        ensures
            final(self).wf(),
            final(self)@ == old(self)@.remove(key@),
            match r {
                Some(v) => old(self)@.contains_key(key@) && v == old(self)@[key@],
                None => !old(self)@.contains_key(key@),
            },
    {
        let ghost was = self.entries@;
        match self.find(key) {
            Some(i) => {
                proof {
                    lemma_position(was, i as int);
                    lemma_remove(was, i as int);
                }
                let (_key, v) = self.entries.remove(i);
                Some(v)
            },
            None => {
                assert(as_map(was) =~= as_map(was).remove(key@));
                None
            },
        }
    }

    /// Sets the value of a key.
    pub fn insert(&mut self, key: String, value: V)
        requires
            old(self).wf(),
        ensures
            final(self).wf(),
            final(self)@ == old(self)@.insert(key@, value),
    {
        let ghost before = self@;
        let _earlier = self.remove(key.as_str());
        proof {
            lemma_push(self.entries@, (key, value));
        }
        self.entries.push((key, value));
        assert(self@ =~= before.insert(key@, value));
    }

    /// Sets the values of all keys of another map.
    pub fn extend(&mut self, other: TextMap<V>)
        requires
            old(self).wf(),
            other.wf(),
        ensures
            final(self).wf(),
            final(self)@ == old(self)@.union_prefer_right(other@),
    {
        let ghost base = self@;
        let ghost all = other@;
        let mut entries = other.entries;
        assert(base.union_prefer_right(all) =~= self@.union_prefer_right(as_map(entries@)));
        while entries.len() > 0
            invariant
                self.wf(),
                keys_of(entries@).no_duplicates(),
                self@.union_prefer_right(as_map(entries@)) == base.union_prefer_right(all),
            decreases entries.len(),
        {
            let ghost left = entries@;
            let ghost was = self@;
            proof {
                lemma_remove(left, 0);
                lemma_position(left, 0);
            }
            let (key, value) = entries.remove(0);
            self.insert(key, value);
            assert(self@.union_prefer_right(as_map(entries@)) =~= was.union_prefer_right(as_map(left)));
        }
        assert(self@.union_prefer_right(as_map(entries@)) =~= self@);
    }

    pub fn len(&self) -> (r: usize)
        requires
            self.wf(),
        ensures
            r == self@.dom().len(),
            r == self.list().len(),
    {
        proof {
            let keys = keys_of(self.entries@);
            keys.unique_seq_to_set();
            assert(self@.dom() =~= keys.to_set());
        }
        self.entries.len()
    }

    /// The key of the entry at `i`.
    pub fn key_at(&self, i: usize) -> (r: &String)
        requires
            self.wf(),
            i < self.list().len(),
        ensures
            *r == self.list()[i as int].0,
            self@.contains_key(r@),
            self@[r@] == self.list()[i as int].1,
    {
        proof {
            lemma_position(self.entries@, i as int);
        }
        &self.entries[i].0
    }

    /// The value of the entry at `i`.
    pub fn value_at(&self, i: usize) -> (r: &V)
        requires
            i < self.list().len(),
        ensures
            *r == self.list()[i as int].1,
    {
        &self.entries[i].1
    }

    /// No key stands twice in the list of a map.
    pub proof fn lemma_distinct(&self)
        requires
            self.wf(),
        ensures
            keys_of(self.list()).no_duplicates(),
    {
    }

    /// Every key of the map stands in its list.
    pub proof fn lemma_list(&self)
        ensures
            forall|k: Seq<char>| self@.contains_key(k) <==> keys_of(self.list()).contains(k),
    {
    }
}

impl TextMap<String> {
    /// A second map with the same entries.
    pub fn copy(&self) -> (r: TextMap<String>)
        requires
            self.wf(),
        ensures
            r.wf(),
            r@ == self@,
            r.list() == self.list(),
    {
        let mut entries: Vec<(String, String)> = Vec::new();
        let mut i: usize = 0;
        while i < self.entries.len()
            invariant
                i <= self.entries.len(),
                entries@ =~= self.entries@.take(i as int),
            decreases self.entries.len() - i,
        {
            entries.push((self.entries[i].0.clone(), self.entries[i].1.clone()));
            i = i + 1;
        }
        assert(entries@ =~= self.entries@);
        TextMap { entries }
    }
}

proof fn lemma_remove<V>(entries: Seq<(String, V)>, i: int)
    requires
        keys_of(entries).no_duplicates(),
        0 <= i < entries.len(),
    ensures
        keys_of(entries.remove(i)).no_duplicates(),
        as_map(entries.remove(i)) == as_map(entries).remove(entries[i].0@),
{
    let after = entries.remove(i);
    let gone = entries[i].0@;
    assert(keys_of(after) =~= keys_of(entries).remove(i));
    assert forall|a: int, b: int| 0 <= a < after.len() && 0 <= b < after.len() && a != b implies #[trigger] keys_of(
        after,
    )[a] != #[trigger] keys_of(after)[b] by {
        let x = if a < i { a } else { a + 1 };
        let y = if b < i { b } else { b + 1 };
        assert(keys_of(after)[a] == keys_of(entries)[x]);
        assert(keys_of(after)[b] == keys_of(entries)[y]);
    }
    assert forall|k: Seq<char>| as_map(after).contains_key(k) == as_map(entries).remove(gone).contains_key(k) by {
        if as_map(after).contains_key(k) {
            let a = choose|a: int| 0 <= a < after.len() && keys_of(after)[a] == k;
            let x = if a < i { a } else { a + 1 };
            assert(keys_of(entries)[x] == k);
            assert(keys_of(entries)[i] == gone);
        }
        if as_map(entries).contains_key(k) && k != gone {
            let x = choose|x: int| 0 <= x < entries.len() && keys_of(entries)[x] == k;
            let a = if x < i { x } else { x - 1 };
            assert(keys_of(after)[a] == k);
        }
    }
    assert forall|k: Seq<char>| as_map(after).contains_key(k) implies as_map(after)[k] == as_map(entries).remove(
        gone,
    )[k] by {
        let a = choose|a: int| 0 <= a < after.len() && keys_of(after)[a] == k;
        let x = if a < i { a } else { a + 1 };
        assert(after[a] == entries[x]);
        lemma_position(after, a);
        lemma_position(entries, x);
    }
    assert(as_map(after) =~= as_map(entries).remove(gone));
}

proof fn lemma_push<V>(entries: Seq<(String, V)>, e: (String, V))
    requires
        keys_of(entries).no_duplicates(),
        !as_map(entries).contains_key(e.0@),
    ensures
        keys_of(entries.push(e)).no_duplicates(),
        as_map(entries.push(e)) == as_map(entries).insert(e.0@, e.1),
{
    let after = entries.push(e);
    assert(keys_of(after) =~= keys_of(entries).push(e.0@));
    assert(!keys_of(entries).contains(e.0@));
    assert forall|k: Seq<char>| as_map(after).contains_key(k) == as_map(entries).insert(e.0@, e.1).contains_key(
        k,
    ) by {
        if as_map(entries).contains_key(k) {
            let x = choose|x: int| 0 <= x < entries.len() && keys_of(entries)[x] == k;
            assert(keys_of(after)[x] == k);
        }
        assert(keys_of(after)[entries.len() as int] == e.0@);
        if as_map(after).contains_key(k) && k != e.0@ {
            let a = choose|a: int| 0 <= a < after.len() && keys_of(after)[a] == k;
            assert(keys_of(entries)[a] == k);
        }
    }
    assert forall|k: Seq<char>| as_map(after).contains_key(k) implies as_map(after)[k] == as_map(entries).insert(
        e.0@,
        e.1,
    )[k] by {
        let a = choose|a: int| 0 <= a < after.len() && keys_of(after)[a] == k;
        lemma_position(after, a);
        if a < entries.len() {
            assert(keys_of(entries)[a] == k);
            lemma_position(entries, a);
        }
    }
    assert(as_map(after) =~= as_map(entries).insert(e.0@, e.1));
}

} // verus!
