//! Contents of files that were read, kept apart from the conversation.
//!
//! A path has at most one entry; reading it again replaces the entry.

use std::collections::hash_map::DefaultHasher;
use std::hash::Hasher;
use std::time::SystemTime;

use vstd::hash_map::StringHashMap;
use vstd::prelude::*;
use vstd::std_specs::hash::DefaultHasherAdditionalSpecFns;
use vstd::string::*;

use crate::hashing::{text_writes, write_text};
use crate::paths::{canonical, canonical_path};
use crate::text::{
    byte_count, byte_len, contains, hex_digits, join, join_texts, joined_parts_are_kept, lemma_join_concat, lines,
    lines_of, push_hex, same, texts,
};

verus! {

#[verifier::external_type_specification]
#[verifier::external_body]
pub struct ExSystemTime(SystemTime);

/// Two points in time compare equal when they are the same point.
pub assume_specification[ <SystemTime as PartialEq>::eq ](a: &SystemTime, b: &SystemTime) -> (r: bool)
    ensures
        r == (*a == *b),
;

/// A snapshot of a file.
#[derive(Debug)]
pub struct FileEntry {
    pub path: String,
    pub content: String,
    /// When the file had last been changed.
    pub mtime: SystemTime,
    pub size_bytes: usize,
    pub line_count: usize,
}

/// Whether `e` is the snapshot of `content` at `path`.
pub open spec fn is_snapshot(
    e: FileEntry,
    path: Seq<char>,
    content: Seq<char>,
    mtime: SystemTime,
) -> bool {
    &&& e.path@ == path
    &&& e.content@ == content
    &&& e.mtime == mtime
    &&& e.size_bytes == byte_count(content)
    &&& e.line_count == lines(content).len()
}

/// The snapshots that are kept, by their identifier, and the identifier of
/// each path.
pub struct FileStore {
    entries: StringHashMap<FileEntry>,
    by_path: StringHashMap<String>,
}

pub struct FileStoreView {
    pub entries: Map<Seq<char>, FileEntry>,
    pub by_path: Map<Seq<char>, Seq<char>>,
}

impl View for FileStore {
    type V = FileStoreView;

    closed spec fn view(&self) -> FileStoreView {
        FileStoreView {
            entries: self.entries@,
            by_path: self.by_path@.map_values(|id: String| id@),
        }
    }
}

/// The identifier of `content` at `path`: the low half of a hash of both.
pub open spec fn store_id(path: Seq<char>, content: Seq<char>) -> Seq<char> {
    let hash = DefaultHasher::spec_finish(
        text_writes(canonical(path)) + text_writes(content),
    );
    "fs_"@ + hex_digits(hash as nat, 8)
}

/// The identifier of `content` at `path`. The same content at the same path
/// has the same identifier.
pub fn derive_id(path: &str, content: &str) -> (r: String)
    ensures
        r@ == store_id(path@, content@),
{
    let whole = canonical_path(path);
    let mut h = DefaultHasher::new();
    write_text(&mut h, whole.as_str());
    write_text(&mut h, content);
    assert(h@ =~= text_writes(whole@) + text_writes(content@));
    let hash: u64 = h.finish();
    let mut id = "fs_".to_owned();
    push_hex(&mut id, hash, 8);
    id
}

/// What keeping a snapshot does to the store.
pub open spec fn inserted(
    before: FileStoreView,
    after: FileStoreView,
    path: Seq<char>,
    content: Seq<char>,
    mtime: SystemTime,
) -> bool {
    let id = store_id(path, content);
    let key = canonical(path);
    let kept = if before.by_path.contains_key(key) && before.by_path[key] != id {
        before.entries.remove(before.by_path[key])
    } else {
        before.entries
    };
    &&& after.by_path == before.by_path.insert(key, id)
    &&& after.entries.contains_key(id)
    &&& is_snapshot(after.entries[id], path, content, mtime)
    &&& after.entries == kept.insert(id, after.entries[id])
}

/// The store without the snapshot of a path.
pub open spec fn invalidated(before: FileStoreView, path: Seq<char>) -> FileStoreView {
    let key = canonical(path);
    FileStoreView {
        by_path: before.by_path.remove(key),
        entries: if before.by_path.contains_key(key) {
            before.entries.remove(before.by_path[key])
        } else {
            before.entries
        },
    }
}

/// The part of a text from line `start` to line `end`, counted from one.
pub open spec fn line_range(content: Seq<char>, start: nat, end: nat) -> Seq<char> {
    let ls = lines(content);
    let last = if end <= ls.len() { end } else { ls.len() };
    if start == 0 || start > last {
        Seq::empty()
    } else {
        join(ls.subrange(start - 1, last as int), "\n"@)
    }
}

impl FileStore {
    pub fn new() -> (r: FileStore)
        ensures
            r@.entries == Map::<Seq<char>, FileEntry>::empty(),
            r@.by_path == Map::<Seq<char>, Seq<char>>::empty(),
    {
        let r = FileStore { entries: StringHashMap::new(), by_path: StringHashMap::new() };
        assert(r.by_path@.map_values(|id: String| id@) =~= Map::<Seq<char>, Seq<char>>::empty());
        r
    }

    /// Keeps a snapshot of a file in place of any earlier one of that path, and
    /// gives its identifier.
    pub fn insert(&mut self, path: String, content: String, mtime: SystemTime) -> (id: String)
        ensures
            id@ == store_id(path@, content@),
            inserted(old(self)@, final(self)@, path@, content@, mtime),
    {
        let id = derive_id(path.as_str(), content.as_str());
        let line_count = lines_of(content.as_str()).len();
        assert(line_count == lines(content@).len()) by {
            assert(lines(content@).len() == line_count);
        }
        let entry = FileEntry {
            path: path.clone(),
            size_bytes: byte_len(content.as_str()),
            content,
            mtime,
            line_count,
        };
        let key = canonical_path(path.as_str());
        let earlier: Option<String> = match self.by_path.get(key.as_str()) {
            Some(e) => Some(e.clone()),
            None => None,
        };
        let ghost was = *self;
        if let Some(e) = earlier {
            if !same(e.as_str(), id.as_str()) {
                self.entries.remove(e.as_str());
            }
        }
        self.by_path.insert(key, id.clone());
        self.entries.insert(id.clone(), entry);
        assert(self.by_path@.map_values(|id: String| id@) =~= was@.by_path.insert(key@, id@));
        id
    }

    /// The snapshot with an identifier.
    pub fn get(&self, store_id: &str) -> (r: Option<&FileEntry>)
        ensures
            match r {
                Some(e) => self@.entries.contains_key(store_id@) && *e == self@.entries[store_id@],
                None => !self@.entries.contains_key(store_id@),
            },
    {
        self.entries.get(store_id)
    }

    /// The identifier of the snapshot of a path.
    pub fn store_id_for_path(&self, path: &str) -> (r: Option<&str>)
        ensures
            match r {
                Some(id) => self@.by_path.contains_key(canonical(path@)) && id@
                    == self@.by_path[canonical(path@)],
                None => !self@.by_path.contains_key(canonical(path@)),
            },
    {
        let key = canonical_path(path);
        match self.by_path.get(key.as_str()) {
            Some(id) => Some(id.as_str()),
            None => None,
        }
    }

    /// Whether a snapshot is unknown or older than the file.
    pub fn is_stale(&self, store_id: &str, current_mtime: SystemTime) -> (r: bool)
        ensures
            r == !(self@.entries.contains_key(store_id@) && self@.entries[store_id@].mtime
                == current_mtime),
    {
        match self.entries.get(store_id) {
            Some(e) => !(e.mtime == current_mtime),
            None => true,
        }
    }

    /// Forgets the snapshot of a path.
    pub fn invalidate(&mut self, path: &str)
        ensures
            final(self)@ == invalidated(old(self)@, path@),
    {
        let ghost was = *self;
        let key = canonical_path(path);
        let known: Option<String> = match self.by_path.get(key.as_str()) {
            Some(e) => Some(e.clone()),
            None => None,
        };
        if let Some(id) = known {
            self.by_path.remove(key.as_str());
            self.entries.remove(id.as_str());
        }
        assert(self.by_path@.map_values(|id: String| id@) =~= was@.by_path.remove(key@));
    }

    /// The lines `start` to `end` of a snapshot, counted from one. A range
    /// outside the file is empty.
    pub fn peek_lines(&self, store_id: &str, start: usize, end: usize) -> (r: Option<String>)
        ensures
            r is Some == self@.entries.contains_key(store_id@),
            r is Some ==> r->0@ == line_range(
                self@.entries[store_id@].content@,
                start as nat,
                end as nat,
            ),
    {
        match self.entries.get(store_id) {
            None => None,
            Some(entry) => {
                let ls = lines_of(entry.content.as_str());
                let ghost all = lines(entry.content@);
                assert(texts(ls@).len() == ls@.len());
                let last: usize = if end <= ls.len() { end } else { ls.len() };
                if start == 0 || start > last {
                    return Some(String::new());
                }
                let mut part: Vec<String> = Vec::new();
                let mut i: usize = start - 1;
                while i < last
                    invariant
                        start - 1 <= i <= last <= ls.len(),
                        start >= 1,
                        part@.len() == i - (start - 1),
                        forall|k: int|
                            0 <= k < part@.len() ==> #[trigger] part@[k]@ == ls@[start - 1 + k]@,
                    decreases last - i,
                {
                    part.push(ls[i].clone());
                    i = i + 1;
                }
                assert(texts(part@) =~= all.subrange(start - 1, last as int));
                Some(join_texts(&part, "\n"))
            },
        }
    }

    /// How many snapshots are kept.
    pub fn len(&self) -> (r: usize)
        ensures
            r == self@.entries.len(),
    {
        self.entries.len()
    }

    pub fn is_empty(&self) -> (r: bool)
        ensures
            r == self@.entries.is_empty(),
    {
        self.entries.is_empty()
    }
}

impl Default for FileStore {
    fn default() -> (r: Self)
        ensures
            r@.entries == Map::<Seq<char>, FileEntry>::empty(),
            r@.by_path == Map::<Seq<char>, Seq<char>>::empty(),
    {
        FileStore::new()
    }
}

// ---- What the store guarantees ----

/// What is kept is found again: by its identifier, and by its path.
pub proof fn kept_snapshots_are_found(
    before: FileStoreView,
    after: FileStoreView,
    path: Seq<char>,
    content: Seq<char>,
    mtime: SystemTime,
)
    requires
        inserted(before, after, path, content, mtime),
    ensures
        after.by_path[canonical(path)] == store_id(path, content),
        is_snapshot(after.entries[store_id(path, content)], path, content, mtime),
{
}

/// Keeping a path anew drops what was kept of it before.
pub proof fn earlier_snapshots_are_displaced(
    before: FileStoreView,
    after: FileStoreView,
    path: Seq<char>,
    content: Seq<char>,
    mtime: SystemTime,
)
    requires
        inserted(before, after, path, content, mtime),
        before.by_path.contains_key(canonical(path)),
        before.by_path[canonical(path)] != store_id(path, content),
    ensures
        !after.entries.contains_key(before.by_path[canonical(path)]),
{
}

/// An invalidated path is forgotten, and invalidating it again does nothing.
pub proof fn invalidated_paths_are_forgotten(s: FileStoreView, path: Seq<char>)
    ensures
        !invalidated(s, path).by_path.contains_key(canonical(path)),
        s.by_path.contains_key(canonical(path)) ==> !invalidated(s, path).entries.contains_key(
            s.by_path[canonical(path)],
        ),
        invalidated(invalidated(s, path), path) == invalidated(s, path),
{
    let once = invalidated(s, path);
    assert(once.by_path.remove(canonical(path)) =~= once.by_path);
}

/// Whether every path leads to a snapshot of that path.
pub open spec fn consistent(s: FileStoreView) -> bool {
    forall|p: Seq<char>|
        s.by_path.contains_key(p) ==> s.entries.contains_key(#[trigger] s.by_path[p])
            && canonical(s.entries[s.by_path[p]].path@) == p
}

/// Keeping a snapshot keeps the store consistent, unless the identifier
/// collides with that of another path.
pub proof fn keeping_is_consistent(
    before: FileStoreView,
    after: FileStoreView,
    path: Seq<char>,
    content: Seq<char>,
    mtime: SystemTime,
)
    requires
        consistent(before),
        inserted(before, after, path, content, mtime),
        forall|p: Seq<char>|
            before.by_path.contains_key(p) && p != canonical(path) ==> #[trigger] before.by_path[p] != store_id(
                path,
                content,
            ),
    ensures
        consistent(after),
{
    assert forall|p: Seq<char>| after.by_path.contains_key(p) implies after.entries.contains_key(
        #[trigger] after.by_path[p],
    ) && canonical(after.entries[after.by_path[p]].path@) == p by {
        if p != canonical(path) {
            assert(before.by_path[p] == after.by_path[p]);
            if before.by_path.contains_key(canonical(path)) {
                assert(canonical(before.entries[before.by_path[canonical(path)]].path@) == canonical(path));
            }
        }
    }
}

/// Invalidating a path keeps the store consistent: every other path still
/// leads to its snapshot.
pub proof fn invalidating_is_consistent(s: FileStoreView, path: Seq<char>)
    requires
        consistent(s),
    ensures
        consistent(invalidated(s, path)),
        forall|p: Seq<char>|
            p != canonical(path) && s.by_path.contains_key(p) ==> invalidated(s, path).entries.contains_key(
                #[trigger] s.by_path[p],
            ),
{
    let after = invalidated(s, path);
    assert forall|p: Seq<char>| p != canonical(path) && s.by_path.contains_key(p) implies after.entries.contains_key(
        #[trigger] s.by_path[p],
    ) && canonical(after.entries[s.by_path[p]].path@) == p by {
        if s.by_path.contains_key(canonical(path)) {
            assert(canonical(s.entries[s.by_path[canonical(path)]].path@) == canonical(path));
        }
    }
    assert forall|p: Seq<char>| after.by_path.contains_key(p) implies after.entries.contains_key(
        #[trigger] after.by_path[p],
    ) && canonical(after.entries[after.by_path[p]].path@) == p by {
        assert(s.by_path[p] == after.by_path[p]);
    }
}

/// A range of lines holds the lines that it names: as many as lie in the file, from the
/// first to the last, each whole. A single line is itself; ranges that follow one
/// another make up the range of both.
pub proof fn ranges_hold_their_lines(content: Seq<char>, start: nat, end: nat, i: nat)
    requires
        1 <= start <= i <= end,
        i <= lines(content).len(),
    ensures
        contains(line_range(content, start, end), lines(content)[i - 1]),
        line_range(content, i, i) == lines(content)[i - 1],
        i < end && i < lines(content).len() ==> line_range(content, start, end) == line_range(content, start, i)
            + "\n"@ + line_range(content, i + 1, end),
        line_range(content, 0, end).len() == 0,
        line_range(content, lines(content).len() + 1, end).len() == 0,
{
    let ls = lines(content);
    let last = if end <= ls.len() {
        end
    } else {
        ls.len()
    };
    let part = ls.subrange(start - 1, last as int);
    joined_parts_are_kept(part, "\n"@, i - start);
    assert(part[i - start] == ls[i - 1]);
    assert(ls.subrange(i - 1, i as int) =~= seq![ls[i - 1]]);
    if i < end && i < ls.len() {
        let a = ls.subrange(start - 1, i as int);
        let b = ls.subrange(i as int, last as int);
        assert(part =~= a + b);
        lemma_join_concat(a, b, "\n"@);
    }
}

/// Keeping and forgetting a path leaves the snapshots of all other paths to be found by
/// their paths.
pub proof fn other_paths_keep_their_snapshots(
    before: FileStoreView,
    after: FileStoreView,
    path: Seq<char>,
    content: Seq<char>,
    mtime: SystemTime,
    other: Seq<char>,
)
    requires
        inserted(before, after, path, content, mtime),
        other != canonical(path),
    ensures
        after.by_path.contains_key(other) <==> before.by_path.contains_key(other),
        before.by_path.contains_key(other) ==> after.by_path[other] == before.by_path[other],
        invalidated(before, path).by_path.contains_key(other) <==> before.by_path.contains_key(other),
        before.by_path.contains_key(other) ==> invalidated(before, path).by_path[other] == before.by_path[other],
        after.by_path.contains_key(canonical(path)),
        after.entries.contains_key(after.by_path[canonical(path)]),
        after.entries[after.by_path[canonical(path)]].content@ == content,
        after.entries[after.by_path[canonical(path)]].path@ == path,
        after.entries[after.by_path[canonical(path)]].mtime == mtime,
        after.entries[after.by_path[canonical(path)]].line_count == lines(content).len(),
        after.entries[after.by_path[canonical(path)]].size_bytes == byte_count(content),
{
}

} // verus!
