//! File paths as `/`-separated text.

use vstd::prelude::*;
use vstd::string::*;

use crate::seqs::{lemma_filter_all, lemma_filter_id};
use crate::text::{chars_of, join, join_texts, lemma_split_on_nonempty, same, split_on, split_text, texts};

verus! {

/// Whether a part of a path names something: it is not empty and not `.`.
pub open spec fn is_segment(s: Seq<char>) -> bool {
    s.len() > 0 && s != seq!['.']
}

/// The parts of a path that name something.
pub open spec fn segments(p: Seq<char>) -> Seq<Seq<char>> {
    split_on(p, '/').filter(|s: Seq<char>| is_segment(s))
}

/// The last part of a path, unless it leads back up.
pub open spec fn file_name(p: Seq<char>) -> Option<Seq<char>> {
    let segs = segments(p);
    if segs.len() == 0 || segs.last() == seq!['.', '.'] {
        None
    } else {
        Some(segs.last())
    }
}

pub fn segments_of(p: &str) -> (r: Vec<String>)
    ensures
        texts(r@) == segments(p@),
{
    let parts = split_text(p, '/');
    let ghost all = split_on(p@, '/');
    let ghost keep = |s: Seq<char>| is_segment(s);
    let mut out: Vec<String> = Vec::new();
    let mut i: usize = 0;
    proof {
        reveal(Seq::filter);
        reveal_strlit(".");
        assert("."@ =~= seq!['.']);
        assert(texts(parts@).len() == parts@.len());
    }
    assert(texts(out@) =~= all.take(0).filter(keep));
    while i < parts.len()
        invariant
            i <= parts.len(),
            all == texts(parts@),
            keep == (|s: Seq<char>| is_segment(s)),
            "."@ == seq!['.'],
            texts(out@) == all.take(i as int).filter(keep),
        decreases parts.len() - i,
    {
        proof {
            reveal(Seq::filter);
        }
        assert(all.take(i + 1).drop_last() =~= all.take(i as int));
        assert(all.take(i + 1).last() == parts@[i as int]@);
        if !parts[i].as_str().is_empty() && !same(parts[i].as_str(), ".") {
            let ghost was = out@;
            out.push(parts[i].clone());
            assert(texts(out@) =~= texts(was).push(parts@[i as int]@));
        }
        i = i + 1;
    }
    assert(all.take(all.len() as int) =~= all);
    out
}

pub fn file_name_of(p: &str) -> (r: Option<String>)
    ensures
        crate::text::opt(r) == file_name(p@),
{
    let segs = segments_of(p);
    proof {
        reveal_strlit("..");
        assert(".."@ =~= seq!['.', '.']);
        assert(texts(segs@).len() == segs@.len());
    }
    if segs.len() == 0 {
        return None;
    }
    let n = segs.len();
    assert(texts(segs@).last() == segs@[n - 1]@);
    if same(segs[n - 1].as_str(), "..") {
        None
    } else {
        Some(segs[n - 1].clone())
    }
}

/// A path taken apart: whether it starts at the root, whether it starts with
/// `.`, and the parts that name something.
#[verifier::ext_equal]
pub struct PathView {
    pub root: bool,
    pub here: bool,
    pub names: Seq<Seq<char>>,
}

pub open spec fn path_view(p: Seq<char>) -> PathView {
    let root = p.len() > 0 && p[0] == '/';
    PathView { root, here: !root && split_on(p, '/')[0] == seq!['.'], names: segments(p) }
}

/// The path that holds a path.
pub open spec fn parent(p: Seq<char>) -> Option<PathView> {
    let v = path_view(p);
    if v.names.len() > 0 {
        Some(PathView { names: v.names.drop_last(), ..v })
    } else if v.here {
        Some(PathView { root: false, here: false, names: v.names })
    } else {
        None
    }
}

/// The first part of a path.
pub open spec fn top_component(p: Seq<char>) -> Option<Seq<char>> {
    let v = path_view(p);
    if v.root {
        Some(seq!['/'])
    } else if v.here {
        Some(seq!['.'])
    } else if v.names.len() > 0 {
        Some(v.names[0])
    } else {
        None
    }
}

/// A path taken apart.
pub struct PathParts {
    pub root: bool,
    pub here: bool,
    pub names: Vec<String>,
}

impl View for PathParts {
    type V = PathView;

    open spec fn view(&self) -> PathView {
        PathView { root: self.root, here: self.here, names: texts(self.names@) }
    }
}

pub fn parts_of(p: &str) -> (r: PathParts)
    ensures
        r@ == path_view(p@),
{
    let chars = crate::text::chars_of(p);
    let root = chars.len() > 0 && chars[0] == '/';
    let parts = split_text(p, '/');
    proof {
        lemma_split_on_nonempty(p@, '/');
        assert(texts(parts@).len() == parts@.len());
        assert(texts(parts@)[0] == parts@[0]@);
        reveal_strlit(".");
        assert("."@ =~= seq!['.']);
    }
    let here = !root && same(parts[0].as_str(), ".");
    PathParts { root, here, names: segments_of(p) }
}

pub fn same_names(a: &Vec<String>, b: &Vec<String>, n: usize) -> (r: bool)
    requires
        n <= a.len(),
        n <= b.len(),
    ensures
        r == (texts(a@).take(n as int) == texts(b@).take(n as int)),
{
    let mut i: usize = 0;
    while i < n
        invariant
            i <= n <= a.len(),
            n <= b.len(),
            forall|k: int| 0 <= k < i ==> #[trigger] a@[k]@ == b@[k]@,
        decreases n - i,
    {
        if !same(a[i].as_str(), b[i].as_str()) {
            assert(texts(a@).take(n as int)[i as int] != texts(b@).take(n as int)[i as int]);
            return false;
        }
        i = i + 1;
    }
    assert(texts(a@).take(n as int) =~= texts(b@).take(n as int));
    true
}

/// Whether two paths have a parent and it is the same.
pub fn share_parent(a: &str, b: &str) -> (r: bool)
    ensures
        r == (parent(a@) is Some && parent(a@) == parent(b@)),
{
    let x = parts_of(a);
    let y = parts_of(b);
    let ghost xs = texts(x.names@);
    let ghost ys = texts(y.names@);
    assert(xs.len() == x.names@.len() && ys.len() == y.names@.len());
    if x.names.len() > 0 {
        if y.names.len() > 0 {
            assert(xs.drop_last() =~= xs.take(x.names.len() - 1));
            assert(ys.drop_last() =~= ys.take(y.names.len() - 1));
            if x.names.len() != y.names.len() {
                assert(xs.drop_last().len() != ys.drop_last().len());
                return false;
            }
            x.root == y.root && x.here == y.here && same_names(&x.names, &y.names, x.names.len() - 1)
        } else if y.here {
            assert(ys =~= Seq::<Seq<char>>::empty());
            let alone = x.names.len() == 1;
            assert(alone ==> xs.drop_last() =~= ys);
            alone && !x.root && !x.here
        } else {
            false
        }
    } else if x.here {
        assert(xs =~= Seq::<Seq<char>>::empty());
        if y.names.len() > 0 {
            let alone = y.names.len() == 1;
            assert(alone ==> ys.drop_last() =~= xs);
            alone && !y.root && !y.here
        } else {
            assert(ys =~= xs);
            y.here
        }
    } else {
        false
    }
}

pub fn top_component_of(p: &str) -> (r: Option<String>)
    ensures
        crate::text::opt(r) == top_component(p@),
{
    let v = parts_of(p);
    assert(texts(v.names@).len() == v.names@.len());
    proof {
        reveal_strlit("/");
        reveal_strlit(".");
        assert("/"@ =~= seq!['/']);
        assert("."@ =~= seq!['.']);
    }
    if v.root {
        Some("/".to_owned())
    } else if v.here {
        Some(".".to_owned())
    } else if v.names.len() > 0 {
        assert(texts(v.names@)[0] == v.names@[0]@);
        Some(v.names[0].clone())
    } else {
        None
    }
}

/// A path as seen from a directory; an absolute path stays as it is.
pub open spec fn joined(base: Seq<char>, path: Seq<char>) -> Seq<char> {
    if path.len() > 0 && path[0] == '/' {
        path
    } else if base.len() == 0 || base.last() == '/' {
        base + path
    } else {
        base + "/"@ + path
    }
}

pub fn join_path(base: &str, path: &str) -> (r: String)
    ensures
        r@ == joined(base@, path@),
{
    let p = chars_of(path);
    if p.len() > 0 && p[0] == '/' {
        return path.to_owned();
    }
    let b = chars_of(base);
    let mut out: String = base.to_owned();
    if !(b.len() == 0 || b[b.len() - 1] == '/') {
        out.append("/");
    }
    out.append(path);
    out
}

// ---- One text for each path ----

/// The text of a path that was taken apart.
pub open spec fn written(v: PathView) -> Seq<char> {
    if v.root {
        seq!['/'] + join(v.names, seq!['/'])
    } else if v.here && v.names.len() == 0 {
        seq!['.']
    } else if v.here {
        seq!['.', '/'] + join(v.names, seq!['/'])
    } else {
        join(v.names, seq!['/'])
    }
}

/// A path without the separators and dots that make no difference. Two paths are the
/// same where this text of them is.
pub open spec fn canonical(p: Seq<char>) -> Seq<char> {
    written(path_view(p))
}

pub fn canonical_path(p: &str) -> (r: String)
    ensures
        r@ == canonical(p@),
{
    let v = parts_of(p);
    proof {
        reveal_strlit("/");
        reveal_strlit("./");
        reveal_strlit(".");
        assert("/"@ =~= seq!['/']);
        assert("./"@ =~= seq!['.', '/']);
        assert("."@ =~= seq!['.']);
        assert(texts(v.names@).len() == v.names@.len());
    }
    let names = join_texts(&v.names, "/");
    let mut out: String = if v.root {
        "/".to_owned()
    } else if v.here && v.names.len() == 0 {
        ".".to_owned()
    } else if v.here {
        "./".to_owned()
    } else {
        String::new()
    };
    out.append(names.as_str());
    assert(out@ =~= canonical(p@));
    out
}

/// Whether two texts name the same path.
pub fn same_path(a: &str, b: &str) -> (r: bool)
    ensures
        r == (canonical(a@) == canonical(b@)),
{
    let x = canonical_path(a);
    let y = canonical_path(b);
    same(x.as_str(), y.as_str())
}

proof fn lemma_split_free(s: Seq<char>, sep: char)
    ensures
        forall|i: int| 0 <= i < split_on(s, sep).len() ==> !(#[trigger] split_on(s, sep)[i]).contains(sep),
    decreases s.len(),
{
    let parts = split_on(s, sep);
    if s.len() > 0 {
        lemma_split_free(s.drop_last(), sep);
        lemma_split_on_nonempty(s.drop_last(), sep);
        let rest = split_on(s.drop_last(), sep);
        assert forall|i: int| 0 <= i < parts.len() implies !(#[trigger] parts[i]).contains(sep) by {
            if s.last() == sep {
                if i < rest.len() {
                    assert(parts[i] == rest[i]);
                }
            } else if i < rest.len() - 1 {
                assert(parts[i] == rest[i]);
            } else {
                assert(!rest[rest.len() - 1].contains(sep));
                assert(parts[i] == rest.last().push(s.last()));
                if parts[i].contains(sep) {
                    let k = choose|k: int| 0 <= k < parts[i].len() && parts[i][k] == sep;
                    if k < rest.last().len() {
                        assert(rest.last()[k] == sep);
                    }
                }
            }
        }
    }
}

proof fn lemma_split_tail(s: Seq<char>, t: Seq<char>, sep: char)
    requires
        !t.contains(sep),
    ensures
        split_on(s + t, sep) == split_on(s, sep).drop_last().push(split_on(s, sep).last() + t),
    decreases t.len(),
{
    let parts = split_on(s, sep);
    lemma_split_on_nonempty(s, sep);
    if t.len() == 0 {
        assert(s + t =~= s);
        assert(parts.last() + t =~= parts.last());
        assert(parts.drop_last().push(parts.last()) =~= parts);
    } else {
        let u = t.drop_last();
        assert(!u.contains(sep)) by {
            if u.contains(sep) {
                let k = choose|k: int| 0 <= k < u.len() && u[k] == sep;
                assert(t[k] == sep);
            }
        }
        assert(t[t.len() - 1] != sep);
        lemma_split_tail(s, u, sep);
        assert((s + t).drop_last() =~= s + u);
        assert((parts.last() + u).push(t.last()) =~= parts.last() + t);
        let rest = split_on(s + u, sep);
        assert(rest.drop_last() =~= parts.drop_last());
    }
}

/// Text that is put together from parts comes apart into those parts.
proof fn lemma_split_join(names: Seq<Seq<char>>, sep: char)
    requires
        names.len() > 0,
        forall|i: int| 0 <= i < names.len() ==> !(#[trigger] names[i]).contains(sep),
    ensures
        split_on(join(names, seq![sep]), sep) == names,
    decreases names.len(),
{
    let e = Seq::<char>::empty();
    if names.len() == 1 {
        assert(!names[0].contains(sep));
        lemma_split_tail(e, names[0], sep);
        assert(e + names[0] =~= names[0]);
        assert(split_on(e, sep) =~= seq![e]);
        assert(seq![e].drop_last().push(seq![e].last() + names[0]) =~= names);
    } else {
        let t = names.drop_last();
        assert forall|i: int| 0 <= i < t.len() implies !(#[trigger] t[i]).contains(sep) by {
            assert(t[i] == names[i]);
        }
        lemma_split_join(t, sep);
        let s = join(t, seq![sep]) + seq![sep];
        assert(s.drop_last() =~= join(t, seq![sep]));
        assert(split_on(s, sep) == t.push(e));
        assert(!names[names.len() - 1].contains(sep));
        lemma_split_tail(s, names.last(), sep);
        assert(e + names.last() =~= names.last());
        assert(t.push(e).drop_last().push(t.push(e).last() + names.last()) =~= names);
    }
}

proof fn lemma_split_front(s: Seq<char>, t: Seq<char>, sep: char)
    requires
        !s.contains(sep),
    ensures
        split_on(s + seq![sep] + t, sep) == seq![s] + split_on(t, sep),
    decreases t.len(),
{
    let h = s + seq![sep];
    let e = Seq::<char>::empty();
    lemma_split_on_nonempty(t, sep);
    if t.len() == 0 {
        assert(h + t =~= h);
        assert(h.drop_last() =~= s);
        lemma_split_tail(e, s, sep);
        assert(e + s =~= s);
        assert(split_on(e, sep) =~= seq![e]);
        assert(split_on(s, sep) =~= seq![s]);
        assert(split_on(h, sep) =~= seq![s] + seq![e]);
    } else {
        let u = t.drop_last();
        lemma_split_front(s, u, sep);
        lemma_split_on_nonempty(u, sep);
        assert((h + t).drop_last() =~= h + u);
        let rest = split_on(u, sep);
        let all = seq![s] + rest;
        assert(all.drop_last() =~= seq![s] + rest.drop_last());
        assert(all.last() == rest.last());
        assert(split_on(h + t, sep) =~= seq![s] + split_on(t, sep));
    }
}

proof fn lemma_segments(p: Seq<char>)
    ensures
        forall|i: int|
            0 <= i < segments(p).len() ==> is_segment(#[trigger] segments(p)[i]) && !segments(p)[i].contains('/'),
{
    let keep = |s: Seq<char>| is_segment(s);
    let all = split_on(p, '/');
    lemma_filter_all(all, keep);
    lemma_split_free(p, '/');
    assert forall|i: int| 0 <= i < segments(p).len() implies is_segment(#[trigger] segments(p)[i])
        && !segments(p)[i].contains('/') by {
        assert(keep(segments(p)[i]));
        assert(all.contains(segments(p)[i]));
        let k = choose|k: int| 0 <= k < all.len() && all[k] == segments(p)[i];
        assert(!all[k].contains('/'));
    }
}

proof fn lemma_no_segment(s: Seq<char>)
    requires
        !is_segment(s),
    ensures
        seq![s].filter(|s: Seq<char>| is_segment(s)) == Seq::<Seq<char>>::empty(),
{
    let keep = |s: Seq<char>| is_segment(s);
    reveal(Seq::filter);
    let none = Seq::<Seq<char>>::empty();
    assert(seq![s].drop_last() =~= none);
    assert(none.filter(keep) =~= none);
    assert(!keep(seq![s].last()));
    assert(seq![s].filter(keep) =~= none);
}

proof fn lemma_segments_joined(names: Seq<Seq<char>>)
    requires
        forall|i: int| 0 <= i < names.len() ==> is_segment(#[trigger] names[i]) && !names[i].contains('/'),
    ensures
        segments(join(names, seq!['/'])) == names,
        names.len() > 0 ==> join(names, seq!['/']).len() > 0 && join(names, seq!['/'])[0] != '/',
        names.len() > 0 ==> split_on(join(names, seq!['/']), '/')[0] == names[0],
{
    let keep = |s: Seq<char>| is_segment(s);
    if names.len() > 0 {
        lemma_split_join(names, '/');
        lemma_filter_id(names, keep);
        lemma_join_starts(names, seq!['/']);
        assert(!names[0].contains(names[0][0]) || names[0][0] != '/');
        assert(names[0].contains(names[0][0]));
    } else {
        let e = Seq::<char>::empty();
        assert(split_on(e, '/') =~= seq![e]);
        lemma_no_segment(e);
        assert(segments(e) =~= names);
    }
}

proof fn lemma_join_starts(names: Seq<Seq<char>>, sep: Seq<char>)
    requires
        names.len() > 0,
        names[0].len() > 0,
    ensures
        join(names, sep).len() > 0,
        join(names, sep)[0] == names[0][0],
    decreases names.len(),
{
    if names.len() > 1 {
        assert(names.drop_last()[0] == names[0]);
        lemma_join_starts(names.drop_last(), sep);
    }
}

/// The canonical text of a path stands for that path.
pub proof fn canonical_text_is_the_path(p: Seq<char>)
    ensures
        path_view(canonical(p)) == path_view(p),
        canonical(canonical(p)) == canonical(p),
{
    let v = path_view(p);
    let keep = |s: Seq<char>| is_segment(s);
    let body = join(v.names, seq!['/']);
    let c = canonical(p);
    lemma_segments(p);
    lemma_segments_joined(v.names);
    let e = Seq::<char>::empty();
    if v.root {
        lemma_split_front(e, body, '/');
        assert(e + seq!['/'] + body =~= c);
        Seq::filter_distributes_over_add(seq![e], split_on(body, '/'), keep);
        lemma_no_segment(e);
        assert(segments(c) =~= v.names);
        assert(path_view(c) =~= v);
    } else if v.here {
        let dot = seq!['.'];
        assert(!dot.contains('/'));
        lemma_no_segment(dot);
        if v.names.len() == 0 {
            lemma_split_tail(e, dot, '/');
            assert(e + dot =~= dot);
            assert(split_on(e, '/') =~= seq![e]);
            assert(split_on(c, '/') =~= seq![dot]);
            assert(segments(c) =~= v.names);
        } else {
            lemma_split_front(dot, body, '/');
            assert(dot + seq!['/'] + body =~= c);
            Seq::filter_distributes_over_add(seq![dot], split_on(body, '/'), keep);
            assert(segments(c) =~= v.names);
        }
        assert(path_view(c) =~= v);
    } else {
        assert(c == body);
        if v.names.len() == 0 {
            assert(split_on(c, '/') =~= seq![e]);
        } else {
            assert(v.names[0] != seq!['.']);
        }
        assert(path_view(c) =~= v);
    }
}

/// Two paths have one canonical text exactly where they start alike and their parts
/// that name something are the same.
pub proof fn canonical_text_tells_paths_apart(a: Seq<char>, b: Seq<char>)
    ensures
        canonical(a) == canonical(b) <==> path_view(a) == path_view(b),
{
    canonical_text_is_the_path(a);
    canonical_text_is_the_path(b);
}

/// A path and its canonical text have the same last part.
pub proof fn canonical_text_keeps_the_name(p: Seq<char>)
    ensures
        file_name(canonical(p)) == file_name(p),
{
    canonical_text_is_the_path(p);
    assert(path_view(canonical(p)).names == path_view(p).names);
}

/// A path below a directory has its own name, and the directory holds it.
pub proof fn names_stand_below_their_directory(dir: Seq<char>, name: Seq<char>)
    requires
        dir.len() > 0,
        name.len() > 0,
        name != seq!['.'] && name != seq!['.', '.'],
        forall|i: int| 0 <= i < name.len() ==> #[trigger] name[i] != '/',
    ensures
        file_name(dir + seq!['/'] + name) == Some(name),
        parent(dir + seq!['/'] + name) == Some(path_view(dir)),
        path_view(dir + seq!['/'] + name).names == path_view(dir).names.push(name),
        top_component(dir) is Some ==> top_component(dir + seq!['/'] + name) == top_component(dir),
{
    let p = dir + seq!['/'] + name;
    let ended = dir + seq!['/'];
    let keep = |s: Seq<char>| is_segment(s);
    let parts = split_on(dir, '/');
    lemma_split_on_nonempty(dir, '/');
    assert(ended.drop_last() =~= dir);
    assert(ended.last() == '/');
    assert(split_on(ended, '/') == parts.push(Seq::empty()));
    lemma_split_name(ended, name);
    let all = split_on(p, '/');
    assert(parts.push(Seq::<char>::empty()).drop_last() =~= parts);
    assert(Seq::<char>::empty() + name =~= name);
    assert(all =~= parts.push(name));
    assert(all.drop_last() =~= parts);
    reveal(Seq::filter);
    assert(all.filter(keep) =~= parts.filter(keep).push(name));
    assert(p[0] == dir[0]);
    assert(all[0] == parts[0]);
    assert(segments(p).drop_last() =~= segments(dir));
}

proof fn lemma_split_name(s: Seq<char>, t: Seq<char>)
    requires
        forall|i: int| 0 <= i < t.len() ==> #[trigger] t[i] != '/',
    ensures
        split_on(s + t, '/') == split_on(s, '/').drop_last().push(split_on(s, '/').last() + t),
    decreases t.len(),
{
    lemma_split_on_nonempty(s, '/');
    let parts = split_on(s, '/');
    if t.len() == 0 {
        assert(s + t =~= s);
        assert(parts.last() + t =~= parts.last());
        assert(parts.drop_last().push(parts.last()) =~= parts);
    } else {
        let u = t.drop_last();
        assert(t[t.len() - 1] != '/');
        assert forall|i: int| 0 <= i < u.len() implies #[trigger] u[i] != '/' by {
            assert(u[i] == t[i]);
        }
        lemma_split_name(s, u);
        assert((s + t).drop_last() =~= s + u);
        assert((parts.last() + u).push(t.last()) =~= parts.last() + t);
        assert(parts.drop_last().push(parts.last() + u).drop_last() =~= parts.drop_last());
    }
}

/// A path as seen from a directory is below it, with one separator between them, unless
/// it starts at the root.
pub proof fn paths_are_seen_from_a_directory(base: Seq<char>, path: Seq<char>)
    ensures
        path.len() > 0 && path[0] == '/' ==> joined(base, path) == path,
        path.len() > 0 && path[0] != '/' && base.len() > 0 && base.last() != '/' ==> joined(base, path) == base
            + seq!['/'] + path,
        path.len() > 0 && path[0] != '/' && base.len() > 0 && base.last() == '/' ==> joined(base, path) == base + path,
{
    reveal_strlit("/");
    assert("/"@ =~= seq!['/']);
}

} // verus!
