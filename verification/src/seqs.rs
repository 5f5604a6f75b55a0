//! Facts about filtered sequences.

use vstd::prelude::*;

verus! {

/// What a filter keeps satisfies it and stood in the sequence.
pub proof fn lemma_filter_all<T>(s: Seq<T>, keep: spec_fn(T) -> bool)
    ensures
        forall|i: int| 0 <= i < s.filter(keep).len() ==> keep(#[trigger] s.filter(keep)[i]),
        forall|i: int|
            0 <= i < s.filter(keep).len() ==> s.contains(#[trigger] s.filter(keep)[i]),
    decreases s.len(),
{
    reveal(Seq::filter);
    if s.len() > 0 {
        let t = s.drop_last();
        lemma_filter_all(t, keep);
        assert forall|i: int| 0 <= i < s.filter(keep).len() implies s.contains(#[trigger] s.filter(keep)[i]) by {
            let f = t.filter(keep);
            if i < f.len() {
                assert(t.contains(f[i]));
                let k = choose|k: int| 0 <= k < t.len() && t[k] == f[i];
                assert(s[k] == f[i]);
            } else {
                assert(s[s.len() - 1] == s.filter(keep)[i]);
            }
        }
    }
}

/// A filter keeps everything that satisfies it.
pub proof fn lemma_filter_keeps<T>(s: Seq<T>, keep: spec_fn(T) -> bool, x: T)
    requires
        s.contains(x),
        keep(x),
    ensures
        s.filter(keep).contains(x),
    decreases s.len(),
{
    reveal(Seq::filter);
    let k = choose|k: int| 0 <= k < s.len() && s[k] == x;
    let t = s.drop_last();
    if k < t.len() {
        assert(t[k] == x);
        lemma_filter_keeps(t, keep, x);
        let f = t.filter(keep);
        let j = choose|j: int| 0 <= j < f.len() && f[j] == x;
        assert(s.filter(keep)[j] == x);
    } else {
        assert(s.filter(keep)[s.filter(keep).len() - 1] == x);
    }
}

/// A filter that everything satisfies changes nothing.
pub proof fn lemma_filter_id<T>(s: Seq<T>, keep: spec_fn(T) -> bool)
    requires
        forall|i: int| 0 <= i < s.len() ==> keep(#[trigger] s[i]),
    ensures
        s.filter(keep) == s,
    decreases s.len(),
{
    reveal(Seq::filter);
    if s.len() > 0 {
        let t = s.drop_last();
        assert forall|i: int| 0 <= i < t.len() implies keep(#[trigger] t[i]) by {
            assert(t[i] == s[i]);
        }
        lemma_filter_id(t, keep);
        assert(keep(s[s.len() - 1]));
        assert(t.push(s.last()) =~= s);
    }
}

/// Filtering twice by the same rule is filtering once.
pub proof fn lemma_filter_twice<T>(s: Seq<T>, keep: spec_fn(T) -> bool)
    ensures
        s.filter(keep).filter(keep) == s.filter(keep),
{
    lemma_filter_all(s, keep);
    lemma_filter_id(s.filter(keep), keep);
}

} // verus!
