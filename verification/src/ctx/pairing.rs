//! Tool calls and their results: every list of calls that is sent must be
//! followed by exactly one result per call, and no result may stand alone.

use vstd::prelude::*;

use crate::conversation::{extend_messages, views, Message, MessageContent, MessageView};

verus! {

/// How many results `s` starts with.
pub open spec fn result_run(s: Seq<MessageView>) -> nat
    decreases s.len(),
{
    if s.len() > 0 && s[0].is_result() {
        1 + result_run(s.drop_first())
    } else {
        0
    }
}

pub proof fn lemma_run_bound(s: Seq<MessageView>)
    ensures
        result_run(s) <= s.len(),
        forall|k: int| 0 <= k < result_run(s) ==> (#[trigger] s[k]).is_result(),
        result_run(s) < s.len() ==> !s[result_run(s) as int].is_result(),
    decreases s.len(),
{
    if s.len() > 0 && s[0].is_result() {
        let t = s.drop_first();
        lemma_run_bound(t);
        assert forall|k: int| 0 <= k < result_run(s) implies (#[trigger] s[k]).is_result() by {
            if k > 0 {
                assert(t[k - 1] == s[k]);
            }
        }
        if result_run(s) < s.len() {
            assert(t[result_run(t) as int] == s[result_run(s) as int]);
        }
    }
}

/// `s` without the results that answer no call, and without the lists of
/// calls that are not answered in full, together with the answers they got.
pub open spec fn sanitized(s: Seq<MessageView>) -> Seq<MessageView>
    decreases s.len(),
{
    if s.len() == 0 {
        s
    } else if s[0].is_calls() {
        let run = result_run(s.drop_first());
        let wanted = s[0].calls().len();
        proof {
            lemma_run_bound(s.drop_first());
        }
        let rest = sanitized(s.skip(1 + run as int));
        if wanted <= run {
            s.take(1 + wanted as int) + rest
        } else {
            rest
        }
    } else if s[0].is_result() {
        sanitized(s.drop_first())
    } else {
        seq![s[0]] + sanitized(s.drop_first())
    }
}

/// Whether every list of calls in `s` is followed by one result per call and
/// every result follows its list of calls.
pub open spec fn paired(s: Seq<MessageView>) -> bool
    decreases s.len(),
{
    if s.len() == 0 {
        true
    } else if s[0].is_calls() {
        &&& result_run(s.drop_first()) == s[0].calls().len()
        &&& 1 + s[0].calls().len() <= s.len() && paired(s.skip(1 + s[0].calls().len() as int))
    } else {
        !s[0].is_result() && paired(s.drop_first())
    }
}

proof fn lemma_paired_run(s: Seq<MessageView>)
    requires
        paired(s),
    ensures
        result_run(s) == 0,
{
}

proof fn lemma_run_concat(a: Seq<MessageView>, b: Seq<MessageView>)
    requires
        forall|k: int| 0 <= k < a.len() ==> (#[trigger] a[k]).is_result(),
    ensures
        result_run(a + b) == a.len() + result_run(b),
    decreases a.len(),
{
    if a.len() > 0 {
        assert(a[0].is_result());
        assert forall|k: int| 0 <= k < a.drop_first().len() implies (#[trigger] a.drop_first()[k]).is_result() by {
            assert(a.drop_first()[k] == a[k + 1]);
        }
        lemma_run_concat(a.drop_first(), b);
        assert((a + b).drop_first() =~= a.drop_first() + b);
    } else {
        assert(a + b =~= b);
    }
}

/// Whether a list is what is left of another after some of it was left out.
pub open spec fn is_left_of(a: Seq<MessageView>, b: Seq<MessageView>) -> bool
    decreases b.len(),
{
    if b.len() == 0 {
        a.len() == 0
    } else {
        is_left_of(a, b.drop_first()) || (a.len() > 0 && a[0] == b[0] && is_left_of(a.drop_first(), b.drop_first()))
    }
}

/// The messages that are neither calls nor results.
pub open spec fn others(s: Seq<MessageView>) -> Seq<MessageView>
    decreases s.len(),
{
    if s.len() == 0 {
        s
    } else if s[0].is_calls() || s[0].is_result() {
        others(s.drop_first())
    } else {
        seq![s[0]] + others(s.drop_first())
    }
}

proof fn lemma_left_behind(a: Seq<MessageView>, b: Seq<MessageView>, n: int)
    requires
        0 <= n <= b.len(),
        is_left_of(a, b.skip(n)),
    ensures
        is_left_of(a, b),
    decreases n,
{
    if n > 0 {
        assert(b.skip(n) =~= b.drop_first().skip(n - 1));
        lemma_left_behind(a, b.drop_first(), n - 1);
    } else {
        assert(b.skip(n) =~= b);
    }
}

proof fn lemma_left_with_front(a: Seq<MessageView>, b: Seq<MessageView>, n: int)
    requires
        0 <= n <= b.len(),
        is_left_of(a, b.skip(n)),
    ensures
        is_left_of(b.take(n) + a, b),
    decreases n,
{
    if n > 0 {
        assert(b.skip(n) =~= b.drop_first().skip(n - 1));
        lemma_left_with_front(a, b.drop_first(), n - 1);
        let all = b.take(n) + a;
        assert(all.drop_first() =~= b.drop_first().take(n - 1) + a);
    } else {
        assert(b.skip(n) =~= b);
        assert(b.take(n) + a =~= a);
    }
}

proof fn lemma_others_behind(s: Seq<MessageView>, n: int)
    requires
        0 <= n <= s.len(),
        forall|k: int| 0 <= k < n ==> (#[trigger] s[k]).is_calls() || s[k].is_result(),
    ensures
        others(s) == others(s.skip(n)),
    decreases n,
{
    if n > 0 {
        let t = s.drop_first();
        assert(s[0].is_calls() || s[0].is_result());
        assert forall|k: int| 0 <= k < n - 1 implies (#[trigger] t[k]).is_calls() || t[k].is_result() by {
            assert(t[k] == s[k + 1]);
        }
        lemma_others_behind(t, n - 1);
        assert(s.skip(n) =~= t.skip(n - 1));
    } else {
        assert(s.skip(n) =~= s);
    }
}

/// Sanitizing leaves messages out and changes nothing else: what is left stands in the
/// order it had, with every message that is neither a list of calls nor a result.
pub proof fn sanitizing_only_leaves_out(s: Seq<MessageView>)
    ensures
        is_left_of(sanitized(s), s),
        others(sanitized(s)) == others(s),
    decreases s.len(),
{
    if s.len() == 0 {
    } else if s[0].is_calls() {
        let t = s.drop_first();
        let run = result_run(t) as int;
        let wanted = s[0].calls().len() as int;
        lemma_run_bound(t);
        let rest = sanitized(s.skip(1 + run));
        sanitizing_only_leaves_out(s.skip(1 + run));
        assert forall|k: int| 0 <= k < 1 + run implies (#[trigger] s[k]).is_calls() || s[k].is_result() by {
            if k > 0 {
                assert(t[k - 1] == s[k]);
            }
        }
        lemma_others_behind(s, 1 + run);
        if wanted <= run {
            let kept = s.take(1 + wanted) + rest;
            assert(s.skip(1 + wanted).skip(run - wanted) =~= s.skip(1 + run));
            lemma_left_behind(rest, s.skip(1 + wanted), run - wanted);
            lemma_left_with_front(rest, s, 1 + wanted);
            assert forall|k: int| 0 <= k < 1 + wanted implies (#[trigger] kept[k]).is_calls() || kept[k].is_result() by {
                assert(kept[k] == s[k]);
            }
            lemma_others_behind(kept, 1 + wanted);
            assert(kept.skip(1 + wanted) =~= rest);
        } else {
            lemma_left_behind(rest, s, 1 + run);
        }
    } else if s[0].is_result() {
        sanitizing_only_leaves_out(s.drop_first());
    } else {
        let rest = sanitized(s.drop_first());
        sanitizing_only_leaves_out(s.drop_first());
        assert((seq![s[0]] + rest).drop_first() =~= rest);
    }
}

/// Sanitizing leaves every list of calls answered and no result unasked for.
pub proof fn sanitized_is_paired(s: Seq<MessageView>)
    ensures
        paired(sanitized(s)),
    decreases s.len(),
{
    if s.len() == 0 {
    } else if s[0].is_calls() {
        let run = result_run(s.drop_first());
        let wanted = s[0].calls().len();
        lemma_run_bound(s.drop_first());
        let rest = sanitized(s.skip(1 + run as int));
        sanitized_is_paired(s.skip(1 + run as int));
        if wanted <= run {
            let out = s.take(1 + wanted as int) + rest;
            let answers = s.subrange(1, 1 + wanted as int);
            assert forall|k: int| 0 <= k < answers.len() implies (#[trigger] answers[k]).is_result() by {
                assert(answers[k] == s.drop_first()[k]);
            }
            lemma_paired_run(rest);
            lemma_run_concat(answers, rest);
            assert(out.drop_first() =~= answers + rest);
            assert(out.skip(1 + wanted as int) =~= rest);
            assert(out[0] == s[0]);
        }
    } else if s[0].is_result() {
        sanitized_is_paired(s.drop_first());
    } else {
        sanitized_is_paired(s.drop_first());
        let out = seq![s[0]] + sanitized(s.drop_first());
        assert(out.drop_first() =~= sanitized(s.drop_first()));
    }
}

/// A conversation whose calls are all answered is sent unchanged.
pub proof fn sanitizing_keeps_paired(s: Seq<MessageView>)
    requires
        paired(s),
    ensures
        sanitized(s) == s,
    decreases s.len(),
{
    if s.len() == 0 {
    } else if s[0].is_calls() {
        let wanted = s[0].calls().len();
        sanitizing_keeps_paired(s.skip(1 + wanted as int));
        assert(s.take(1 + wanted as int) + s.skip(1 + wanted as int) =~= s);
    } else {
        sanitizing_keeps_paired(s.drop_first());
        assert(seq![s[0]] + s.drop_first() =~= s);
    }
}

/// Sanitizing twice is sanitizing once.
pub proof fn sanitizing_is_idempotent(s: Seq<MessageView>)
    ensures
        sanitized(sanitized(s)) == sanitized(s),
{
    sanitized_is_paired(s);
    sanitizing_keeps_paired(sanitized(s));
}

/// In a paired list, the messages right after a list of calls are its
/// results, one for each call, and the message after those is none.
pub proof fn paired_calls_are_answered(s: Seq<MessageView>, i: int)
    requires
        paired(s),
        0 <= i < s.len(),
        s[i].is_calls(),
    ensures
        i + s[i].calls().len() < s.len(),
        forall|k: int| i < k <= i + s[i].calls().len() ==> (#[trigger] s[k]).is_result(),
        i + s[i].calls().len() + 1 < s.len() ==> !s[i + s[i].calls().len() + 1].is_result(),
    decreases s.len(),
{
    if s[0].is_calls() {
        let wanted = s[0].calls().len() as int;
        let t = s.drop_first();
        lemma_run_bound(t);
        if i == 0 {
            assert forall|k: int| 0 < k <= wanted implies (#[trigger] s[k]).is_result() by {
                assert(t[k - 1] == s[k]);
            }
            if wanted + 1 < s.len() {
                assert(t[wanted] == s[wanted + 1]);
            }
        } else {
            if i <= wanted {
                assert(t[i - 1] == s[i]);
                assert(false);
            }
            let u = s.skip(1 + wanted);
            let j = i - 1 - wanted;
            assert(u[j] == s[i]);
            paired_calls_are_answered(u, j);
            assert forall|k: int| i < k <= i + s[i].calls().len() implies (#[trigger] s[k]).is_result() by {
                assert(u[k - 1 - wanted] == s[k]);
            }
            if i + s[i].calls().len() + 1 < s.len() {
                assert(u[j + s[i].calls().len() + 1] == s[i + s[i].calls().len() + 1]);
            }
        }
    } else {
        let t = s.drop_first();
        assert(t[i - 1] == s[i]);
        paired_calls_are_answered(t, i - 1);
        assert forall|k: int| i < k <= i + s[i].calls().len() implies (#[trigger] s[k]).is_result() by {
            assert(t[k - 1] == s[k]);
        }
        if i + s[i].calls().len() + 1 < s.len() {
            assert(t[i - 1 + s[i].calls().len() + 1] == s[i + s[i].calls().len() + 1]);
        }
    }
}

/// In a paired list, every result answers a list of calls before it.
pub proof fn paired_results_are_asked_for(s: Seq<MessageView>, j: int) -> (i: int)
    requires
        paired(s),
        0 <= j < s.len(),
        s[j].is_result(),
    ensures
        0 <= i < j,
        s[i].is_calls(),
        j <= i + s[i].calls().len(),
    decreases s.len(),
{
    if s[0].is_calls() {
        let wanted = s[0].calls().len() as int;
        if j <= wanted {
            0
        } else {
            let u = s.skip(1 + wanted);
            assert(u[j - 1 - wanted] == s[j]);
            let i = paired_results_are_asked_for(u, j - 1 - wanted);
            assert(u[i] == s[i + 1 + wanted]);
            i + 1 + wanted
        }
    } else {
        let t = s.drop_first();
        assert(t[j - 1] == s[j]);
        let i = paired_results_are_asked_for(t, j - 1);
        assert(t[i] == s[i + 1]);
        i + 1
    }
}

pub fn message_is_result(m: &Message) -> (r: bool)
    ensures
        r == m@.is_result(),
{
    match &m.content {
        MessageContent::ToolResult(_) => true,
        MessageContent::ToolResultRef(_) => true,
        _ => false,
    }
}

/// Where the run of results that starts at `from` ends.
fn end_of_run(msgs: &Vec<Message>, from: usize) -> (to: usize)
    requires
        from <= msgs.len(),
    ensures
        from <= to <= msgs.len(),
        to == from + result_run(views(msgs@).skip(from as int)),
{
    let mut i: usize = from;
    let ghost all = views(msgs@);
    while i < msgs.len() && message_is_result(&msgs[i])
        invariant
            from <= i <= msgs.len(),
            all == views(msgs@),
            result_run(all.skip(from as int)) == i - from + result_run(all.skip(i as int)),
        decreases msgs.len() - i,
    {
        assert(all.skip(i as int)[0] == msgs@[i as int]@);
        assert(all.skip(i as int).drop_first() =~= all.skip(i + 1));
        i = i + 1;
    }
    if i < msgs.len() {
        assert(all.skip(i as int)[0] == msgs@[i as int]@);
    }
    i
}

/// Drops results that answer no call, and lists of calls that are not
/// answered in full together with the answers they got.
pub fn sanitize_messages(msgs: &mut Vec<Message>)
    ensures
        views(final(msgs)@) == sanitized(views(old(msgs)@)),
{
    let ghost all = views(msgs@);
    let mut out: Vec<Message> = Vec::new();
    let mut i: usize = 0;
    assert(all.skip(0) =~= all);
    assert(views(out@) + sanitized(all) =~= sanitized(all));
    while i < msgs.len()
        invariant
            all == views(msgs@),
            i <= msgs.len(),
            views(out@) + sanitized(all.skip(i as int)) == sanitized(all),
        decreases msgs.len() - i,
    {
        let ghost rest = all.skip(i as int);
        let ghost before = views(out@);
        assert(rest[0] == msgs@[i as int]@);
        assert(rest.drop_first() =~= all.skip(i + 1));
        let wanted: Option<usize> = match &msgs[i].content {
            MessageContent::AssistantWithToolCalls { tool_calls, .. } => Some(tool_calls.len()),
            _ => None,
        };
        match wanted {
            Some(n) => {
                let end = end_of_run(msgs, i + 1);
                proof {
                    lemma_run_bound(all.skip(i + 1));
                    assert(rest.skip(1 + result_run(all.skip(i + 1)) as int) =~= all.skip(end as int));
                }
                if n <= end - (i + 1) {
                    extend_messages(&mut out, msgs, i, i + 1 + n);
                    assert(rest.take(1 + n as int) =~= all.subrange(i as int, i + 1 + n));
                    assert(views(out@) + sanitized(all.skip(end as int)) =~= before + sanitized(rest));
                }
                i = end;
            },
            None => {
                if !message_is_result(&msgs[i]) {
                    extend_messages(&mut out, msgs, i, i + 1);
                    assert(all.subrange(i as int, i + 1) =~= seq![rest[0]]);
                    assert(views(out@) + sanitized(all.skip(i + 1)) =~= before + sanitized(rest));
                }
                i = i + 1;
            },
        }
    }
    assert(views(out@) + sanitized(all.skip(i as int)) =~= views(out@));
    *msgs = out;
}

// ---- Pairing, read from left to right ----

/// How many results are still awaited after `m`, if `m` may follow where
/// `awaited` are.
pub open spec fn await_after(awaited: Option<nat>, m: MessageView) -> Option<nat> {
    match awaited {
        None => None,
        Some(n) => if m.is_result() {
            if n > 0 {
                Some((n - 1) as nat)
            } else {
                None
            }
        } else if n > 0 {
            None
        } else if m.is_calls() {
            Some(m.calls().len())
        } else {
            Some(0)
        },
    }
}

/// How many results are still awaited after `s`, if it may follow where `start`
/// are.
pub open spec fn awaited(start: Option<nat>, s: Seq<MessageView>) -> Option<nat>
    decreases s.len(),
{
    if s.len() == 0 {
        start
    } else {
        await_after(awaited(start, s.drop_last()), s.last())
    }
}

pub proof fn lemma_awaited_concat(start: Option<nat>, a: Seq<MessageView>, b: Seq<MessageView>)
    ensures
        awaited(start, a + b) == awaited(awaited(start, a), b),
    decreases b.len(),
{
    if b.len() == 0 {
        assert(a + b =~= a);
    } else {
        lemma_awaited_concat(start, a, b.drop_last());
        assert((a + b).drop_last() =~= a + b.drop_last());
    }
}

proof fn lemma_awaited_none(s: Seq<MessageView>)
    ensures
        awaited(None, s) is None,
    decreases s.len(),
{
    if s.len() > 0 {
        lemma_awaited_none(s.drop_last());
    }
}

proof fn lemma_awaited_first(start: Option<nat>, s: Seq<MessageView>)
    requires
        s.len() > 0,
    ensures
        awaited(start, s) == awaited(await_after(start, s[0]), s.drop_first()),
{
    let h = seq![s[0]];
    assert(h + s.drop_first() =~= s);
    lemma_awaited_concat(start, h, s.drop_first());
    assert(h.drop_last().len() == 0);
    assert(awaited(start, h.drop_last()) == start);
}

/// A list that starts with calls and awaits nothing at its end starts where nothing
/// is awaited.
pub proof fn lemma_awaited_calls_first(start: Option<nat>, s: Seq<MessageView>)
    requires
        s.len() > 0,
        s[0].is_calls(),
        awaited(start, s) == Some(0nat),
    ensures
        start == Some(0nat),
{
    lemma_awaited_first(start, s);
    lemma_awaited_none(s.drop_first());
}

proof fn lemma_awaited_results(n: nat, s: Seq<MessageView>)
    requires
        forall|k: int| 0 <= k < s.len() ==> (#[trigger] s[k]).is_result(),
        s.len() <= n,
    ensures
        awaited(Some(n), s) == Some((n - s.len()) as nat),
    decreases s.len(),
{
    if s.len() > 0 {
        let t = s.drop_last();
        assert forall|k: int| 0 <= k < t.len() implies (#[trigger] t[k]).is_result() by {
            assert(t[k] == s[k]);
        }
        lemma_awaited_results(n, t);
        assert(s[s.len() - 1].is_result());
    }
}

/// A paired list awaits nothing at its end.
pub proof fn paired_awaits_nothing(s: Seq<MessageView>)
    requires
        paired(s),
    ensures
        awaited(Some(0), s) == Some(0nat),
    decreases s.len(),
{
    if s.len() > 0 {
        lemma_awaited_first(Some(0), s);
        if s[0].is_calls() {
            let n = s[0].calls().len();
            let rest = s.skip(1 + n as int);
            let answers = s.subrange(1, 1 + n as int);
            lemma_run_bound(s.drop_first());
            assert forall|k: int| 0 <= k < answers.len() implies (#[trigger] answers[k]).is_result() by {
                assert(answers[k] == s.drop_first()[k]);
            }
            lemma_awaited_results(n, answers);
            lemma_awaited_concat(Some(n), answers, rest);
            assert(answers + rest =~= s.drop_first());
            paired_awaits_nothing(rest);
        } else {
            paired_awaits_nothing(s.drop_first());
        }
    }
}

proof fn lemma_awaited_split(n: nat, s: Seq<MessageView>)
    requires
        awaited(Some(n), s) == Some(0nat),
    ensures
        n <= s.len(),
        result_run(s) == n,
        awaited(Some(0), s.skip(n as int)) == Some(0nat),
    decreases n,
{
    if n == 0 {
        assert(s.skip(0) =~= s);
        if s.len() > 0 {
            lemma_awaited_first(Some(0), s);
            if s[0].is_result() {
                lemma_awaited_none(s.drop_first());
            }
        }
    } else {
        if s.len() > 0 {
            lemma_awaited_first(Some(n), s);
            if !s[0].is_result() {
                lemma_awaited_none(s.drop_first());
            }
            lemma_awaited_split((n - 1) as nat, s.drop_first());
            assert(s.drop_first().skip(n - 1) =~= s.skip(n as int));
        }
    }
}

/// A list that awaits nothing at its end is paired.
pub proof fn awaiting_nothing_is_paired(s: Seq<MessageView>)
    requires
        awaited(Some(0), s) == Some(0nat),
    ensures
        paired(s),
    decreases s.len(),
{
    if s.len() > 0 {
        lemma_awaited_first(Some(0), s);
        if s[0].is_calls() {
            let n = s[0].calls().len();
            lemma_awaited_split(n, s.drop_first());
            assert(s.drop_first().skip(n as int) =~= s.skip(1 + n as int));
            awaiting_nothing_is_paired(s.skip(1 + n as int));
        } else {
            if s[0].is_result() {
                lemma_awaited_none(s.drop_first());
            }
            awaiting_nothing_is_paired(s.drop_first());
        }
    }
}

/// Whether `a` and `b` are alike to pairing: both calls of one number, both
/// results, or both neither.
pub open spec fn same_kind(a: MessageView, b: MessageView) -> bool {
    &&& a.is_result() == b.is_result()
    &&& a.is_calls() == b.is_calls()
    &&& a.is_calls() ==> a.calls().len() == b.calls().len()
}

pub proof fn lemma_awaited_same_kinds(start: Option<nat>, a: Seq<MessageView>, b: Seq<MessageView>)
    requires
        a.len() == b.len(),
        forall|i: int| 0 <= i < a.len() ==> same_kind(#[trigger] a[i], b[i]),
    ensures
        awaited(start, a) == awaited(start, b),
    decreases a.len(),
{
    if a.len() > 0 {
        let x = a.drop_last();
        let y = b.drop_last();
        assert forall|i: int| 0 <= i < x.len() implies same_kind(#[trigger] x[i], y[i]) by {
            assert(same_kind(a[i], b[i]));
        }
        lemma_awaited_same_kinds(start, x, y);
        assert(same_kind(a[a.len() - 1], b[b.len() - 1]));
    }
}

} // verus!
