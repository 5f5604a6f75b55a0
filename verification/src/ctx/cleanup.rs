//! Cleaning the messages before they are sent: empty replies and orphaned
//! results go, neighbouring messages of one speaker are joined.

use vstd::prelude::*;
use vstd::string::*;

use crate::conversation::{
    call_views, estimate, total, views, CallView, ContentView, Message, MessageContent, MessageView, Role,
};
use crate::ctx::pairing::{awaited, awaiting_nothing_is_paired, paired, paired_awaits_nothing};
use crate::seqs::{lemma_filter_all, lemma_filter_id, lemma_filter_keeps};
use crate::text::{
    byte_count, contains, is_blank_text, lemma_byte_ascii, lemma_byte_concat,
    lemma_contains_within, occurs_at, same, starts_with, trim,
};

verus! {

/// The identifier and the tool name of every call in `s`, in order.
pub open spec fn call_names(s: Seq<MessageView>) -> Seq<(Seq<char>, Seq<char>)>
    decreases s.len(),
{
    if s.len() == 0 {
        Seq::empty()
    } else {
        call_names(s.drop_last()) + names_in(s.last())
    }
}

pub open spec fn names_in(m: MessageView) -> Seq<(Seq<char>, Seq<char>)> {
    if m.is_calls() {
        m.calls().map_values(|c: CallView| (c.id, c.name))
    } else {
        Seq::empty()
    }
}

/// The tool name of the last entry for `id`.
pub open spec fn name_of(table: Seq<(Seq<char>, Seq<char>)>, id: Seq<char>) -> Option<Seq<char>>
    decreases table.len(),
{
    if table.len() == 0 {
        None
    } else if table.last().0 == id {
        Some(table.last().1)
    } else {
        name_of(table.drop_last(), id)
    }
}

/// The views of a call table.
pub open spec fn pairs(v: Seq<(String, String)>) -> Seq<(Seq<char>, Seq<char>)> {
    v.map_values(|p: (String, String)| (p.0@, p.1@))
}

/// Whether `m` is an assistant reply of nothing but white space.
pub open spec fn is_empty_reply(m: MessageView) -> bool {
    m.role == Role::Assistant && m.content is Text && trim(m.plain()->0).len() == 0
}

/// The call that a result answers.
pub open spec fn answered_id(m: MessageView) -> Seq<char> {
    match m.content {
        ContentView::Output(r) => r.call_id,
        ContentView::Stored(r) => r.call_id,
        _ => Seq::empty(),
    }
}

/// Whether `m` is a result that answers no call of `table`.
pub open spec fn is_orphan(m: MessageView, table: Seq<(Seq<char>, Seq<char>)>) -> bool {
    m.is_result() && name_of(table, answered_id(m)) is None
}

pub open spec fn without_empty_replies(s: Seq<MessageView>) -> Seq<MessageView> {
    s.filter(|m: MessageView| !is_empty_reply(m))
}

pub open spec fn without_orphans(s: Seq<MessageView>) -> Seq<MessageView> {
    s.filter(|m: MessageView| !is_orphan(m, call_names(s)))
}

/// Whether two neighbours are plain messages of the speaker `role`.
pub open spec fn joinable(a: MessageView, b: MessageView, role: Role) -> bool {
    a.role == role && b.role == role && a.content is Text && b.content is Text
}

/// `s` with each run of plain messages of the speaker `role` joined into one.
pub open spec fn joined(s: Seq<MessageView>, role: Role, sep: Seq<char>) -> Seq<MessageView>
    decreases s.len(),
{
    if s.len() == 0 {
        s
    } else {
        let m = joined(s.drop_last(), role, sep);
        if m.len() > 0 && joinable(m.last(), s.last(), role) {
            m.drop_last().push(m.last().with_text(m.last().plain()->0 + sep + s.last().plain()->0))
        } else {
            m.push(s.last())
        }
    }
}

/// What is sent of `s`.
pub open spec fn cleaned(s: Seq<MessageView>) -> Seq<MessageView> {
    let kept = without_orphans(without_empty_replies(s));
    joined(joined(kept, Role::User, seq!['\n']), Role::System, seq!['\n', '\n'])
}

/// The calls in `msgs`, as pairs of identifier and tool name.
pub fn build_call_id_to_tool_map(msgs: &Vec<Message>) -> (r: Vec<(String, String)>)
    ensures
        pairs(r@) == call_names(views(msgs@)),
{
    let mut out: Vec<(String, String)> = Vec::new();
    let ghost all = views(msgs@);
    let mut i: usize = 0;
    assert(pairs(out@) =~= call_names(all.take(0)));
    while i < msgs.len()
        invariant
            i <= msgs.len(),
            all == views(msgs@),
            pairs(out@) == call_names(all.take(i as int)),
        decreases msgs.len() - i,
    {
        assert(all.take(i + 1).drop_last() =~= all.take(i as int));
        assert(all.take(i + 1).last() == msgs@[i as int]@);
        let ghost before = pairs(out@);
        let ghost names = names_in(msgs@[i as int]@);
        match &msgs[i].content {
            MessageContent::AssistantWithToolCalls { tool_calls, .. } => {
                let mut k: usize = 0;
                assert(names.take(0) =~= Seq::empty());
                assert(pairs(out@) =~= before + names.take(0));
                while k < tool_calls.len()
                    invariant
                        k <= tool_calls.len(),
                        names == call_views(tool_calls@).map_values(|c: CallView| (c.id, c.name)),
                        pairs(out@) == before + names.take(k as int),
                    decreases tool_calls.len() - k,
                {
                    let ghost was = out@;
                    out.push((tool_calls[k].id.clone(), tool_calls[k].name.clone()));
                    assert(names[k as int] == (tool_calls@[k as int].id@, tool_calls@[k as int].name@));
                    assert(pairs(out@) =~= pairs(was).push(names[k as int]));
                    k = k + 1;
                    assert(before + names.take(k as int) =~= (before + names.take(k - 1)).push(
                        names[k - 1],
                    ));
                }
                assert(names.take(k as int) =~= names);
            },
            _ => {
                assert(before + names =~= before);
            },
        }
        i = i + 1;
    }
    assert(all.take(all.len() as int) =~= all);
    out
}

/// The tool name that `table` gives for `id`.
pub fn lookup_tool(table: &Vec<(String, String)>, id: &str) -> (r: Option<String>)
    ensures
        crate::text::opt(r) == name_of(pairs(table@), id@),
{
    let ghost all = pairs(table@);
    let mut n: usize = table.len();
    assert(all.take(n as int) =~= all);
    while n > 0
        invariant
            n <= table.len(),
            all == pairs(table@),
            name_of(all, id@) == name_of(all.take(n as int), id@),
        decreases n,
    {
        assert(all.take(n as int).last() == (table@[n - 1].0@, table@[n - 1].1@));
        assert(all.take(n as int).drop_last() =~= all.take(n - 1));
        if same(table[n - 1].0.as_str(), id) {
            return Some(table[n - 1].1.clone());
        }
        n = n - 1;
    }
    None
}

fn empty_reply(m: &Message) -> (r: bool)
    ensures
        r == is_empty_reply(m@),
{
    match &m.content {
        MessageContent::Text(t) => m.role == Role::Assistant && is_blank_text(t.as_str()),
        _ => false,
    }
}

fn orphan(m: &Message, table: &Vec<(String, String)>) -> (r: bool)
    ensures
        r == is_orphan(m@, pairs(table@)),
{
    match &m.content {
        MessageContent::ToolResult(r) => lookup_tool(table, r.call_id.as_str()).is_none(),
        MessageContent::ToolResultRef(r) => lookup_tool(table, r.call_id.as_str()).is_none(),
        _ => false,
    }
}

fn drop_empty_replies(msgs: &Vec<Message>) -> (r: Vec<Message>)
    ensures
        views(r@) == without_empty_replies(views(msgs@)),
{
    let mut out: Vec<Message> = Vec::new();
    let ghost all = views(msgs@);
    let ghost keep = |m: MessageView| !is_empty_reply(m);
    let mut i: usize = 0;
    proof {
        reveal(Seq::filter);
    }
    assert(views(out@) =~= all.take(0).filter(keep));
    while i < msgs.len()
        invariant
            i <= msgs.len(),
            all == views(msgs@),
            keep == (|m: MessageView| !is_empty_reply(m)),
            views(out@) == all.take(i as int).filter(keep),
        decreases msgs.len() - i,
    {
        proof {
            reveal(Seq::filter);
        }
        assert(all.take(i + 1).drop_last() =~= all.take(i as int));
        assert(all.take(i + 1).last() == msgs@[i as int]@);
        if !empty_reply(&msgs[i]) {
            let ghost was = out@;
            out.push(msgs[i].clone());
            assert(views(out@) =~= views(was).push(msgs@[i as int]@));
        }
        i = i + 1;
    }
    assert(all.take(all.len() as int) =~= all);
    out
}

fn drop_orphans(msgs: &Vec<Message>) -> (r: Vec<Message>)
    ensures
        views(r@) == without_orphans(views(msgs@)),
{
    let table = build_call_id_to_tool_map(msgs);
    let mut out: Vec<Message> = Vec::new();
    let ghost all = views(msgs@);
    let ghost keep = |m: MessageView| !is_orphan(m, call_names(all));
    let mut i: usize = 0;
    proof {
        reveal(Seq::filter);
    }
    assert(views(out@) =~= all.take(0).filter(keep));
    while i < msgs.len()
        invariant
            i <= msgs.len(),
            all == views(msgs@),
            pairs(table@) == call_names(all),
            keep == (|m: MessageView| !is_orphan(m, call_names(all))),
            views(out@) == all.take(i as int).filter(keep),
        decreases msgs.len() - i,
    {
        proof {
            reveal(Seq::filter);
        }
        assert(all.take(i + 1).drop_last() =~= all.take(i as int));
        assert(all.take(i + 1).last() == msgs@[i as int]@);
        if !orphan(&msgs[i], &table) {
            let ghost was = out@;
            out.push(msgs[i].clone());
            assert(views(out@) =~= views(was).push(msgs@[i as int]@));
        }
        i = i + 1;
    }
    assert(all.take(all.len() as int) =~= all);
    out
}

fn join_neighbours(msgs: &Vec<Message>, role: Role, sep: &str) -> (r: Vec<Message>)
    ensures
        views(r@) == joined(views(msgs@), role, sep@),
{
    let mut out: Vec<Message> = Vec::new();
    let ghost all = views(msgs@);
    let mut i: usize = 0;
    assert(views(out@) =~= joined(all.take(0), role, sep@));
    while i < msgs.len()
        invariant
            i <= msgs.len(),
            all == views(msgs@),
            views(out@) == joined(all.take(i as int), role, sep@),
        decreases msgs.len() - i,
    {
        assert(all.take(i + 1).drop_last() =~= all.take(i as int));
        assert(all.take(i + 1).last() == msgs@[i as int]@);
        let ghost was = out@;
        let mut text: Option<String> = None;
        if out.len() > 0 {
            assert(views(was).last() == was.last()@);
            let prev = &out[out.len() - 1];
            if prev.role == role && msgs[i].role == role {
                match (&prev.content, &msgs[i].content) {
                    (MessageContent::Text(a), MessageContent::Text(b)) => {
                        let mut t = a.clone();
                        t.append(sep);
                        t.append(b.as_str());
                        text = Some(t);
                    },
                    _ => {},
                }
            }
        }
        match text {
            Some(t) => {
                let synthetic = out[out.len() - 1].synthetic;
                let last = out.len() - 1;
                out.truncate(last);
                out.push(Message { role, content: MessageContent::Text(t), synthetic });
                assert(views(out@) =~= views(was).drop_last().push(
                    views(was).last().with_text(t@),
                ));
            },
            None => {
                out.push(msgs[i].clone());
                assert(views(out@) =~= views(was).push(msgs@[i as int]@));
            },
        }
        i = i + 1;
    }
    assert(all.take(all.len() as int) =~= all);
    out
}

/// Removes empty replies and results that answer no call, and joins
/// neighbouring user messages and neighbouring system messages.
pub fn clean_message_pipeline(msgs: &mut Vec<Message>)
    ensures
        views(final(msgs)@) == cleaned(views(old(msgs)@)),
{
    let replies = drop_empty_replies(msgs);
    let kept = drop_orphans(&replies);
    proof {
        reveal_strlit("\n");
        reveal_strlit("\n\n");
        assert("\n"@ =~= seq!['\n']);
        assert("\n\n"@ =~= seq!['\n', '\n']);
    }
    let users = join_neighbours(&kept, Role::User, "\n");
    *msgs = join_neighbours(&users, Role::System, "\n\n");
}

// ---- What cleaning guarantees ----

/// Whether no two neighbours of `s` are plain messages of `role`.
pub open spec fn no_neighbours(s: Seq<MessageView>, role: Role) -> bool {
    forall|i: int| 0 <= i < s.len() - 1 ==> !joinable(#[trigger] s[i], s[i + 1], role)
}

proof fn lemma_joined_last(s: Seq<MessageView>, role: Role, sep: Seq<char>)
    requires
        s.len() > 0,
    ensures
        joined(s, role, sep).len() > 0,
        joined(s, role, sep).last().role == s.last().role,
        (joined(s, role, sep).last().content is Text) == (s.last().content is Text),
    decreases s.len(),
{
}

proof fn lemma_joined_separate(s: Seq<MessageView>, role: Role, sep: Seq<char>)
    ensures
        no_neighbours(joined(s, role, sep), role),
    decreases s.len(),
{
    if s.len() > 0 {
        lemma_joined_separate(s.drop_last(), role, sep);
        let m = joined(s.drop_last(), role, sep);
        let r = joined(s, role, sep);
        assert forall|i: int| 0 <= i < r.len() - 1 implies !joinable(#[trigger] r[i], r[i + 1], role) by {
            if i + 1 < m.len() {
                assert(!joinable(m[i], m[i + 1], role));
            }
        }
    }
}

proof fn lemma_joined_keeps_separate(s: Seq<MessageView>, role: Role, other: Role, sep: Seq<char>)
    requires
        role != other,
        no_neighbours(s, other),
    ensures
        no_neighbours(joined(s, role, sep), other),
    decreases s.len(),
{
    if s.len() > 0 {
        let t = s.drop_last();
        assert forall|i: int| 0 <= i < t.len() - 1 implies !joinable(#[trigger] t[i], t[i + 1], other) by {
            assert(!joinable(s[i], s[i + 1], other));
        }
        lemma_joined_keeps_separate(t, role, other, sep);
        let m = joined(t, role, sep);
        let r = joined(s, role, sep);
        if t.len() > 0 {
            lemma_joined_last(t, role, sep);
            assert(!joinable(s[s.len() - 2], s[s.len() - 1], other));
        }
        assert forall|i: int| 0 <= i < r.len() - 1 implies !joinable(#[trigger] r[i], r[i + 1], other) by {
            if i + 1 < m.len() {
                assert(!joinable(m[i], m[i + 1], other));
            }
        }
    }
}

proof fn lemma_joined_names(s: Seq<MessageView>, role: Role, sep: Seq<char>)
    ensures
        call_names(joined(s, role, sep)) == call_names(s),
    decreases s.len(),
{
    if s.len() > 0 {
        let t = s.drop_last();
        lemma_joined_names(t, role, sep);
        let m = joined(t, role, sep);
        if m.len() > 0 && joinable(m.last(), s.last(), role) {
            let n = m.last().with_text(m.last().plain()->0 + sep + s.last().plain()->0);
            assert(m.drop_last().push(n).drop_last() =~= m.drop_last());
            assert(call_names(m) =~= call_names(m.drop_last()));
            assert(call_names(m.drop_last().push(n)) =~= call_names(m.drop_last()));
            assert(call_names(s) =~= call_names(t));
        } else {
            assert(m.push(s.last()).drop_last() =~= m);
        }
    }
}

/// Whether `s` holds no empty reply and no result that answers no call of
/// `table`.
pub open spec fn tidy(s: Seq<MessageView>, table: Seq<(Seq<char>, Seq<char>)>) -> bool {
    forall|i: int|
        0 <= i < s.len() ==> !is_empty_reply(#[trigger] s[i]) && !is_orphan(s[i], table)
}

proof fn lemma_joined_tidy(
    s: Seq<MessageView>,
    role: Role,
    sep: Seq<char>,
    table: Seq<(Seq<char>, Seq<char>)>,
)
    requires
        tidy(s, table),
        role != Role::Assistant,
    ensures
        tidy(joined(s, role, sep), table),
    decreases s.len(),
{
    if s.len() > 0 {
        let t = s.drop_last();
        assert(tidy(t, table)) by {
            assert forall|i: int| 0 <= i < t.len() implies !is_empty_reply(#[trigger] t[i]) && !is_orphan(t[i], table) by {
                assert(t[i] == s[i]);
            }
        }
        lemma_joined_tidy(t, role, sep, table);
        let m = joined(t, role, sep);
        let r = joined(s, role, sep);
        assert forall|i: int| 0 <= i < r.len() implies !is_empty_reply(#[trigger] r[i]) && !is_orphan(r[i], table) by {
            if i < m.len() && r[i] == m[i] {
            } else if i == m.len() {
                assert(r[i] == s.last());
                assert(s[s.len() - 1] == s.last());
            }
        }
    }
}

proof fn lemma_filter_names(s: Seq<MessageView>, keep: spec_fn(MessageView) -> bool)
    requires
        forall|m: MessageView| m.is_calls() ==> #[trigger] keep(m),
    ensures
        call_names(s.filter(keep)) == call_names(s),
    decreases s.len(),
{
    reveal(Seq::filter);
    if s.len() > 0 {
        lemma_filter_names(s.drop_last(), keep);
        let f = s.drop_last().filter(keep);
        if keep(s.last()) {
            assert(f.push(s.last()).drop_last() =~= f);
        } else {
            assert(call_names(s) =~= call_names(s.drop_last()));
        }
    }
}

proof fn lemma_joined_id(s: Seq<MessageView>, role: Role, sep: Seq<char>)
    requires
        no_neighbours(s, role),
    ensures
        joined(s, role, sep) == s,
    decreases s.len(),
{
    if s.len() > 0 {
        let t = s.drop_last();
        assert forall|i: int| 0 <= i < t.len() - 1 implies !joinable(#[trigger] t[i], t[i + 1], role) by {
            assert(!joinable(s[i], s[i + 1], role));
        }
        lemma_joined_id(t, role, sep);
        if t.len() > 0 {
            assert(!joinable(s[s.len() - 2], s[s.len() - 1], role));
        }
        assert(t.push(s.last()) =~= s);
    }
}

/// What is sent holds no empty reply, no result that answers no call, and no
/// neighbouring plain messages of the user or of the system.
pub proof fn cleaned_is_clean(s: Seq<MessageView>)
    ensures
        tidy(cleaned(s), call_names(cleaned(s))),
        no_neighbours(cleaned(s), Role::User),
        no_neighbours(cleaned(s), Role::System),
        call_names(cleaned(s)) == call_names(s),
{
    let a = without_empty_replies(s);
    let b = without_orphans(a);
    let u = joined(b, Role::User, seq!['\n']);
    let c = cleaned(s);
    let keep_a = |m: MessageView| !is_empty_reply(m);
    let keep_b = |m: MessageView| !is_orphan(m, call_names(a));
    lemma_filter_names(s, keep_a);
    lemma_filter_names(a, keep_b);
    lemma_filter_all(s, keep_a);
    lemma_filter_all(a, keep_b);
    let table = call_names(a);
    assert(tidy(b, table)) by {
        assert forall|i: int| 0 <= i < b.len() implies !is_empty_reply(#[trigger] b[i]) && !is_orphan(b[i], table) by {
            assert(keep_b(b[i]));
            assert(a.contains(b[i]));
            let k = choose|k: int| 0 <= k < a.len() && a[k] == b[i];
            assert(keep_a(a[k]));
        }
    }
    lemma_joined_names(b, Role::User, seq!['\n']);
    lemma_joined_names(u, Role::System, seq!['\n', '\n']);
    lemma_joined_tidy(b, Role::User, seq!['\n'], table);
    lemma_joined_tidy(u, Role::System, seq!['\n', '\n'], table);
    lemma_joined_separate(b, Role::User, seq!['\n']);
    lemma_joined_separate(u, Role::System, seq!['\n', '\n']);
    lemma_joined_keeps_separate(u, Role::System, Role::User, seq!['\n', '\n']);
}

/// What is clean already is sent as it is.
pub proof fn clean_lists_are_kept(s: Seq<MessageView>)
    requires
        tidy(s, call_names(s)),
        no_neighbours(s, Role::User),
        no_neighbours(s, Role::System),
    ensures
        cleaned(s) == s,
{
    lemma_filter_id(s, |m: MessageView| !is_empty_reply(m));
    lemma_filter_id(s, |m: MessageView| !is_orphan(m, call_names(s)));
    lemma_joined_id(s, Role::User, seq!['\n']);
    lemma_joined_id(s, Role::System, seq!['\n', '\n']);
}

/// Cleaning twice is cleaning once.
pub proof fn cleaning_is_idempotent(s: Seq<MessageView>)
    ensures
        cleaned(cleaned(s)) == cleaned(s),
{
    cleaned_is_clean(s);
    clean_lists_are_kept(cleaned(s));
}

proof fn lemma_filter_awaited(s: Seq<MessageView>, keep: spec_fn(MessageView) -> bool)
    requires
        forall|m: MessageView| m.is_calls() || m.is_result() ==> #[trigger] keep(m),
        awaited(Some(0), s) is Some,
    ensures
        awaited(Some(0), s.filter(keep)) == awaited(Some(0), s),
    decreases s.len(),
{
    reveal(Seq::filter);
    if s.len() > 0 {
        let t = s.drop_last();
        lemma_filter_awaited(t, keep);
        let f = t.filter(keep);
        if keep(s.last()) {
            assert(f.push(s.last()).drop_last() =~= f);
        }
    }
}

proof fn lemma_joined_awaited(s: Seq<MessageView>, role: Role, sep: Seq<char>)
    requires
        awaited(Some(0), s) is Some,
    ensures
        awaited(Some(0), joined(s, role, sep)) == awaited(Some(0), s),
    decreases s.len(),
{
    if s.len() > 0 {
        let t = s.drop_last();
        lemma_joined_awaited(t, role, sep);
        let m = joined(t, role, sep);
        if m.len() > 0 && joinable(m.last(), s.last(), role) {
            let n = m.last().with_text(m.last().plain()->0 + sep + s.last().plain()->0);
            assert(m.drop_last().push(n).drop_last() =~= m.drop_last());
        } else {
            assert(m.push(s.last()).drop_last() =~= m);
        }
    }
}

/// Whether every result of `s` answers a call of `s`.
pub open spec fn results_answer_calls(s: Seq<MessageView>) -> bool {
    forall|i: int| 0 <= i < s.len() ==> !is_orphan(#[trigger] s[i], call_names(s))
}

/// Cleaning a paired list in which every result answers a call leaves it
/// paired.
pub proof fn cleaning_keeps_pairing(s: Seq<MessageView>)
    requires
        paired(s),
        results_answer_calls(s),
    ensures
        paired(cleaned(s)),
{
    let keep_a = |m: MessageView| !is_empty_reply(m);
    let a = without_empty_replies(s);
    let keep_b = |m: MessageView| !is_orphan(m, call_names(a));
    let u = joined(a, Role::User, seq!['\n']);
    paired_awaits_nothing(s);
    lemma_filter_names(s, keep_a);
    lemma_filter_awaited(s, keep_a);
    lemma_filter_all(s, keep_a);
    assert forall|i: int| 0 <= i < a.len() implies keep_b(#[trigger] a[i]) by {
        assert(s.contains(a[i]));
        let k = choose|k: int| 0 <= k < s.len() && s[k] == a[i];
        assert(!is_orphan(s[k], call_names(s)));
    }
    lemma_filter_id(a, keep_b);
    lemma_joined_awaited(a, Role::User, seq!['\n']);
    lemma_joined_awaited(u, Role::System, seq!['\n', '\n']);
    awaiting_nothing_is_paired(cleaned(s));
}

// ---- What cleaning does to a list that grows ----

proof fn lemma_joined_concat(a: Seq<MessageView>, b: Seq<MessageView>, role: Role, sep: Seq<char>)
    requires
        b.len() > 0,
        !(b[0].content is Text),
    ensures
        joined(a + b, role, sep) == joined(a, role, sep) + joined(b, role, sep),
        joined(b, role, sep).len() > 0,
        joined(b, role, sep)[0] == b[0],
    decreases b.len(),
{
    let c = b.drop_last();
    let x = joined(a, role, sep);
    assert((a + b).drop_last() =~= a + c);
    if c.len() == 0 {
        assert(a + c =~= a);
        assert(joined(c, role, sep).len() == 0);
        assert(x.push(b.last()) =~= x + joined(b, role, sep));
    } else {
        lemma_joined_concat(a, c, role, sep);
        let y = joined(c, role, sep);
        let z = joined(b, role, sep);
        assert((x + y).last() == y.last());
        if joinable(y.last(), b.last(), role) {
            let n = y.last().with_text(y.last().plain()->0 + sep + b.last().plain()->0);
            assert(y.len() > 1);
            assert((x + y).drop_last().push(n) =~= x + z);
        } else {
            assert((x + y).push(b.last()) =~= x + z);
        }
    }
}

/// Where a list goes on with calls, and no result is left out of it, what was sent
/// of it before stays as it was in front of what is sent now.
pub proof fn cleaning_keeps_the_front(a: Seq<MessageView>, b: Seq<MessageView>)
    requires
        b.len() > 0,
        b[0].is_calls(),
        results_answer_calls(a),
        results_answer_calls(a + b),
    ensures
        cleaned(a).is_prefix_of(cleaned(a + b)),
        cleaned(a).len() < cleaned(a + b).len(),
{
    let keep = |m: MessageView| !is_empty_reply(m);
    let x = a.filter(keep);
    let y = b.filter(keep);
    Seq::filter_distributes_over_add(a, b, keep);
    assert(y.len() > 0 && y[0] == b[0]) by {
        let h = seq![b[0]];
        assert(h + b.drop_first() =~= b);
        Seq::filter_distributes_over_add(h, b.drop_first(), keep);
        lemma_filter_id(h, keep);
    }
    lemma_no_orphans(a);
    lemma_no_orphans(a + b);
    lemma_joined_concat(x, y, Role::User, seq!['\n']);
    let u = joined(x, Role::User, seq!['\n']);
    let v = joined(y, Role::User, seq!['\n']);
    lemma_joined_concat(u, v, Role::System, seq!['\n', '\n']);
    let w = joined(v, Role::System, seq!['\n', '\n']);
    assert(cleaned(a + b) == cleaned(a) + w);
    assert(cleaned(a) =~= (cleaned(a) + w).subrange(0, cleaned(a).len() as int));
}

proof fn lemma_no_orphans(s: Seq<MessageView>)
    requires
        results_answer_calls(s),
    ensures
        without_orphans(without_empty_replies(s)) == without_empty_replies(s),
{
    let keep_a = |m: MessageView| !is_empty_reply(m);
    let a = without_empty_replies(s);
    let keep_b = |m: MessageView| !is_orphan(m, call_names(a));
    lemma_filter_names(s, keep_a);
    lemma_filter_all(s, keep_a);
    assert forall|i: int| 0 <= i < a.len() implies keep_b(#[trigger] a[i]) by {
        assert(s.contains(a[i]));
        let k = choose|k: int| 0 <= k < s.len() && s[k] == a[i];
        assert(!is_orphan(s[k], call_names(s)));
    }
    lemma_filter_id(a, keep_b);
}

proof fn lemma_filter_total(s: Seq<MessageView>, keep: spec_fn(MessageView) -> bool)
    ensures
        total(s.filter(keep)) <= total(s),
    decreases s.len(),
{
    reveal(Seq::filter);
    if s.len() > 0 {
        lemma_filter_total(s.drop_last(), keep);
        let f = s.drop_last().filter(keep);
        if keep(s.last()) {
            assert(f.push(s.last()).drop_last() =~= f);
        }
    }
}

proof fn lemma_joined_total(s: Seq<MessageView>, role: Role, sep: Seq<char>)
    requires
        byte_count(sep) <= 2,
    ensures
        total(joined(s, role, sep)) <= total(s),
    decreases s.len(),
{
    if s.len() > 0 {
        let t = s.drop_last();
        lemma_joined_total(t, role, sep);
        let m = joined(t, role, sep);
        if m.len() > 0 && joinable(m.last(), s.last(), role) {
            let p = m.last().plain()->0;
            let q = s.last().plain()->0;
            let n = m.last().with_text(p + sep + q);
            lemma_byte_concat(p, sep);
            lemma_byte_concat(p + sep, q);
            assert(m.drop_last().push(n).drop_last() =~= m.drop_last());
            assert(estimate(n) <= estimate(m.last()) + estimate(s.last()));
        } else {
            assert(m.push(s.last()).drop_last() =~= m);
        }
    }
}

/// Cleaning never makes a list count for more tokens.
pub proof fn cleaning_frees_tokens(s: Seq<MessageView>)
    ensures
        total(cleaned(s)) <= total(s),
{
    let a = without_empty_replies(s);
    let b = without_orphans(a);
    let u = joined(b, Role::User, seq!['\n']);
    lemma_filter_total(s, |m: MessageView| !is_empty_reply(m));
    lemma_filter_total(a, |m: MessageView| !is_orphan(m, call_names(a)));
    lemma_byte_ascii(seq!['\n']);
    lemma_byte_ascii(seq!['\n', '\n']);
    lemma_joined_total(b, Role::User, seq!['\n']);
    lemma_joined_total(u, Role::System, seq!['\n', '\n']);
}

proof fn lemma_joined_role(s: Seq<MessageView>, role: Role, sep: Seq<char>, i: int) -> (k: int)
    requires
        0 <= i < s.len(),
    ensures
        0 <= k < joined(s, role, sep).len(),
        joined(s, role, sep)[k].role == s[i].role,
    decreases s.len(),
{
    let t = s.drop_last();
    let m = joined(t, role, sep);
    if i < t.len() {
        let k = lemma_joined_role(t, role, sep, i);
        assert(joined(s, role, sep)[k].role == m[k].role);
        k
    } else {
        joined(s, role, sep).len() - 1
    }
}

/// Whoever says something that is no empty reply and no result still speaks after
/// cleaning.
pub proof fn cleaning_silences_nobody(s: Seq<MessageView>, i: int) -> (k: int)
    requires
        0 <= i < s.len(),
        !is_empty_reply(s[i]),
        !s[i].is_result(),
    ensures
        0 <= k < cleaned(s).len(),
        cleaned(s)[k].role == s[i].role,
{
    let a = without_empty_replies(s);
    let b = without_orphans(a);
    let u = joined(b, Role::User, seq!['\n']);
    lemma_filter_keeps(s, |m: MessageView| !is_empty_reply(m), s[i]);
    lemma_filter_keeps(a, |m: MessageView| !is_orphan(m, call_names(a)), s[i]);
    let j = choose|j: int| 0 <= j < b.len() && b[j] == s[i];
    let l = lemma_joined_role(b, Role::User, seq!['\n'], j);
    lemma_joined_role(u, Role::System, seq!['\n', '\n'], l)
}

pub proof fn lemma_named(s: Seq<MessageView>, i: int, c: int)
    requires
        0 <= i < s.len(),
        s[i].is_calls(),
        0 <= c < s[i].calls().len(),
    ensures
        name_of(call_names(s), s[i].calls()[c].id) is Some,
    decreases s.len(),
{
    let id = s[i].calls()[c].id;
    let before = call_names(s.drop_last());
    let more = names_in(s.last());
    if i < s.len() - 1 {
        lemma_named(s.drop_last(), i, c);
        lemma_name_after(before, more, id);
    } else {
        assert(more[c].0 == id);
        lemma_name_there(before + more, id, before.len() + c);
    }
}

proof fn lemma_name_there(table: Seq<(Seq<char>, Seq<char>)>, id: Seq<char>, k: int)
    requires
        0 <= k < table.len(),
        table[k].0 == id,
    ensures
        name_of(table, id) is Some,
    decreases table.len(),
{
    if k < table.len() - 1 {
        lemma_name_there(table.drop_last(), id, k);
    }
}

proof fn lemma_name_after(a: Seq<(Seq<char>, Seq<char>)>, b: Seq<(Seq<char>, Seq<char>)>, id: Seq<char>)
    requires
        name_of(a, id) is Some,
    ensures
        name_of(a + b, id) is Some,
    decreases b.len(),
{
    if b.len() == 0 {
        assert(a + b =~= a);
    } else {
        lemma_name_after(a, b.drop_last(), id);
        assert((a + b).drop_last() =~= a + b.drop_last());
    }
}

// ---- What joining keeps ----

/// Whether a text ends with another.
pub open spec fn ends_with(s: Seq<char>, t: Seq<char>) -> bool {
    s.len() >= t.len() && s.skip(s.len() - t.len()) == t
}

proof fn lemma_joined_end(s: Seq<MessageView>, role: Role, sep: Seq<char>)
    requires
        s.len() > 0,
        s.last().content is Text,
    ensures
        joined(s, role, sep).len() > 0,
        joined(s, role, sep).last().role == s.last().role,
        joined(s, role, sep).last().content is Text,
        ends_with(joined(s, role, sep).last().plain()->0, s.last().plain()->0),
{
    let m = joined(s.drop_last(), role, sep);
    let t = s.last().plain()->0;
    if m.len() > 0 && joinable(m.last(), s.last(), role) {
        let all = m.last().plain()->0 + sep + t;
        assert(all.skip(all.len() - t.len()) =~= t);
    } else {
        assert(t.skip(0) =~= t);
    }
}

proof fn lemma_joined_grows(s: Seq<MessageView>, role: Role, sep: Seq<char>, n: int, k: int)
    requires
        0 <= n <= s.len(),
        0 <= k < joined(s.take(n), role, sep).len(),
    ensures
        ({
            let a = joined(s.take(n), role, sep);
            let b = joined(s, role, sep);
            &&& k < b.len()
            &&& b[k].role == a[k].role
            &&& a[k].content is Text ==> b[k].content is Text && starts_with(b[k].plain()->0, a[k].plain()->0)
            &&& !(a[k].content is Text) ==> b[k] == a[k]
        }),
    decreases s.len() - n,
{
    let a = joined(s.take(n), role, sep);
    if n == s.len() {
        assert(s.take(n) =~= s);
        if a[k].content is Text {
            let t = a[k].plain()->0;
            assert(t.subrange(0, t.len() as int) =~= t);
        }
    } else {
        let next = s.take(n + 1);
        assert(next.drop_last() =~= s.take(n));
        let c = joined(next, role, sep);
        assert(k < c.len());
        lemma_joined_grows(s, role, sep, n + 1, k);
        let b = joined(s, role, sep);
        if a[k].content is Text {
            let x = a[k].plain()->0;
            let y = c[k].plain()->0;
            let z = b[k].plain()->0;
            assert(y.subrange(0, x.len() as int) =~= x);
            assert(z.subrange(0, x.len() as int) =~= z.subrange(0, y.len() as int).subrange(0, x.len() as int));
        }
    }
}

/// Whether a speaker says a text in one of some messages.
pub open spec fn says(s: Seq<MessageView>, role: Role, text: Seq<char>) -> bool {
    exists|k: int| #[trigger] says_at(s, k, role, text)
}

pub open spec fn says_at(s: Seq<MessageView>, k: int, role: Role, text: Seq<char>) -> bool {
    0 <= k < s.len() && s[k].role == role && s[k].content is Text && contains(s[k].content->Text_0, text)
}

proof fn lemma_ends_join(x: Seq<char>, t: Seq<char>, rest: Seq<char>, z: Seq<char>)
    requires
        ends_with(x, t),
        starts_with(z, x + rest),
    ensures
        contains(z, t + rest),
{
    let at = x.len() - t.len();
    let both = t + rest;
    assert(z.subrange(at, at + both.len()) =~= both) by {
        assert forall|j: int| 0 <= j < both.len() implies z[at + j] == both[j] by {
            assert(z.subrange(0, (x + rest).len() as int)[at + j] == (x + rest)[at + j]);
            if j < t.len() {
                assert(x.skip(at)[j] == x[at + j]);
            }
        }
    }
    assert(occurs_at(z, both, at));
}

/// Neighbouring plain messages of one speaker become one message, with their texts in
/// order and a separator between them.
pub proof fn neighbours_are_joined_in_order(s: Seq<MessageView>, role: Role, sep: Seq<char>, i: int)
    requires
        0 <= i < s.len() - 1,
        s[i].role == role && s[i + 1].role == role,
        s[i].content is Text && s[i + 1].content is Text,
    ensures
        says(joined(s, role, sep), role, s[i].content->Text_0 + sep + s[i + 1].content->Text_0),
{
    let a = s.take(i + 1);
    let b = s.take(i + 2);
    assert(b.drop_last() =~= a);
    assert(a.last() == s[i] && b.last() == s[i + 1]);
    lemma_joined_end(a, role, sep);
    let before = joined(a, role, sep);
    let k = before.len() - 1;
    let x = before.last().plain()->0;
    let t = s[i].plain()->0;
    let y = s[i + 1].plain()->0;
    assert(joined(b, role, sep)[k].plain()->0 == x + sep + y);
    lemma_joined_grows(s, role, sep, i + 2, k);
    let z = joined(s, role, sep)[k].plain()->0;
    assert(x + sep + y =~= x + (sep + y));
    lemma_ends_join(x, t, sep + y, z);
    assert(t + sep + y =~= t + (sep + y));
    assert(says_at(joined(s, role, sep), k, role, t + sep + y));
}

/// What is said is not lost in joining: the text of every plain message stands in a
/// message of the same speaker, and every other message stays as it is.
pub proof fn joining_loses_nothing(s: Seq<MessageView>, role: Role, sep: Seq<char>, i: int)
    requires
        0 <= i < s.len(),
    ensures
        s[i].content is Text ==> says(joined(s, role, sep), s[i].role, s[i].content->Text_0),
        !(s[i].content is Text) ==> joined(s, role, sep).contains(s[i]),
{
    let a = s.take(i + 1);
    assert(a.last() == s[i]);
    let before = joined(a, role, sep);
    let k = before.len() - 1;
    if s[i].content is Text {
        lemma_joined_end(a, role, sep);
        let x = before.last().plain()->0;
        let t = s[i].plain()->0;
        lemma_joined_grows(s, role, sep, i + 1, k);
        let z = joined(s, role, sep)[k].plain()->0;
        assert(x + Seq::<char>::empty() =~= x);
        lemma_ends_join(x, t, Seq::empty(), z);
        assert(t + Seq::<char>::empty() =~= t);
        assert(says_at(joined(s, role, sep), k, s[i].role, t));
    } else {
        assert(before.last() == s[i]);
        lemma_joined_grows(s, role, sep, i + 1, k);
        assert(joined(s, role, sep)[k] == s[i]);
    }
}

/// What is said to the model reaches it: all but empty replies and results that answer
/// no call is sent. Texts stand in a message of their speaker, other messages as they are.
pub proof fn cleaning_loses_no_content(s: Seq<MessageView>, i: int)
    requires
        0 <= i < s.len(),
        !(s[i].role == Role::Assistant && s[i].content is Text && trim(s[i].content->Text_0).len() == 0),
        s[i].is_result() ==> name_of(call_names(s), answered_id(s[i])) is Some,
    ensures
        s[i].content is Text ==> says(cleaned(s), s[i].role, s[i].content->Text_0),
        !(s[i].content is Text) ==> cleaned(s).contains(s[i]),
{
    let keep_a = |m: MessageView| !is_empty_reply(m);
    let a = without_empty_replies(s);
    let keep_b = |m: MessageView| !is_orphan(m, call_names(a));
    lemma_filter_names(s, keep_a);
    assert(s.contains(s[i]));
    lemma_filter_keeps(s, keep_a, s[i]);
    lemma_filter_keeps(a, keep_b, s[i]);
    let b = without_orphans(a);
    assert(b.contains(s[i]));
    let j = choose|j: int| 0 <= j < b.len() && b[j] == s[i];
    let u = joined(b, Role::User, seq!['\n']);
    joining_loses_nothing(b, Role::User, seq!['\n'], j);
    if s[i].content is Text {
        let t = s[i].content->Text_0;
        let k = choose|k: int| #[trigger] says_at(u, k, s[i].role, t);
        joining_loses_nothing(u, Role::System, seq!['\n', '\n'], k);
        let c = cleaned(s);
        let y = u[k].content->Text_0;
        let n = choose|n: int| #[trigger] says_at(c, n, s[i].role, y);
        let z = c[n].content->Text_0;
        let at = choose|at: int| occurs_at(z, y, at);
        lemma_contains_within(z.take(at), y, z.skip(at + y.len()), t);
        assert(z.take(at) + y + z.skip(at + y.len()) =~= z);
        assert(says_at(c, n, s[i].role, t));
    } else {
        let k = choose|k: int| 0 <= k < u.len() && u[k] == s[i];
        joining_loses_nothing(u, Role::System, seq!['\n', '\n'], k);
    }
}

/// Where nothing is dropped, neighbouring messages of the user are joined by a line
/// break, and those of the system by an empty line.
pub proof fn cleaning_joins_by_line_breaks(s: Seq<MessageView>, i: int)
    requires
        0 <= i < s.len() - 1,
        tidy(s, call_names(s)),
        s[i].content is Text && s[i + 1].content is Text,
        s[i].role == s[i + 1].role,
        no_neighbours(s, Role::System) || no_neighbours(s, Role::User),
    ensures
        s[i].role == Role::User ==> says(
            cleaned(s),
            Role::User,
            s[i].content->Text_0 + seq!['\n'] + s[i + 1].content->Text_0,
        ),
        s[i].role == Role::System ==> says(
            cleaned(s),
            Role::System,
            s[i].content->Text_0 + seq!['\n', '\n'] + s[i + 1].content->Text_0,
        ),
{
    lemma_filter_id(s, |m: MessageView| !is_empty_reply(m));
    lemma_filter_id(s, |m: MessageView| !is_orphan(m, call_names(s)));
    let u = joined(s, Role::User, seq!['\n']);
    if s[i].role == Role::User {
        assert(joinable(s[i], s[i + 1], Role::User));
        lemma_joined_keeps_separate(s, Role::User, Role::System, seq!['\n']);
        lemma_joined_id(u, Role::System, seq!['\n', '\n']);
        neighbours_are_joined_in_order(s, Role::User, seq!['\n'], i);
    }
    if s[i].role == Role::System {
        assert(joinable(s[i], s[i + 1], Role::System));
        lemma_joined_id(s, Role::User, seq!['\n']);
        neighbours_are_joined_in_order(s, Role::System, seq!['\n', '\n'], i);
    }
}

/// The tool of a result is that of the last call with its identifier.
pub proof fn results_belong_to_the_last_call(s: Seq<MessageView>, i: int, c: int)
    requires
        0 <= i < s.len(),
        s[i].is_calls(),
        0 <= c < s[i].calls().len(),
        forall|d: int| c < d < s[i].calls().len() ==> (#[trigger] s[i].calls()[d]).id != s[i].calls()[c].id,
        forall|k: int, d: int|
            i < k < s.len() && s[k].is_calls() && 0 <= d < s[k].calls().len() ==> (#[trigger] s[k].calls()[d]).id
                != s[i].calls()[c].id,
    ensures
        name_of(call_names(s), s[i].calls()[c].id) == Some(s[i].calls()[c].name),
    decreases s.len(),
{
    let t = s.drop_last();
    let id = s[i].calls()[c].id;
    let more = names_in(s.last());
    if i < s.len() - 1 {
        assert(t[i] == s[i]);
        assert forall|k: int, d: int| i < k < t.len() && t[k].is_calls() && 0 <= d < t[k].calls().len() implies (
        #[trigger] t[k].calls()[d]).id != id by {
            assert(t[k] == s[k]);
        }
        results_belong_to_the_last_call(t, i, c);
        assert forall|d: int| 0 <= d < more.len() implies (#[trigger] more[d]).0 != id by {
            assert(s[s.len() - 1].calls()[d].id != id);
        }
        lemma_name_behind(call_names(t), more, id);
    } else {
        let before = call_names(t) + more.take(c);
        let rest = more.skip(c + 1);
        assert(call_names(s) =~= before.push(more[c]) + rest);
        assert forall|d: int| 0 <= d < rest.len() implies (#[trigger] rest[d]).0 != id by {
            assert(s[i].calls()[c + 1 + d].id != id);
        }
        lemma_name_behind(before.push(more[c]), rest, id);
        assert(before.push(more[c]).last() == more[c]);
    }
}

proof fn lemma_name_behind(a: Seq<(Seq<char>, Seq<char>)>, b: Seq<(Seq<char>, Seq<char>)>, id: Seq<char>)
    requires
        forall|d: int| 0 <= d < b.len() ==> (#[trigger] b[d]).0 != id,
    ensures
        name_of(a + b, id) == name_of(a, id),
    decreases b.len(),
{
    if b.len() == 0 {
        assert(a + b =~= a);
    } else {
        let t = b.drop_last();
        assert(b[b.len() - 1].0 != id);
        assert forall|d: int| 0 <= d < t.len() implies (#[trigger] t[d]).0 != id by {
            assert(t[d] == b[d]);
        }
        lemma_name_behind(a, t, id);
        assert((a + b).drop_last() =~= a + t);
    }
}

} // verus!
