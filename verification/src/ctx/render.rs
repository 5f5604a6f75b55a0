//! Rendering a conversation into the messages of one request.

use vstd::prelude::*;
use vstd::string::*;

use crate::conversation::{
    call_views, condensed, estimate, extend_messages, no_stats, sat, text_message, total,
    total_tokens, views, CallView, ContentView, ContextStats, Conversation, ConversationView, Message,
    MessageContent, MessageView, Role, ToolCall, Turn,
};
use crate::ctx::cleanup::{
    build_call_id_to_tool_map, call_names, clean_message_pipeline, cleaned, lookup_tool, name_of, pairs,
};
use crate::ctx::compress::{auto_compact_threshold, threshold};
use crate::ctx::pairing::{message_is_result, result_run, sanitize_messages, sanitized};
use crate::text::{
    contains, contains_text, decimal, is_blank_text, join, join_texts, lemma_holds, prefix, prefix_of, push_decimal, texts,
    trim,
};

verus! {

// ---- Model directives ----

/// Whether a model is asked to answer in Chinese.
pub open spec fn speaks_chinese(model_id: Seq<char>) -> bool {
    contains(model_id, "minimax"@) || contains(model_id, "qwen"@) || contains(model_id, "deepseek"@)
        || contains(model_id, "kimi"@)
}

pub open spec fn language_directive() -> Seq<char> {
    "\n用户可见的输出请用中文。工具调用和代码保持原样。\n"@
}

pub open spec fn thinking_directive() -> Seq<char> {
    "\n<system-reminder>\nTHINKING 简洁纪律：内部思考（<think> 块）必须极简，只写必要的决策线索，不要复述工具结果、不要分点展开、不要自问自答。目标 ≤ 3 句话。冗长 thinking 视为严重问题。\n</system-reminder>\n"@
}

/// The system prompt with the directives for the model appended.
pub open spec fn directed(system_prompt: Seq<char>, model_id: Seq<char>) -> Seq<char> {
    system_prompt + (if speaks_chinese(model_id) {
        language_directive()
    } else {
        Seq::empty()
    }) + (if contains(model_id, "minimax"@) {
        thinking_directive()
    } else {
        Seq::empty()
    })
}

/// Appends the directives for a model, given by its lower-case name, to the
/// system prompt.
pub fn apply_model_directives(system_prompt: &str, model_id: &str) -> (r: String)
    ensures
        r@ == directed(system_prompt@, model_id@),
        r@.take(system_prompt@.len() as int) == system_prompt@,
{
    let mut out = system_prompt.to_owned();
    let minimax = contains_text(model_id, "minimax");
    if minimax || contains_text(model_id, "qwen") || contains_text(model_id, "deepseek")
        || contains_text(model_id, "kimi") {
        out.append("\n用户可见的输出请用中文。工具调用和代码保持原样。\n");
    } else {
        assert(out@ =~= out@ + Seq::<char>::empty());
    }
    if minimax {
        out.append(
            "\n<system-reminder>\nTHINKING 简洁纪律：内部思考（<think> 块）必须极简，只写必要的决策线索，不要复述工具结果、不要分点展开、不要自问自答。目标 ≤ 3 句话。冗长 thinking 视为严重问题。\n</system-reminder>\n",
        );
    } else {
        assert(out@ =~= out@ + Seq::<char>::empty());
    }
    assert(out@.take(system_prompt@.len() as int) =~= system_prompt@);
    out
}

// ---- Windowing without turns ----

/// Whether a request may start at `m`.
pub open spec fn may_start(m: MessageView) -> bool {
    m.role == Role::User || m.role == Role::System
}

/// The first position from `from` on where a request may start, or the end.
pub open spec fn next_start(msgs: Seq<MessageView>, from: nat) -> nat
    decreases msgs.len() - from,
{
    if from >= msgs.len() || may_start(msgs[from as int]) {
        from
    } else {
        next_start(msgs, from + 1)
    }
}

/// Where a window that was to start at `idx` starts: past results, and at a
/// user message if one follows within five messages.
pub open spec fn snapped(msgs: Seq<MessageView>, idx: nat) -> nat {
    let at = if idx <= msgs.len() { idx } else { msgs.len() };
    let first = at + result_run(msgs.skip(at as int));
    if next_start(msgs, first) <= first + 5 {
        next_start(msgs, first)
    } else {
        first
    }
}

pub fn snap_to_valid_boundary(messages: &Vec<Message>, idx: usize) -> (r: usize)
    ensures
        r == snapped(views(messages@), idx as nat),
        r <= messages.len(),
{
    let ghost all = views(messages@);
    let n = messages.len();
    let at: usize = if idx <= n { idx } else { n };
    let mut start: usize = at;
    while start < n && message_is_result(&messages[start])
        invariant
            at <= start <= n == messages.len(),
            all == views(messages@),
            start + result_run(all.skip(start as int)) == at + result_run(all.skip(at as int)),
        decreases n - start,
    {
        assert(all.skip(start as int)[0] == messages@[start as int]@);
        assert(all.skip(start as int).drop_first() =~= all.skip(start + 1));
        start = start + 1;
    }
    if start < n {
        assert(all.skip(start as int)[0] == messages@[start as int]@);
    }
    let first = start;
    assert(first == at + result_run(all.skip(at as int)));
    while start < n
        invariant
            first <= start <= n == messages.len(),
            all == views(messages@),
            start - first <= 5,
            next_start(all, first as nat) == next_start(all, start as nat),
            first == at + result_run(all.skip(at as int)),
            at == if idx <= all.len() { idx as nat } else { all.len() },
        decreases n - start,
    {
        assert(all[start as int] == messages@[start as int]@);
        if messages[start].role == Role::User || messages[start].role == Role::System {
            return start;
        }
        start = start + 1;
        if start - first > 5 {
            proof {
                lemma_next_start_range(all, start as nat);
            }
            return first;
        }
    }
    start
}

proof fn lemma_next_start_range(msgs: Seq<MessageView>, from: nat)
    ensures
        from <= next_start(msgs, from),
    decreases msgs.len() - from,
{
    if from >= msgs.len() || may_start(msgs[from as int]) {
    } else {
        lemma_next_start_range(msgs, from + 1);
    }
}

/// The start of the longest run of messages before `n` that fits `budget`
/// tokens, `used` of which are gone.
pub open spec fn window_start(msgs: Seq<MessageView>, n: nat, used: nat, budget: nat) -> nat
    decreases n,
{
    if n == 0 || n > msgs.len() || used + estimate(msgs[n - 1]) > budget {
        n
    } else {
        window_start(msgs, (n - 1) as nat, used + estimate(msgs[n - 1]), budget)
    }
}

/// The messages sent when no turn is known: the latest that fit 60% of what
/// the system prompt leaves.
pub open spec fn fallback(
    msgs: Seq<MessageView>,
    system: MessageView,
    remaining_budget: nat,
) -> Seq<MessageView> {
    let start = snapped(msgs, window_start(msgs, msgs.len(), 0, remaining_budget * 60 / 100));
    sanitized(seq![system] + msgs.skip(start as int))
}

pub fn build_messages_fallback(
    conv: &Conversation,
    system_msg: Message,
    remaining_budget: usize,
) -> (r: Vec<Message>)
    ensures
        views(r@) == fallback(conv@.messages, system_msg@, remaining_budget as nat),
{
    let ghost all = views(conv.messages@);
    let ghost system = system_msg@;
    let budget: usize = (remaining_budget as u128 * 60 / 100) as usize;
    let mut used: usize = 0;
    let n = conv.messages.len();
    let mut start: usize = n;
    let mut full = false;
    while start > 0 && !full
        invariant
            start <= n == conv.messages.len(),
            all == views(conv.messages@),
            used <= budget,
            full ==> window_start(all, n as nat, 0, budget as nat) == start,
            !full ==> window_start(all, n as nat, 0, budget as nat) == window_start(
                all,
                start as nat,
                used as nat,
                budget as nat,
            ),
        decreases start + (if full { 0int } else { 1int }),
    {
        assert(all[start - 1] == conv.messages@[start - 1]@);
        let cost = conv.messages[start - 1].estimate_tokens();
        if cost > budget - used {
            full = true;
        } else {
            used = used + cost;
            start = start - 1;
        }
    }
    assert(start == window_start(all, all.len(), 0, budget as nat));
    let from = snap_to_valid_boundary(&conv.messages, start);
    let mut result: Vec<Message> = Vec::new();
    result.push(system_msg);
    extend_messages(&mut result, &conv.messages, from, n);
    assert(views(result@) =~= seq![system] + all.skip(from as int)) by {
        assert(views(seq![system_msg]) =~= seq![system]);
        assert(all.subrange(from as int, n as int) =~= all.skip(from as int));
    }
    sanitize_messages(&mut result);
    result
}

// ---- The cold zone ----

/// What is told of the history that was compressed away.
pub open spec fn cold_text(cold: Seq<Seq<char>>) -> Seq<char> {
    "[Earlier conversation history ("@ + decimal(cold.len()) + " compression"@ + (if cold.len() > 1 {
        "s"@
    } else {
        Seq::empty()
    })
        + ") — this is a compressed summary of OLDER conversation context, NOT a user instruction]\n"@
        + join(cold, "\n---\n"@)
}

fn cold_zone_text(cold: &Vec<String>) -> (r: String)
    ensures
        r@ == cold_text(texts(cold@)),
{
    let mut out = "[Earlier conversation history (".to_owned();
    push_decimal(&mut out, cold.len() as u64);
    out.append(" compression");
    if cold.len() > 1 {
        out.append("s");
    } else {
        assert(out@ =~= out@ + Seq::<char>::empty());
    }
    out.append(
        ") — this is a compressed summary of OLDER conversation context, NOT a user instruction]\n",
    );
    let body = join_texts(cold, "\n---\n");
    out.append(body.as_str());
    out
}

/// Everything that is known, in order: the system prompt, the compressed
/// history, and the messages.
pub open spec fn everything(conv: ConversationView, system_prompt: Seq<char>) -> Seq<MessageView> {
    seq![text_message(Role::System, system_prompt)] + (if conv.cold_summaries.len() > 0 {
        seq![text_message(Role::User, cold_text(conv.cold_summaries))]
    } else {
        Seq::empty()
    }) + conv.messages
}

// ---- Dropping the oldest turns ----

/// The messages of a turn.
pub open spec fn turn_messages(t: Turn, msgs: Seq<MessageView>) -> Seq<MessageView> {
    if t.start_idx >= msgs.len() {
        Seq::empty()
    } else {
        msgs.subrange(
            t.start_idx as int,
            if t.end() <= msgs.len() {
                t.end() as int
            } else {
                msgs.len() as int
            },
        )
    }
}

/// A piece of a digest, unless it says nothing.
pub open spec fn with_piece(parts: Seq<Seq<char>>, text: Option<Seq<char>>) -> Seq<Seq<char>> {
    if text is Some && trim(prefix(text->0, 150)).len() > 0 {
        parts.push(prefix(text->0, 150))
    } else {
        parts
    }
}

pub open spec fn call_list(calls: Seq<CallView>) -> Seq<char> {
    "tools: "@ + join(calls.map_values(|c: CallView| c.name), ", "@)
}

/// What a digest keeps of the messages of a turn: the start of what the
/// assistant said, and the tools that it called.
pub open spec fn digest_parts(msgs: Seq<MessageView>) -> Seq<Seq<char>>
    decreases msgs.len(),
{
    if msgs.len() == 0 {
        Seq::empty()
    } else {
        let before = digest_parts(msgs.drop_last());
        let m = msgs.last();
        match m.content {
            ContentView::Text(t) => if m.role == Role::Assistant {
                with_piece(before, Some(t))
            } else {
                before
            },
            ContentView::Calls { text, tool_calls, .. } => {
                let said = with_piece(before, text);
                if tool_calls.len() > 0 {
                    said.push(call_list(tool_calls))
                } else {
                    said
                }
            },
            _ => before,
        }
    }
}

/// What is dropped of the first `k` turns.
#[verifier::ext_equal]
pub struct DroppedView {
    pub tokens: nat,
    pub count: nat,
    pub digests: Seq<Seq<char>>,
}

/// The turns among the first `k` that go so that at least `need` tokens are
/// freed, as far as they have that many.
pub open spec fn dropped(turns: Seq<Turn>, msgs: Seq<MessageView>, need: nat, k: nat) -> DroppedView
    decreases k,
{
    if k == 0 {
        DroppedView { tokens: 0, count: 0, digests: Seq::empty() }
    } else {
        let before = dropped(turns, msgs, need, (k - 1) as nat);
        let t = turns[k - 1];
        if before.tokens >= need || t.start_idx >= msgs.len() {
            before
        } else {
            let parts = digest_parts(turn_messages(t, msgs));
            DroppedView {
                tokens: sat(before.tokens + total(turn_messages(t, msgs))),
                count: before.count + 1,
                digests: if parts.len() > 0 {
                    before.digests.push(join(parts, " | "@))
                } else {
                    before.digests
                },
            }
        }
    }
}

/// Where the last turn starts.
pub open spec fn last_turn_start(turns: Seq<Turn>, n: nat) -> nat {
    if turns.len() > 0 && turns.last().start_idx <= n {
        turns.last().start_idx as nat
    } else if turns.len() > 0 {
        n
    } else {
        0
    }
}

/// Where the turns that stay start, from turn `k` on, when turns of `freed`
/// tokens go and the turns before `k` have `skipped`.
pub open spec fn first_kept(
    turns: Seq<Turn>,
    msgs: Seq<MessageView>,
    freed: nat,
    skipped: nat,
    k: nat,
) -> nat
    decreases turns.len() - k,
{
    if k >= turns.len() {
        0
    } else if turns[k as int].start_idx >= msgs.len() {
        first_kept(turns, msgs, freed, skipped, k + 1)
    } else {
        let now = sat(skipped + total(turn_messages(turns[k as int], msgs)));
        if now >= freed {
            if k + 1 < turns.len() {
                turns[k as int + 1].start_idx as nat
            } else {
                last_turn_start(turns, msgs.len())
            }
        } else {
            first_kept(turns, msgs, freed, now, k + 1)
        }
    }
}

/// Where the messages that stay start. The last turn always stays.
pub open spec fn kept_from(turns: Seq<Turn>, msgs: Seq<MessageView>, freed: nat) -> nat {
    let k = first_kept(turns, msgs, freed, 0, 0);
    let last = last_turn_start(turns, msgs.len());
    if k <= last {
        k
    } else {
        last
    }
}

pub open spec fn numbered(items: Seq<Seq<char>>) -> Seq<Seq<char>> {
    Seq::new(items.len(), |i: int| decimal((i + 1) as nat) + ". "@ + items[i])
}

/// What is told of the turns that were dropped.
pub open spec fn digest_text(d: DroppedView) -> Seq<char> {
    "[Context overflow: "@ + decimal(d.count) + " earlier turns compressed]\n"@ + join(
        numbered(d.digests),
        "\n"@,
    )
}

/// The size that an overflowing conversation is brought down to.
pub open spec fn drop_target(token_budget: nat) -> nat {
    token_budget * 80 / 100
}

/// Whether the oldest turns have to go: all is over the threshold and over the
/// target, and nothing was compressed away before.
pub open spec fn overflows(
    conv: ConversationView,
    system_prompt: Seq<char>,
    token_budget: nat,
) -> bool {
    let size = sat(total(everything(conv, system_prompt)));
    size > threshold(token_budget) && size > drop_target(token_budget) && conv.cold_summaries.len()
        == 0
}

/// What is dropped of a conversation that overflows.
pub open spec fn overflow(
    conv: ConversationView,
    system_prompt: Seq<char>,
    token_budget: nat,
) -> DroppedView {
    let need = (sat(total(everything(conv, system_prompt))) - drop_target(token_budget)) as nat;
    dropped(conv.turns, conv.messages, need, (conv.turns.len() - 1) as nat)
}

/// The messages that are left after the oldest turns went, if they have to.
pub open spec fn within_budget(
    conv: ConversationView,
    system_prompt: Seq<char>,
    token_budget: nat,
) -> Seq<MessageView> {
    if overflows(conv, system_prompt, token_budget) {
        let d = overflow(conv, system_prompt, token_budget);
        seq![text_message(Role::System, system_prompt)] + (if d.digests.len() > 0 {
            seq![text_message(Role::User, digest_text(d))]
        } else {
            Seq::empty()
        }) + conv.messages.skip(kept_from(conv.turns, conv.messages, d.tokens) as int)
    } else {
        everything(conv, system_prompt)
    }
}

fn add_piece(parts: &mut Vec<String>, text: &str)
    ensures
        texts(final(parts)@) == with_piece(texts(old(parts)@), Some(text@)),
{
    let short = prefix_of(text, 150);
    if !is_blank_text(short.as_str()) {
        let ghost was = parts@;
        parts.push(short);
        assert(texts(parts@) =~= texts(was).push(short@));
    }
}

fn call_list_text(calls: &Vec<ToolCall>) -> (r: String)
    ensures
        r@ == call_list(call_views(calls@)),
{
    let mut names: Vec<String> = Vec::new();
    let ghost all = call_views(calls@).map_values(|c: CallView| c.name);
    let mut i: usize = 0;
    while i < calls.len()
        invariant
            i <= calls.len(),
            names@.len() == i,
            forall|k: int| 0 <= k < i ==> #[trigger] names@[k]@ == calls@[k].name@,
        decreases calls.len() - i,
    {
        names.push(calls[i].name.clone());
        i = i + 1;
    }
    assert(texts(names@) =~= all);
    let mut out = "tools: ".to_owned();
    let list = join_texts(&names, ", ");
    out.append(list.as_str());
    out
}

fn digest_of(msgs: &Vec<Message>, from: usize, to: usize) -> (r: Vec<String>)
    requires
        from <= to <= msgs.len(),
    ensures
        texts(r@) == digest_parts(views(msgs@).subrange(from as int, to as int)),
{
    let mut parts: Vec<String> = Vec::new();
    let ghost all = views(msgs@);
    let mut i: usize = from;
    assert(texts(parts@) =~= Seq::<Seq<char>>::empty());
    assert(all.subrange(from as int, from as int).len() == 0);
    while i < to
        invariant
            from <= i <= to <= msgs.len(),
            all == views(msgs@),
            texts(parts@) == digest_parts(all.subrange(from as int, i as int)),
        decreases to - i,
    {
        let ghost more = all.subrange(from as int, i + 1);
        assert(more.drop_last() =~= all.subrange(from as int, i as int));
        assert(more.last() == msgs@[i as int]@);
        match &msgs[i].content {
            MessageContent::Text(t) => {
                if msgs[i].role == Role::Assistant {
                    add_piece(&mut parts, t.as_str());
                }
            },
            MessageContent::AssistantWithToolCalls { text, tool_calls, .. } => {
                if let Some(t) = text {
                    add_piece(&mut parts, t.as_str());
                }
                if tool_calls.len() > 0 {
                    let ghost was = parts@;
                    let list = call_list_text(tool_calls);
                    parts.push(list);
                    assert(texts(parts@) =~= texts(was).push(list@));
                }
            },
            _ => {},
        }
        i = i + 1;
    }
    parts
}

/// What is dropped of a conversation.
struct Dropped {
    tokens: usize,
    count: usize,
    digests: Vec<String>,
}

fn turn_range(t: &Turn, n: usize) -> (r: usize)
    requires
        t.start_idx < n,
    ensures
        r == if t.end() <= n { t.end() } else { n as nat },
        t.start_idx <= r <= n,
{
    let end = t.end_idx();
    if end <= n {
        end
    } else {
        n
    }
}

fn drop_turns(turns: &Vec<Turn>, msgs: &Vec<Message>, need: usize) -> (r: Dropped)
    requires
        turns.len() > 0,
    ensures
        (DroppedView { tokens: r.tokens as nat, count: r.count as nat, digests: texts(r.digests@) })
            == dropped(turns@, views(msgs@), need as nat, (turns.len() - 1) as nat),
{
    let ghost all = views(msgs@);
    let n = msgs.len();
    let mut tokens: usize = 0;
    let mut count: usize = 0;
    let mut digests: Vec<String> = Vec::new();
    let mut k: usize = 0;
    assert(texts(digests@) =~= Seq::<Seq<char>>::empty());
    while k < turns.len() - 1
        invariant
            k <= turns.len() - 1,
            turns.len() > 0,
            n == msgs.len(),
            all == views(msgs@),
            count <= k,
            (DroppedView { tokens: tokens as nat, count: count as nat, digests: texts(digests@) })
                == dropped(turns@, all, need as nat, k as nat),
        decreases turns.len() - k,
    {
        let ghost before = dropped(turns@, all, need as nat, k as nat);
        if tokens < need && turns[k].start_idx < n {
            let start = turns[k].start_idx;
            let end = turn_range(&turns[k], n);
            assert(turn_messages(turns@[k as int], all) =~= all.subrange(start as int, end as int));
            let parts = digest_of(msgs, start, end);
            assert(texts(parts@).len() == parts@.len());
            if parts.len() > 0 {
                let ghost was = digests@;
                let line = join_texts(&parts, " | ");
                digests.push(line);
                assert(texts(digests@) =~= texts(was).push(line@));
            }
            tokens = tokens.saturating_add(total_tokens(msgs, start, end));
            count = count + 1;
        }
        k = k + 1;
    }
    Dropped { tokens, count, digests }
}

fn start_of_last_turn(turns: &Vec<Turn>, n: usize) -> (r: usize)
    requires
        turns.len() > 0,
    ensures
        r == last_turn_start(turns@, n as nat),
        r <= n,
{
    let start = turns[turns.len() - 1].start_idx;
    if start <= n {
        start
    } else {
        n
    }
}

fn start_of_kept(turns: &Vec<Turn>, msgs: &Vec<Message>, freed: usize) -> (r: usize)
    requires
        turns.len() > 0,
    ensures
        r == kept_from(turns@, views(msgs@), freed as nat),
        r <= msgs.len(),
{
    let ghost all = views(msgs@);
    let n = msgs.len();
    let last = start_of_last_turn(turns, n);
    let mut skipped: usize = 0;
    let mut k: usize = 0;
    let mut found: Option<usize> = None;
    while k < turns.len() && found.is_none()
        invariant
            k <= turns.len(),
            turns.len() > 0,
            n == msgs.len(),
            all == views(msgs@),
            last == last_turn_start(turns@, n as nat),
            match found {
                Some(s) => first_kept(turns@, all, freed as nat, 0, 0) == s,
                None => first_kept(turns@, all, freed as nat, 0, 0) == first_kept(
                    turns@,
                    all,
                    freed as nat,
                    skipped as nat,
                    k as nat,
                ),
            },
        decreases turns.len() - k + (if found is None { 1int } else { 0int }),
    {
        if turns[k].start_idx >= n {
            k = k + 1;
        } else {
            let start = turns[k].start_idx;
            let end = turn_range(&turns[k], n);
            assert(turn_messages(turns@[k as int], all) =~= all.subrange(start as int, end as int));
            skipped = skipped.saturating_add(total_tokens(msgs, start, end));
            if skipped >= freed {
                found = Some(
                    if k + 1 < turns.len() {
                        turns[k + 1].start_idx
                    } else {
                        last
                    },
                );
            } else {
                k = k + 1;
            }
        }
    }
    let start: usize = match found {
        Some(s) => s,
        None => 0,
    };
    if start <= last {
        start
    } else {
        last
    }
}

fn digest_message_text(d: &Dropped) -> (r: String)
    ensures
        r@ == digest_text(
            DroppedView { tokens: d.tokens as nat, count: d.count as nat, digests: texts(d.digests@) },
        ),
{
    let ghost all = texts(d.digests@);
    let mut lines: Vec<String> = Vec::new();
    let mut i: usize = 0;
    while i < d.digests.len()
        invariant
            i <= d.digests.len(),
            all == texts(d.digests@),
            lines@.len() == i,
            forall|k: int| 0 <= k < i ==> #[trigger] lines@[k]@ == numbered(all)[k],
        decreases d.digests.len() - i,
    {
        let mut line = String::new();
        push_decimal(&mut line, (i + 1) as u64);
        line.append(". ");
        line.append(d.digests[i].as_str());
        assert(all[i as int] == d.digests@[i as int]@);
        assert(line@ =~= numbered(all)[i as int]);
        lines.push(line);
        i = i + 1;
    }
    assert(texts(lines@) =~= numbered(all));
    let mut out = "[Context overflow: ".to_owned();
    push_decimal(&mut out, d.count as u64);
    out.append(" earlier turns compressed]\n");
    let body = join_texts(&lines, "\n");
    out.append(body.as_str());
    out
}

// ---- The floor, the ceiling and the reminder ----

pub open spec fn is_user_text(m: MessageView) -> bool {
    m.role == Role::User && m.content is Text
}

/// The last plain user message among the first `n` messages.
pub open spec fn last_user_text(msgs: Seq<MessageView>, n: nat) -> Option<int>
    decreases n,
{
    if n == 0 || n > msgs.len() {
        None
    } else if is_user_text(msgs[n - 1]) {
        Some(n - 1)
    } else {
        last_user_text(msgs, (n - 1) as nat)
    }
}

/// Whether someone other than the system speaks.
pub open spec fn has_speaker(s: Seq<MessageView>) -> bool {
    exists|i: int| 0 <= i < s.len() && (#[trigger] s[i]).role != Role::System
}

pub open spec fn emergency_note() -> MessageView {
    text_message(
        Role::System,
        "[Emergency: prior conversation was dropped during compaction. Only the latest user message is preserved.]"@,
    )
}

/// `s`, with the latest user message put back where nobody is left to answer.
pub open spec fn floored(s: Seq<MessageView>, msgs: Seq<MessageView>) -> Seq<MessageView> {
    if has_speaker(s) {
        s
    } else {
        match last_user_text(msgs, msgs.len()) {
            Some(i) => s.push(emergency_note()).push(msgs[i]),
            None => s,
        }
    }
}

/// How many of the latest messages are never condensed.
pub const KEEP_TAIL: usize = 4;

pub open spec fn tool_or_nothing(table: Seq<(Seq<char>, Seq<char>)>, id: Seq<char>) -> Seq<char> {
    match name_of(table, id) {
        Some(n) => n,
        None => Seq::empty(),
    }
}

/// `s` with the tool result at `i` condensed, if `s` is over the ceiling and
/// that helps.
pub open spec fn shrunk_at(
    s: Seq<MessageView>,
    table: Seq<(Seq<char>, Seq<char>)>,
    ceiling: nat,
    i: int,
) -> Seq<MessageView> {
    match s[i].content {
        ContentView::Output(r) => {
            let small = condensed(s[i], tool_or_nothing(table, r.call_id));
            if sat(total(s)) > ceiling && estimate(small) < estimate(s[i]) {
                s.update(i, small)
            } else {
                s
            }
        },
        _ => s,
    }
}

/// `s` with tool results among the messages `1..k` condensed, oldest first,
/// until it fits the ceiling.
pub open spec fn shrunk_to(
    s: Seq<MessageView>,
    table: Seq<(Seq<char>, Seq<char>)>,
    ceiling: nat,
    k: nat,
) -> Seq<MessageView>
    decreases k,
{
    if k <= 1 {
        s
    } else {
        shrunk_at(shrunk_to(s, table, ceiling, (k - 1) as nat), table, ceiling, k - 1)
    }
}

pub open spec fn token_ceiling(token_budget: nat) -> nat {
    sat(token_budget * 80) / 100
}

pub open spec fn shrunk(s: Seq<MessageView>, token_budget: nat) -> Seq<MessageView> {
    let end: nat = if s.len() >= KEEP_TAIL {
        (s.len() - KEEP_TAIL) as nat
    } else {
        0
    };
    shrunk_to(s, call_names(s), token_ceiling(token_budget), end)
}

/// `s` with the reminder put in front of the latest plain user message.
pub open spec fn reminded(s: Seq<MessageView>, reminder: Seq<char>) -> Seq<MessageView> {
    match last_user_text(s, s.len()) {
        Some(i) if reminder.len() > 0 => s.update(
            i,
            s[i].with_text(reminder + seq!['\n'] + s[i].plain()->0),
        ),
        _ => s,
    }
}

// ---- The whole rendering ----

/// The messages that are sent for a conversation.
pub open spec fn rendered(
    conv: ConversationView,
    system_prompt: Seq<char>,
    token_budget: nat,
    turn_reminder: Seq<char>,
) -> Seq<MessageView> {
    let system = text_message(Role::System, system_prompt);
    if conv.messages.len() == 0 {
        seq![system]
    } else if conv.turns.len() == 0 {
        let left = if token_budget >= estimate(system) {
            (token_budget - estimate(system)) as nat
        } else {
            0
        };
        reminded(fallback(conv.messages, system, left), turn_reminder)
    } else {
        let kept = within_budget(conv, system_prompt, token_budget);
        let clean = cleaned(sanitized(kept));
        reminded(shrunk(floored(clean, conv.messages), token_budget), turn_reminder)
    }
}

/// What is reported of a rendering.
pub open spec fn render_stats(
    conv: ConversationView,
    system_prompt: Seq<char>,
    token_budget: nat,
    turn_reminder: Seq<char>,
) -> ContextStats {
    if conv.messages.len() == 0 || conv.turns.len() == 0 {
        no_stats()
    } else {
        let system = estimate(text_message(Role::System, system_prompt));
        let out = rendered(conv, system_prompt, token_budget, turn_reminder);
        let size = sat(total(out));
        ContextStats {
            system_tokens: system as usize,
            sent_tokens: (if size >= system { size - system } else { 0 }) as usize,
            dropped_tokens: (if overflows(conv, system_prompt, token_budget) {
                overflow(conv, system_prompt, token_budget).tokens
            } else {
                0
            }) as usize,
            total_messages: out.len() as usize,
        }
    }
}

fn find_last_user_text(msgs: &Vec<Message>) -> (r: Option<usize>)
    ensures
        match r {
            Some(i) => i < msgs.len() && last_user_text(views(msgs@), msgs.len() as nat) == Some(
                i as int,
            ) && is_user_text(msgs@[i as int]@),
            None => last_user_text(views(msgs@), msgs.len() as nat) is None,
        },
{
    let ghost all = views(msgs@);
    let mut n: usize = msgs.len();
    while n > 0
        invariant
            n <= msgs.len(),
            all == views(msgs@),
            last_user_text(all, msgs.len() as nat) == last_user_text(all, n as nat),
        decreases n,
    {
        assert(all[n - 1] == msgs@[n - 1]@);
        if msgs[n - 1].role == Role::User {
            match &msgs[n - 1].content {
                MessageContent::Text(_) => {
                    return Some(n - 1);
                },
                _ => {},
            }
        }
        n = n - 1;
    }
    None
}

fn anyone_speaks(msgs: &Vec<Message>) -> (r: bool)
    ensures
        r == has_speaker(views(msgs@)),
{
    let ghost all = views(msgs@);
    let mut i: usize = 0;
    while i < msgs.len()
        invariant
            i <= msgs.len(),
            all == views(msgs@),
            forall|k: int| 0 <= k < i ==> (#[trigger] all[k]).role == Role::System,
        decreases msgs.len() - i,
    {
        assert(all[i as int] == msgs@[i as int]@);
        if msgs[i].role != Role::System {
            return true;
        }
        i = i + 1;
    }
    false
}

fn keep_a_speaker(result: &mut Vec<Message>, msgs: &Vec<Message>)
    ensures
        views(final(result)@) == floored(views(old(result)@), views(msgs@)),
{
    if !anyone_speaks(result) {
        if let Some(i) = find_last_user_text(msgs) {
            let ghost was = result@;
            let note = Message::new(
                Role::System,
                "[Emergency: prior conversation was dropped during compaction. Only the latest user message is preserved.]",
            );
            result.push(note);
            result.push(msgs[i].clone());
            assert(views(msgs@)[i as int] == msgs@[i as int]@);
            assert(views(result@) =~= views(was).push(emergency_note()).push(msgs@[i as int]@));
        }
    }
}

fn shrink_to_ceiling(result: &mut Vec<Message>, token_budget: usize)
    ensures
        views(final(result)@) == shrunk(views(old(result)@), token_budget as nat),
{
    let ghost all = views(result@);
    let eighty: usize = if token_budget <= usize::MAX / 80 { token_budget * 80 } else { usize::MAX };
    let ceiling: usize = eighty / 100;
    assert(ceiling == token_ceiling(token_budget as nat));
    let n = result.len();
    let end: usize = if n >= KEEP_TAIL { n - KEEP_TAIL } else { 0 };
    let table = build_call_id_to_tool_map(result);
    let mut i: usize = 1;
    while i < end
        invariant
            1 <= i,
            end > 1 ==> i <= end,
            end <= 1 ==> i == 1,
            end <= n == result.len() == all.len(),
            pairs(table@) == call_names(all),
            ceiling == token_ceiling(token_budget as nat),
            views(result@) == shrunk_to(all, call_names(all), ceiling as nat, i as nat),
        decreases end - i,
    {
        let ghost was = result@;
        assert(views(was)[i as int] == was[i as int]@);
        let m = result.len();
        let size = total_tokens(result, 0, m);
        assert(views(was).subrange(0, m as int) =~= views(was));
        if size > ceiling {
            let mut small: Option<Message> = None;
            match &result[i].content {
                MessageContent::ToolResult(r) => {
                    let tool = match lookup_tool(&table, r.call_id.as_str()) {
                        Some(t) => t,
                        None => String::new(),
                    };
                    let c = result[i].condensed(tool.as_str());
                    if c.estimate_tokens() < result[i].estimate_tokens() {
                        small = Some(c);
                    }
                },
                _ => {},
            }
            match small {
                Some(c) => {
                    result[i] = c;
                    assert(views(result@) =~= views(was).update(i as int, c@));
                },
                None => {},
            }
        }
        i = i + 1;
    }
    assert(end <= 1 ==> shrunk_to(all, call_names(all), ceiling as nat, end as nat) == all);
}

fn put_reminder(result: &mut Vec<Message>, reminder: &str)
    ensures
        views(final(result)@) == reminded(views(old(result)@), reminder@),
{
    if reminder.is_empty() {
        return;
    }
    if let Some(i) = find_last_user_text(result) {
        let ghost was = result@;
        assert(views(was)[i as int] == was[i as int]@);
        let mut text = reminder.to_owned();
        text.push('\n');
        match &result[i].content {
            MessageContent::Text(t) => {
                text.append(t.as_str());
            },
            _ => {},
        }
        let synthetic = result[i].synthetic;
        assert(text@ =~= reminder@ + seq!['\n'] + was[i as int]@.plain()->0);
        result[i] = Message { role: Role::User, content: MessageContent::Text(text), synthetic };
        assert(views(result@) =~= views(was).update(
            i as int,
            was[i as int]@.with_text(reminder@ + seq!['\n'] + was[i as int]@.plain()->0),
        ));
    }
}

/// Everything that is known of a conversation, without the turns that have to
/// go, and how many tokens those had.
fn fit_to_budget(conv: &Conversation, system_prompt: &str, token_budget: usize) -> (r: (
    Vec<Message>,
    usize,
))
    requires
        conv@.turns.len() > 0,
    ensures
        views(r.0@) == within_budget(conv@, system_prompt@, token_budget as nat),
        overflows(conv@, system_prompt@, token_budget as nat) ==> r.1 == overflow(
            conv@,
            system_prompt@,
            token_budget as nat,
        ).tokens,
        !overflows(conv@, system_prompt@, token_budget as nat) ==> r.1 == 0,
{
    let ghost all = views(conv.messages@);
    let ghost head = text_message(Role::System, system_prompt@);
    let n = conv.messages.len();
    let turns = &conv.turn_tracker.turns;
    let mut result: Vec<Message> = Vec::new();
    result.push(Message::new(Role::System, system_prompt));
    assert(views(result@) =~= seq![head]);
    assert(texts(conv.cold_summaries@).len() == conv.cold_summaries@.len());
    if conv.cold_summaries.len() > 0 {
        let cold = cold_zone_text(&conv.cold_summaries);
        result.push(Message::new(Role::User, cold.as_str()));
        assert(views(result@) =~= seq![head] + seq![text_message(Role::User, cold@)]);
    } else {
        assert(views(result@) =~= seq![head] + Seq::<MessageView>::empty());
    }
    extend_messages(&mut result, &conv.messages, 0, n);
    assert(all.subrange(0, n as int) =~= all);
    assert(views(result@) == everything(conv@, system_prompt@));
    let trigger = auto_compact_threshold(token_budget);
    let target: usize = (token_budget as u128 * 80 / 100) as usize;
    let m = result.len();
    let size = total_tokens(&result, 0, m);
    assert(views(result@).subrange(0, m as int) =~= views(result@));
    if size <= trigger || size <= target || conv.cold_summaries.len() > 0 {
        assert(!overflows(conv@, system_prompt@, token_budget as nat));
        return (result, 0);
    }
    assert(overflows(conv@, system_prompt@, token_budget as nat));
    let d = drop_turns(turns, &conv.messages, size - target);
    let ghost dv = overflow(conv@, system_prompt@, token_budget as nat);
    assert(dv.tokens == d.tokens && dv.digests == texts(d.digests@));
    let mut kept: Vec<Message> = Vec::new();
    kept.push(Message::new(Role::System, system_prompt));
    assert(views(kept@) =~= seq![head]);
    assert(texts(d.digests@).len() == d.digests@.len());
    if d.digests.len() > 0 {
        let digest = digest_message_text(&d);
        assert(digest@ == digest_text(dv));
        kept.push(Message::new(Role::User, digest.as_str()));
        assert(views(kept@) =~= seq![head] + seq![text_message(Role::User, digest@)]);
    } else {
        assert(views(kept@) =~= seq![head] + Seq::<MessageView>::empty());
    }
    let start = start_of_kept(turns, &conv.messages, d.tokens);
    extend_messages(&mut kept, &conv.messages, start, n);
    assert(all.subrange(start as int, n as int) =~= all.skip(start as int));
    (kept, d.tokens)
}

/// Builds the messages of one request: the system prompt, what is left of the
/// compressed history, and the conversation, fitted to the token budget.
///
/// `turn_reminder`, if not empty, is put in front of the latest user message.
pub fn build_messages(
    conv: &Conversation,
    system_prompt: &str,
    token_budget: usize,
    turn_reminder: &str,
) -> (r: (Vec<Message>, ContextStats))
    ensures
        views(r.0@) == rendered(conv@, system_prompt@, token_budget as nat, turn_reminder@),
        r.1 == render_stats(conv@, system_prompt@, token_budget as nat, turn_reminder@),
{
    let system = Message::new(Role::System, system_prompt);
    if conv.messages.len() == 0 {
        let mut result: Vec<Message> = Vec::new();
        result.push(system);
        assert(views(result@) =~= seq![text_message(Role::System, system_prompt@)]);
        return (result, ContextStats::default());
    }
    let system_tokens = system.estimate_tokens();
    if conv.turn_tracker.turns.len() == 0 {
        let remaining = token_budget.saturating_sub(system_tokens);
        let mut result = build_messages_fallback(conv, system, remaining);
        put_reminder(&mut result, turn_reminder);
        return (result, ContextStats::default());
    }
    let (mut result, dropped_tokens) = fit_to_budget(conv, system_prompt, token_budget);
    sanitize_messages(&mut result);
    clean_message_pipeline(&mut result);
    keep_a_speaker(&mut result, &conv.messages);
    shrink_to_ceiling(&mut result, token_budget);
    put_reminder(&mut result, turn_reminder);
    let k = result.len();
    let sent = total_tokens(&result, 0, k);
    assert(views(result@).subrange(0, k as int) =~= views(result@));
    let stats = ContextStats {
        system_tokens,
        sent_tokens: sent.saturating_sub(system_tokens),
        dropped_tokens,
        total_messages: k,
    };
    (result, stats)
}

/// A model of one of the families that answer in Chinese is asked to; one of the family
/// that thinks at length is also asked to be brief; any other gets the prompt as it is.
pub proof fn models_get_their_directives(prompt: Seq<char>, a: Seq<char>, b: Seq<char>, model: Seq<char>)
    ensures
        !contains(model, "minimax"@) && !contains(model, "qwen"@) && !contains(model, "deepseek"@) && !contains(
            model,
            "kimi"@,
        ) ==> directed(prompt, model) == prompt,
        contains(directed(prompt, a + "minimax"@ + b), thinking_directive()),
        contains(directed(prompt, a + "minimax"@ + b), language_directive()),
        contains(directed(prompt, a + "qwen"@ + b), language_directive()),
        contains(directed(prompt, a + "deepseek"@ + b), language_directive()),
        contains(directed(prompt, a + "kimi"@ + b), language_directive()),
        !contains(model, "minimax"@) && (contains(model, "qwen"@) || contains(model, "deepseek"@) || contains(
            model,
            "kimi"@,
        )) ==> directed(prompt, model) == prompt + language_directive(),
{
    let none = Seq::<char>::empty();
    assert(prompt + none + none =~= prompt);
    assert(prompt + language_directive() + none =~= prompt + language_directive());
    lemma_holds(a + "minimax"@ + b, a, "minimax"@, b);
    lemma_holds(a + "qwen"@ + b, a, "qwen"@, b);
    lemma_holds(a + "deepseek"@ + b, a, "deepseek"@, b);
    lemma_holds(a + "kimi"@ + b, a, "kimi"@, b);
    lemma_language(prompt, a + "minimax"@ + b);
    lemma_language(prompt, a + "qwen"@ + b);
    lemma_language(prompt, a + "deepseek"@ + b);
    lemma_language(prompt, a + "kimi"@ + b);
    let m = directed(prompt, a + "minimax"@ + b);
    assert(m =~= (prompt + language_directive()) + thinking_directive() + none);
    lemma_holds(m, prompt + language_directive(), thinking_directive(), none);
}

proof fn lemma_language(prompt: Seq<char>, model: Seq<char>)
    requires
        speaks_chinese(model),
    ensures
        contains(directed(prompt, model), language_directive()),
{
    let rest = if contains(model, "minimax"@) {
        thinking_directive()
    } else {
        Seq::empty()
    };
    lemma_holds(directed(prompt, model), prompt, language_directive(), rest);
}

} // verus!
