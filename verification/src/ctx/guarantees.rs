//! What holds of every rendering.

use vstd::prelude::*;
use vstd::string::*;

use crate::conversation::{
    condensed, estimate, sat, text_message, total, CallView, ContentView, ConversationView, MessageView, Role, Turn,
};
use crate::ctx::cleanup::{
    answered_id, call_names, clean_lists_are_kept, cleaned, cleaning_frees_tokens, cleaning_keeps_pairing,
    cleaning_keeps_the_front, cleaning_silences_nobody, is_empty_reply, is_orphan, joinable, joined, lemma_named,
    name_of, results_answer_calls, without_empty_replies, without_orphans,
};
use crate::ctx::compress::{lemma_total_suffix, threshold};
use crate::ctx::pairing::{
    awaited, awaiting_nothing_is_paired, lemma_awaited_calls_first, lemma_awaited_concat, lemma_awaited_same_kinds,
    lemma_run_bound, paired, paired_awaits_nothing, result_run, same_kind, sanitized, sanitized_is_paired,
    sanitizing_keeps_paired,
};
use crate::ctx::render::{
    call_list, cold_text, digest_parts, digest_text, dropped, emergency_note, everything, fallback, first_kept, floored, has_speaker, is_user_text, kept_from, last_turn_start,
    last_user_text, may_start, next_start, numbered, overflow, overflows, reminded, rendered, render_stats, shrunk, shrunk_at,
    shrunk_to, snapped, token_ceiling, tool_or_nothing, turn_messages, window_start, with_piece, within_budget,
    KEEP_TAIL,
};
use crate::text::{
    contains, decimal, join, joined_parts_are_kept, lemma_contains_itself, lemma_contains_within, occurs_at, prefix,
    starts_with, trim,
};

verus! {

/// Whether `s` opens with a system message whose text starts with `prompt`.
pub open spec fn headed(s: Seq<MessageView>, prompt: Seq<char>) -> bool {
    &&& s.len() > 0
    &&& s[0].role == Role::System
    &&& s[0].content is Text
    &&& starts_with(s[0].plain()->0, prompt)
}

proof fn lemma_filter_head(s: Seq<MessageView>, keep: spec_fn(MessageView) -> bool)
    requires
        s.len() > 0,
        keep(s[0]),
    ensures
        s.filter(keep).len() > 0,
        s.filter(keep)[0] == s[0],
    decreases s.len(),
{
    reveal(Seq::filter);
    if s.len() == 1 {
        assert(s.drop_last().len() == 0);
        assert(s.drop_last().filter(keep).len() == 0);
    } else {
        lemma_filter_head(s.drop_last(), keep);
    }
}

proof fn lemma_joined_head(s: Seq<MessageView>, role: Role, sep: Seq<char>, prompt: Seq<char>)
    requires
        headed(s, prompt),
    ensures
        headed(joined(s, role, sep), prompt),
    decreases s.len(),
{
    let t = s.drop_last();
    let m = joined(t, role, sep);
    if s.len() == 1 {
        assert(t.len() == 0);
        assert(m.push(s.last())[0] == s[0]);
    } else {
        lemma_joined_head(t, role, sep, prompt);
        if m.len() == 1 && joinable(m.last(), s.last(), role) {
            let text = m[0].plain()->0 + sep + s.last().plain()->0;
            assert(text.subrange(0, prompt.len() as int) =~= m[0].plain()->0.subrange(
                0,
                prompt.len() as int,
            ));
        }
    }
}

proof fn lemma_sanitized_head(s: Seq<MessageView>)
    requires
        s.len() > 0,
        !s[0].is_calls(),
        !s[0].is_result(),
    ensures
        sanitized(s).len() > 0,
        sanitized(s)[0] == s[0],
{
}

proof fn lemma_cleaned_head(s: Seq<MessageView>, prompt: Seq<char>)
    requires
        headed(s, prompt),
    ensures
        headed(cleaned(s), prompt),
{
    let a = without_empty_replies(s);
    lemma_filter_head(s, |m: MessageView| !is_empty_reply(m));
    lemma_filter_head(a, |m: MessageView| !is_orphan(m, call_names(a)));
    let b = without_orphans(a);
    lemma_joined_head(b, Role::User, seq!['\n'], prompt);
    lemma_joined_head(joined(b, Role::User, seq!['\n']), Role::System, seq!['\n', '\n'], prompt);
}

/// Condensing keeps the number of messages, their speakers and kinds, and
/// leaves everything but tool results alone.
pub open spec fn only_results_differ(a: Seq<MessageView>, b: Seq<MessageView>) -> bool {
    &&& a.len() == b.len()
    &&& forall|i: int|
        0 <= i < a.len() ==> {
            &&& (#[trigger] a[i]).role == b[i].role
            &&& same_kind(a[i], b[i])
            &&& !(a[i].content is Output) ==> a[i] == b[i]
        }
}

proof fn lemma_shrunk_kinds(
    s: Seq<MessageView>,
    table: Seq<(Seq<char>, Seq<char>)>,
    ceiling: nat,
    k: nat,
)
    requires
        k <= s.len(),
    ensures
        only_results_differ(s, shrunk_to(s, table, ceiling, k)),
        s.len() > 0 ==> shrunk_to(s, table, ceiling, k)[0] == s[0],
    decreases k,
{
    if k > 1 {
        lemma_shrunk_kinds(s, table, ceiling, (k - 1) as nat);
        let t = shrunk_to(s, table, ceiling, (k - 1) as nat);
        let u = shrunk_at(t, table, ceiling, k - 1);
        assert forall|i: int| 0 <= i < s.len() implies {
            &&& (#[trigger] s[i]).role == u[i].role
            &&& same_kind(s[i], u[i])
            &&& !(s[i].content is Output) ==> s[i] == u[i]
        } by {
            if i != k - 1 {
                assert(u[i] == t[i]);
            }
        }
    }
}

/// Condensing touches nothing but tool results.
pub proof fn shrinking_touches_only_results(s: Seq<MessageView>, token_budget: nat)
    ensures
        only_results_differ(s, shrunk(s, token_budget)),
        s.len() > 0 ==> shrunk(s, token_budget)[0] == s[0],
{
    let end: nat = if s.len() >= 4 {
        (s.len() - 4) as nat
    } else {
        0
    };
    lemma_shrunk_kinds(s, call_names(s), crate::ctx::render::token_ceiling(token_budget), end);
}

proof fn lemma_last_user_text(s: Seq<MessageView>, n: nat)
    requires
        n <= s.len(),
    ensures
        match last_user_text(s, n) {
            Some(i) => 0 <= i < n && is_user_text(s[i]),
            None => forall|i: int| 0 <= i < n ==> !is_user_text(#[trigger] s[i]),
        },
    decreases n,
{
    if n > 0 && !is_user_text(s[n - 1]) {
        lemma_last_user_text(s, (n - 1) as nat);
    }
}

/// A reminder changes the text of one user message and nothing else.
pub proof fn reminding_keeps_the_rest(s: Seq<MessageView>, reminder: Seq<char>)
    ensures
        reminded(s, reminder).len() == s.len(),
        forall|i: int|
            0 <= i < s.len() ==> {
                &&& (#[trigger] reminded(s, reminder)[i]).role == s[i].role
                &&& same_kind(reminded(s, reminder)[i], s[i])
                &&& s[i].role != Role::User ==> reminded(s, reminder)[i] == s[i]
            },
{
    lemma_last_user_text(s, s.len());
}

/// A reminder goes in front of the last message of the user, where that is plain
/// text, and changes nothing else: the system prompt in particular stays the same.
pub proof fn reminders_precede_the_last_user_message(
    conv: ConversationView,
    system_prompt: Seq<char>,
    token_budget: nat,
    turn_reminder: Seq<char>,
    k: int,
)
    requires
        conv.messages.len() > 0,
        turn_reminder.len() > 0,
        0 <= k < rendered(conv, system_prompt, token_budget, Seq::empty()).len(),
        is_user_text(rendered(conv, system_prompt, token_budget, Seq::empty())[k]),
        forall|i: int|
            k < i < rendered(conv, system_prompt, token_budget, Seq::empty()).len() ==> (
            #[trigger] rendered(conv, system_prompt, token_budget, Seq::empty())[i]).role != Role::User,
    ensures
        ({
            let plain = rendered(conv, system_prompt, token_budget, Seq::empty());
            rendered(conv, system_prompt, token_budget, turn_reminder) == plain.update(
                k,
                plain[k].with_text(turn_reminder + seq!['\n'] + plain[k].plain()->0),
            )
        }),
{
    let plain = rendered(conv, system_prompt, token_budget, Seq::empty());
    lemma_last_user_text(plain, plain.len());
    lemma_last_user_text_is(plain, plain.len(), k);
}

proof fn lemma_last_user_text_is(s: Seq<MessageView>, n: nat, k: int)
    requires
        n <= s.len(),
        0 <= k < n,
        is_user_text(s[k]),
        forall|i: int| k < i < n ==> (#[trigger] s[i]).role != Role::User,
    ensures
        last_user_text(s, n) == Some(k),
    decreases n,
{
    if n - 1 > k {
        assert(s[n - 1].role != Role::User);
        lemma_last_user_text_is(s, (n - 1) as nat, k);
    }
}

proof fn lemma_floored_head(s: Seq<MessageView>, msgs: Seq<MessageView>, prompt: Seq<char>)
    requires
        headed(s, prompt),
    ensures
        headed(floored(s, msgs), prompt),
{
}

proof fn lemma_budget_head(conv: ConversationView, system_prompt: Seq<char>, token_budget: nat)
    ensures
        headed(within_budget(conv, system_prompt, token_budget), system_prompt),
{
    let s = within_budget(conv, system_prompt, token_budget);
    assert(s[0] == text_message(Role::System, system_prompt));
    assert(system_prompt.subrange(0, system_prompt.len() as int) =~= system_prompt);
}

/// The first message of every rendering is a system message that starts with
/// the system prompt.
pub proof fn rendering_starts_with_the_prompt(
    conv: ConversationView,
    system_prompt: Seq<char>,
    token_budget: nat,
    turn_reminder: Seq<char>,
)
    ensures
        headed(rendered(conv, system_prompt, token_budget, turn_reminder), system_prompt),
{
    let system = text_message(Role::System, system_prompt);
    assert(system_prompt.subrange(0, system_prompt.len() as int) =~= system_prompt);
    if conv.messages.len() == 0 {
    } else if conv.turns.len() == 0 {
        let left = if token_budget >= estimate(system) {
            (token_budget - estimate(system)) as nat
        } else {
            0
        };
        let start = snapped(
            conv.messages,
            crate::ctx::render::window_start(conv.messages, conv.messages.len(), 0, left * 60 / 100),
        );
        let all = seq![system] + conv.messages.skip(start as int);
        assert(all[0] == system);
        lemma_sanitized_head(all);
        reminding_keeps_the_rest(fallback(conv.messages, system, left), turn_reminder);
    } else {
        let kept = within_budget(conv, system_prompt, token_budget);
        lemma_budget_head(conv, system_prompt, token_budget);
        lemma_sanitized_head(kept);
        lemma_cleaned_head(sanitized(kept), system_prompt);
        let clean = cleaned(sanitized(kept));
        lemma_floored_head(clean, conv.messages, system_prompt);
        let f = floored(clean, conv.messages);
        shrinking_touches_only_results(f, token_budget);
        reminding_keeps_the_rest(shrunk(f, token_budget), turn_reminder);
    }
}

/// A conversation with turns in which the user ever said anything is never
/// rendered to the system prompt alone.
pub proof fn rendering_leaves_someone_to_answer(
    conv: ConversationView,
    system_prompt: Seq<char>,
    token_budget: nat,
    turn_reminder: Seq<char>,
    i: int,
)
    requires
        conv.turns.len() > 0,
        0 <= i < conv.messages.len(),
        is_user_text(conv.messages[i]),
    ensures
        has_speaker(rendered(conv, system_prompt, token_budget, turn_reminder)),
{
    let clean = cleaned(sanitized(within_budget(conv, system_prompt, token_budget)));
    let f = floored(clean, conv.messages);
    lemma_last_user_text(conv.messages, conv.messages.len());
    if !has_speaker(clean) {
        assert(f[f.len() - 1].role == Role::User);
    }
    assert(has_speaker(f));
    let k = choose|k: int| 0 <= k < f.len() && (#[trigger] f[k]).role != Role::System;
    shrinking_touches_only_results(f, token_budget);
    let s = shrunk(f, token_budget);
    assert(s[k].role == f[k].role);
    reminding_keeps_the_rest(s, turn_reminder);
    assert(reminded(s, turn_reminder)[k].role == s[k].role);
}

/// Where every result that is left answers a call, every list of calls that is
/// sent is followed by exactly its results.
pub proof fn rendering_answers_every_call(
    conv: ConversationView,
    system_prompt: Seq<char>,
    token_budget: nat,
    turn_reminder: Seq<char>,
)
    requires
        conv.messages.len() > 0 && conv.turns.len() > 0 ==> results_answer_calls(
            sanitized(within_budget(conv, system_prompt, token_budget)),
        ),
    ensures
        paired(rendered(conv, system_prompt, token_budget, turn_reminder)),
{
    let system = text_message(Role::System, system_prompt);
    if conv.messages.len() == 0 {
        assert(seq![system].drop_last() =~= Seq::<MessageView>::empty());
        assert(awaited(Some(0), Seq::<MessageView>::empty()) == Some(0nat));
        awaiting_nothing_is_paired(seq![system]);
    } else if conv.turns.len() == 0 {
        let left = if token_budget >= estimate(system) {
            (token_budget - estimate(system)) as nat
        } else {
            0
        };
        let s = fallback(conv.messages, system, left);
        fallback_answers_every_call(conv.messages, system, left);
        paired_awaits_nothing(s);
        reminding_keeps_the_rest(s, turn_reminder);
        let out = reminded(s, turn_reminder);
        assert forall|i: int| 0 <= i < out.len() implies same_kind(#[trigger] out[i], s[i]) by {}
        lemma_awaited_same_kinds(Some(0), out, s);
        awaiting_nothing_is_paired(out);
    } else {
        let kept = within_budget(conv, system_prompt, token_budget);
        sanitized_is_paired(kept);
        cleaning_keeps_pairing(sanitized(kept));
        let clean = cleaned(sanitized(kept));
        paired_awaits_nothing(clean);
        let f = floored(clean, conv.messages);
        lemma_last_user_text(conv.messages, conv.messages.len());
        assert(awaited(Some(0), f) == Some(0nat)) by {
            if !has_speaker(clean) {
                match last_user_text(conv.messages, conv.messages.len()) {
                    Some(i) => {
                        let a = clean.push(emergency_note());
                        assert(a.drop_last() =~= clean);
                        assert(awaited(Some(0), a) == Some(0nat));
                        assert(a.push(conv.messages[i]).drop_last() =~= a);
                    },
                    None => {},
                }
            }
        }
        shrinking_touches_only_results(f, token_budget);
        let s = shrunk(f, token_budget);
        assert forall|i: int| 0 <= i < f.len() implies same_kind(#[trigger] f[i], s[i]) by {}
        lemma_awaited_same_kinds(Some(0), f, s);
        reminding_keeps_the_rest(s, turn_reminder);
        let out = reminded(s, turn_reminder);
        assert forall|i: int| 0 <= i < out.len() implies same_kind(#[trigger] out[i], s[i]) by {}
        lemma_awaited_same_kinds(Some(0), out, s);
        awaiting_nothing_is_paired(out);
    }
}

/// Without turns, too, every list of calls that is sent is followed by exactly
/// its results.
pub proof fn fallback_answers_every_call(
    msgs: Seq<MessageView>,
    system: MessageView,
    remaining_budget: nat,
)
    ensures
        paired(fallback(msgs, system, remaining_budget)),
{
    let start = snapped(
        msgs,
        crate::ctx::render::window_start(msgs, msgs.len(), 0, remaining_budget * 60 / 100),
    );
    sanitized_is_paired(seq![system] + msgs.skip(start as int));
}

/// Dropping turns never touches the last one: what is kept ends with it.
pub proof fn dropping_spares_the_last_turn(
    conv: ConversationView,
    system_prompt: Seq<char>,
    token_budget: nat,
)
    requires
        conv.turns.len() > 0,
    ensures
        ({
            let kept = within_budget(conv, system_prompt, token_budget);
            let last = conv.messages.skip(
                last_turn_start(conv.turns, conv.messages.len()) as int,
            );
            &&& last.len() <= kept.len()
            &&& kept.skip(kept.len() - last.len()) == last
        }),
{
    let kept = within_budget(conv, system_prompt, token_budget);
    let start = last_turn_start(conv.turns, conv.messages.len()) as int;
    let last = conv.messages.skip(start);
    if overflows(conv, system_prompt, token_budget) {
        let d = overflow(conv, system_prompt, token_budget);
        let from = kept_from(conv.turns, conv.messages, d.tokens) as int;
        assert(from <= start);
    }
    assert(kept.skip(kept.len() - last.len()) =~= last);
}

/// A conversation within its threshold loses no turn.
pub proof fn within_the_threshold_nothing_is_dropped(
    conv: ConversationView,
    system_prompt: Seq<char>,
    token_budget: nat,
    turn_reminder: Seq<char>,
)
    requires
        sat(total(everything(conv, system_prompt))) <= threshold(token_budget),
    ensures
        within_budget(conv, system_prompt, token_budget) == everything(conv, system_prompt),
        render_stats(conv, system_prompt, token_budget, turn_reminder).dropped_tokens == 0,
{
}

// ---- A conversation that goes on ----

/// Whether every list of calls of `s` is followed by exactly its results, and every
/// result names a call that was made before it.
pub open spec fn fully_answered(s: Seq<MessageView>) -> bool {
    &&& paired(s)
    &&& forall|j: int|
        0 <= j < s.len() && (#[trigger] s[j]).is_result() ==> asked_before(s, j, answered_id(s[j]))
}

/// Whether a call of this identifier stands before position `j`.
pub open spec fn asked_before(s: Seq<MessageView>, j: int, id: Seq<char>) -> bool {
    exists|i: int, c: int| 0 <= i < j && is_call(s, i, c, id)
}

pub open spec fn is_call(s: Seq<MessageView>, i: int, c: int, id: Seq<char>) -> bool {
    0 <= i < s.len() && s[i].is_calls() && 0 <= c < s[i].calls().len() && s[i].calls()[c].id == id
}

proof fn lemma_answered_names(s: Seq<MessageView>)
    requires
        fully_answered(s),
    ensures
        results_answer_calls(s),
{
    assert forall|j: int| 0 <= j < s.len() implies !is_orphan(#[trigger] s[j], call_names(s)) by {
        if s[j].is_result() {
            let id = answered_id(s[j]);
            assert(asked_before(s, j, id));
            let (i, c) = choose|i: int, c: int| 0 <= i < j && is_call(s, i, c, id);
            lemma_named(s, i, c);
        }
    }
}

proof fn lemma_answered_front(a: Seq<MessageView>, b: Seq<MessageView>)
    requires
        fully_answered(a + b),
        b.len() > 0,
        b[0].is_calls(),
    ensures
        fully_answered(a),
{
    let s = a + b;
    paired_awaits_nothing(s);
    lemma_awaited_concat(Some(0), a, b);
    lemma_awaited_calls_first(awaited(Some(0), a), b);
    awaiting_nothing_is_paired(a);
    assert forall|j: int| 0 <= j < a.len() && (#[trigger] a[j]).is_result() implies asked_before(
        a,
        j,
        answered_id(a[j]),
    ) by {
        let id = answered_id(a[j]);
        assert(s[j] == a[j]);
        assert(asked_before(s, j, id));
        let (i, c) = choose|i: int, c: int| 0 <= i < j && is_call(s, i, c, id);
        assert(s[i] == a[i]);
        assert(is_call(a, i, c, id));
    }
}

proof fn lemma_answered_behind(head: Seq<MessageView>, s: Seq<MessageView>)
    requires
        fully_answered(s),
        forall|i: int| 0 <= i < head.len() ==> (#[trigger] head[i]).content is Text,
    ensures
        fully_answered(head + s),
{
    let all = head + s;
    paired_awaits_nothing(s);
    lemma_awaited_concat(Some(0), head, s);
    lemma_awaited_texts(head);
    awaiting_nothing_is_paired(all);
    assert forall|j: int| 0 <= j < all.len() && (#[trigger] all[j]).is_result() implies asked_before(
        all,
        j,
        answered_id(all[j]),
    ) by {
        if j < head.len() {
            assert(head[j].content is Text);
        } else {
            let k = j - head.len();
            let id = answered_id(all[j]);
            assert(s[k] == all[j]);
            assert(asked_before(s, k, id));
            let (i, c) = choose|i: int, c: int| 0 <= i < k && is_call(s, i, c, id);
            assert(all[i + head.len()] == s[i]);
            assert(is_call(all, i + head.len(), c, id));
        }
    }
}

proof fn lemma_awaited_texts(s: Seq<MessageView>)
    requires
        forall|i: int| 0 <= i < s.len() ==> (#[trigger] s[i]).content is Text,
    ensures
        awaited(Some(0), s) == Some(0nat),
    decreases s.len(),
{
    if s.len() > 0 {
        let t = s.drop_last();
        assert forall|i: int| 0 <= i < t.len() implies (#[trigger] t[i]).content is Text by {
            assert(t[i] == s[i]);
        }
        lemma_awaited_texts(t);
        assert(s[s.len() - 1].content is Text);
    }
}

proof fn lemma_total_concat(a: Seq<MessageView>, b: Seq<MessageView>)
    ensures
        total(a + b) == total(a) + total(b),
    decreases b.len(),
{
    if b.len() == 0 {
        assert(a + b =~= a);
    } else {
        lemma_total_concat(a, b.drop_last());
        assert((a + b).drop_last() =~= a + b.drop_last());
    }
}

/// What stands in front of the messages of a conversation.
pub open spec fn preamble(conv: ConversationView, system_prompt: Seq<char>) -> Seq<MessageView> {
    everything(ConversationView { messages: Seq::empty(), ..conv }, system_prompt)
}

proof fn lemma_preamble(conv: ConversationView, system_prompt: Seq<char>)
    ensures
        everything(conv, system_prompt) == preamble(conv, system_prompt) + conv.messages,
        forall|i: int|
            0 <= i < preamble(conv, system_prompt).len() ==> (#[trigger] preamble(
                conv,
                system_prompt,
            )[i]).content is Text,
{
    assert(everything(conv, system_prompt) =~= preamble(conv, system_prompt) + conv.messages);
}

proof fn lemma_shrunk_fits(s: Seq<MessageView>, table: Seq<(Seq<char>, Seq<char>)>, ceiling: nat, k: nat)
    requires
        sat(total(s)) <= ceiling,
        k <= s.len(),
    ensures
        shrunk_to(s, table, ceiling, k) == s,
    decreases k,
{
    if k > 1 {
        lemma_shrunk_fits(s, table, ceiling, (k - 1) as nat);
    }
}

/// What is sent of a conversation that fits and whose calls are all answered: all of
/// it, cleaned.
proof fn lemma_rendered_plain(conv: ConversationView, system_prompt: Seq<char>, token_budget: nat)
    requires
        conv.messages.len() > 0,
        conv.turns.len() > 0,
        fully_answered(conv.messages),
        sat(total(everything(conv, system_prompt))) <= threshold(token_budget),
        sat(total(everything(conv, system_prompt))) <= token_ceiling(token_budget),
    ensures
        rendered(conv, system_prompt, token_budget, Seq::empty()) == cleaned(everything(conv, system_prompt)),
        fully_answered(everything(conv, system_prompt)),
{
    let e = everything(conv, system_prompt);
    lemma_preamble(conv, system_prompt);
    lemma_answered_behind(preamble(conv, system_prompt), conv.messages);
    sanitizing_keeps_paired(e);
    let clean = cleaned(e);
    lemma_last_user_text(conv.messages, conv.messages.len());
    if let Some(i) = last_user_text(conv.messages, conv.messages.len()) {
        let at = preamble(conv, system_prompt).len() + i;
        assert(e[at] == conv.messages[i]);
        let k = cleaning_silences_nobody(e, at);
        assert(has_speaker(clean));
    }
    assert(floored(clean, conv.messages) == clean);
    cleaning_frees_tokens(e);
    let end: nat = if clean.len() >= KEEP_TAIL {
        (clean.len() - KEEP_TAIL) as nat
    } else {
        0
    };
    lemma_shrunk_fits(clean, call_names(clean), token_ceiling(token_budget), end);
}

/// While a conversation fits, what was sent of it stays the front of what is sent of
/// it later, message by message: where it goes on with a list of calls, all calls
/// are answered, and the summaries of earlier history stay the same, the later
/// rendering starts with the earlier one and is longer. A rendering depends on the
/// conversation alone, so nothing that happens to a file in between changes that.
pub proof fn renderings_grow_at_the_end(
    earlier: ConversationView,
    later: ConversationView,
    extra: Seq<MessageView>,
    system_prompt: Seq<char>,
    token_budget: nat,
)
    requires
        later.messages == earlier.messages + extra,
        extra.len() > 0,
        extra[0].is_calls(),
        fully_answered(later.messages),
        earlier.turns.len() > 0,
        later.turns.len() > 0,
        earlier.cold_summaries == later.cold_summaries,
        sat(total(everything(later, system_prompt))) <= threshold(token_budget),
        sat(total(everything(later, system_prompt))) <= token_ceiling(token_budget),
    ensures
        ({
            let first = rendered(earlier, system_prompt, token_budget, Seq::empty());
            let second = rendered(later, system_prompt, token_budget, Seq::empty());
            first.is_prefix_of(second) && first.len() < second.len()
        }),
{
    let head = preamble(later, system_prompt);
    let a = head + earlier.messages;
    let b = everything(later, system_prompt);
    lemma_preamble(earlier, system_prompt);
    lemma_preamble(later, system_prompt);
    assert(preamble(earlier, system_prompt) == head);
    assert(a + extra =~= b);
    lemma_answered_front(earlier.messages, extra);
    lemma_answered_behind(head, earlier.messages);
    lemma_answered_behind(head, later.messages);
    lemma_answered_names(a);
    lemma_answered_names(b);
    lemma_total_concat(a, extra);
    lemma_rendered_plain(later, system_prompt, token_budget);
    cleaning_keeps_the_front(a, extra);
    if earlier.messages.len() > 0 {
        lemma_rendered_plain(earlier, system_prompt, token_budget);
    } else {
        assert(a =~= head);
        clean_lists_are_kept(head);
    }
}

// ---- What goes when a conversation overflows ----

/// Whether turns follow one another from the first message on, each with a message.
pub open spec fn in_a_row(turns: Seq<Turn>, n: nat) -> bool {
    &&& turns.len() > 0
    &&& turns[0].start_idx == 0
    &&& turns.last().start_idx < n
    &&& forall|i: int| 0 <= i < turns.len() - 1 ==> #[trigger] adjoins_next(turns, i)
}

/// Whether a turn has a message and ends where the next starts.
pub open spec fn adjoins_next(turns: Seq<Turn>, i: int) -> bool {
    turns[i].message_count > 0 && turns[i + 1].start_idx == turns[i].start_idx + turns[i].message_count
}

proof fn lemma_row_climbs(turns: Seq<Turn>, n: nat, i: int, k: int)
    requires
        in_a_row(turns, n),
        0 <= i <= k < turns.len(),
    ensures
        turns[i].start_idx + (k - i) <= turns[k].start_idx,
    decreases k - i,
{
    if i < k {
        lemma_row_climbs(turns, n, i, k - 1);
        assert(adjoins_next(turns, k - 1));
    }
}

proof fn lemma_row_ascends(turns: Seq<Turn>, n: nat, i: int, k: int)
    requires
        in_a_row(turns, n),
        0 <= i <= k < turns.len(),
    ensures
        turns[i].start_idx + (k - i) <= turns[k].start_idx < n,
{
    lemma_row_climbs(turns, n, i, k);
    lemma_row_climbs(turns, n, k, turns.len() - 1);
}

proof fn lemma_total_grows(msgs: Seq<MessageView>, i: int, k: int)
    requires
        0 <= i <= k <= msgs.len(),
    ensures
        total(msgs.take(k)) == total(msgs.take(i)) + total(msgs.subrange(i, k)),
        i < k ==> total(msgs.take(i)) < total(msgs.take(k)),
{
    let mid = msgs.subrange(i, k);
    assert(msgs.take(k) =~= msgs.take(i) + mid);
    lemma_total_concat(msgs.take(i), mid);
    if i < k {
        assert(total(mid) == total(mid.drop_last()) + estimate(mid.last()));
    }
}

proof fn lemma_turn_messages(turns: Seq<Turn>, msgs: Seq<MessageView>, i: int)
    requires
        in_a_row(turns, msgs.len()),
        0 <= i < turns.len() - 1,
        total(msgs) <= usize::MAX,
    ensures
        turns[i].start_idx < turns[i + 1].start_idx < msgs.len(),
        turn_messages(turns[i], msgs) == msgs.subrange(
            turns[i].start_idx as int,
            turns[i + 1].start_idx as int,
        ),
        total(msgs.take(turns[i + 1].start_idx as int)) == total(msgs.take(turns[i].start_idx as int)) + total(
            turn_messages(turns[i], msgs),
        ),
        total(msgs.take(turns[i].start_idx as int)) < total(msgs.take(turns[i + 1].start_idx as int)) <= total(
            msgs,
        ),
{
    lemma_row_ascends(turns, msgs.len(), i, i + 1);
    assert(adjoins_next(turns, i));
    lemma_total_grows(msgs, turns[i].start_idx as int, turns[i + 1].start_idx as int);
    lemma_total_grows(msgs, turns[i + 1].start_idx as int, msgs.len() as int);
    assert(msgs.take(msgs.len() as int) =~= msgs);
}

/// The turns that go are the first ones, no more of them than are needed.
proof fn lemma_dropped_row(turns: Seq<Turn>, msgs: Seq<MessageView>, need: nat, k: nat)
    requires
        in_a_row(turns, msgs.len()),
        k < turns.len(),
        total(msgs) <= usize::MAX,
    ensures
        ({
            let d = dropped(turns, msgs, need, k);
            &&& d.count <= k
            &&& d.tokens == total(msgs.take(turns[d.count as int].start_idx as int))
            &&& d.count < k ==> d.tokens >= need
            &&& d.count > 0 ==> total(msgs.take(turns[d.count - 1].start_idx as int)) < need
        }),
    decreases k,
{
    if k == 0 {
        assert(msgs.take(0) =~= Seq::<MessageView>::empty());
    } else {
        lemma_dropped_row(turns, msgs, need, (k - 1) as nat);
        lemma_turn_messages(turns, msgs, k - 1);
    }
}

proof fn lemma_first_kept_row(turns: Seq<Turn>, msgs: Seq<MessageView>, c: nat, k: nat)
    requires
        in_a_row(turns, msgs.len()),
        k < c < turns.len(),
        total(msgs) <= usize::MAX,
    ensures
        first_kept(
            turns,
            msgs,
            total(msgs.take(turns[c as int].start_idx as int)),
            total(msgs.take(turns[k as int].start_idx as int)),
            k,
        ) == turns[c as int].start_idx,
    decreases c - k,
{
    lemma_turn_messages(turns, msgs, k as int);
    if k + 1 < c {
        lemma_row_ascends(turns, msgs.len(), k as int + 1, c as int);
        lemma_total_grows(msgs, turns[k as int + 1].start_idx as int, turns[c as int].start_idx as int);
        lemma_first_kept_row(turns, msgs, c, k + 1);
    }
}

/// When a conversation is over its threshold and over 80% of its budget, its first
/// turns go, and exactly those. What is sent of the history starts at the first turn
/// that stays, to its end; what it has in tokens and what is reported as dropped make
/// up the whole; the digest, where there is one, counts the turns that went. No turn
/// goes without need: with the last of them all would still be over the target. And
/// where all turns but the last have enough tokens, the system prompt and what stays of
/// the history fit the target. Gives how many turns went.
pub proof fn exactly_the_first_turns_go(
    conv: ConversationView,
    system_prompt: Seq<char>,
    token_budget: nat,
    turn_reminder: Seq<char>,
) -> (gone: nat)
    requires
        in_a_row(conv.turns, conv.messages.len()),
        conv.cold_summaries.len() == 0,
        estimate(text_message(Role::System, system_prompt)) + total(conv.messages) <= usize::MAX,
        estimate(text_message(Role::System, system_prompt)) + total(conv.messages) > threshold(token_budget),
        estimate(text_message(Role::System, system_prompt)) + total(conv.messages) > token_budget * 80 / 100,
    ensures
        gone < conv.turns.len(),
        conv.turns.len() > 1 ==> gone > 0,
        ({
            let system = text_message(Role::System, system_prompt);
            let kept = within_budget(conv, system_prompt, token_budget);
            let from = conv.turns[gone as int].start_idx as int;
            let history = conv.messages.skip(from);
            let target = token_budget * 80 / 100;
            &&& kept[0] == system
            &&& kept.len() == 1 + history.len() || (kept.len() == 2 + history.len() && kept[1].role == Role::User
                && kept[1].plain() is Some && starts_with(
                kept[1].plain()->0,
                "[Context overflow: "@ + decimal(gone) + " earlier turns compressed]\n"@,
            ))
            &&& kept.skip(kept.len() - history.len()) == history
            &&& total(history) + render_stats(conv, system_prompt, token_budget, turn_reminder).dropped_tokens
                == total(conv.messages)
            &&& gone > 0 ==> estimate(system) + total(
                conv.messages.skip(conv.turns[gone - 1].start_idx as int),
            ) > target
            &&& estimate(system) + total(conv.messages.skip(conv.turns.last().start_idx as int)) <= target
                ==> estimate(system) + total(history) <= target
        }),
{
    let msgs = conv.messages;
    let turns = conv.turns;
    let c = lemma_overflow_row(conv, system_prompt, token_budget);
    lemma_digest_counts(conv, system_prompt, token_budget);
    lemma_row_ascends(turns, msgs.len(), 0, c as int);
    let from = turns[c as int].start_idx as int;
    lemma_total_rest(msgs, from);
    lemma_dropped_stat(conv, system_prompt, token_budget, turn_reminder);
    lemma_total_rest(msgs, turns.last().start_idx as int);
    if c > 0 {
        lemma_row_ascends(turns, msgs.len(), 0, c - 1);
        lemma_total_rest(msgs, turns[c - 1].start_idx as int);
    }
    c
}

proof fn lemma_total_rest(msgs: Seq<MessageView>, from: int)
    requires
        0 <= from <= msgs.len(),
    ensures
        total(msgs.take(from)) + total(msgs.skip(from)) == total(msgs),
{
    lemma_total_grows(msgs, from, msgs.len() as int);
    assert(msgs.take(msgs.len() as int) =~= msgs);
    assert(msgs.subrange(from, msgs.len() as int) =~= msgs.skip(from));
}

proof fn lemma_overflow_row(conv: ConversationView, system_prompt: Seq<char>, token_budget: nat) -> (c: nat)
    requires
        in_a_row(conv.turns, conv.messages.len()),
        conv.cold_summaries.len() == 0,
        estimate(text_message(Role::System, system_prompt)) + total(conv.messages) <= usize::MAX,
        estimate(text_message(Role::System, system_prompt)) + total(conv.messages) > threshold(token_budget),
        estimate(text_message(Role::System, system_prompt)) + total(conv.messages) > token_budget * 80 / 100,
    ensures
        ({
            let d = overflow(conv, system_prompt, token_budget);
            let need = estimate(text_message(Role::System, system_prompt)) + total(conv.messages)
                - token_budget * 80 / 100;
            &&& overflows(conv, system_prompt, token_budget)
            &&& c == d.count < conv.turns.len()
            &&& conv.turns.len() > 1 ==> c > 0
            &&& d.tokens == total(conv.messages.take(conv.turns[c as int].start_idx as int))
            &&& kept_from(conv.turns, conv.messages, d.tokens) == conv.turns[c as int].start_idx
            &&& c > 0 ==> total(conv.messages.take(conv.turns[c - 1].start_idx as int)) < need
            &&& c < conv.turns.len() - 1 ==> d.tokens >= need
        }),
{
    let system = text_message(Role::System, system_prompt);
    let msgs = conv.messages;
    let turns = conv.turns;
    assert(everything(conv, system_prompt) =~= seq![system] + msgs);
    lemma_total_concat(seq![system], msgs);
    assert(seq![system].last() == system);
    assert(seq![system].drop_last().len() == 0);
    assert(total(seq![system].drop_last()) == 0);
    let need = (estimate(system) + total(msgs) - token_budget * 80 / 100) as nat;
    lemma_dropped_row(turns, msgs, need, (turns.len() - 1) as nat);
    let d = overflow(conv, system_prompt, token_budget);
    assert(d == dropped(turns, msgs, need, (turns.len() - 1) as nat));
    let c = d.count;
    lemma_row_ascends(turns, msgs.len(), c as int, turns.len() - 1);
    assert(msgs.take(0) =~= Seq::<MessageView>::empty());
    if c > 0 {
        lemma_first_kept_row(turns, msgs, c, 0);
    }
    c
}

proof fn lemma_dropped_stat(
    conv: ConversationView,
    system_prompt: Seq<char>,
    token_budget: nat,
    turn_reminder: Seq<char>,
)
    requires
        conv.messages.len() > 0,
        conv.turns.len() > 0,
        overflows(conv, system_prompt, token_budget),
        overflow(conv, system_prompt, token_budget).tokens <= usize::MAX,
    ensures
        render_stats(conv, system_prompt, token_budget, turn_reminder).dropped_tokens == overflow(
            conv,
            system_prompt,
            token_budget,
        ).tokens,
{
}

proof fn lemma_digest_counts(conv: ConversationView, system_prompt: Seq<char>, token_budget: nat)
    requires
        overflows(conv, system_prompt, token_budget),
        conv.turns.len() > 0,
    ensures
        ({
            let d = overflow(conv, system_prompt, token_budget);
            let kept = within_budget(conv, system_prompt, token_budget);
            let from = kept_from(conv.turns, conv.messages, d.tokens);
            let history = conv.messages.skip(from as int);
            &&& kept[0] == text_message(Role::System, system_prompt)
            &&& kept.len() == 1 + history.len() || (kept.len() == 2 + history.len() && kept[1].role == Role::User
                && kept[1].plain() is Some && starts_with(
                kept[1].plain()->0,
                "[Context overflow: "@ + decimal(d.count) + " earlier turns compressed]\n"@,
            ))
            &&& kept.skip(kept.len() - history.len()) == history
        }),
{
    let d = overflow(conv, system_prompt, token_budget);
    let kept = within_budget(conv, system_prompt, token_budget);
    let history = conv.messages.skip(kept_from(conv.turns, conv.messages, d.tokens) as int);
    assert(kept.skip(kept.len() - history.len()) =~= history);
    if d.digests.len() > 0 {
        let head = "[Context overflow: "@ + decimal(d.count) + " earlier turns compressed]\n"@;
        assert(kept[1] == text_message(Role::User, digest_text(d)));
        assert(digest_text(d).subrange(0, head.len() as int) =~= head);
    }
}

/// Whether the turns of a conversation follow one another and the last is open; one
/// without messages has none.
pub open spec fn well_tracked(c: ConversationView) -> bool {
    if c.turns.len() == 0 {
        c.messages.len() == 0
    } else {
        in_a_row(c.turns, c.messages.len()) && c.turns.last().message_count == usize::MAX
    }
}

/// Whatever is said, called and answered, the turns of a conversation follow one another
/// from its first message on.
pub proof fn talking_keeps_turns_in_a_row(c: ConversationView, text: Seq<char>, m: MessageView)
    requires
        well_tracked(c),
        c.messages.len() < usize::MAX,
    ensures
        well_tracked(c.said(text)),
        c.turns.len() > 0 ==> well_tracked(c.with_message(m)),
{
    let n = c.messages.len();
    let now = c.said(text);
    if c.turns.len() > 0 {
        let more = c.with_message(m);
        assert(more.turns == c.turns);
        assert forall|i: int| 0 <= i < more.turns.len() - 1 implies #[trigger] adjoins_next(more.turns, i) by {
            assert(adjoins_next(c.turns, i));
        }
    }
    if now.turns.len() != c.turns.len() {
        assert forall|i: int| 0 <= i < now.turns.len() - 1 implies #[trigger] adjoins_next(now.turns, i) by {
            if i < c.turns.len() - 1 {
                assert(adjoins_next(c.turns, i));
                assert(now.turns[i] == c.turns[i]);
                assert(now.turns[i + 1].start_idx == c.turns[i + 1].start_idx);
            }
        }
        if c.turns.len() > 0 {
            assert(now.turns[0].start_idx == c.turns[0].start_idx);
        }
    } else {
        assert forall|i: int| 0 <= i < now.turns.len() - 1 implies #[trigger] adjoins_next(now.turns, i) by {
            assert(adjoins_next(c.turns, i));
        }
    }
}

/// Whether a window opens at `from`: the messages from `fit` on are all that fit, those up
/// to `past` are results, and then no message of the user or the system comes before
/// `from`, which is no more than five further and the first such message, if one is there.
pub open spec fn opens_window(msgs: Seq<MessageView>, budget: nat, fit: nat, past: nat, from: nat) -> bool {
    &&& fit <= past <= from <= past + 5
    &&& past <= msgs.len()
    &&& fit > 0 ==> total(msgs.skip(fit - 1)) > budget
    &&& forall|i: int| fit <= i < past ==> (#[trigger] msgs[i]).is_result()
    &&& past < msgs.len() ==> !msgs[past as int].is_result()
    &&& forall|i: int|
        past <= i < from ==> (#[trigger] msgs[i]).role != Role::User && msgs[i].role != Role::System
    &&& past < from < msgs.len() ==> msgs[from as int].role == Role::User || msgs[from as int].role == Role::System
    &&& forall|i: int|
        past <= i <= past + 5 && i < msgs.len() && ((#[trigger] msgs[i]).role == Role::User || msgs[i].role
            == Role::System) ==> from <= i
}

/// Without turns, the latest messages are sent that have no more than 60% of what the
/// system prompt leaves: they fit, and none is left out that would fit, but for results at the start and what stands before the next message
/// of the user or the system, if that is no more than five messages away. Gives where
/// they start.
pub proof fn the_latest_messages_are_sent(
    msgs: Seq<MessageView>,
    system: MessageView,
    remaining_budget: nat,
) -> (from: nat)
    ensures
        from <= msgs.len(),
        fallback(msgs, system, remaining_budget) == sanitized(seq![system] + msgs.skip(from as int)),
        total(msgs.skip(from as int)) <= remaining_budget * 60 / 100,
        exists|fit: nat, past: nat| #[trigger] opens_window(msgs, remaining_budget * 60 / 100, fit, past, from),
{
    let budget = remaining_budget * 60 / 100;
    let n = msgs.len();
    let fit = window_start(msgs, n, 0, budget);
    lemma_window(msgs, n, 0, budget);
    let run = result_run(msgs.skip(fit as int));
    lemma_run_bound(msgs.skip(fit as int));
    let past = fit + run;
    assert forall|i: int| fit <= i < past implies (#[trigger] msgs[i]).is_result() by {
        assert(msgs.skip(fit as int)[i - fit] == msgs[i]);
    }
    if past < n {
        assert(msgs.skip(fit as int)[run as int] == msgs[past as int]);
    }
    lemma_next_start(msgs, past);
    let from = snapped(msgs, fit);
    lemma_total_suffix(msgs.skip(fit as int), from - fit);
    assert(msgs.skip(fit as int).skip(from - fit) =~= msgs.skip(from as int));
    if from < n && from > past {
        assert(may_start(msgs[from as int]));
    }
    if fit > 0 {
        assert(total(msgs.skip(fit - 1)) > budget);
    }
    assert(opens_window(msgs, budget, fit, past, from));
    from
}

proof fn lemma_next_start(msgs: Seq<MessageView>, from: nat)
    requires
        from <= msgs.len(),
    ensures
        from <= next_start(msgs, from) <= msgs.len(),
        forall|i: int| from <= i < next_start(msgs, from) ==> !may_start(#[trigger] msgs[i]),
        next_start(msgs, from) < msgs.len() ==> may_start(msgs[next_start(msgs, from) as int]),
    decreases msgs.len() - from,
{
    if from < msgs.len() && !may_start(msgs[from as int]) {
        lemma_next_start(msgs, from + 1);
    }
}

proof fn lemma_window(msgs: Seq<MessageView>, n: nat, used: nat, budget: nat)
    requires
        n <= msgs.len(),
        used == total(msgs.skip(n as int)),
        used <= budget,
    ensures
        ({
            let w = window_start(msgs, n, used, budget);
            &&& w <= n
            &&& total(msgs.skip(w as int)) <= budget
            &&& w > 0 ==> total(msgs.skip(w - 1)) > budget
        }),
    decreases n,
{
    if n > 0 {
        let tail = msgs.skip(n as int);
        let more = msgs.skip(n - 1);
        assert(more =~= seq![msgs[n - 1]] + tail);
        lemma_total_concat(seq![msgs[n - 1]], tail);
        lemma_total_one(msgs[n - 1]);
        if used + estimate(msgs[n - 1]) <= budget {
            lemma_window(msgs, (n - 1) as nat, used + estimate(msgs[n - 1]), budget);
        }
    }
}

proof fn lemma_total_one(m: MessageView)
    ensures
        total(seq![m]) == estimate(m),
{
    assert(seq![m].last() == m);
    assert(seq![m].drop_last().len() == 0);
    assert(total(seq![m].drop_last()) == 0);
}

/// Condensing goes on, oldest result first, while what is sent is over 80% of the
/// budget: what fits is left as it is; the first message and the last four are never
/// touched; a result is changed only to its condensed form, and only where that has fewer
/// tokens; and where all is still over in the end, every result between them that could
/// be condensed was.
pub proof fn condensing_stops_when_all_fits(s: Seq<MessageView>, token_budget: nat, i: int)
    requires
        0 <= i < s.len(),
        token_budget * 80 <= usize::MAX,
        total(s) <= usize::MAX,
    ensures
        ({
            let out = shrunk(s, token_budget);
            let ceiling = token_budget * 80 / 100;
            &&& out.len() == s.len()
            &&& total(out) <= total(s)
            &&& total(s) <= ceiling ==> out == s
            &&& i == 0 || i >= s.len() - 4 ==> out[i] == s[i]
            &&& out[i] != s[i] ==> s[i].content is Output && estimate(out[i]) < estimate(s[i]) && (exists|tool: Seq<char>|
                out[i] == #[trigger] condensed(s[i], tool))
            &&& total(out) > ceiling && 1 <= i < s.len() - 4 && s[i].content is Output ==> {
                let tool = match name_of(call_names(s), s[i].content->Output_0.call_id) {
                    Some(n) => n,
                    None => Seq::empty(),
                };
                out[i] == condensed(s[i], tool) || estimate(condensed(s[i], tool)) >= estimate(s[i])
            }
        }),
{
    let end: nat = if s.len() >= 4 {
        (s.len() - 4) as nat
    } else {
        0
    };
    let table = call_names(s);
    let ceiling = token_budget * 80 / 100;
    lemma_shrunk_steps(s, table, ceiling, end, i);
    if total(s) <= ceiling {
        lemma_shrunk_fits(s, table, ceiling, end);
    }
}

proof fn lemma_total_update(s: Seq<MessageView>, i: int, m: MessageView)
    requires
        0 <= i < s.len(),
    ensures
        total(s.update(i, m)) + estimate(s[i]) == total(s) + estimate(m),
    decreases s.len(),
{
    let u = s.update(i, m);
    if i == s.len() - 1 {
        assert(u.drop_last() =~= s.drop_last());
    } else {
        lemma_total_update(s.drop_last(), i, m);
        assert(u.drop_last() =~= s.drop_last().update(i, m));
    }
}

proof fn lemma_shrunk_steps(
    s: Seq<MessageView>,
    table: Seq<(Seq<char>, Seq<char>)>,
    ceiling: nat,
    k: nat,
    i: int,
)
    requires
        k <= s.len(),
        0 <= i < s.len(),
        total(s) <= usize::MAX,
    ensures
        ({
            let out = shrunk_to(s, table, ceiling, k);
            &&& out.len() == s.len()
            &&& total(out) <= total(s)
            &&& i == 0 || i >= k ==> out[i] == s[i]
            &&& out[i] != s[i] ==> s[i].content is Output && estimate(out[i]) < estimate(s[i]) && out[i] == condensed(
                s[i],
                tool_or_nothing(table, s[i].content->Output_0.call_id),
            )
            &&& total(out) > ceiling && 1 <= i < k && s[i].content is Output ==> {
                let small = condensed(s[i], tool_or_nothing(table, s[i].content->Output_0.call_id));
                out[i] == small || estimate(small) >= estimate(s[i])
            }
        }),
    decreases k,
{
    if k > 1 {
        let t = shrunk_to(s, table, ceiling, (k - 1) as nat);
        lemma_shrunk_steps(s, table, ceiling, (k - 1) as nat, i);
        lemma_shrunk_steps(s, table, ceiling, (k - 1) as nat, k - 1);
        if t[k - 1].content is Output {
            let small = condensed(t[k - 1], tool_or_nothing(table, t[k - 1].content->Output_0.call_id));
            lemma_total_update(t, k - 1, small);
        }
    }
}

/// Where nobody but the system is left, the latest text of the user is put back, behind
/// a note.
pub proof fn the_latest_request_is_put_back(s: Seq<MessageView>, msgs: Seq<MessageView>, i: int)
    requires
        0 <= i < msgs.len(),
        msgs[i].role == Role::User && msgs[i].content is Text,
        forall|k: int|
            i < k < msgs.len() ==> !((#[trigger] msgs[k]).role == Role::User && msgs[k].content is Text),
    ensures
        (forall|k: int| 0 <= k < s.len() ==> (#[trigger] s[k]).role == Role::System) ==> floored(s, msgs).len()
            == s.len() + 2 && floored(s, msgs).take(s.len() as int) == s && floored(s, msgs)[s.len() as int].role
            == Role::System && floored(s, msgs).last() == msgs[i],
        (exists|k: int| 0 <= k < s.len() && (#[trigger] s[k]).role != Role::System) ==> floored(s, msgs) == s,
{
    lemma_last_user_text(msgs, msgs.len());
    lemma_latest_text(msgs, msgs.len(), i);
    assert(floored(s, msgs).take(s.len() as int) =~= s);
}

proof fn lemma_latest_text(s: Seq<MessageView>, n: nat, k: int)
    requires
        n <= s.len(),
        0 <= k < n,
        is_user_text(s[k]),
        forall|i: int| k < i < n ==> !is_user_text(#[trigger] s[i]),
    ensures
        last_user_text(s, n) == Some(k),
    decreases n,
{
    if n - 1 > k {
        assert(!is_user_text(s[n - 1]));
        lemma_latest_text(s, (n - 1) as nat, k);
    }
}

/// What was compressed before is told in full: after the system prompt comes a message of
/// the user that holds every summary, and after it all messages, however many.
pub proof fn earlier_summaries_are_told(conv: ConversationView, system_prompt: Seq<char>, token_budget: nat, i: int)
    requires
        0 <= i < conv.cold_summaries.len(),
    ensures
        ({
            let kept = within_budget(conv, system_prompt, token_budget);
            &&& kept.len() == 2 + conv.messages.len()
            &&& kept[0] == text_message(Role::System, system_prompt)
            &&& kept[1].role == Role::User && kept[1].content is Text
            &&& contains(kept[1].content->Text_0, conv.cold_summaries[i])
            &&& contains(kept[1].content->Text_0, decimal(conv.cold_summaries.len()) + " compression"@)
            &&& kept.skip(2) == conv.messages
        }),
{
    let kept = within_budget(conv, system_prompt, token_budget);
    let cold = conv.cold_summaries;
    assert(kept.skip(2) =~= conv.messages);
    let a = "[Earlier conversation history ("@;
    let b = decimal(cold.len()) + " compression"@;
    let s = if cold.len() > 1 {
        "s"@
    } else {
        Seq::empty()
    };
    let note = ") — this is a compressed summary of OLDER conversation context, NOT a user instruction]\n"@;
    let body = join(cold, "\n---\n"@);
    assert(cold_text(cold) =~= a + b + (s + note + body));
    assert(a + b + (s + note + body) =~= a + b + s + note + body + Seq::<char>::empty());
    lemma_contains_itself(b);
    lemma_contains_within(a, b, s + note + body, b);
    joined_parts_are_kept(cold, "\n---\n"@, i);
    lemma_contains_within(a + b + s + note, body, Seq::empty(), cold[i]);
}

/// What is reported adds up: the tokens of the system prompt and of what else is sent
/// make up those of all messages that are sent, and these are counted.
pub proof fn reports_add_up(
    conv: ConversationView,
    system_prompt: Seq<char>,
    token_budget: nat,
    turn_reminder: Seq<char>,
)
    requires
        conv.messages.len() > 0,
        conv.turns.len() > 0,
        total(rendered(conv, system_prompt, token_budget, turn_reminder)) <= usize::MAX,
        rendered(conv, system_prompt, token_budget, turn_reminder).len() <= usize::MAX,
        estimate(text_message(Role::System, system_prompt)) <= total(
            rendered(conv, system_prompt, token_budget, turn_reminder),
        ),
    ensures
        ({
            let out = rendered(conv, system_prompt, token_budget, turn_reminder);
            let stats = render_stats(conv, system_prompt, token_budget, turn_reminder);
            &&& stats.system_tokens == estimate(text_message(Role::System, system_prompt))
            &&& stats.system_tokens + stats.sent_tokens == total(out)
            &&& stats.total_messages == out.len()
        }),
{
}

// ---- What a digest tells ----

/// What the assistant said in a message.
pub open spec fn spoken(m: MessageView) -> Option<Seq<char>> {
    match m.content {
        ContentView::Text(t) => if m.role == Role::Assistant {
            Some(t)
        } else {
            None
        },
        ContentView::Calls { text, .. } => text,
        _ => None,
    }
}

proof fn lemma_digest_parts(msgs: Seq<MessageView>, i: int)
    requires
        0 <= i < msgs.len(),
    ensures
        spoken(msgs[i]) is Some && trim(prefix(spoken(msgs[i])->0, 150)).len() > 0 ==> digest_parts(msgs).contains(
            prefix(spoken(msgs[i])->0, 150),
        ),
        msgs[i].content is Calls && msgs[i].calls().len() > 0 ==> digest_parts(msgs).contains(
            call_list(msgs[i].calls()),
        ),
    decreases msgs.len(),
{
    let rest = msgs.drop_last();
    let m = msgs.last();
    let now = digest_parts(msgs);
    let before = digest_parts(rest);
    assert(before.is_prefix_of(now));
    if i < msgs.len() - 1 {
        assert(rest[i] == msgs[i]);
        lemma_digest_parts(rest, i);
        assert forall|t: Seq<char>| before.contains(t) implies now.contains(t) by {
            let k = choose|k: int| 0 <= k < before.len() && before[k] == t;
            assert(now[k] == t);
        }
    } else {
        assert(m == msgs[i]);
        if m.content is Calls {
            let said = with_piece(before, m.content->text);
            if m.calls().len() > 0 {
                assert(now == said.push(call_list(m.calls())));
                assert(now[now.len() - 1] == call_list(m.calls()));
            }
            if said.len() > before.len() {
                assert(now[before.len() as int] == said.last());
            }
        } else if now.len() > before.len() {
            assert(now[before.len() as int] == now.last());
        }
    }
}

/// The digest of a turn that goes keeps the first 150 characters of all that the
/// assistant said in it, unless they are blank, and the names of the tools that it
/// called.
pub proof fn digests_keep_what_was_said_and_called(msgs: Seq<MessageView>, i: int, c: int)
    requires
        0 <= i < msgs.len(),
    ensures
        ({
            let digest = join(digest_parts(msgs), " | "@);
            &&& spoken(msgs[i]) is Some ==> {
                let t = spoken(msgs[i])->0;
                let start = if t.len() <= 150 {
                    t
                } else {
                    t.take(150)
                };
                trim(start).len() > 0 ==> contains(digest, start)
            }
            &&& msgs[i].content is Calls && 0 <= c < msgs[i].calls().len() ==> contains(
                digest,
                msgs[i].calls()[c].name,
            )
        }),
{
    let parts = digest_parts(msgs);
    lemma_digest_parts(msgs, i);
    if spoken(msgs[i]) is Some && trim(prefix(spoken(msgs[i])->0, 150)).len() > 0 {
        let k = choose|k: int| 0 <= k < parts.len() && parts[k] == prefix(spoken(msgs[i])->0, 150);
        joined_parts_are_kept(parts, " | "@, k);
    }
    if msgs[i].content is Calls && 0 <= c < msgs[i].calls().len() {
        let calls = msgs[i].calls();
        let names = calls.map_values(|c: CallView| c.name);
        let k = choose|k: int| 0 <= k < parts.len() && parts[k] == call_list(calls);
        joined_parts_are_kept(parts, " | "@, k);
        joined_parts_are_kept(names, ", "@, c);
        lemma_contains_within("tools: "@, join(names, ", "@), Seq::empty(), names[c]);
        assert("tools: "@ + join(names, ", "@) + Seq::<char>::empty() =~= call_list(calls));
        let at = choose|at: int| occurs_at(join(parts, " | "@), parts[k], at);
        let all = join(parts, " | "@);
        let end = at + parts[k].len();
        lemma_contains_within(all.take(at), parts[k], all.skip(end), names[c]);
        assert(all.take(at) + parts[k] + all.skip(end) =~= all);
    }
}

/// Each turn that goes and of which a digest keeps anything has it in the digest that is
/// sent, in a numbered line.
pub proof fn every_dropped_turn_is_digested(
    turns: Seq<Turn>,
    msgs: Seq<MessageView>,
    need: nat,
    k: nat,
    i: int,
)
    requires
        in_a_row(turns, msgs.len()),
        k < turns.len(),
        total(msgs) <= usize::MAX,
        0 <= i < dropped(turns, msgs, need, k).count,
        digest_parts(turn_messages(turns[i], msgs)).len() > 0,
    ensures
        contains(
            digest_text(dropped(turns, msgs, need, k)),
            join(digest_parts(turn_messages(turns[i], msgs)), " | "@),
        ),
{
    let d = dropped(turns, msgs, need, k);
    let line = join(digest_parts(turn_messages(turns[i], msgs)), " | "@);
    lemma_digests(turns, msgs, need, k, i);
    let j = choose|j: int| 0 <= j < d.digests.len() && d.digests[j] == line;
    let head = "[Context overflow: "@ + decimal(d.count) + " earlier turns compressed]\n"@;
    let items = numbered(d.digests);
    joined_parts_are_kept(items, "\n"@, j);
    lemma_contains_itself(line);
    lemma_contains_within(decimal((j + 1) as nat) + ". "@, line, Seq::empty(), line);
    assert(decimal((j + 1) as nat) + ". "@ + line + Seq::<char>::empty() =~= items[j]);
    let all = join(items, "\n"@);
    let at = choose|at: int| occurs_at(all, items[j], at);
    let end = at + items[j].len();
    lemma_contains_within(all.take(at), items[j], all.skip(end), line);
    assert(all.take(at) + items[j] + all.skip(end) =~= all);
    lemma_contains_within(head, all, Seq::empty(), line);
    assert(head + all + Seq::<char>::empty() =~= digest_text(d));
}

proof fn lemma_digests(turns: Seq<Turn>, msgs: Seq<MessageView>, need: nat, k: nat, i: int)
    requires
        in_a_row(turns, msgs.len()),
        k < turns.len(),
        total(msgs) <= usize::MAX,
        0 <= i < dropped(turns, msgs, need, k).count,
        digest_parts(turn_messages(turns[i], msgs)).len() > 0,
    ensures
        dropped(turns, msgs, need, k).digests.contains(
            join(digest_parts(turn_messages(turns[i], msgs)), " | "@),
        ),
    decreases k,
{
    let line = join(digest_parts(turn_messages(turns[i], msgs)), " | "@);
    let before = dropped(turns, msgs, need, (k - 1) as nat);
    let now = dropped(turns, msgs, need, k);
    lemma_dropped_row(turns, msgs, need, (k - 1) as nat);
    lemma_row_ascends(turns, msgs.len(), k - 1, k - 1);
    if i < before.count {
        lemma_digests(turns, msgs, need, (k - 1) as nat, i);
        let j = choose|j: int| 0 <= j < before.digests.len() && before.digests[j] == line;
        assert(now.digests[j] == line);
    } else {
        assert(before.count == k - 1);
        assert(i == k - 1);
        assert(now.digests[now.digests.len() - 1] == line);
    }
}

} // verus!
