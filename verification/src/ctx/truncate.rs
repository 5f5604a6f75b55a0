//! Cutting tool outputs down to size.

use vstd::prelude::*;
use vstd::string::*;

use crate::conversation::{
    views, ContentView, Message, MessageContent, MessageView, ResultView, ToolResult,
};
use crate::ctx::cleanup::{build_call_id_to_tool_map, call_names, lookup_tool, name_of, pairs};
use crate::ctx::share::{share, share_of};
use crate::text::{
    byte_count, byte_len, chars_of, decimal, join, join_texts, lemma_byte_bounds, lemma_decimal_size,
    lines, lines_of, push_decimal, same, string_of, ten_to, texts,
};

verus! {

/// The most lines that any output but a reading of a file keeps.
pub const UNIVERSAL_MAX_LINES: usize = 300;

/// How many lines the universal cap keeps at each end.
pub const UNIVERSAL_END_LINES: usize = 50;

/// `a - b`, or zero.
pub open spec fn less(a: nat, b: nat) -> nat {
    if a >= b {
        (a - b) as nat
    } else {
        0
    }
}

pub open spec fn at_most(a: nat, b: nat) -> nat {
    if a <= b {
        a
    } else {
        b
    }
}

/// The first `head` of `parts`.
pub open spec fn front<T>(parts: Seq<T>, head: nat) -> Seq<T> {
    parts.take(at_most(head, parts.len()) as int)
}

/// The last `tail` of `parts`.
pub open spec fn back<T>(parts: Seq<T>, tail: nat) -> Seq<T> {
    parts.skip(less(parts.len(), tail) as int)
}

/// An output of more than `max` lines cut to its first and last lines.
pub open spec fn ends_of_lines(output: Seq<char>, max: nat, head: nat, tail: nat) -> Seq<char> {
    let ls = lines(output);
    if ls.len() > max {
        join(front(ls, head), "\n"@) + "\n\n[... "@ + decimal(less(less(ls.len(), head), tail))
            + " lines omitted ...]\n\n"@ + join(back(ls, tail), "\n"@)
    } else {
        output
    }
}

/// The rule of the tool itself.
pub open spec fn tool_rule(tool: Seq<char>, output: Seq<char>) -> Seq<char> {
    if tool == "bash"@ || tool == "read_file"@ {
        output
    } else if tool == "web_fetch"@ {
        ends_of_lines(output, 150, 20, 40)
    } else {
        ends_of_lines(output, 200, 30, 50)
    }
}

/// The cap on lines that holds for every tool but `read_file`.
pub open spec fn line_rule(output: Seq<char>) -> Seq<char> {
    let ls = lines(output);
    if ls.len() > UNIVERSAL_MAX_LINES {
        join(front(ls, UNIVERSAL_END_LINES as nat), "\n"@) + "\n\n[... "@ + decimal(
            (ls.len() - 2 * UNIVERSAL_END_LINES) as nat,
        ) + " lines omitted (universal 300-line cap) ...]\n\n"@ + join(
            back(ls, UNIVERSAL_END_LINES as nat),
            "\n"@,
        )
    } else {
        output
    }
}

/// The cap on characters for a window: an eighth of it, between 8000 and
/// 32000.
pub open spec fn char_limit(context_window: nat) -> nat {
    let eighth = context_window / 8;
    if eighth > 32_000 {
        32_000
    } else if eighth < 8_000 {
        8_000
    } else {
        eighth
    }
}

/// The cap on characters that holds for every tool but `read_file`: two thirds
/// of what is kept are from the front, one third from the back.
pub open spec fn char_rule(output: Seq<char>, limit: nat) -> Seq<char> {
    if byte_count(output) > limit {
        front(output, limit * 2 / 3) + "\n\n[... "@ + decimal(
            less(output.len(), limit * 2 / 3 + limit / 3),
        ) + " chars omitted (universal "@ + decimal(limit) + " char cap) ...]\n\n"@ + back(
            output,
            limit / 3,
        )
    } else {
        output
    }
}

/// What is kept of the output of a tool.
pub open spec fn truncated(tool: Seq<char>, output: Seq<char>, context_window: nat) -> Seq<char> {
    if tool == "read_file"@ {
        output
    } else {
        char_rule(line_rule(tool_rule(tool, output)), char_limit(context_window))
    }
}

fn join_range(v: &Vec<String>, from: usize, to: usize) -> (r: String)
    requires
        from <= to <= v.len(),
    ensures
        r@ == join(texts(v@).subrange(from as int, to as int), "\n"@),
{
    let mut part: Vec<String> = Vec::new();
    let mut i: usize = from;
    while i < to
        invariant
            from <= i <= to <= v.len(),
            part@.len() == i - from,
            forall|k: int| 0 <= k < part@.len() ==> #[trigger] part@[k]@ == v@[from + k]@,
        decreases to - i,
    {
        part.push(v[i].clone());
        i = i + 1;
    }
    assert(texts(part@) =~= texts(v@).subrange(from as int, to as int));
    join_texts(&part, "\n")
}

/// Cuts an output of more than `max_lines` lines to `head` lines at its front
/// and `tail` lines at its back.
pub fn truncate_generic(result: &mut ToolResult, max_lines: usize, head: usize, tail: usize)
    ensures
        final(result)@ == (ResultView {
            output: ends_of_lines(old(result)@.output, max_lines as nat, head as nat, tail as nat),
            ..old(result)@
        }),
{
    let ls = lines_of(result.output.as_str());
    let ghost all = lines(result.output@);
    let n = ls.len();
    assert(texts(ls@).len() == ls@.len());
    if n > max_lines {
        let head_end: usize = if head <= n { head } else { n };
        let tail_start = n.saturating_sub(tail);
        let mut out = join_range(&ls, 0, head_end);
        assert(all.subrange(0, head_end as int) =~= front(all, head as nat));
        out.append("\n\n[... ");
        push_decimal(&mut out, n.saturating_sub(head).saturating_sub(tail) as u64);
        out.append(" lines omitted ...]\n\n");
        let back_part = join_range(&ls, tail_start, n);
        assert(all.subrange(tail_start as int, n as int) =~= back(all, tail as nat));
        out.append(back_part.as_str());
        result.output = out;
    }
}

fn cap_lines(result: &mut ToolResult)
    ensures
        final(result)@ == (ResultView { output: line_rule(old(result)@.output), ..old(result)@ }),
{
    let ls = lines_of(result.output.as_str());
    let ghost all = lines(result.output@);
    let n = ls.len();
    assert(texts(ls@).len() == ls@.len());
    if n > UNIVERSAL_MAX_LINES {
        let mut out = join_range(&ls, 0, UNIVERSAL_END_LINES);
        assert(all.subrange(0, UNIVERSAL_END_LINES as int) =~= front(all, UNIVERSAL_END_LINES as nat));
        out.append("\n\n[... ");
        push_decimal(&mut out, (n - 2 * UNIVERSAL_END_LINES) as u64);
        out.append(" lines omitted (universal 300-line cap) ...]\n\n");
        let back_part = join_range(&ls, n - UNIVERSAL_END_LINES, n);
        assert(all.subrange(n - UNIVERSAL_END_LINES, n as int) =~= back(
            all,
            UNIVERSAL_END_LINES as nat,
        ));
        out.append(back_part.as_str());
        result.output = out;
    }
}

fn cap_chars(result: &mut ToolResult, limit: usize)
    requires
        limit <= 32_000,
    ensures
        final(result)@ == (ResultView {
            output: char_rule(old(result)@.output, limit as nat),
            ..old(result)@
        }),
{
    if byte_len(result.output.as_str()) > limit {
        let chars = chars_of(result.output.as_str());
        let ghost all = result.output@;
        let n = chars.len();
        let head: usize = limit * 2 / 3;
        let tail: usize = limit / 3;
        let head_end: usize = if head <= n { head } else { n };
        let mut out = string_of(&chars, 0, head_end);
        assert(all.subrange(0, head_end as int) =~= front(all, head as nat));
        out.append("\n\n[... ");
        push_decimal(&mut out, n.saturating_sub(head + tail) as u64);
        out.append(" chars omitted (universal ");
        push_decimal(&mut out, limit as u64);
        out.append(" char cap) ...]\n\n");
        let back_part = string_of(&chars, n.saturating_sub(tail), n);
        assert(all.subrange(less(all.len(), tail as nat) as int, n as int) =~= back(
            all,
            tail as nat,
        ));
        out.append(back_part.as_str());
        result.output = out;
    }
}

/// Cuts the output of a tool down: first by the rule of the tool, then by the
/// caps that hold for all. A reading of a file is left as it is.
pub fn truncate_output(result: &mut ToolResult, tool_name: &str, context_window: usize)
    ensures
        final(result)@ == (ResultView {
            output: truncated(tool_name@, old(result)@.output, context_window as nat),
            ..old(result)@
        }),
{
    if same(tool_name, "read_file") {
        return;
    }
    if !same(tool_name, "bash") {
        if same(tool_name, "web_fetch") {
            truncate_generic(result, 150, 20, 40);
        } else {
            truncate_generic(result, 200, 30, 50);
        }
    }
    cap_lines(result);
    let eighth: usize = context_window / 8;
    let limit: usize = if eighth > 32_000 {
        32_000
    } else if eighth < 8_000 {
        8_000
    } else {
        eighth
    };
    cap_chars(result, limit);
}

// ---- The budget of a turn ----

/// The characters that the results of one turn may have together: a quarter of
/// the window, between 4000 and 64000.
pub open spec fn turn_budget(context_window: nat) -> nat {
    let quarter = context_window / 4;
    if quarter > 64_000 {
        64_000
    } else if quarter < 4_000 {
        4_000
    } else {
        quarter
    }
}

pub open spec fn output_bytes(m: MessageView) -> nat {
    match m.content {
        ContentView::Output(r) => byte_count(r.output),
        _ => 0,
    }
}

pub open spec fn outputs_total(msgs: Seq<MessageView>) -> nat
    decreases msgs.len(),
{
    if msgs.len() == 0 {
        0
    } else {
        outputs_total(msgs.drop_last()) + output_bytes(msgs.last())
    }
}

/// The rule by which the result at hand is cut: that of the tool that its call
/// names, or of the tool at hand.
pub open spec fn rule_name(
    table: Seq<(Seq<char>, Seq<char>)>,
    id: Seq<char>,
    current: Seq<char>,
) -> Seq<char> {
    match name_of(table, id) {
        Some(n) => n,
        None => current,
    }
}

pub open spec fn with_output(m: MessageView, output: Seq<char>) -> MessageView {
    MessageView { content: ContentView::Output(ResultView { output, ..m.content->Output_0 }), ..m }
}

/// A result cut by the rules of its tool.
pub open spec fn cut_by_rule(
    m: MessageView,
    table: Seq<(Seq<char>, Seq<char>)>,
    current: Seq<char>,
    context_window: nat,
) -> MessageView {
    match m.content {
        ContentView::Output(r) => with_output(
            m,
            truncated(rule_name(table, r.call_id, current), r.output, context_window),
        ),
        _ => m,
    }
}

/// A result cut to its part of the budget, unless that part is tiny.
pub open spec fn cut_to_share(m: MessageView, budget: nat, all: nat) -> MessageView {
    match m.content {
        ContentView::Output(r) => {
            let size = byte_count(r.output);
            let target = share(size, budget, all);
            if size > target && target > 200 {
                with_output(
                    m,
                    front(r.output, target * 2 / 3) + "\n[... trimmed to fit turn budget ...]\n"@ + back(
                        r.output,
                        target / 3,
                    ),
                )
            } else {
                m
            }
        },
        _ => m,
    }
}

pub open spec fn ruled(
    msgs: Seq<MessageView>,
    start: nat,
    current: Seq<char>,
    context_window: nat,
) -> Seq<MessageView> {
    Seq::new(
        msgs.len(),
        |i: int|
            if i >= start {
                cut_by_rule(msgs[i], call_names(msgs), current, context_window)
            } else {
                msgs[i]
            },
    )
}

pub open spec fn shared(msgs: Seq<MessageView>, start: nat, context_window: nat) -> Seq<MessageView> {
    let all = outputs_total(msgs.skip(start as int));
    let budget = turn_budget(context_window);
    if all > budget {
        Seq::new(
            msgs.len(),
            |i: int|
                if i >= start {
                    cut_to_share(msgs[i], budget, all)
                } else {
                    msgs[i]
                },
        )
    } else {
        msgs
    }
}

/// The messages after the results among the last `tool_count` were cut.
pub open spec fn post_processed(
    msgs: Seq<MessageView>,
    tool_count: nat,
    current: Seq<char>,
    context_window: nat,
) -> Seq<MessageView> {
    let start = less(msgs.len(), tool_count);
    shared(ruled(msgs, start, current, context_window), start, context_window)
}

fn cut_results(
    messages: &mut Vec<Message>,
    start: usize,
    current_tool_name: &str,
    context_window: usize,
)
    requires
        start <= old(messages).len(),
    ensures
        views(final(messages)@) == ruled(
            views(old(messages)@),
            start as nat,
            current_tool_name@,
            context_window as nat,
        ),
{
    let ghost all = views(messages@);
    let ghost want = ruled(all, start as nat, current_tool_name@, context_window as nat);
    let table = build_call_id_to_tool_map(messages);
    let n = messages.len();
    let mut i: usize = start;
    while i < n
        invariant
            start <= i <= n == messages.len() == all.len(),
            pairs(table@) == call_names(all),
            want == ruled(all, start as nat, current_tool_name@, context_window as nat),
            views(messages@).len() == n,
            forall|k: int| 0 <= k < i ==> #[trigger] views(messages@)[k] == want[k],
            forall|k: int| i <= k < n ==> #[trigger] views(messages@)[k] == all[k],
        decreases n - i,
    {
        let ghost was = messages@;
        assert(views(was)[i as int] == was[i as int]@);
        let mut cut: Option<ToolResult> = None;
        match &messages[i].content {
            MessageContent::ToolResult(r) => {
                let tool = match lookup_tool(&table, r.call_id.as_str()) {
                    Some(t) => t,
                    None => current_tool_name.to_owned(),
                };
                let mut result = r.clone();
                truncate_output(&mut result, tool.as_str(), context_window);
                cut = Some(result);
            },
            _ => {},
        }
        if let Some(result) = cut {
            let m = Message {
                role: messages[i].role,
                content: MessageContent::ToolResult(result),
                synthetic: messages[i].synthetic,
            };
            messages[i] = m;
            assert(views(messages@) =~= views(was).update(i as int, m@));
        }
        assert(views(messages@)[i as int] == want[i as int]);
        i = i + 1;
    }
    assert(views(messages@) =~= want);
}

fn sum_outputs(messages: &Vec<Message>, start: usize) -> (r: u128)
    requires
        start <= messages.len(),
    ensures
        r == outputs_total(views(messages@).skip(start as int)),
        r <= (messages.len() - start) * usize::MAX,
{
    let ghost all = views(messages@).skip(start as int);
    let mut sum: u128 = 0;
    let mut i: usize = start;
    while i < messages.len()
        invariant
            start <= i <= messages.len(),
            all == views(messages@).skip(start as int),
            sum == outputs_total(all.take(i - start)),
            sum <= (i - start) * usize::MAX,
        decreases messages.len() - i,
    {
        assert(all.take(i + 1 - start).drop_last() =~= all.take(i - start));
        assert(all.take(i + 1 - start).last() == messages@[i as int]@);
        let size: usize = match &messages[i].content {
            MessageContent::ToolResult(r) => byte_len(r.output.as_str()),
            _ => 0,
        };
        assert((i - start) * usize::MAX + size <= (i + 1 - start) * usize::MAX) by (nonlinear_arith)
            requires
                size <= usize::MAX,
                start <= i,
        ;
        assert((i + 1 - start) * usize::MAX <= u128::MAX) by (nonlinear_arith)
            requires
                0 <= i + 1 - start <= usize::MAX,
                usize::MAX <= 0xffff_ffff_ffff_ffff,
        ;
        sum = sum + size as u128;
        i = i + 1;
    }
    assert(all.take(all.len() as int) =~= all);
    sum
}

proof fn lemma_output_in_total(msgs: Seq<MessageView>, i: int)
    requires
        0 <= i < msgs.len(),
    ensures
        output_bytes(msgs[i]) <= outputs_total(msgs),
    decreases msgs.len(),
{
    if i < msgs.len() - 1 {
        lemma_output_in_total(msgs.drop_last(), i);
    }
}

fn trim_to_target(r: &ToolResult, target: usize) -> (out: ToolResult)
    requires
        target <= 1_024_000,
    ensures
        out@ == (ResultView {
            output: front(r@.output, (target * 2 / 3) as nat)
                + "\n[... trimmed to fit turn budget ...]\n"@ + back(r@.output, (target / 3) as nat),
            ..r@
        }),
{
    let chars = chars_of(r.output.as_str());
    let ghost all = r.output@;
    let n = chars.len();
    let head: usize = target * 2 / 3;
    let tail: usize = target / 3;
    let head_end: usize = if head <= n { head } else { n };
    let mut text = string_of(&chars, 0, head_end);
    assert(all.subrange(0, head_end as int) =~= front(all, head as nat));
    text.append("\n[... trimmed to fit turn budget ...]\n");
    let back_part = string_of(&chars, n.saturating_sub(tail), n);
    assert(all.subrange(less(all.len(), tail as nat) as int, n as int) =~= back(all, tail as nat));
    text.append(back_part.as_str());
    ToolResult { call_id: r.call_id.clone(), output: text, success: r.success }
}

fn share_budget(messages: &mut Vec<Message>, start: usize, context_window: usize)
    requires
        start <= old(messages).len(),
    ensures
        views(final(messages)@) == shared(views(old(messages)@), start as nat, context_window as nat),
{
    let ghost all = views(messages@);
    let ghost want = shared(all, start as nat, context_window as nat);
    let quarter: usize = context_window / 4;
    let budget: usize = if quarter > 64_000 {
        64_000
    } else if quarter < 4_000 {
        4_000
    } else {
        quarter
    };
    let sum = sum_outputs(messages, start);
    if sum <= budget as u128 {
        return;
    }
    let n = messages.len();
    let mut i: usize = start;
    while i < n
        invariant
            start <= i <= n == messages.len() == all.len(),
            budget == turn_budget(context_window as nat),
            4_000 <= budget <= 64_000,
            sum == outputs_total(all.skip(start as int)),
            sum > budget,
            want == shared(all, start as nat, context_window as nat),
            views(messages@).len() == n,
            forall|k: int| 0 <= k < i ==> #[trigger] views(messages@)[k] == want[k],
            forall|k: int| i <= k < n ==> #[trigger] views(messages@)[k] == all[k],
        decreases n - i,
    {
        let ghost was = messages@;
        assert(views(was)[i as int] == was[i as int]@);
        let mut cut: Option<ToolResult> = None;
        match &messages[i].content {
            MessageContent::ToolResult(r) => {
                let size = byte_len(r.output.as_str());
                proof {
                    assert(all.skip(start as int)[i - start] == all[i as int]);
                    lemma_output_in_total(all.skip(start as int), i - start);
                }
                let target = share_of(size, budget, sum);
                if size > target && target > 200 {
                    cut = Some(trim_to_target(r, target));
                }
            },
            _ => {},
        }
        if let Some(result) = cut {
            let m = Message {
                role: messages[i].role,
                content: MessageContent::ToolResult(result),
                synthetic: messages[i].synthetic,
            };
            messages[i] = m;
            assert(views(messages@) =~= views(was).update(i as int, m@));
        }
        assert(views(messages@)[i as int] == want[i as int]);
        i = i + 1;
    }
    assert(views(messages@) =~= want);
}

/// Cuts the tool results among the last `tool_count` messages: each by the
/// rules of its tool, and all of them to the budget of one turn.
pub fn post_process_tool_results(
    messages: &mut Vec<Message>,
    tool_count: usize,
    current_tool_name: &str,
    context_window: usize,
)
    ensures
        views(final(messages)@) == post_processed(
            views(old(messages)@),
            tool_count as nat,
            current_tool_name@,
            context_window as nat,
        ),
{
    let start = messages.len().saturating_sub(tool_count);
    cut_results(messages, start, current_tool_name, context_window);
    assert(views(messages@).len() == messages@.len());
    share_budget(messages, start, context_window);
}

// ---- What truncation guarantees ----

/// A reading of a file is never cut by the rules for single outputs.
pub proof fn readings_are_left_alone(output: Seq<char>, context_window: nat)
    ensures
        truncated("read_file"@, output, context_window) == output,
{
}

/// How many lines the output of a tool may have before any are left out.
pub open spec fn line_limit(tool: Seq<char>) -> nat {
    if tool == "bash"@ {
        UNIVERSAL_MAX_LINES as nat
    } else if tool == "web_fetch"@ {
        150
    } else {
        200
    }
}

/// A short output passes unchanged: no more lines than the tool may have, no
/// more bytes than the cap.
pub proof fn short_outputs_are_left_alone(tool: Seq<char>, output: Seq<char>, context_window: nat)
    requires
        lines(output).len() <= line_limit(tool),
        byte_count(output) <= char_limit(context_window),
    ensures
        truncated(tool, output, context_window) == output,
{
}

/// No output but a reading of a file is ever longer than the cap and the note
/// on what was left out.
pub proof fn outputs_are_capped(tool: Seq<char>, output: Seq<char>, context_window: nat)
    requires
        tool != "read_file"@,
        line_rule(tool_rule(tool, output)).len() <= u64::MAX,
    ensures
        truncated(tool, output, context_window).len() <= char_limit(context_window) + 100,
{
    let o = line_rule(tool_rule(tool, output));
    let limit = char_limit(context_window);
    if byte_count(o) > limit {
        reveal_strlit("\n\n[... ");
        reveal_strlit(" chars omitted (universal ");
        reveal_strlit(" char cap) ...]\n\n");
        assert(u64::MAX < ten_to(20)) by {
            reveal_with_fuel(ten_to, 21);
        }
        lemma_decimal_size(less(o.len(), limit * 2 / 3 + limit / 3), 20);
        assert(limit < ten_to(20)) by {
            reveal_with_fuel(ten_to, 21);
        }
        lemma_decimal_size(limit, 20);
    } else {
        lemma_byte_bounds(o);
    }
}

/// Cutting results keeps the messages themselves: their number, speakers, and
/// everything that is no tool result or lies before the last `tool_count`.
pub proof fn post_processing_touches_only_recent_results(
    msgs: Seq<MessageView>,
    tool_count: nat,
    current: Seq<char>,
    context_window: nat,
)
    ensures
        post_processed(msgs, tool_count, current, context_window).len() == msgs.len(),
        forall|i: int|
            0 <= i < msgs.len() && (i < less(msgs.len(), tool_count) || !(msgs[i].content is Output))
                ==> #[trigger] post_processed(msgs, tool_count, current, context_window)[i] == msgs[i],
{
}

/// Whether a text starts with one text and ends with another, with no more than a note
/// between them.
pub open spec fn keeps_ends(s: Seq<char>, first: Seq<char>, last: Seq<char>, note: Seq<char>) -> bool {
    &&& s.len() == first.len() + note.len() + last.len()
    &&& s.take(first.len() as int) == first
    &&& s.skip(s.len() - last.len()) == last
    &&& s.subrange(first.len() as int, s.len() - last.len()) == note
}

proof fn lemma_keeps_ends(first: Seq<char>, note: Seq<char>, last: Seq<char>)
    ensures
        keeps_ends(first + note + last, first, last, note),
{
    let s = first + note + last;
    assert(s.take(first.len() as int) =~= first);
    assert(s.skip(s.len() - last.len()) =~= last);
    assert(s.subrange(first.len() as int, s.len() - last.len()) =~= note);
}

/// An output that is over the cap on characters, after the rules on lines, keeps both
/// ends: two thirds of the cap from its front and one third from its back, with a note
/// between them that counts the rest. The cap is an eighth of the window, but no less
/// than 8000 and no more than 32000. What is within the cap is kept whole.
pub proof fn long_outputs_keep_both_ends(tool: Seq<char>, output: Seq<char>, context_window: nat)
    requires
        tool != "read_file"@,
    ensures
        ({
            let o = line_rule(tool_rule(tool, output));
            let limit = if context_window < 64_000 {
                8_000
            } else if context_window > 256_000 {
                32_000
            } else {
                context_window / 8
            };
            let head = if o.len() < limit * 2 / 3 {
                o.len()
            } else {
                limit * 2 / 3
            };
            let tail = if o.len() < limit / 3 {
                o.len()
            } else {
                limit / 3
            };
            let left = if o.len() > limit * 2 / 3 + limit / 3 {
                (o.len() - limit * 2 / 3 - limit / 3) as nat
            } else {
                0
            };
            let note = "\n\n[... "@ + decimal(left) + " chars omitted (universal "@ + decimal(limit)
                + " char cap) ...]\n\n"@;
            &&& byte_count(o) > limit ==> keeps_ends(
                truncated(tool, output, context_window),
                o.take(head as int),
                o.skip(o.len() - tail),
                note,
            )
            &&& byte_count(o) <= limit ==> truncated(tool, output, context_window) == o
        }),
{
    let o = line_rule(tool_rule(tool, output));
    let limit = char_limit(context_window);
    let note = "\n\n[... "@ + decimal(less(o.len(), limit * 2 / 3 + limit / 3)) + " chars omitted (universal "@
        + decimal(limit) + " char cap) ...]\n\n"@;
    lemma_keeps_ends(front(o, limit * 2 / 3), note, back(o, limit / 3));
    assert(char_rule(o, limit) =~= if byte_count(o) > limit {
        front(o, limit * 2 / 3) + note + back(o, limit / 3)
    } else {
        o
    });
}

/// The rules on lines keep both ends, too: an output of more than 300 lines is cut to
/// its first and last 50, one that a page was fetched by is cut from more than 150 to
/// 20 and 40, and that of any other tool but `bash` from more than 200 to 30 and 50. A
/// note between them counts the lines that are left out. Shorter ones are kept whole.
pub proof fn long_outputs_keep_their_first_and_last_lines(tool: Seq<char>, output: Seq<char>)
    requires
        tool != "read_file"@,
    ensures
        ({
            let ls = lines(output);
            let n = ls.len() as int;
            let short = tool_rule(tool, output);
            &&& n > 300 ==> keeps_ends(
                line_rule(output),
                join(ls.take(50), "\n"@),
                join(ls.skip(n - 50), "\n"@),
                "\n\n[... "@ + decimal((n - 100) as nat) + " lines omitted (universal 300-line cap) ...]\n\n"@,
            )
            &&& n <= 300 ==> line_rule(output) == output
            &&& tool == "bash"@ ==> short == output
            &&& tool == "web_fetch"@ && n > 150 ==> keeps_ends(
                short,
                join(ls.take(20), "\n"@),
                join(ls.skip(n - 40), "\n"@),
                "\n\n[... "@ + decimal((n - 60) as nat) + " lines omitted ...]\n\n"@,
            )
            &&& tool == "web_fetch"@ && n <= 150 ==> short == output
            &&& tool != "bash"@ && tool != "web_fetch"@ && n > 200 ==> keeps_ends(
                short,
                join(ls.take(30), "\n"@),
                join(ls.skip(n - 50), "\n"@),
                "\n\n[... "@ + decimal((n - 80) as nat) + " lines omitted ...]\n\n"@,
            )
            &&& tool != "bash"@ && tool != "web_fetch"@ && n <= 200 ==> short == output
        }),
{
    let ls = lines(output);
    let n = ls.len() as int;
    let short = tool_rule(tool, output);
    reveal_strlit("bash");
    reveal_strlit("web_fetch");
    assert("bash"@.len() != "web_fetch"@.len());
    if n > 300 {
        let note = "\n\n[... "@ + decimal((n - 100) as nat) + " lines omitted (universal 300-line cap) ...]\n\n"@;
        lemma_keeps_ends(join(ls.take(50), "\n"@), note, join(ls.skip(n - 50), "\n"@));
        assert(line_rule(output) =~= join(ls.take(50), "\n"@) + note + join(ls.skip(n - 50), "\n"@));
    }
    if tool == "web_fetch"@ && n > 150 {
        lemma_line_ends(output, 150, 20, 40);
    }
    if tool != "bash"@ && tool != "web_fetch"@ && n > 200 {
        lemma_line_ends(output, 200, 30, 50);
    }
}

proof fn lemma_line_ends(output: Seq<char>, max: nat, head: nat, tail: nat)
    requires
        lines(output).len() > max,
        head + tail <= max,
    ensures
        ({
            let ls = lines(output);
            keeps_ends(
                ends_of_lines(output, max, head, tail),
                join(ls.take(head as int), "\n"@),
                join(ls.skip(ls.len() - tail), "\n"@),
                "\n\n[... "@ + decimal((ls.len() - head - tail) as nat) + " lines omitted ...]\n\n"@,
            )
        }),
{
    let ls = lines(output);
    let note = "\n\n[... "@ + decimal((ls.len() - head - tail) as nat) + " lines omitted ...]\n\n"@;
    let a = join(ls.take(head as int), "\n"@);
    let b = join(ls.skip(ls.len() - tail), "\n"@);
    lemma_keeps_ends(a, note, b);
    assert(ends_of_lines(output, max, head, tail) =~= a + note + b);
}

/// The results of a turn share a quarter of the window, but no less than 4000 and no more
/// than 64000 characters.
pub proof fn turns_have_a_quarter_of_the_window(context_window: nat)
    ensures
        context_window <= 16_000 ==> turn_budget(context_window) == 4_000,
        16_000 <= context_window <= 256_000 ==> turn_budget(context_window) == context_window / 4,
        context_window >= 256_000 ==> turn_budget(context_window) == 64_000,
{
}

/// Each recent result is cut by the rule of its own tool: that of the call that it
/// answers, or of the tool at hand where no call is known. Where the results then fit the
/// budget of the turn together, that is all.
pub proof fn recent_results_are_cut_by_their_tool(
    msgs: Seq<MessageView>,
    tool_count: nat,
    current: Seq<char>,
    context_window: nat,
    i: int,
)
    requires
        0 <= i < msgs.len(),
        i + tool_count >= msgs.len(),
        msgs[i].content is Output,
        tool_count <= msgs.len(),
        outputs_total(
            ruled(msgs, (msgs.len() - tool_count) as nat, current, context_window).skip(msgs.len() - tool_count),
        ) <= turn_budget(context_window),
    ensures
        ({
            let now = post_processed(msgs, tool_count, current, context_window)[i].content->Output_0;
            let was = msgs[i].content->Output_0;
            let tool = match name_of(call_names(msgs), was.call_id) {
                Some(n) => n,
                None => current,
            };
            now.output == truncated(tool, was.output, context_window) && now.call_id == was.call_id && now.success
                == was.success
        }),
{
}

/// Where the recent results are over the budget of the turn, each that is larger than its
/// part of it keeps both ends: two thirds of the part from its front and one third from
/// its back, with a note between them; unless its part is no more than 200.
pub proof fn crowded_results_keep_both_ends(msgs: Seq<MessageView>, start: nat, context_window: nat, i: int)
    requires
        start <= i < msgs.len(),
        msgs[i].content is Output,
        outputs_total(msgs.skip(start as int)) > turn_budget(context_window),
    ensures
        ({
            let o = msgs[i].content->Output_0.output;
            let now = shared(msgs, start, context_window)[i].content->Output_0.output;
            let part = share(byte_count(o), turn_budget(context_window), outputs_total(msgs.skip(start as int)));
            let head = if o.len() < part * 2 / 3 {
                o.len()
            } else {
                part * 2 / 3
            };
            let tail = if o.len() < part / 3 {
                o.len()
            } else {
                part / 3
            };
            &&& shared(msgs, start, context_window)[i].content is Output
            &&& byte_count(o) <= part || part <= 200 ==> now == o
            &&& byte_count(o) > part && part > 200 ==> keeps_ends(
                now,
                o.take(head as int),
                o.skip(o.len() - tail),
                "\n[... trimmed to fit turn budget ...]\n"@,
            )
        }),
{
    let o = msgs[i].content->Output_0.output;
    let part = share(byte_count(o), turn_budget(context_window), outputs_total(msgs.skip(start as int)));
    lemma_keeps_ends(front(o, part * 2 / 3), "\n[... trimmed to fit turn budget ...]\n"@, back(o, part / 3));
}

/// What results have together is the sum of what each has.
pub proof fn outputs_add_up(a: Seq<MessageView>, b: Seq<MessageView>)
    ensures
        outputs_total(a + b) == outputs_total(a) + outputs_total(b),
    decreases b.len(),
{
    if b.len() == 0 {
        assert(a + b =~= a);
    } else {
        outputs_add_up(a, b.drop_last());
        assert((a + b).drop_last() =~= a + b.drop_last());
    }
}

} // verus!
