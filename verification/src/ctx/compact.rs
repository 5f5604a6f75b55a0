//! Shrinking old tool results in the conversation itself.

use vstd::prelude::*;
use vstd::string::*;

use crate::conversation::{
    views, ContentView, Conversation, ConversationView, Message, MessageContent, MessageView, ResultView,
    ToolResult, Turn,
};
use crate::ctx::cleanup::{build_call_id_to_tool_map, call_names, lookup_tool, name_of, pairs};
use crate::text::{
    contains, lemma_contains_itself, lemma_contains_within, lemma_byte_ascii, lemma_byte_bounds, lemma_byte_concat, lemma_decimal_size, ten_to, byte_count, byte_len,
    decimal, lines, lines_of, prefix, prefix_of, push_decimal, same, starts_with, starts_with_text, texts,
};

verus! {

/// Outputs up to this many bytes are left alone.
pub const MIN_COLLAPSE_SIZE: usize = 500;

/// How many characters of the telling line a stub shows.
pub const STUB_LINE: usize = 80;

/// The line of `output` that tells most: the first, or the second where the
/// first only says how long the command ran.
pub open spec fn telling_line(output: Seq<char>) -> Seq<char> {
    let ls = lines(output);
    if ls.len() == 0 {
        "(empty)"@
    } else if starts_with(ls[0], "[elapsed:"@) && ls.len() > 1 {
        ls[1]
    } else {
        ls[0]
    }
}

pub open spec fn status_word(success: bool) -> Seq<char> {
    if success {
        "ok"@
    } else {
        "FAILED"@
    }
}

/// The one-line stand-in for a tool output.
pub open spec fn compact_stub(tool: Seq<char>, output: Seq<char>, success: bool) -> Seq<char> {
    "["@ + tool + " "@ + status_word(success) + ": "@ + decimal(lines(output).len())
        + " lines, first: "@ + prefix(telling_line(output), STUB_LINE as nat) + "]"@
}

pub fn build_compact_stub(tool_name: &str, output: &str, success: bool) -> (r: String)
    ensures
        r@ == compact_stub(tool_name@, output@, success),
{
    let ls = lines_of(output);
    let ghost all = lines(output@);
    assert(texts(ls@).len() == ls@.len());
    let chosen: String = if ls.len() == 0 {
        "(empty)".to_owned()
    } else {
        assert(all[0] == ls@[0]@);
        if ls.len() > 1 && starts_with_text(ls[0].as_str(), "[elapsed:") {
            assert(all[1] == ls@[1]@);
            ls[1].clone()
        } else {
            ls[0].clone()
        }
    };
    let mut out = "[".to_owned();
    out.append(tool_name);
    out.append(" ");
    out.append(if success { "ok" } else { "FAILED" });
    out.append(": ");
    push_decimal(&mut out, ls.len() as u64);
    out.append(" lines, first: ");
    let shown = prefix_of(chosen.as_str(), STUB_LINE);
    out.append(shown.as_str());
    out.append("]");
    out
}

/// The tool that a stub names for a result: the tool of its call, or "tool".
pub open spec fn stub_tool(table: Seq<(Seq<char>, Seq<char>)>, id: Seq<char>) -> Seq<char> {
    match name_of(table, id) {
        Some(n) => n,
        None => "tool"@,
    }
}

/// `m` with an output over the size floor replaced by its stub.
pub open spec fn stubbed(
    m: MessageView,
    table: Seq<(Seq<char>, Seq<char>)>,
    exempt_read_file: bool,
) -> MessageView {
    match m.content {
        ContentView::Output(r) => {
            let tool = stub_tool(table, r.call_id);
            if byte_count(r.output) <= MIN_COLLAPSE_SIZE || (exempt_read_file && tool
                == "read_file"@) {
                m
            } else {
                MessageView {
                    content: ContentView::Output(
                        ResultView { output: compact_stub(tool, r.output, r.success), ..r },
                    ),
                    ..m
                }
            }
        },
        _ => m,
    }
}

/// How many messages lie before the last `keep` turns.
pub open spec fn cutoff(turns: Seq<Turn>, n: nat, keep: nat) -> nat {
    if turns.len() <= keep {
        0
    } else if keep == 0 {
        n
    } else {
        let start = turns[turns.len() - keep].start_idx as nat;
        if start <= n {
            start
        } else {
            n
        }
    }
}

/// `msgs` with the first `cut` of them stubbed.
pub open spec fn compacted(msgs: Seq<MessageView>, cut: nat, exempt_read_file: bool) -> Seq<
    MessageView,
> {
    Seq::new(
        msgs.len(),
        |i: int|
            if i < cut {
                stubbed(msgs[i], call_names(msgs), exempt_read_file)
            } else {
                msgs[i]
            },
    )
}

/// Stubs the large tool results that are older than the last
/// `keep_recent_turns` turns.
pub fn compact_old_tool_results_in_place(
    conv: &mut Conversation,
    keep_recent_turns: usize,
    exempt_read_file: bool,
)
    ensures
        final(conv)@ == (ConversationView {
            messages: compacted(
                old(conv)@.messages,
                cutoff(old(conv)@.turns, old(conv)@.messages.len(), keep_recent_turns as nat),
                exempt_read_file,
            ),
            ..old(conv)@
        }),
{
    let ghost all = views(conv.messages@);
    let n = conv.turn_tracker.turns.len();
    let m = conv.messages.len();
    if n <= keep_recent_turns {
        assert(compacted(all, 0, exempt_read_file) =~= all);
        return;
    }
    let cut: usize = if keep_recent_turns == 0 {
        m
    } else {
        let start = conv.turn_tracker.turns[n - keep_recent_turns].start_idx;
        if start <= m {
            start
        } else {
            m
        }
    };
    let table = build_call_id_to_tool_map(&conv.messages);
    let mut i: usize = 0;
    assert(compacted(all, 0, exempt_read_file) =~= all);
    while i < cut
        invariant
            i <= cut <= m == conv.messages.len(),
            all == views(old(conv).messages@),
            all.len() == m,
            pairs(table@) == call_names(all),
            views(conv.messages@) == compacted(all, i as nat, exempt_read_file),
            conv.turn_tracker == old(conv).turn_tracker,
            conv.cold_summaries == old(conv).cold_summaries,
            conv.pending == old(conv).pending,
        decreases cut - i,
    {
        let ghost was = conv.messages@;
        assert(views(was)[i as int] == was[i as int]@);
        assert(compacted(all, i as nat, exempt_read_file)[i as int] == all[i as int]);
        let mut replacement: Option<ToolResult> = None;
        match &conv.messages[i].content {
            MessageContent::ToolResult(tr) => {
                let tool = match lookup_tool(&table, tr.call_id.as_str()) {
                    Some(name) => name,
                    None => "tool".to_owned(),
                };
                if byte_len(tr.output.as_str()) > MIN_COLLAPSE_SIZE && !(exempt_read_file && same(
                    tool.as_str(),
                    "read_file",
                )) {
                    replacement = Some(
                        ToolResult {
                            call_id: tr.call_id.clone(),
                            output: build_compact_stub(
                                tool.as_str(),
                                tr.output.as_str(),
                                tr.success,
                            ),
                            success: tr.success,
                        },
                    );
                }
            },
            _ => {},
        }
        match replacement {
            Some(tr) => {
                let stub = Message {
                    role: conv.messages[i].role,
                    content: MessageContent::ToolResult(tr),
                    synthetic: conv.messages[i].synthetic,
                };
                conv.messages[i] = stub;
                assert(views(conv.messages@) =~= views(was).update(i as int, stub@));
            },
            None => {},
        }
        assert(views(conv.messages@) =~= compacted(all, (i + 1) as nat, exempt_read_file));
        i = i + 1;
    }
}

/// What a message weighs when deciding whether to collapse: the bytes of a
/// text or an output, and a flat hundred for anything else.
pub open spec fn rough_size(m: MessageView) -> nat {
    match m.content {
        ContentView::Text(t) => byte_count(t),
        ContentView::Output(r) => byte_count(r.output),
        _ => 100,
    }
}

pub open spec fn rough_total(msgs: Seq<MessageView>) -> nat
    decreases msgs.len(),
{
    if msgs.len() == 0 {
        0
    } else {
        rough_total(msgs.drop_last()) + rough_size(msgs.last())
    }
}

/// Whether the conversation has reached 70% of the budget, at four bytes a
/// token.
pub open spec fn collapse_due(msgs: Seq<MessageView>, token_budget: nat) -> bool {
    rough_total(msgs) >= token_budget * 280 / 100
}

/// Once the conversation is large for its budget, stubs the large results of
/// all turns but the last, except readings of files.
pub fn collapse_committed(conv: &mut Conversation, token_budget: usize)
    ensures
        !collapse_due(old(conv)@.messages, token_budget as nat) ==> final(conv)@ == old(conv)@,
        collapse_due(old(conv)@.messages, token_budget as nat) ==> final(conv)@ == (ConversationView {
            messages: compacted(
                old(conv)@.messages,
                cutoff(old(conv)@.turns, old(conv)@.messages.len(), 1),
                true,
            ),
            ..old(conv)@
        }),
{
    let ghost all = views(conv.messages@);
    let mut sum: u128 = 0;
    let mut i: usize = 0;
    while i < conv.messages.len()
        invariant
            i <= conv.messages.len(),
            all == views(conv.messages@),
            sum == rough_total(all.take(i as int)),
            sum <= i * (usize::MAX as u128),
        decreases conv.messages.len() - i,
    {
        assert(all.take(i + 1).drop_last() =~= all.take(i as int));
        assert(all.take(i + 1).last() == conv.messages@[i as int]@);
        let size: usize = match &conv.messages[i].content {
            MessageContent::ToolResult(r) => byte_len(r.output.as_str()),
            MessageContent::Text(t) => byte_len(t.as_str()),
            _ => 100,
        };
        assert(i * (usize::MAX as u128) + size <= (i + 1) * (usize::MAX as u128)) by (nonlinear_arith)
            requires
                size <= usize::MAX as u128,
        ;
        assert((i + 1) * (usize::MAX as u128) <= u128::MAX) by (nonlinear_arith)
            requires
                i + 1 <= usize::MAX,
                usize::MAX as u128 <= 0xffff_ffff_ffff_ffff,
        ;
        sum = sum + size as u128;
        i = i + 1;
    }
    assert(all.take(all.len() as int) =~= all);
    if sum >= token_budget as u128 * 280 / 100 {
        compact_old_tool_results_in_place(conv, 1, true);
    }
}

// ---- What compaction guarantees ----

/// The longest tool name, in bytes, for which every stub stays under the size
/// floor.
pub const STUB_NAME_LIMIT: usize = 134;

/// A stub is never large enough to be stubbed again, as long as the tool name
/// is of ordinary length.
pub proof fn stub_is_small(tool: Seq<char>, output: Seq<char>, success: bool)
    requires
        byte_count(tool) <= STUB_NAME_LIMIT,
        lines(output).len() <= u64::MAX,
    ensures
        byte_count(compact_stub(tool, output, success)) <= MIN_COLLAPSE_SIZE,
{
    reveal_strlit("[");
    reveal_strlit(" ");
    reveal_strlit("ok");
    reveal_strlit("FAILED");
    reveal_strlit(": ");
    reveal_strlit(" lines, first: ");
    reveal_strlit("]");
    lemma_byte_ascii("["@);
    lemma_byte_ascii(" "@);
    lemma_byte_ascii("ok"@);
    lemma_byte_ascii("FAILED"@);
    lemma_byte_ascii(": "@);
    lemma_byte_ascii(" lines, first: "@);
    lemma_byte_ascii("]"@);
    assert(u64::MAX < ten_to(20)) by {
        reveal_with_fuel(ten_to, 21);
    }
    lemma_decimal_size(lines(output).len(), 20);
    let shown = prefix(telling_line(output), STUB_LINE as nat);
    lemma_byte_bounds(shown);
    let n = decimal(lines(output).len());
    let a = "["@ + tool;
    let b = a + " "@;
    let c = b + status_word(success);
    let d = c + ": "@;
    let e = d + n;
    let f = e + " lines, first: "@;
    let g = f + shown;
    lemma_byte_concat("["@, tool);
    lemma_byte_concat(a, " "@);
    lemma_byte_concat(b, status_word(success));
    lemma_byte_concat(c, ": "@);
    lemma_byte_concat(d, n);
    lemma_byte_concat(e, " lines, first: "@);
    lemma_byte_concat(f, shown);
    lemma_byte_concat(g, "]"@);
}

proof fn lemma_names_pointwise(a: Seq<MessageView>, b: Seq<MessageView>)
    requires
        a.len() == b.len(),
        forall|i: int|
            0 <= i < a.len() ==> crate::ctx::cleanup::names_in(#[trigger] a[i])
                == crate::ctx::cleanup::names_in(b[i]),
    ensures
        call_names(a) == call_names(b),
    decreases a.len(),
{
    if a.len() > 0 {
        let x = a.drop_last();
        let y = b.drop_last();
        assert forall|i: int| 0 <= i < x.len() implies crate::ctx::cleanup::names_in(#[trigger] x[i])
            == crate::ctx::cleanup::names_in(y[i]) by {
            assert(x[i] == a[i]);
        }
        lemma_names_pointwise(x, y);
        assert(a[a.len() - 1] == a.last());
    }
}

/// Compaction changes nothing but outputs: the number of messages, their
/// speakers, the calls that are asked for and answered all stay.
pub proof fn compaction_keeps_shape(msgs: Seq<MessageView>, cut: nat, exempt_read_file: bool)
    ensures
        compacted(msgs, cut, exempt_read_file).len() == msgs.len(),
        call_names(compacted(msgs, cut, exempt_read_file)) == call_names(msgs),
        forall|i: int|
            0 <= i < msgs.len() ==> {
                let new = #[trigger] compacted(msgs, cut, exempt_read_file)[i];
                &&& new.role == msgs[i].role
                &&& (cut <= i || !(msgs[i].content is Output)) ==> new == msgs[i]
                &&& msgs[i].content is Output ==> new.content is Output
                    && new.content->Output_0.call_id == msgs[i].content->Output_0.call_id
                    && new.content->Output_0.success == msgs[i].content->Output_0.success
            },
{
    let new = compacted(msgs, cut, exempt_read_file);
    assert forall|i: int| 0 <= i < new.len() implies crate::ctx::cleanup::names_in(#[trigger] new[i])
        == crate::ctx::cleanup::names_in(msgs[i]) by {}
    lemma_names_pointwise(new, msgs);
}

/// Whether every tool name of `table` is of ordinary length.
pub open spec fn ordinary_names(table: Seq<(Seq<char>, Seq<char>)>) -> bool {
    forall|k: int| 0 <= k < table.len() ==> byte_count((#[trigger] table[k]).1) <= STUB_NAME_LIMIT
}

/// Whether every output of `msgs` has a number of lines that a machine counts.
pub open spec fn countable_outputs(msgs: Seq<MessageView>) -> bool {
    forall|i: int|
        0 <= i < msgs.len() && (#[trigger] msgs[i]).content is Output ==> lines(
            msgs[i].content->Output_0.output,
        ).len() <= u64::MAX
}

proof fn lemma_name_small(table: Seq<(Seq<char>, Seq<char>)>, id: Seq<char>)
    requires
        ordinary_names(table),
    ensures
        byte_count(stub_tool(table, id)) <= STUB_NAME_LIMIT,
    decreases table.len(),
{
    reveal_strlit("tool");
    lemma_byte_ascii("tool"@);
    if table.len() > 0 {
        assert(table[table.len() - 1] == table.last());
        let t = table.drop_last();
        assert forall|k: int| 0 <= k < t.len() implies byte_count((#[trigger] t[k]).1) <= STUB_NAME_LIMIT by {
            assert(t[k] == table[k]);
        }
        lemma_name_small(t, id);
    }
}

/// Whether stubbing a result once leaves nothing to stub: its stub is small, or is
/// its own stub.
pub open spec fn settles(m: MessageView, table: Seq<(Seq<char>, Seq<char>)>, exempt_read_file: bool) -> bool {
    m.content is Output ==> {
        let r = m.content->Output_0;
        let tool = stub_tool(table, r.call_id);
        let stub = compact_stub(tool, r.output, r.success);
        ||| byte_count(r.output) <= MIN_COLLAPSE_SIZE
        ||| exempt_read_file && tool == "read_file"@
        ||| byte_count(stub) <= MIN_COLLAPSE_SIZE
        ||| compact_stub(tool, stub, r.success) == stub
    }
}

/// Where the tool names are of ordinary length, stubbing a result once leaves
/// nothing to stub.
pub proof fn ordinary_stubs_settle(msgs: Seq<MessageView>, exempt_read_file: bool)
    requires
        ordinary_names(call_names(msgs)),
        countable_outputs(msgs),
    ensures
        forall|i: int| 0 <= i < msgs.len() ==> settles(#[trigger] msgs[i], call_names(msgs), exempt_read_file),
{
    assert forall|i: int| 0 <= i < msgs.len() implies settles(
        #[trigger] msgs[i],
        call_names(msgs),
        exempt_read_file,
    ) by {
        match msgs[i].content {
            ContentView::Output(r) => {
                lemma_name_small(call_names(msgs), r.call_id);
                stub_is_small(stub_tool(call_names(msgs), r.call_id), r.output, r.success);
            },
            _ => {},
        }
    }
}

/// Compacting what is already compacted changes nothing.
pub proof fn compaction_is_idempotent(msgs: Seq<MessageView>, cut: nat, exempt_read_file: bool)
    requires
        forall|i: int|
            0 <= i < msgs.len() && i < cut ==> settles(#[trigger] msgs[i], call_names(msgs), exempt_read_file),
    ensures
        compacted(compacted(msgs, cut, exempt_read_file), cut, exempt_read_file) == compacted(
            msgs,
            cut,
            exempt_read_file,
        ),
{
    let once = compacted(msgs, cut, exempt_read_file);
    let twice = compacted(once, cut, exempt_read_file);
    compaction_keeps_shape(msgs, cut, exempt_read_file);
    assert forall|i: int| 0 <= i < once.len() implies #[trigger] twice[i] == once[i] by {
        if i < cut {
            assert(settles(msgs[i], call_names(msgs), exempt_read_file));
        }
    }
    assert(twice =~= once);
}

/// A stub says which tool it was, whether it succeeded and how many lines it gave, and
/// shows up to 80 characters of its first line; of the second, where the first only says
/// how long the command ran.
pub proof fn stubs_tell_what_happened(tool: Seq<char>, output: Seq<char>)
    ensures
        ({
            let ls = lines(output);
            let good = compact_stub(tool, output, true);
            let bad = compact_stub(tool, output, false);
            let start = |l: Seq<char>|
                if l.len() <= 80 {
                    l
                } else {
                    l.take(80)
                };
            &&& starts_with(good, "["@ + tool + " ok: "@ + decimal(ls.len()) + " lines"@)
            &&& starts_with(bad, "["@ + tool + " FAILED: "@ + decimal(ls.len()) + " lines"@)
            &&& ls.len() == 0 ==> contains(good, "(empty)"@)
            &&& ls.len() > 0 && !starts_with(ls[0], "[elapsed:"@) ==> contains(good, start(ls[0])) && contains(
                bad,
                start(ls[0]),
            )
            &&& ls.len() > 1 && starts_with(ls[0], "[elapsed:"@) ==> contains(good, start(ls[1])) && contains(
                bad,
                start(ls[1]),
            )
            &&& ls.len() == 1 ==> contains(good, start(ls[0]))
        }),
{
    lemma_stub(tool, output, true);
    lemma_stub(tool, output, false);
    reveal_strlit("(empty)");
}

proof fn lemma_stub(tool: Seq<char>, output: Seq<char>, success: bool)
    ensures
        starts_with(
            compact_stub(tool, output, success),
            "["@ + tool + (if success {
                " ok: "@
            } else {
                " FAILED: "@
            }) + decimal(lines(output).len()) + " lines"@,
        ),
        contains(compact_stub(tool, output, success), prefix(telling_line(output), 80)),
{
    reveal_strlit(" ");
    reveal_strlit("ok");
    reveal_strlit("ok: ");
    reveal_strlit(" ok: ");
    reveal_strlit("FAILED");
    reveal_strlit("FAILED: ");
    reveal_strlit(" FAILED: ");
    reveal_strlit(": ");
    reveal_strlit(" lines, first: ");
    reveal_strlit(" lines");
    let stub = compact_stub(tool, output, success);
    let n = decimal(lines(output).len());
    let mark = if success {
        " ok: "@
    } else {
        " FAILED: "@
    };
    let shown = prefix(telling_line(output), 80);
    assert(" "@ + status_word(success) + ": "@ =~= mark);
    let head = "["@ + tool + mark + n + " lines"@;
    assert(" lines, first: "@.subrange(0, 6) =~= " lines"@);
    assert(stub =~= "["@ + tool + mark + n + " lines, first: "@ + shown + "]"@);
    assert(stub.subrange(0, head.len() as int) =~= head);
    lemma_contains_itself(shown);
    lemma_contains_within("["@ + tool + mark + n + " lines, first: "@, shown, "]"@, shown);
}

/// Of the messages before the last turns that are kept, a result of more than 500 bytes
/// becomes the stub of its tool; readings of files stay where they are exempt. All else,
/// and the turns that are kept, stay as they are.
pub proof fn old_large_results_become_stubs(
    conv: ConversationView,
    keep: nat,
    exempt_read_file: bool,
    i: int,
)
    requires
        0 < keep < conv.turns.len(),
        0 <= i < conv.messages.len(),
    ensures
        ({
            let n = conv.messages.len();
            let now = compacted(conv.messages, cutoff(conv.turns, n, keep), exempt_read_file)[i];
            let m = conv.messages[i];
            let recent = i >= conv.turns[conv.turns.len() - keep].start_idx;
            let tool = match name_of(call_names(conv.messages), m.content->Output_0.call_id) {
                Some(t) => t,
                None => "tool"@,
            };
            &&& recent || !(m.content is Output) || byte_count(m.content->Output_0.output) <= 500 ==> now == m
            &&& exempt_read_file && tool == "read_file"@ ==> now == m
            &&& !recent && m.content is Output && byte_count(m.content->Output_0.output) > 500 && !(exempt_read_file
                && tool == "read_file"@) ==> now.content is Output && now.content->Output_0.output == compact_stub(
                tool,
                m.content->Output_0.output,
                m.content->Output_0.success,
            )
        }),
{
}

/// Where no more turns are there than are kept, nothing is stubbed.
pub proof fn few_turns_are_left_alone(conv: ConversationView, keep: nat, exempt_read_file: bool)
    requires
        conv.turns.len() <= keep,
    ensures
        compacted(conv.messages, cutoff(conv.turns, conv.messages.len(), keep), exempt_read_file) == conv.messages,
{
    assert(compacted(conv.messages, 0, exempt_read_file) =~= conv.messages);
}

/// Collapsing starts once the texts and outputs, at four bytes a token, reach 70% of the
/// budget, and never stops being due as the conversation grows.
pub proof fn collapsing_is_due_at_seventy_percent(msgs: Seq<MessageView>, more: Seq<MessageView>, token_budget: nat)
    ensures
        token_budget > 0 && 10 * rough_total(msgs) >= 7 * (4 * token_budget) ==> collapse_due(msgs, token_budget),
        token_budget > 0 && 10 * rough_total(msgs) + 10 <= 7 * (4 * token_budget) ==> !collapse_due(
            msgs,
            token_budget,
        ),
        collapse_due(msgs, token_budget) ==> collapse_due(msgs + more, token_budget),
        rough_total(msgs + more) == rough_total(msgs) + rough_total(more),
    decreases more.len(),
{
    if more.len() == 0 {
        assert(msgs + more =~= msgs);
    } else {
        collapsing_is_due_at_seventy_percent(msgs, more.drop_last(), token_budget);
        assert((msgs + more).drop_last() =~= msgs + more.drop_last());
    }
}

} // verus!
