//! Deciding when a conversation is compressed, and writing the one-line
//! summaries of the rounds that go.

use vstd::prelude::*;
use vstd::slice::slice_subrange;
use vstd::string::*;

use crate::conversation::{
    call_views, sat, total, total_tokens, views, CallView, ContentView, Conversation, Message, MessageContent,
    MessageView, Role, KEEP_MESSAGES,
};
use crate::ctx::pairing::{lemma_run_bound, message_is_result, result_run};
use crate::json::{json_text, opt_json, parse_json, Json, JsonView};
use crate::paths::{file_name, file_name_of};
use crate::text::{
    contains, decimal, join, join_texts, lemma_contains_itself, lemma_contains_within, list_has, opt, prefix,
    prefix_of, push_decimal, same, starts_with, starts_with_text, texts, trim, trim_text,
};

verus! {

/// Headroom of a large window.
pub const AUTO_COMPACT_BUFFER_LARGE: usize = 13_000;

/// Headroom of a small window.
pub const AUTO_COMPACT_BUFFER_SMALL: usize = 5_000;

/// Windows above this are large.
pub const AUTO_COMPACT_LARGE_WINDOW_FROM: usize = 100_000;

/// How many messages a conversation needs before compression is worthwhile.
pub const MIN_MESSAGES_TO_COMPRESS: usize = 12;

/// The headroom of a window: at most a quarter of it.
pub open spec fn headroom(token_budget: nat) -> nat {
    let wanted: nat = if token_budget > AUTO_COMPACT_LARGE_WINDOW_FROM {
        AUTO_COMPACT_BUFFER_LARGE as nat
    } else {
        AUTO_COMPACT_BUFFER_SMALL as nat
    };
    if wanted <= token_budget / 4 {
        wanted
    } else {
        token_budget / 4
    }
}

/// The token total above which a conversation is compressed.
pub open spec fn threshold(token_budget: nat) -> nat {
    (token_budget - headroom(token_budget)) as nat
}

pub fn auto_compact_threshold(token_budget: usize) -> (r: usize)
    ensures
        r == threshold(token_budget as nat),
{
    let wanted: usize = if token_budget > AUTO_COMPACT_LARGE_WINDOW_FROM {
        AUTO_COMPACT_BUFFER_LARGE
    } else {
        AUTO_COMPACT_BUFFER_SMALL
    };
    let buffer: usize = if wanted <= token_budget / 4 {
        wanted
    } else {
        token_budget / 4
    };
    token_budget - buffer
}

/// The threshold leaves at most a quarter of the window and at most the large
/// headroom unused.
pub proof fn threshold_uses_most_of_the_window(token_budget: nat)
    ensures
        threshold(token_budget) <= token_budget,
        4 * threshold(token_budget) >= 3 * token_budget,
        threshold(token_budget) + AUTO_COMPACT_BUFFER_LARGE >= token_budget,
{
}

/// Within small windows, and within large ones, a larger window is compressed
/// later.
pub proof fn threshold_grows_with_the_window(a: nat, b: nat)
    requires
        a <= b,
        (a > AUTO_COMPACT_LARGE_WINDOW_FROM) == (b > AUTO_COMPACT_LARGE_WINDOW_FROM),
    ensures
        threshold(a) <= threshold(b),
{
}

/// Whether the conversation no longer fits its window comfortably.
pub open spec fn compression_due(
    msgs: Seq<MessageView>,
    system_prompt_tokens: nat,
    token_budget: nat,
) -> bool {
    &&& msgs.len() >= MIN_MESSAGES_TO_COMPRESS
    &&& sat(system_prompt_tokens + total(msgs)) > threshold(token_budget)
}

pub fn needs_compression(
    conv: &Conversation,
    system_prompt_tokens: usize,
    token_budget: usize,
) -> (r: bool)
    ensures
        r == compression_due(conv@.messages, system_prompt_tokens as nat, token_budget as nat),
{
    if conv.messages.len() < MIN_MESSAGES_TO_COMPRESS {
        return false;
    }
    let n = conv.messages.len();
    let history = total_tokens(&conv.messages, 0, n);
    assert(views(conv.messages@).subrange(0, n as int) =~= views(conv.messages@));
    let all: usize = system_prompt_tokens.saturating_add(history);
    all > auto_compact_threshold(token_budget)
}

// ---- One line per round ----

/// `s`, or its first `keep` characters and an ellipsis where it is longer than
/// `max`.
pub open spec fn shortened(s: Seq<char>, max: nat, keep: nat) -> Seq<char> {
    if s.len() > max {
        s.take(keep as int) + "..."@
    } else {
        s
    }
}

fn shorten(s: &str, max: usize, keep: usize) -> (r: String)
    requires
        keep <= max,
    ensures
        r@ == shortened(s@, max as nat, keep as nat),
{
    if s.unicode_len() > max {
        let mut t = prefix_of(s, keep);
        t.append("...");
        t
    } else {
        s.to_owned()
    }
}

/// The file that the arguments of a call name, by its last path part.
pub open spec fn argument_file(args: JsonView) -> Option<Seq<char>> {
    match args.text_at("file_path"@) {
        Some(p) => match file_name(p) {
            Some(f) => Some(f),
            None => Some(p),
        },
        None => None,
    }
}

pub open spec fn text_or_mark(args: JsonView, key: Seq<char>) -> Seq<char> {
    match args.text_at(key) {
        Some(t) => t,
        None => "?"@,
    }
}

/// How a summary names a call of the tool `name` with the arguments `args`,
/// where those could be read.
pub open spec fn call_label(name: Seq<char>, args: Option<JsonView>) -> Seq<char> {
    match args {
        None => name,
        Some(a) => {
            let file = argument_file(a);
            if name == "read_file"@ && file is Some {
                "read "@ + file->0
            } else if name == "edit_file"@ && file is Some {
                "edit "@ + file->0
            } else if name == "write_file"@ && file is Some {
                "write "@ + file->0
            } else if name == "grep"@ {
                "grep("@ + text_or_mark(a, "pattern"@) + ")"@
            } else if name == "bash"@ {
                "bash("@ + prefix(text_or_mark(a, "command"@), 30) + ")"@
            } else {
                name
            }
        },
    }
}

fn file_argument(args: &Json) -> (r: Option<String>)
    ensures
        opt(r) == argument_file(args@),
{
    match args.str_at("file_path") {
        Some(p) => match file_name_of(p) {
            Some(f) => Some(f),
            None => Some(p.to_owned()),
        },
        None => None,
    }
}

fn text_argument(args: &Json, key: &str) -> (r: String)
    ensures
        r@ == text_or_mark(args@, key@),
{
    match args.str_at(key) {
        Some(t) => t.to_owned(),
        None => "?".to_owned(),
    }
}

fn verb_and_file(verb: &str, file: &str) -> (r: String)
    ensures
        r@ == verb@ + file@,
{
    let mut s = verb.to_owned();
    s.append(file);
    s
}

/// Names a call of the tool `name` whose arguments read as `args`.
pub fn label_call(name: &str, args: &Option<Json>) -> (r: String)
    ensures
        r@ == call_label(name@, opt_json(*args)),
{
    match args {
        None => name.to_owned(),
        Some(a) => {
            let file = file_argument(a);
            if let Some(f) = &file {
                if same(name, "read_file") {
                    return verb_and_file("read ", f.as_str());
                }
                if same(name, "edit_file") {
                    return verb_and_file("edit ", f.as_str());
                }
                if same(name, "write_file") {
                    return verb_and_file("write ", f.as_str());
                }
            }
            if same(name, "grep") {
                proof {
                    reveal_strlit("grep");
                    reveal_strlit("read_file");
                    reveal_strlit("edit_file");
                    reveal_strlit("write_file");
                }
                let pattern = text_argument(a, "pattern");
                let mut s = verb_and_file("grep(", pattern.as_str());
                s.append(")");
                return s;
            }
            if same(name, "bash") {
                proof {
                    reveal_strlit("bash");
                    reveal_strlit("read_file");
                    reveal_strlit("edit_file");
                    reveal_strlit("write_file");
                }
                let command = text_argument(a, "command");
                let shown = prefix_of(command.as_str(), 30);
                let mut s = verb_and_file("bash(", shown.as_str());
                s.append(")");
                return s;
            }
            name.to_owned()
        },
    }
}

/// What a summary line says of a round.
#[verifier::ext_equal]
pub struct RoundView {
    pub user: Seq<char>,
    pub assistant: Seq<char>,
    pub tools: Seq<Seq<char>>,
}

pub open spec fn with_tool(tools: Seq<Seq<char>>, label: Seq<char>) -> Seq<Seq<char>> {
    if tools.contains(label) {
        tools
    } else {
        tools.push(label)
    }
}

/// `tools` with the labels of `calls` that are not in it yet.
pub open spec fn with_calls(tools: Seq<Seq<char>>, calls: Seq<CallView>) -> Seq<Seq<char>>
    decreases calls.len(),
{
    if calls.len() == 0 {
        tools
    } else {
        let c = calls.last();
        with_tool(with_calls(tools, calls.drop_last()), call_label(c.name, json_text(c.arguments)))
    }
}

/// The first thing that the assistant concluded.
pub open spec fn conclusion(known: Seq<char>, said: Option<Seq<char>>) -> Seq<char> {
    if known.len() > 0 || said is None || trim(said->0).len() == 0 {
        known
    } else {
        shortened(trim(said->0), 80, 77)
    }
}

pub open spec fn round_with(r: RoundView, m: MessageView) -> RoundView {
    match m.content {
        ContentView::Text(t) => if m.role == Role::User {
            if starts_with(t, "["@) {
                r
            } else {
                RoundView { user: shortened(t, 60, 57), ..r }
            }
        } else if m.role == Role::Assistant {
            RoundView { assistant: conclusion(r.assistant, Some(t)), ..r }
        } else {
            r
        },
        ContentView::Calls { text, tool_calls, .. } => RoundView {
            assistant: conclusion(r.assistant, text),
            tools: with_calls(r.tools, tool_calls),
            ..r
        },
        ContentView::Output(o) => if o.success {
            r
        } else {
            RoundView { tools: r.tools.push("FAILED"@), ..r }
        },
        _ => r,
    }
}

/// What is said of the messages of a round.
pub open spec fn round_of(msgs: Seq<MessageView>) -> RoundView
    decreases msgs.len(),
{
    if msgs.len() == 0 {
        RoundView { user: Seq::empty(), assistant: Seq::empty(), tools: Seq::empty() }
    } else {
        round_with(round_of(msgs.drop_last()), msgs.last())
    }
}

/// The summary line of a round.
pub open spec fn round_line(num: nat, r: RoundView) -> Seq<char> {
    let asked = if r.user.len() > 0 {
        "\""@ + r.user + "\" "@
    } else {
        Seq::empty()
    };
    let found = if r.assistant.len() > 0 {
        "["@ + r.assistant + "] "@
    } else {
        Seq::empty()
    };
    let tools = if r.tools.len() == 0 {
        "no tools"@
    } else {
        join(r.tools, ", "@)
    };
    "- Turn "@ + decimal(num) + ": "@ + asked + found + "→ "@ + tools
}

fn conclude(known: String, said: &Option<String>) -> (r: String)
    ensures
        r@ == conclusion(known@, opt(*said)),
{
    if !known.as_str().is_empty() {
        return known;
    }
    match said {
        Some(t) => {
            let trimmed = trim_text(t.as_str());
            if trimmed.as_str().is_empty() {
                known
            } else {
                shorten(trimmed.as_str(), 80, 77)
            }
        },
        None => known,
    }
}

/// The summary line of a round.
pub fn compress_turn(turn_num: usize, turn_msgs: &[Message]) -> (r: String)
    ensures
        r@ == round_line(turn_num as nat, round_of(views(turn_msgs@))),
{
    let mut user = String::new();
    let mut assistant = String::new();
    let mut tools: Vec<String> = Vec::new();
    let ghost all = views(turn_msgs@);
    let mut i: usize = 0;
    assert(texts(tools@) =~= Seq::<Seq<char>>::empty());
    while i < turn_msgs.len()
        invariant
            i <= turn_msgs.len(),
            all == views(turn_msgs@),
            round_of(all.take(i as int)) == (RoundView {
                user: user@,
                assistant: assistant@,
                tools: texts(tools@),
            }),
        decreases turn_msgs.len() - i,
    {
        let ghost seen = all.take(i as int);
        let ghost more = all.take(i + 1);
        let ghost m = turn_msgs@[i as int]@;
        assert(more.drop_last() =~= seen);
        assert(more.last() == m);
        match &turn_msgs[i].content {
            MessageContent::Text(t) => {
                if turn_msgs[i].role == Role::User {
                    if !starts_with_text(t.as_str(), "[") {
                        user = shorten(t.as_str(), 60, 57);
                    }
                } else if turn_msgs[i].role == Role::Assistant {
                    let said: Option<String> = Some(t.clone());
                    assistant = conclude(assistant, &said);
                }
            },
            MessageContent::AssistantWithToolCalls { text, tool_calls, .. } => {
                assistant = conclude(assistant, text);
                let ghost base = texts(tools@);
                let ghost calls = call_views(tool_calls@);
                let mut k: usize = 0;
                while k < tool_calls.len()
                    invariant
                        k <= tool_calls.len(),
                        calls == call_views(tool_calls@),
                        texts(tools@) == with_calls(base, calls.take(k as int)),
                    decreases tool_calls.len() - k,
                {
                    assert(calls.take(k + 1).drop_last() =~= calls.take(k as int));
                    assert(calls.take(k + 1).last() == tool_calls@[k as int]@);
                    let args = parse_json(tool_calls[k].arguments.as_str());
                    let label = label_call(tool_calls[k].name.as_str(), &args);
                    if !list_has(&tools, label.as_str()) {
                        let ghost was = tools@;
                        tools.push(label);
                        assert(texts(tools@) =~= texts(was).push(label@));
                    }
                    k = k + 1;
                }
                assert(calls.take(k as int) =~= calls);
            },
            MessageContent::ToolResult(r) => {
                if !r.success {
                    let ghost was = tools@;
                    tools.push("FAILED".to_owned());
                    assert(texts(tools@) =~= texts(was).push("FAILED"@));
                }
            },
            _ => {},
        }
        i = i + 1;
    }
    assert(all.take(all.len() as int) =~= all);
    assert(texts(tools@).len() == tools@.len());
    let mut out = "- Turn ".to_owned();
    push_decimal(&mut out, turn_num as u64);
    out.append(": ");
    let ghost head = out@;
    if !user.as_str().is_empty() {
        out.append("\"");
        out.append(user.as_str());
        out.append("\" ");
        assert(out@ =~= head + ("\""@ + user@ + "\" "@));
    } else {
        assert(out@ =~= head + Seq::<char>::empty());
    }
    let ghost mid = out@;
    if !assistant.as_str().is_empty() {
        out.append("[");
        out.append(assistant.as_str());
        out.append("] ");
        assert(out@ =~= mid + ("["@ + assistant@ + "] "@));
    } else {
        assert(out@ =~= mid + Seq::<char>::empty());
    }
    out.append("→ ");
    if tools.len() == 0 {
        out.append("no tools");
    } else {
        let list = join_texts(&tools, ", ");
        out.append(list.as_str());
    }
    out
}

/// What the assistant says in a message, as far as it counts as a conclusion.
pub open spec fn said(m: MessageView) -> Option<Seq<char>> {
    match m.content {
        ContentView::Text(t) => if m.role == Role::Assistant {
            Some(t)
        } else {
            None
        },
        ContentView::Calls { text, .. } => text,
        _ => None,
    }
}

pub open spec fn concludes(m: MessageView) -> bool {
    said(m) is Some && trim(said(m)->0).len() > 0
}

proof fn lemma_no_conclusion_yet(msgs: Seq<MessageView>)
    requires
        forall|k: int| 0 <= k < msgs.len() ==> !concludes(#[trigger] msgs[k]),
    ensures
        round_of(msgs).assistant.len() == 0,
    decreases msgs.len(),
{
    if msgs.len() > 0 {
        let t = msgs.drop_last();
        assert forall|k: int| 0 <= k < t.len() implies !concludes(#[trigger] t[k]) by {
            assert(t[k] == msgs[k]);
        }
        lemma_no_conclusion_yet(t);
        assert(!concludes(msgs[msgs.len() - 1]));
    }
}

/// A summary line keeps what the assistant first concluded in the round.
pub proof fn summary_keeps_first_conclusion(msgs: Seq<MessageView>, i: int)
    requires
        0 <= i < msgs.len(),
        concludes(msgs[i]),
        forall|k: int| 0 <= k < i ==> !concludes(#[trigger] msgs[k]),
    ensures
        round_of(msgs).assistant == shortened(trim(said(msgs[i])->0), 80, 77),
        round_of(msgs).assistant.len() > 0,
    decreases msgs.len(),
{
    let t = msgs.drop_last();
    if i == msgs.len() - 1 {
        assert forall|k: int| 0 <= k < t.len() implies !concludes(#[trigger] t[k]) by {
            assert(t[k] == msgs[k]);
        }
        lemma_no_conclusion_yet(t);
    } else {
        assert forall|k: int| 0 <= k < i implies !concludes(#[trigger] t[k]) by {
            assert(t[k] == msgs[k]);
        }
        assert(t[i] == msgs[i]);
        summary_keeps_first_conclusion(t, i);
    }
}

/// How often a text stands in a list.
pub open spec fn times(list: Seq<Seq<char>>, t: Seq<char>) -> nat
    decreases list.len(),
{
    if list.len() == 0 {
        0
    } else {
        times(list.drop_last(), t) + (if list.last() == t {
            1nat
        } else {
            0
        })
    }
}

/// Whether a message is the result of a tool that failed.
pub open spec fn is_failure(m: MessageView) -> bool {
    m.content is Output && !m.content->Output_0.success
}

/// How many results of tools that failed are among messages.
pub open spec fn failures(msgs: Seq<MessageView>) -> nat
    decreases msgs.len(),
{
    if msgs.len() == 0 {
        0
    } else {
        failures(msgs.drop_last()) + (if is_failure(msgs.last()) {
            1nat
        } else {
            0
        })
    }
}

/// Whether a label is that of a call among messages.
pub open spec fn labels_a_call(msgs: Seq<MessageView>, label: Seq<char>) -> bool {
    exists|i: int, c: int| #[trigger] is_labelled(msgs, i, c, label)
}

pub open spec fn is_labelled(msgs: Seq<MessageView>, i: int, c: int, label: Seq<char>) -> bool {
    0 <= i < msgs.len() && msgs[i].content is Calls && 0 <= c < msgs[i].calls().len() && call_label(
        msgs[i].calls()[c].name,
        json_text(msgs[i].calls()[c].arguments),
    ) == label
}

proof fn lemma_times_push(list: Seq<Seq<char>>, x: Seq<char>, t: Seq<char>)
    ensures
        times(list.push(x), t) == times(list, t) + (if x == t {
            1nat
        } else {
            0
        }),
{
    assert(list.push(x).drop_last() =~= list);
}

proof fn lemma_times_contains(list: Seq<Seq<char>>, t: Seq<char>)
    ensures
        times(list, t) > 0 <==> list.contains(t),
    decreases list.len(),
{
    if list.len() > 0 {
        let rest = list.drop_last();
        lemma_times_contains(rest, t);
        if rest.contains(t) {
            let i = choose|i: int| 0 <= i < rest.len() && rest[i] == t;
            assert(list[i] == t);
        }
        if list.last() == t {
            assert(list[list.len() - 1] == t);
        }
        if list.contains(t) && list.last() != t {
            let i = choose|i: int| 0 <= i < list.len() && list[i] == t;
            assert(rest[i] == t);
        }
    }
}

proof fn lemma_calls_times(tools: Seq<Seq<char>>, calls: Seq<CallView>, t: Seq<char>)
    ensures
        ({
            let now = times(with_calls(tools, calls), t);
            let before = times(tools, t);
            let labelled = exists|c: int|
                0 <= c < calls.len() && call_label((#[trigger] calls[c]).name, json_text(calls[c].arguments)) == t;
            now == (if before == 0 && labelled {
                1
            } else {
                before
            })
        }),
    decreases calls.len(),
{
    if calls.len() > 0 {
        let rest = calls.drop_last();
        let c = calls.last();
        let label = call_label(c.name, json_text(c.arguments));
        let mid = with_calls(tools, rest);
        lemma_calls_times(tools, rest, t);
        lemma_times_contains(mid, label);
        lemma_times_push(mid, label, t);
        if exists|k: int|
            0 <= k < rest.len() && call_label((#[trigger] rest[k]).name, json_text(rest[k].arguments)) == t {
            let k = choose|k: int|
                0 <= k < rest.len() && call_label((#[trigger] rest[k]).name, json_text(rest[k].arguments)) == t;
            assert(calls[k] == rest[k]);
        }
        if exists|k: int|
            0 <= k < calls.len() && call_label((#[trigger] calls[k]).name, json_text(calls[k].arguments)) == t {
            let k = choose|k: int|
                0 <= k < calls.len() && call_label((#[trigger] calls[k]).name, json_text(calls[k].arguments)) == t;
            if k < rest.len() {
                assert(rest[k] == calls[k]);
            }
        }
        if label == t {
            assert(calls[calls.len() - 1] == c);
        }
    }
}

proof fn lemma_round_times(msgs: Seq<MessageView>, t: Seq<char>)
    ensures
        t == "FAILED"@ && !labels_a_call(msgs, t) ==> times(round_of(msgs).tools, t) == failures(msgs),
        t != "FAILED"@ ==> times(round_of(msgs).tools, t) == (if labels_a_call(msgs, t) {
            1nat
        } else {
            0
        }),
    decreases msgs.len(),
{
    if msgs.len() > 0 {
        let rest = msgs.drop_last();
        let m = msgs.last();
        let before = round_of(rest).tools;
        lemma_round_times(rest, t);
        lemma_times_push(before, "FAILED"@, t);
        assert(labels_a_call(rest, t) ==> labels_a_call(msgs, t)) by {
            if labels_a_call(rest, t) {
                let (i, c) = choose|i: int, c: int| #[trigger] is_labelled(rest, i, c, t);
                assert(is_labelled(msgs, i, c, t));
            }
        }
        if m.content is Calls {
            let calls = m.calls();
            lemma_calls_times(before, calls, t);
            if exists|c: int|
                0 <= c < calls.len() && call_label((#[trigger] calls[c]).name, json_text(calls[c].arguments)) == t {
                let c = choose|c: int|
                    0 <= c < calls.len() && call_label((#[trigger] calls[c]).name, json_text(calls[c].arguments)) == t;
                assert(is_labelled(msgs, msgs.len() - 1, c, t));
            }
        }
        if labels_a_call(msgs, t) && !labels_a_call(rest, t) {
            let (i, c) = choose|i: int, c: int| #[trigger] is_labelled(msgs, i, c, t);
            if i < rest.len() {
                assert(is_labelled(rest, i, c, t));
            }
            assert(m.content is Calls);
            assert(call_label(m.calls()[c].name, json_text(m.calls()[c].arguments)) == t);
        }
    }
}

/// A summary marks each failure of its round and no success: where no call is labelled
/// so, the mark stands among the tools as often as a result of the round failed.
pub proof fn summaries_mark_failures(msgs: Seq<MessageView>)
    requires
        !labels_a_call(msgs, "FAILED"@),
    ensures
        times(round_of(msgs).tools, "FAILED"@) == failures(msgs),
        (forall|i: int| 0 <= i < msgs.len() && (#[trigger] msgs[i]).content is Output ==> msgs[i].content->Output_0.success)
            ==> times(round_of(msgs).tools, "FAILED"@) == 0,
{
    lemma_round_times(msgs, "FAILED"@);
    if forall|i: int| 0 <= i < msgs.len() && (#[trigger] msgs[i]).content is Output ==> msgs[i].content->Output_0.success {
        lemma_no_failures(msgs);
    }
}

proof fn lemma_no_failures(msgs: Seq<MessageView>)
    requires
        forall|i: int| 0 <= i < msgs.len() ==> !is_failure(#[trigger] msgs[i]),
    ensures
        failures(msgs) == 0,
    decreases msgs.len(),
{
    if msgs.len() > 0 {
        let rest = msgs.drop_last();
        assert forall|i: int| 0 <= i < rest.len() implies !is_failure(#[trigger] rest[i]) by {
            assert(rest[i] == msgs[i]);
        }
        lemma_no_failures(rest);
        assert(!is_failure(msgs[msgs.len() - 1]));
    }
}

/// A summary names every call of its round once, however often it was made, and
/// nothing that is no call but the mark of a failure.
pub proof fn summaries_name_each_call_once(msgs: Seq<MessageView>, t: Seq<char>)
    requires
        t != "FAILED"@,
    ensures
        times(round_of(msgs).tools, t) == (if labels_a_call(msgs, t) {
            1nat
        } else {
            0
        }),
{
    lemma_round_times(msgs, t);
}

// ---- Where to cut ----

/// Whether a message opens a round.
pub open spec fn opens_round(m: MessageView) -> bool {
    m.role == Role::User || m.role == Role::Assistant
}

/// The start of the last round among the first `n` messages.
pub open spec fn last_round(msgs: Seq<MessageView>, n: nat) -> nat
    decreases n,
{
    if n == 0 || n > msgs.len() {
        0
    } else if opens_round(msgs[n - 1]) {
        (n - 1) as nat
    } else {
        last_round(msgs, (n - 1) as nat)
    }
}

/// The first start of a round in `from..limit`, or `limit`.
pub open spec fn next_round(msgs: Seq<MessageView>, from: nat, limit: nat) -> nat
    decreases limit - from,
{
    if from >= limit || from >= msgs.len() {
        limit
    } else if opens_round(msgs[from as int]) {
        from
    } else {
        next_round(msgs, from + 1, limit)
    }
}

pub proof fn lemma_next_round_range(msgs: Seq<MessageView>, from: nat, limit: nat)
    ensures
        from <= limit ==> from <= next_round(msgs, from, limit) <= limit,
    decreases limit - from,
{
    if from >= limit || from >= msgs.len() {
    } else if !opens_round(msgs[from as int]) {
        lemma_next_round_range(msgs, from + 1, limit);
    }
}

/// The cut moved forward by whole rounds, up to `limit`, until what is kept
/// fits `ceiling` tokens.
pub open spec fn fitting_cut(msgs: Seq<MessageView>, cut: nat, limit: nat, ceiling: nat) -> nat
    decreases limit - cut,
{
    if cut >= limit || sat(total(msgs.skip(cut as int))) <= ceiling {
        cut
    } else {
        proof {
            lemma_next_round_range(msgs, cut + 1, limit);
        }
        fitting_cut(msgs, next_round(msgs, cut + 1, limit), limit, ceiling)
    }
}

/// How many messages a compression removes, before the check that some stay.
pub open spec fn compression_cut(msgs: Seq<MessageView>, ceiling: nat) -> nat {
    let floor: nat = if msgs.len() > KEEP_MESSAGES {
        (msgs.len() - KEEP_MESSAGES) as nat
    } else {
        0
    };
    let cut = fitting_cut(msgs, floor, last_round(msgs, msgs.len()), ceiling);
    cut + result_run(msgs.skip(cut as int))
}

/// The summary lines of `msgs`, numbered from `num + 1`.
pub open spec fn round_lines(msgs: Seq<MessageView>, num: nat) -> Seq<char>
    decreases msgs.len(),
{
    if msgs.len() == 0 {
        Seq::empty()
    } else {
        let end = next_round(msgs, 1, msgs.len());
        proof {
            lemma_next_round_range(msgs, 1, msgs.len());
        }
        round_line(num + 1, round_of(msgs.take(end as int))) + seq!['\n'] + round_lines(
            msgs.skip(end as int),
            num + 1,
        )
    }
}

/// The summary of what a compression removes, and how many messages that is.
pub open spec fn compression_content(msgs: Seq<MessageView>, ceiling: nat) -> (Seq<char>, nat) {
    let cut = compression_cut(msgs, ceiling);
    if cut >= msgs.len() {
        (Seq::empty(), 0)
    } else {
        (round_lines(msgs.take(cut as int), 0), cut)
    }
}

fn opens(m: &Message) -> (r: bool)
    ensures
        r == opens_round(m@),
{
    m.role == Role::User || m.role == Role::Assistant
}

/// The first start of a round in `from..limit`, or `limit`.
fn find_round(msgs: &[Message], from: usize, limit: usize) -> (r: usize)
    requires
        limit <= msgs.len(),
    ensures
        r == next_round(views(msgs@), from as nat, limit as nat),
        from <= limit ==> from <= r <= limit,
{
    let ghost all = views(msgs@);
    let mut i: usize = from;
    while i < limit
        invariant
            from <= limit ==> i <= limit,
            from <= i,
            limit <= msgs.len(),
            all == views(msgs@),
            next_round(all, from as nat, limit as nat) == next_round(all, i as nat, limit as nat),
        decreases limit - i,
    {
        assert(all[i as int] == msgs@[i as int]@);
        if opens(&msgs[i]) {
            return i;
        }
        i = i + 1;
    }
    limit
}

/// Summarises the rounds that a compression removes: all but the latest
/// messages, and more where those do not fit `keep_ceiling` tokens. The last
/// round stays, and a result goes together with its call.
pub fn build_compression_content(conv: &Conversation, keep_ceiling: usize) -> (r: (String, usize))
    ensures
        (r.0@, r.1 as nat) == compression_content(conv@.messages, keep_ceiling as nat),
        r.1 > 0 ==> r.1 < conv@.messages.len() && !conv@.messages[r.1 as int].is_result(),
{
    let msgs = &conv.messages;
    let n = msgs.len();
    let ghost all = views(msgs@);
    let mut last: usize = 0;
    let mut k: usize = n;
    let mut found = false;
    while k > 0 && !found
        invariant
            k <= n == msgs.len(),
            all == views(msgs@),
            found ==> last == last_round(all, n as nat),
            !found ==> last == 0 && last_round(all, n as nat) == last_round(all, k as nat),
            last <= n,
        decreases k + (if found { 0int } else { 1int }),
    {
        assert(all[k - 1] == msgs@[k - 1]@);
        if opens(&msgs[k - 1]) {
            last = k - 1;
            found = true;
        } else {
            k = k - 1;
        }
    }
    let floor: usize = if n > KEEP_MESSAGES { n - KEEP_MESSAGES } else { 0 };
    let mut cut: usize = floor;
    let mut fits = false;
    while cut < last && !fits
        invariant
            cut <= n == msgs.len(),
            last <= n,
            all == views(msgs@),
            fitting_cut(all, floor as nat, last as nat, keep_ceiling as nat) == fitting_cut(
                all,
                cut as nat,
                last as nat,
                keep_ceiling as nat,
            ),
            fits ==> sat(total(all.skip(cut as int))) <= keep_ceiling,
        decreases last - cut + (if fits { 0int } else { 1int }),
    {
        let tail = total_tokens(msgs, cut, n);
        assert(all.subrange(cut as int, n as int) =~= all.skip(cut as int));
        if tail <= keep_ceiling {
            fits = true;
        } else {
            cut = find_round(msgs.as_slice(), cut + 1, last);
        }
    }
    let ghost fitted = cut;
    assert(fitted == fitting_cut(all, floor as nat, last as nat, keep_ceiling as nat));
    assert(all.skip(cut as int).len() == n - cut);
    while cut < n && message_is_result(&msgs[cut])
        invariant
            fitted <= cut <= n == msgs.len(),
            all == views(msgs@),
            cut + result_run(all.skip(cut as int)) == fitted + result_run(all.skip(fitted as int)),
        decreases n - cut,
    {
        assert(all.skip(cut as int)[0] == msgs@[cut as int]@);
        assert(all.skip(cut as int).drop_first() =~= all.skip(cut + 1));
        cut = cut + 1;
    }
    if cut >= n {
        return (String::new(), 0);
    }
    assert(all.skip(cut as int)[0] == msgs@[cut as int]@);
    assert(all[cut as int] == msgs@[cut as int]@);
    let mut content = String::new();
    let mut round: usize = 0;
    let mut i: usize = 0;
    let ghost gone = all.take(cut as int);
    let removed = slice_subrange(msgs.as_slice(), 0, cut);
    assert(views(removed@) =~= gone);
    assert(gone.skip(0) =~= gone);
    assert(content@ + round_lines(gone, 0) =~= round_lines(gone, 0));
    while i < cut
        invariant
            i <= cut == removed.len(),
            round <= i,
            gone == views(removed@),
            content@ + round_lines(gone.skip(i as int), round as nat) == round_lines(gone, 0),
        decreases cut - i,
    {
        let end = find_round(removed, i + 1, cut);
        let ghost rest = gone.skip(i as int);
        proof {
            lemma_next_round_shift(gone, i as nat, 1, rest.len());
            assert(end - i == next_round(rest, 1, rest.len()));
            assert(rest.take(end - i) =~= gone.subrange(i as int, end as int));
            assert(rest.skip(end - i) =~= gone.skip(end as int));
        }
        round = round + 1;
        let turn = slice_subrange(removed, i, end);
        assert(views(turn@) =~= gone.subrange(i as int, end as int));
        let line = compress_turn(round, turn);
        let ghost was = content@;
        content.append(line.as_str());
        content.push('\n');
        i = end;
        assert(content@ + round_lines(gone.skip(i as int), round as nat) =~= was + round_lines(
            rest,
            (round - 1) as nat,
        ));
    }
    assert(content@ + round_lines(gone.skip(i as int), round as nat) =~= content@);
    (content, cut)
}

proof fn lemma_next_round_shift(msgs: Seq<MessageView>, k: nat, from: nat, limit: nat)
    requires
        k <= msgs.len(),
        limit == msgs.len() - k,
    ensures
        next_round(msgs, k + from, k + limit) == k + next_round(msgs.skip(k as int), from, limit),
    decreases limit - from,
{
    if from < limit {
        assert(msgs.skip(k as int)[from as int] == msgs[(k + from) as int]);
        lemma_next_round_shift(msgs, k, from + 1, limit);
    }
}

proof fn lemma_fitting_range(msgs: Seq<MessageView>, cut: nat, limit: nat, ceiling: nat)
    ensures
        cut <= fitting_cut(msgs, cut, limit, ceiling),
        cut <= limit ==> fitting_cut(msgs, cut, limit, ceiling) <= limit,
        sat(total(msgs.skip(fitting_cut(msgs, cut, limit, ceiling) as int))) <= ceiling
            || fitting_cut(msgs, cut, limit, ceiling) >= limit,
    decreases limit - cut,
{
    if cut >= limit || sat(total(msgs.skip(cut as int))) <= ceiling {
    } else {
        lemma_next_round_range(msgs, cut + 1, limit);
        lemma_fitting_range(msgs, next_round(msgs, cut + 1, limit), limit, ceiling);
    }
}

proof fn lemma_last_round(msgs: Seq<MessageView>, n: nat)
    requires
        n <= msgs.len(),
    ensures
        last_round(msgs, n) <= n,
        n > 0 ==> last_round(msgs, n) < n,
    decreases n,
{
    if n > 0 && !opens_round(msgs[n - 1]) {
        lemma_last_round(msgs, (n - 1) as nat);
    }
}

/// A conversation with more than the kept number of messages, whose last round
/// opens with no tool result and lies among the kept messages, is cut no later
/// than its last round: the latest action always survives a compression.
pub proof fn compression_spares_the_last_round(msgs: Seq<MessageView>, ceiling: nat)
    requires
        msgs.len() > 0,
        last_round(msgs, msgs.len()) + KEEP_MESSAGES >= msgs.len(),
        !msgs[last_round(msgs, msgs.len()) as int].is_result(),
    ensures
        compression_content(msgs, ceiling).1 <= last_round(msgs, msgs.len()),
{
    let last = last_round(msgs, msgs.len());
    lemma_last_round(msgs, msgs.len());
    let floor: nat = if msgs.len() > KEEP_MESSAGES {
        (msgs.len() - KEEP_MESSAGES) as nat
    } else {
        0
    };
    lemma_fitting_range(msgs, floor, last, ceiling);
    let cut = fitting_cut(msgs, floor, last, ceiling);
    let tail = msgs.skip(cut as int);
    lemma_run_bound(tail);
    if result_run(tail) > last - cut {
        assert(tail[last - cut] == msgs[last as int]);
        assert(false);
    }
}

/// What a compression keeps fits the ceiling, unless it is no more than the
/// last round or what the count of kept messages leaves of it.
pub proof fn compression_fits_the_ceiling(msgs: Seq<MessageView>, ceiling: nat)
    ensures
        ({
            let cut = compression_cut(msgs, ceiling);
            cut < last_round(msgs, msgs.len()) ==> sat(total(msgs.skip(cut as int))) <= ceiling
        }),
{
    let last = last_round(msgs, msgs.len());
    let floor: nat = if msgs.len() > KEEP_MESSAGES {
        (msgs.len() - KEEP_MESSAGES) as nat
    } else {
        0
    };
    lemma_fitting_range(msgs, floor, last, ceiling);
    let cut = fitting_cut(msgs, floor, last, ceiling);
    let end = compression_cut(msgs, ceiling);
    if end < last {
        lemma_last_round(msgs, msgs.len());
        lemma_run_bound(msgs.skip(cut as int));
        lemma_total_suffix(msgs.skip(cut as int), (end - cut) as int);
        assert(msgs.skip(cut as int).skip(end - cut) =~= msgs.skip(end as int));
    }
}

/// Fewer messages are no more tokens.
pub proof fn lemma_total_suffix(msgs: Seq<MessageView>, k: int)
    requires
        0 <= k <= msgs.len(),
    ensures
        total(msgs.skip(k)) <= total(msgs),
    decreases msgs.len(),
{
    if msgs.len() > 0 {
        if k == msgs.len() {
            assert(msgs.skip(k).len() == 0);
        } else {
            lemma_total_suffix(msgs.drop_last(), k);
            assert(msgs.skip(k).drop_last() =~= msgs.drop_last().skip(k));
        }
    }
}

// ---- What summaries and cuts promise ----

/// A window of more than 100000 tokens keeps 13000 free, one from 20000 tokens on 5000,
/// and a smaller one a quarter of itself.
pub proof fn headroom_of_windows(token_budget: nat)
    ensures
        token_budget > 100_000 ==> threshold(token_budget) == token_budget - 13_000,
        20_000 <= token_budget <= 100_000 ==> threshold(token_budget) == token_budget - 5_000,
        token_budget < 20_000 ==> threshold(token_budget) == token_budget - token_budget / 4,
{
}

/// A conversation is compressed once it has 12 messages and they and the system prompt
/// are over the threshold; more messages never make it less due.
pub proof fn compression_stays_due(msgs: Seq<MessageView>, more: Seq<MessageView>, prompt: nat, token_budget: nat)
    requires
        prompt + total(msgs + more) <= usize::MAX,
    ensures
        msgs.len() < 12 ==> !compression_due(msgs, prompt, token_budget),
        prompt + total(msgs) <= threshold(token_budget) ==> !compression_due(msgs, prompt, token_budget),
        msgs.len() >= 12 && prompt + total(msgs) > threshold(token_budget) ==> compression_due(
            msgs,
            prompt,
            token_budget,
        ),
        compression_due(msgs, prompt, token_budget) ==> compression_due(msgs + more, prompt, token_budget),
{
    lemma_total_sum(msgs, more);
}

proof fn lemma_total_sum(a: Seq<MessageView>, b: Seq<MessageView>)
    ensures
        total(a + b) == total(a) + total(b),
    decreases b.len(),
{
    if b.len() == 0 {
        assert(a + b =~= a);
    } else {
        lemma_total_sum(a, b.drop_last());
        assert((a + b).drop_last() =~= a + b.drop_last());
    }
}

/// A call that names a file is labelled by what it does and the last part of the path;
/// a search by its pattern and a command by its start. A call whose arguments do not
/// read, and one of any other tool, is labelled by the tool alone.
pub proof fn labels_say_what_a_call_touches(
    args: JsonView,
    path: Seq<char>,
    pattern: Seq<char>,
    command: Seq<char>,
    tool: Seq<char>,
)
    requires
        args.text_at("file_path"@) == Some(path),
        file_name(path) is Some,
        args.text_at("pattern"@) == Some(pattern),
        args.text_at("command"@) == Some(command),
    ensures
        call_label("read_file"@, Some(args)) == "read "@ + file_name(path)->0,
        call_label("edit_file"@, Some(args)) == "edit "@ + file_name(path)->0,
        call_label("write_file"@, Some(args)) == "write "@ + file_name(path)->0,
        call_label("grep"@, Some(args)) == "grep("@ + pattern + ")"@,
        command.len() <= 30 ==> call_label("bash"@, Some(args)) == "bash("@ + command + ")"@,
        command.len() > 30 ==> call_label("bash"@, Some(args)) == "bash("@ + command.take(30) + ")"@,
        call_label(tool, None) == tool,
        tool != "read_file"@ && tool != "edit_file"@ && tool != "write_file"@ && tool != "grep"@ && tool != "bash"@
            ==> call_label(tool, Some(args)) == tool,
{
    reveal_strlit("read_file");
    reveal_strlit("edit_file");
    reveal_strlit("write_file");
    reveal_strlit("grep");
    reveal_strlit("bash");
    assert("read_file"@[0] != "edit_file"@[0]);
    assert("grep"@[0] != "bash"@[0]);
}

/// Whether a message is a request that a summary quotes: a text of the user that does
/// not start with a bracket.
pub open spec fn is_quoted(m: MessageView) -> bool {
    m.role == Role::User && m.content is Text && (m.content->Text_0.len() == 0 || m.content->Text_0[0] != '[')
}

/// A summary quotes the last request of its round: whole where it has no more than 60
/// characters, else its first 57 and an ellipsis.
pub proof fn summaries_quote_the_last_request(msgs: Seq<MessageView>, i: int)
    requires
        0 <= i < msgs.len(),
        is_quoted(msgs[i]),
        forall|k: int| i < k < msgs.len() ==> !is_quoted(#[trigger] msgs[k]),
    ensures
        ({
            let t = msgs[i].content->Text_0;
            round_of(msgs).user == (if t.len() <= 60 {
                t
            } else {
                t.take(57) + "..."@
            })
        }),
    decreases msgs.len(),
{
    reveal_strlit("[");
    assert("["@ =~= seq!['[']);
    let last = msgs.last();
    assert(last == msgs[msgs.len() - 1]);
    if last.content is Text {
        let t = last.content->Text_0;
        if starts_with(t, "["@) {
            assert(t.subrange(0, 1)[0] == t[0]);
        } else if t.len() > 0 && t[0] == '[' {
            assert(t.subrange(0, 1) =~= seq!['[']);
            assert(starts_with(t, "["@));
        }
    }
    if i < msgs.len() - 1 {
        let t = msgs.drop_last();
        assert(t[i] == msgs[i]);
        assert forall|k: int| i < k < t.len() implies !is_quoted(#[trigger] t[k]) by {
            assert(t[k] == msgs[k]);
        }
        summaries_quote_the_last_request(t, i);
    }
}

/// A summary keeps the start of what was first concluded: all of it up to 80
/// characters, else the first 77 and an ellipsis.
pub proof fn summaries_keep_the_start_of_a_conclusion(msgs: Seq<MessageView>, i: int)
    requires
        0 <= i < msgs.len(),
        concludes(msgs[i]),
        forall|k: int| 0 <= k < i ==> !concludes(#[trigger] msgs[k]),
    ensures
        ({
            let t = trim(match msgs[i].content {
                ContentView::Text(t) => t,
                ContentView::Calls { text, .. } => text->0,
                _ => Seq::empty(),
            });
            round_of(msgs).assistant == (if t.len() <= 80 {
                t
            } else {
                t.take(77) + "..."@
            })
        }),
{
    summary_keeps_first_conclusion(msgs, i);
}

/// A summary line has the number of its round, the request in quotes, the conclusion in
/// brackets, and at its end the tools, or that there were none.
pub proof fn summary_lines_tell_the_round(num: nat, r: RoundView)
    ensures
        ({
            let line = round_line(num, r);
            let end = "→ "@ + (if r.tools.len() == 0 {
                "no tools"@
            } else {
                join(r.tools, ", "@)
            });
            &&& starts_with(line, "- Turn "@ + decimal(num) + ": "@)
            &&& line.len() >= end.len() && line.skip(line.len() - end.len()) == end
            &&& r.user.len() > 0 ==> contains(line, "\""@ + r.user + "\""@)
            &&& r.assistant.len() > 0 ==> contains(line, "["@ + r.assistant + "]"@)
        }),
{
    let line = round_line(num, r);
    let head = "- Turn "@ + decimal(num) + ": "@;
    let asked = if r.user.len() > 0 {
        "\""@ + r.user + "\" "@
    } else {
        Seq::empty()
    };
    let found = if r.assistant.len() > 0 {
        "["@ + r.assistant + "] "@
    } else {
        Seq::empty()
    };
    let tools = if r.tools.len() == 0 {
        "no tools"@
    } else {
        join(r.tools, ", "@)
    };
    let end = "→ "@ + tools;
    assert(line =~= head + asked + found + end);
    lemma_four_parts(head, asked, found, end);
    if r.user.len() > 0 {
        reveal_strlit("\" ");
        reveal_strlit("\"");
        assert("\" "@ =~= "\""@ + seq![' ']);
        lemma_quoted(head, "\""@ + r.user + "\""@, found + end);
        assert(asked =~= "\""@ + r.user + "\""@ + seq![' ']);
        assert(head + asked + (found + end) =~= head + asked + found + end);
    }
    if r.assistant.len() > 0 {
        reveal_strlit("] ");
        reveal_strlit("]");
        assert("] "@ =~= "]"@ + seq![' ']);
        lemma_quoted(head + asked, "["@ + r.assistant + "]"@, end);
        assert(found =~= "["@ + r.assistant + "]"@ + seq![' ']);
    }
}

proof fn lemma_four_parts(a: Seq<char>, b: Seq<char>, c: Seq<char>, d: Seq<char>)
    ensures
        starts_with(a + b + c + d, a),
        (a + b + c + d).len() >= d.len(),
        (a + b + c + d).skip((a + b + c + d).len() - d.len()) == d,
{
    let s = a + b + c + d;
    assert(s.subrange(0, a.len() as int) =~= a);
    assert(s.skip(s.len() - d.len()) =~= d);
}

proof fn lemma_quoted(a: Seq<char>, q: Seq<char>, b: Seq<char>)
    ensures
        contains(a + (q + seq![' ']) + b, q),
{
    lemma_contains_itself(q);
    lemma_contains_within(a, q, seq![' '] + b, q);
    assert(a + q + (seq![' '] + b) =~= a + (q + seq![' ']) + b);
}

/// A compression that removes anything keeps no more than the 20 latest messages, and
/// removes no more than it must: where those fit the ceiling, it cuts right before them,
/// or after the results that stand there; and at no earlier start of a round would what
/// is kept have fitted.
pub proof fn compression_removes_no_more_than_it_must(msgs: Seq<MessageView>, ceiling: nat, b: int)
    requires
        total(msgs) <= usize::MAX,
        0 <= b < compression_cut(msgs, ceiling),
        b < msgs.len(),
        b + 20 >= msgs.len(),
        b + 20 == msgs.len() || b == 0 || msgs[b].role == Role::User || msgs[b].role == Role::Assistant,
        !msgs[b].is_result(),
    ensures
        total(msgs.skip(b)) > ceiling,
{
    let last = last_round(msgs, msgs.len());
    let floor: nat = if msgs.len() > KEEP_MESSAGES {
        (msgs.len() - KEEP_MESSAGES) as nat
    } else {
        0
    };
    let cut = fitting_cut(msgs, floor, last, ceiling);
    lemma_run_bound(msgs.skip(cut as int));
    lemma_fitting_range(msgs, floor, last, ceiling);
    lemma_last_round(msgs, msgs.len());
    if b >= cut {
        assert(msgs.skip(cut as int)[b - cut] == msgs[b]);
    }
    if floor <= last {
        lemma_skipped_cuts(msgs, floor, last, ceiling, b as nat);
    }
    lemma_total_suffix(msgs, b);
}

proof fn lemma_skipped_cuts(msgs: Seq<MessageView>, cut: nat, limit: nat, ceiling: nat, b: nat)
    requires
        cut <= b < fitting_cut(msgs, cut, limit, ceiling),
        b < msgs.len(),
        b == cut || opens_round(msgs[b as int]),
    ensures
        sat(total(msgs.skip(b as int))) > ceiling,
    decreases limit - cut,
{
    if cut >= limit || sat(total(msgs.skip(cut as int))) <= ceiling {
    } else if b > cut {
        let next = next_round(msgs, cut + 1, limit);
        lemma_next_round_range(msgs, cut + 1, limit);
        if b < next {
            lemma_next_round_skips(msgs, cut + 1, limit, b);
        } else {
            lemma_skipped_cuts(msgs, next, limit, ceiling, b);
        }
    }
}

proof fn lemma_next_round_skips(msgs: Seq<MessageView>, from: nat, limit: nat, b: nat)
    requires
        from <= b < next_round(msgs, from, limit),
        b < msgs.len(),
        b < limit,
    ensures
        !opens_round(msgs[b as int]),
    decreases limit - from,
{
    if from < limit && from < msgs.len() && !opens_round(msgs[from as int]) && from < b {
        lemma_next_round_skips(msgs, from + 1, limit, b);
    }
}

/// Where the 20 latest messages fit the ceiling and do not start with a result, exactly
/// the others are removed; a conversation of no more than 20 that fits loses nothing.
pub proof fn compression_keeps_the_latest_messages(msgs: Seq<MessageView>, ceiling: nat)
    requires
        msgs.len() > 0,
    ensures
        ({
            let floor = if msgs.len() > 20 {
                msgs.len() - 20
            } else {
                0
            };
            &&& total(msgs.skip(floor)) <= ceiling && !msgs[floor].is_result() ==> compression_content(
                msgs,
                ceiling,
            ).1 == floor
            &&& compression_content(msgs, ceiling).1 == 0 || compression_content(msgs, ceiling).1 >= floor
        }),
{
    let floor = if msgs.len() > 20 {
        msgs.len() - 20
    } else {
        0
    };
    let last = last_round(msgs, msgs.len());
    lemma_fitting_range(msgs, floor as nat, last, ceiling);
    assert(msgs.skip(floor)[0] == msgs[floor]);
}

/// The summary of rounds is the summaries of its parts: cut at any start of a round, the
/// lines of the first part come first, and the numbers go on from there.
pub proof fn summaries_go_round_by_round(msgs: Seq<MessageView>, num: nat, i: int)
    requires
        0 < i < msgs.len(),
        msgs[i].role == Role::User || msgs[i].role == Role::Assistant,
    ensures
        round_lines(msgs, num) == round_lines(msgs.take(i), num) + round_lines(
            msgs.skip(i),
            num + rounds(msgs.take(i)),
        ),
    decreases msgs.len(),
{
    let n = msgs.len();
    let end = next_round(msgs, 1, n) as int;
    lemma_next_round_range(msgs, 1, n);
    if end > i {
        lemma_next_round_skips(msgs, 1, n, i as nat);
    }
    lemma_next_round_front(msgs, 1, i as nat);
    let first = msgs.take(i);
    let end_first = next_round(first, 1, i as nat) as int;
    assert(end_first == end);
    assert(first.take(end) =~= msgs.take(end));
    assert(first.skip(end) =~= msgs.skip(end).take(i - end));
    if end < i {
        let rest = msgs.skip(end);
        assert(rest[i - end] == msgs[i]);
        summaries_go_round_by_round(rest, num + 1, i - end);
        assert(rest.skip(i - end) =~= msgs.skip(i));
        let line = round_line(num + 1, round_of(msgs.take(end))) + seq!['\n'];
        let later = round_lines(msgs.skip(i), num + rounds(first));
        assert(line + (round_lines(first.skip(end), num + 1) + later) =~= line + round_lines(
            first.skip(end),
            num + 1,
        ) + later);
    } else {
        assert(first.skip(end).len() == 0);
        assert(round_lines(first.skip(end), num + 1) =~= Seq::<char>::empty());
        assert(rounds(first.skip(end)) == 0);
    }
}

proof fn lemma_next_round_front(msgs: Seq<MessageView>, from: nat, i: nat)
    requires
        from <= i < msgs.len(),
        opens_round(msgs[i as int]),
    ensures
        next_round(msgs, from, msgs.len()) == next_round(msgs.take(i as int), from, i) <= i,
    decreases i - from,
{
    if from < i {
        assert(msgs.take(i as int)[from as int] == msgs[from as int]);
        if !opens_round(msgs[from as int]) {
            lemma_next_round_front(msgs, from + 1, i);
        }
    }
}

/// How many rounds messages make: one starts with the first, and with each of the user
/// or the assistant after it.
pub open spec fn rounds(msgs: Seq<MessageView>) -> nat
    decreases msgs.len(),
{
    if msgs.len() == 0 {
        0
    } else {
        let end = next_round(msgs, 1, msgs.len());
        proof {
            lemma_next_round_range(msgs, 1, msgs.len());
        }
        1 + rounds(msgs.skip(end as int))
    }
}

/// The summary of a single round is its line.
pub proof fn a_round_is_one_line(msgs: Seq<MessageView>, num: nat)
    requires
        msgs.len() > 0,
        forall|i: int|
            0 < i < msgs.len() ==> (#[trigger] msgs[i]).role != Role::User && msgs[i].role != Role::Assistant,
    ensures
        round_lines(msgs, num) == round_line(num + 1, round_of(msgs)).push('\n'),
        rounds(msgs) == 1,
{
    let end = next_round(msgs, 1, msgs.len());
    lemma_next_round_range(msgs, 1, msgs.len());
    if end < msgs.len() {
        lemma_next_round_opens(msgs, 1, msgs.len());
        assert(msgs[end as int].role != Role::User);
    }
    assert(msgs.take(end as int) =~= msgs);
    let none = msgs.skip(end as int);
    assert(none.len() == 0);
    assert(rounds(none) == 0);
    assert(round_lines(none, num + 1) =~= Seq::<char>::empty());
    assert(round_lines(msgs, num) =~= round_line(num + 1, round_of(msgs)).push('\n'));
}

proof fn lemma_next_round_opens(msgs: Seq<MessageView>, from: nat, limit: nat)
    requires
        next_round(msgs, from, limit) < limit,
    ensures
        next_round(msgs, from, limit) < msgs.len(),
        opens_round(msgs[next_round(msgs, from, limit) as int]),
    decreases limit - from,
{
    if from < limit && from < msgs.len() && !opens_round(msgs[from as int]) {
        lemma_next_round_opens(msgs, from + 1, limit);
    }
}

} // verus!
