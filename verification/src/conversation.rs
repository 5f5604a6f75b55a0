//! The conversation that context is rendered from: messages, tool calls and
//! their results, turns, and the summaries left behind by compression.

use vstd::prelude::*;
use vstd::string::*;

use crate::text::{
    byte_count, byte_len, contains, decimal, join, join_texts, joined_parts_are_kept, lemma_contains_within, lines,
    lines_of, opt, prefix, prefix_of, push_decimal, starts_with, texts,
};

verus! {

/// How many of the latest messages a compression keeps at full fidelity.
pub const KEEP_MESSAGES: usize = 20;

/// How many compression summaries are kept.
pub const MAX_COLD_SUMMARIES: usize = 3;

/// `n`, or the largest machine size where `n` does not fit one.
pub open spec fn sat(n: nat) -> nat {
    if n > usize::MAX {
        usize::MAX as nat
    } else {
        n
    }
}

#[derive(Debug, Clone, Copy, PartialEq, Eq, Structural)]
pub enum Role {
    System,
    User,
    Assistant,
    Tool,
}

/// One tool invocation asked for by the model.
#[derive(Debug)]
pub struct ToolCall {
    pub id: String,
    pub name: String,
    pub arguments: String,
}

/// What a tool gave back.
#[derive(Debug)]
pub struct ToolResult {
    pub call_id: String,
    pub output: String,
    pub success: bool,
}

/// A pointer to a tool result that is stored outside the conversation.
#[derive(Debug)]
pub struct ToolResultRef {
    pub call_id: String,
    pub hash: String,
    pub summary: String,
    pub byte_size: usize,
    pub success: bool,
}

#[derive(Debug)]
pub enum MessageContent {
    Text(String),
    AssistantWithToolCalls {
        text: Option<String>,
        tool_calls: Vec<ToolCall>,
        reasoning_content: Option<String>,
        thinking_blocks: Vec<String>,
    },
    ToolResult(ToolResult),
    ToolResultRef(ToolResultRef),
    MultiPart { parts: Vec<String> },
}

#[derive(Debug)]
pub struct Message {
    pub role: Role,
    pub content: MessageContent,
    /// Set on messages that the agent wrote on the user's behalf.
    pub synthetic: bool,
}

#[verifier::ext_equal]
pub struct CallView {
    pub id: Seq<char>,
    pub name: Seq<char>,
    pub arguments: Seq<char>,
}

#[verifier::ext_equal]
pub struct ResultView {
    pub call_id: Seq<char>,
    pub output: Seq<char>,
    pub success: bool,
}

#[verifier::ext_equal]
pub struct RefView {
    pub call_id: Seq<char>,
    pub hash: Seq<char>,
    pub summary: Seq<char>,
    pub byte_size: nat,
    pub success: bool,
}

#[verifier::ext_equal]
pub enum ContentView {
    Text(Seq<char>),
    Calls {
        text: Option<Seq<char>>,
        tool_calls: Seq<CallView>,
        reasoning_content: Option<Seq<char>>,
        thinking_blocks: Seq<Seq<char>>,
    },
    Output(ResultView),
    Stored(RefView),
    Parts(Seq<Seq<char>>),
}

#[verifier::ext_equal]
pub struct MessageView {
    pub role: Role,
    pub content: ContentView,
    pub synthetic: bool,
}

impl View for ToolCall {
    type V = CallView;

    open spec fn view(&self) -> CallView {
        CallView { id: self.id@, name: self.name@, arguments: self.arguments@ }
    }
}

impl View for ToolResult {
    type V = ResultView;

    open spec fn view(&self) -> ResultView {
        ResultView { call_id: self.call_id@, output: self.output@, success: self.success }
    }
}

impl View for ToolResultRef {
    type V = RefView;

    open spec fn view(&self) -> RefView {
        RefView {
            call_id: self.call_id@,
            hash: self.hash@,
            summary: self.summary@,
            byte_size: self.byte_size as nat,
            success: self.success,
        }
    }
}

pub open spec fn call_views(v: Seq<ToolCall>) -> Seq<CallView> {
    v.map_values(|c: ToolCall| c@)
}

impl View for MessageContent {
    type V = ContentView;

    open spec fn view(&self) -> ContentView {
        match *self {
            MessageContent::Text(t) => ContentView::Text(t@),
            MessageContent::AssistantWithToolCalls {
                text,
                tool_calls,
                reasoning_content,
                thinking_blocks,
            } => ContentView::Calls {
                text: opt(text),
                tool_calls: call_views(tool_calls@),
                reasoning_content: opt(reasoning_content),
                thinking_blocks: texts(thinking_blocks@),
            },
            MessageContent::ToolResult(r) => ContentView::Output(r@),
            MessageContent::ToolResultRef(r) => ContentView::Stored(r@),
            MessageContent::MultiPart { parts } => ContentView::Parts(texts(parts@)),
        }
    }
}

impl View for Message {
    type V = MessageView;

    open spec fn view(&self) -> MessageView {
        MessageView { role: self.role, content: self.content@, synthetic: self.synthetic }
    }
}

/// The views of a list of messages.
pub open spec fn views(v: Seq<Message>) -> Seq<MessageView> {
    v.map_values(|m: Message| m@)
}

pub open spec fn text_message(role: Role, text: Seq<char>) -> MessageView {
    MessageView { role, content: ContentView::Text(text), synthetic: false }
}

impl MessageView {
    /// Whether this carries the result of a tool, in full or by reference.
    pub open spec fn is_result(self) -> bool {
        self.content is Output || self.content is Stored
    }

    /// Whether this is an assistant's list of tool calls.
    pub open spec fn is_calls(self) -> bool {
        self.content is Calls
    }

    /// The tool calls of an assistant message.
    pub open spec fn calls(self) -> Seq<CallView> {
        self.content->tool_calls
    }

    /// The text of a plain text message.
    pub open spec fn plain(self) -> Option<Seq<char>> {
        match self.content {
            ContentView::Text(t) => Some(t),
            _ => None,
        }
    }

    /// The same message with another plain text.
    pub open spec fn with_text(self, t: Seq<char>) -> MessageView {
        MessageView { content: ContentView::Text(t), ..self }
    }
}

pub open spec fn opt_bytes(t: Option<Seq<char>>) -> nat {
    match t {
        Some(s) => byte_count(s),
        None => 0,
    }
}

pub open spec fn all_bytes(parts: Seq<Seq<char>>) -> nat
    decreases parts.len(),
{
    if parts.len() == 0 {
        0
    } else {
        all_bytes(parts.drop_last()) + byte_count(parts.last())
    }
}

pub open spec fn calls_bytes(calls: Seq<CallView>) -> nat
    decreases calls.len(),
{
    if calls.len() == 0 {
        0
    } else {
        calls_bytes(calls.drop_last()) + byte_count(calls.last().name) + byte_count(
            calls.last().arguments,
        )
    }
}

/// The bytes of a message that are sent to the model.
pub open spec fn weight(c: ContentView) -> nat {
    match c {
        ContentView::Text(t) => byte_count(t),
        ContentView::Calls { text, tool_calls, reasoning_content, thinking_blocks } => opt_bytes(text)
            + opt_bytes(reasoning_content) + calls_bytes(tool_calls) + all_bytes(thinking_blocks),
        ContentView::Output(r) => byte_count(r.output),
        ContentView::Stored(r) => byte_count(r.summary) + 10,
        ContentView::Parts(p) => all_bytes(p),
    }
}

/// The tokens that a message is counted as: a quarter of its bytes and four
/// for its frame.
pub open spec fn estimate(m: MessageView) -> nat {
    sat(weight(m.content)) / 4 + 4
}

/// The tokens of a list of messages.
pub open spec fn total(msgs: Seq<MessageView>) -> nat
    decreases msgs.len(),
{
    if msgs.len() == 0 {
        0
    } else {
        total(msgs.drop_last()) + estimate(msgs.last())
    }
}

impl Clone for ToolCall {
    fn clone(&self) -> (r: Self)
        ensures
            r@ == self@,
    {
        ToolCall { id: self.id.clone(), name: self.name.clone(), arguments: self.arguments.clone() }
    }
}

impl Clone for ToolResult {
    fn clone(&self) -> (r: Self)
        ensures
            r@ == self@,
    {
        ToolResult { call_id: self.call_id.clone(), output: self.output.clone(), success: self.success }
    }
}

impl Clone for ToolResultRef {
    fn clone(&self) -> (r: Self)
        ensures
            r@ == self@,
    {
        ToolResultRef {
            call_id: self.call_id.clone(),
            hash: self.hash.clone(),
            summary: self.summary.clone(),
            byte_size: self.byte_size,
            success: self.success,
        }
    }
}

pub fn clone_opt(s: &Option<String>) -> (r: Option<String>)
    ensures
        opt(r) == opt(*s),
{
    match s {
        Some(t) => Some(t.clone()),
        None => None,
    }
}

pub fn clone_texts(v: &Vec<String>) -> (r: Vec<String>)
    ensures
        texts(r@) == texts(v@),
{
    let mut out: Vec<String> = Vec::new();
    let mut i: usize = 0;
    while i < v.len()
        invariant
            i <= v.len(),
            out@.len() == i,
            forall|k: int| 0 <= k < i ==> #[trigger] out@[k]@ == v@[k]@,
        decreases v.len() - i,
    {
        out.push(v[i].clone());
        i = i + 1;
    }
    assert(texts(out@) =~= texts(v@));
    out
}

pub fn clone_calls(v: &Vec<ToolCall>) -> (r: Vec<ToolCall>)
    ensures
        call_views(r@) == call_views(v@),
{
    let mut out: Vec<ToolCall> = Vec::new();
    let mut i: usize = 0;
    while i < v.len()
        invariant
            i <= v.len(),
            out@.len() == i,
            forall|k: int| 0 <= k < i ==> #[trigger] out@[k]@ == v@[k]@,
        decreases v.len() - i,
    {
        out.push(v[i].clone());
        i = i + 1;
    }
    assert(call_views(out@) =~= call_views(v@));
    out
}

impl Clone for MessageContent {
    fn clone(&self) -> (r: Self)
        ensures
            r@ == self@,
    {
        match self {
            MessageContent::Text(t) => MessageContent::Text(t.clone()),
            MessageContent::AssistantWithToolCalls {
                text,
                tool_calls,
                reasoning_content,
                thinking_blocks,
            } => MessageContent::AssistantWithToolCalls {
                text: clone_opt(text),
                tool_calls: clone_calls(tool_calls),
                reasoning_content: clone_opt(reasoning_content),
                thinking_blocks: clone_texts(thinking_blocks),
            },
            MessageContent::ToolResult(r) => MessageContent::ToolResult(r.clone()),
            MessageContent::ToolResultRef(r) => MessageContent::ToolResultRef(r.clone()),
            MessageContent::MultiPart { parts } => MessageContent::MultiPart {
                parts: clone_texts(parts),
            },
        }
    }
}

impl Clone for Message {
    fn clone(&self) -> (r: Self)
        ensures
            r@ == self@,
    {
        Message { role: self.role, content: self.content.clone(), synthetic: self.synthetic }
    }
}

/// Appends clones of the messages `from..to` of `src`.
pub fn extend_messages(out: &mut Vec<Message>, src: &Vec<Message>, from: usize, to: usize)
    requires
        from <= to <= src.len(),
    ensures
        views(final(out)@) == views(old(out)@) + views(src@).subrange(from as int, to as int),
{
    let mut i: usize = from;
    while i < to
        invariant
            from <= i <= to <= src.len(),
            views(out@) == views(old(out)@) + views(src@).subrange(from as int, i as int),
        decreases to - i,
    {
        let ghost before = out@;
        out.push(src[i].clone());
        i = i + 1;
        assert(views(out@) =~= views(before).push(src@[i - 1]@));
        assert(views(src@).subrange(from as int, i as int) =~= views(src@).subrange(from as int, i - 1).push(
            src@[i - 1]@,
        ));
    }
    assert(views(out@) =~= views(old(out)@) + views(src@).subrange(from as int, to as int));
}

fn opt_len(s: &Option<String>) -> (n: usize)
    ensures
        n == opt_bytes(opt(*s)),
{
    match s {
        Some(t) => byte_len(t.as_str()),
        None => 0,
    }
}

fn texts_len(v: &Vec<String>) -> (n: usize)
    ensures
        n == sat(all_bytes(texts(v@))),
{
    let mut acc: usize = 0;
    let mut i: usize = 0;
    let ghost all = texts(v@);
    while i < v.len()
        invariant
            i <= v.len(),
            all == texts(v@),
            acc == sat(all_bytes(all.take(i as int))),
        decreases v.len() - i,
    {
        assert(all.take(i + 1).drop_last() =~= all.take(i as int));
        assert(all[i as int] == v@[i as int]@);
        acc = acc.saturating_add(byte_len(v[i].as_str()));
        i = i + 1;
    }
    assert(all.take(all.len() as int) =~= all);
    acc
}

fn calls_len(v: &Vec<ToolCall>) -> (n: usize)
    ensures
        n == sat(calls_bytes(call_views(v@))),
{
    let mut acc: usize = 0;
    let mut i: usize = 0;
    let ghost all = call_views(v@);
    while i < v.len()
        invariant
            i <= v.len(),
            all == call_views(v@),
            acc == sat(calls_bytes(all.take(i as int))),
        decreases v.len() - i,
    {
        assert(all.take(i + 1).drop_last() =~= all.take(i as int));
        assert(all[i as int] == v@[i as int]@);
        acc = acc.saturating_add(byte_len(v[i].name.as_str())).saturating_add(
            byte_len(v[i].arguments.as_str()),
        );
        i = i + 1;
    }
    assert(all.take(all.len() as int) =~= all);
    acc
}

impl Message {
    /// A plain text message.
    pub fn new(role: Role, text: &str) -> (r: Message)
        ensures
            r@ == text_message(role, text@),
    {
        Message { role, content: MessageContent::Text(text.to_owned()), synthetic: false }
    }

    /// The tokens that this message is counted as.
    pub fn estimate_tokens(&self) -> (n: usize)
        ensures
            n == estimate(self@),
    {
        let w: usize = match &self.content {
            MessageContent::Text(t) => byte_len(t.as_str()),
            MessageContent::AssistantWithToolCalls {
                text,
                tool_calls,
                reasoning_content,
                thinking_blocks,
            } => opt_len(text).saturating_add(opt_len(reasoning_content)).saturating_add(
                calls_len(tool_calls),
            ).saturating_add(texts_len(thinking_blocks)),
            MessageContent::ToolResult(r) => byte_len(r.output.as_str()),
            MessageContent::ToolResultRef(r) => byte_len(r.summary.as_str()).saturating_add(10),
            MessageContent::MultiPart { parts } => texts_len(parts),
        };
        w / 4 + 4
    }

    /// The text of a plain message, or the output of a tool result.
    pub fn text(&self) -> (r: Option<&str>)
        ensures
            match self@.content {
                ContentView::Text(t) => r is Some && r->0@ == t,
                ContentView::Output(o) => r is Some && r->0@ == o.output,
                _ => r is None,
            },
    {
        match &self.content {
            MessageContent::Text(t) => Some(t.as_str()),
            MessageContent::ToolResult(r) => Some(r.output.as_str()),
            _ => None,
        }
    }
}

/// How many lines of a file are kept when a reading of it is condensed.
pub const SKELETON_LINES: usize = 5;

/// How many characters of a line are kept when a result is condensed.
pub const CONDENSED_LINE: usize = 120;

pub open spec fn clipped(ls: Seq<Seq<char>>) -> Seq<Seq<char>> {
    ls.map_values(|l: Seq<char>| prefix(l, CONDENSED_LINE as nat))
}

/// A tool output cut down to its first line, or to the first few lines of a
/// file.
pub open spec fn condensed_output(tool: Seq<char>, output: Seq<char>) -> Seq<char> {
    let ls = lines(output);
    let kept: nat = if tool == "read_file"@ { SKELETON_LINES as nat } else { 1 };
    let shown = if ls.len() <= kept { ls } else { ls.take(kept as int) };
    "[condensed: "@ + decimal(ls.len()) + " lines]\n"@ + join(clipped(shown), "\n"@)
}

pub open spec fn condensed(m: MessageView, tool: Seq<char>) -> MessageView {
    match m.content {
        ContentView::Output(r) => MessageView {
            content: ContentView::Output(ResultView { output: condensed_output(tool, r.output), ..r }),
            ..m
        },
        _ => m,
    }
}

fn condense_text(tool: &str, output: &str) -> (r: String)
    ensures
        r@ == condensed_output(tool@, output@),
{
    let ls = lines_of(output);
    let ghost all = lines(output@);
    assert(texts(ls@).len() == ls@.len());
    let kept: usize = if crate::text::same(tool, "read_file") { SKELETON_LINES } else { 1 };
    let n: usize = if ls.len() <= kept { ls.len() } else { kept };
    let mut shown: Vec<String> = Vec::new();
    let mut i: usize = 0;
    while i < n
        invariant
            i <= n <= ls.len(),
            all == texts(ls@),
            texts(shown@) == clipped(all.take(i as int)),
        decreases n - i,
    {
        let ghost was = shown@;
        assert(all[i as int] == ls@[i as int]@);
        shown.push(prefix_of(ls[i].as_str(), CONDENSED_LINE));
        i = i + 1;
        assert(texts(shown@) =~= texts(was).push(prefix(all[i - 1], CONDENSED_LINE as nat)));
        assert(clipped(all.take(i as int)) =~= clipped(all.take(i - 1)).push(
            prefix(all[i - 1], CONDENSED_LINE as nat),
        ));
    }
    assert(all.len() <= kept ==> all.take(n as int) =~= all);
    let mut out = "[condensed: ".to_owned();
    push_decimal(&mut out, ls.len() as u64);
    out.append(" lines]\n");
    let body = join_texts(&shown, "\n");
    out.append(body.as_str());
    out
}

impl Message {
    /// A tool result cut down to what tells it apart; any other message as it
    /// is.
    pub fn condensed(&self, tool_name: &str) -> (r: Message)
        ensures
            r@ == condensed(self@, tool_name@),
    {
        match &self.content {
            MessageContent::ToolResult(t) => Message {
                role: self.role,
                content: MessageContent::ToolResult(
                    ToolResult {
                        call_id: t.call_id.clone(),
                        output: condense_text(tool_name, t.output.as_str()),
                        success: t.success,
                    },
                ),
                synthetic: self.synthetic,
            },
            _ => self.clone(),
        }
    }
}

/// The tokens of a list of messages.
pub fn total_tokens(msgs: &Vec<Message>, from: usize, to: usize) -> (n: usize)
    requires
        from <= to <= msgs.len(),
    ensures
        n == sat(total(views(msgs@).subrange(from as int, to as int))),
{
    let mut acc: usize = 0;
    let mut i: usize = from;
    let ghost all = views(msgs@);
    assert(all.subrange(from as int, from as int).len() == 0);
    while i < to
        invariant
            from <= i <= to <= msgs.len(),
            all == views(msgs@),
            acc == sat(total(all.subrange(from as int, i as int))),
        decreases to - i,
    {
        assert(all.subrange(from as int, i + 1).drop_last() =~= all.subrange(from as int, i as int));
        assert(all[i as int] == msgs@[i as int]@);
        acc = acc.saturating_add(msgs[i].estimate_tokens());
        i = i + 1;
    }
    acc
}

/// A user request and everything that answers it.
#[derive(Debug, Clone, Copy)]
pub struct Turn {
    pub start_idx: usize,
    /// How many messages the turn holds; the largest size while it is open.
    pub message_count: usize,
    /// Set once the request has been answered.
    pub complete: bool,
}

/// The message count of a turn that is still open.
pub const OPEN_TURN: usize = usize::MAX;

impl Turn {
    /// The index after the last message of the turn.
    pub open spec fn end(self) -> nat {
        sat((self.start_idx + self.message_count) as nat)
    }

    pub fn end_idx(&self) -> (r: usize)
        ensures
            r == self.end(),
    {
        self.start_idx.saturating_add(self.message_count)
    }
}

#[derive(Debug)]
pub struct TurnTracker {
    pub turns: Vec<Turn>,
}

/// `turns` with the last one closed at message `n`, if it was open.
pub open spec fn closed(turns: Seq<Turn>, n: nat) -> Seq<Turn> {
    if turns.len() > 0 && turns.last().message_count == OPEN_TURN {
        let t = turns.last();
        turns.drop_last().push(
            Turn {
                start_idx: t.start_idx,
                message_count: (if t.start_idx <= n { n - t.start_idx } else { 0 }) as usize,
                complete: true,
            },
        )
    } else {
        turns
    }
}

impl TurnTracker {
    /// Marks the latest turn as answered. It stays open for more messages.
    pub fn complete_current(&mut self)
        ensures
            old(self).turns@.len() == 0 ==> final(self).turns@ == old(self).turns@,
            old(self).turns@.len() > 0 ==> final(self).turns@ == old(self).turns@.drop_last().push(
                Turn { complete: true, ..old(self).turns@.last() },
            ),
    {
        let k = self.turns.len();
        if k > 0 {
            let turn = Turn {
                start_idx: self.turns[k - 1].start_idx,
                message_count: self.turns[k - 1].message_count,
                complete: true,
            };
            self.turns.truncate(k - 1);
            self.turns.push(turn);
        }
    }

    /// Closes the turn that is still open at message `n`.
    fn close_current(&mut self, n: usize)
        ensures
            final(self).turns@ == closed(old(self).turns@, n as nat),
    {
        let k = self.turns.len();
        if k > 0 && self.turns[k - 1].message_count == OPEN_TURN {
            let start = self.turns[k - 1].start_idx;
            let turn = Turn {
                start_idx: start,
                message_count: n.saturating_sub(start),
                complete: true,
            };
            self.turns.truncate(k - 1);
            self.turns.push(turn);
        }
    }
}

/// What a rendering did to the conversation.
#[derive(Debug, Clone, Copy, PartialEq, Eq, Structural)]
pub struct ContextStats {
    pub system_tokens: usize,
    pub sent_tokens: usize,
    pub dropped_tokens: usize,
    pub total_messages: usize,
}

pub open spec fn no_stats() -> ContextStats {
    ContextStats { system_tokens: 0, sent_tokens: 0, dropped_tokens: 0, total_messages: 0 }
}

impl Default for ContextStats {
    fn default() -> (r: Self)
        ensures
            r == no_stats(),
    {
        ContextStats { system_tokens: 0, sent_tokens: 0, dropped_tokens: 0, total_messages: 0 }
    }
}

#[derive(Debug)]
pub struct Conversation {
    pub messages: Vec<Message>,
    pub turn_tracker: TurnTracker,
    /// Summaries of compressed history, oldest first.
    pub cold_summaries: Vec<String>,
    /// Text of a reply that is still being streamed.
    pub pending: String,
}

#[verifier::ext_equal]
pub struct ConversationView {
    pub messages: Seq<MessageView>,
    pub turns: Seq<Turn>,
    pub cold_summaries: Seq<Seq<char>>,
    pub pending: Seq<char>,
}

impl View for Conversation {
    type V = ConversationView;

    open spec fn view(&self) -> ConversationView {
        ConversationView {
            messages: views(self.messages@),
            turns: self.turn_tracker.turns@,
            cold_summaries: texts(self.cold_summaries@),
            pending: self.pending@,
        }
    }
}

/// Whether `m` is a request that the user wrote.
pub open spec fn is_request(m: MessageView) -> bool {
    m.role == Role::User && m.content is Text && !m.synthetic
}

impl ConversationView {
    /// After the user said `text`: it extends an unanswered request, or opens
    /// a turn of its own.
    pub open spec fn said(self, text: Seq<char>) -> ConversationView {
        if self.messages.len() > 0 && self.messages.last().role == Role::User
            && self.messages.last().content is Text {
            let last = self.messages.last();
            ConversationView {
                messages: self.messages.drop_last().push(
                    last.with_text(last.plain()->0 + seq!['\n'] + text),
                ),
                ..self
            }
        } else {
            ConversationView {
                messages: self.messages.push(text_message(Role::User, text)),
                turns: closed(self.turns, self.messages.len()).push(
                    Turn { start_idx: self.messages.len() as usize, message_count: OPEN_TURN, complete: false },
                ),
                ..self
            }
        }
    }

    pub open spec fn with_message(self, m: MessageView) -> ConversationView {
        ConversationView { messages: self.messages.push(m), ..self }
    }
}

/// The position of the first request among the first `n` messages.
pub open spec fn first_request(msgs: Seq<MessageView>, n: nat) -> Option<int>
    decreases n,
{
    if n == 0 || n > msgs.len() {
        None
    } else {
        match first_request(msgs, (n - 1) as nat) {
            Some(i) => Some(i),
            None => if is_request(msgs[n - 1]) {
                Some(n - 1)
            } else {
                None
            },
        }
    }
}

/// One turn for every request: it starts there and ends where the next starts.
pub open spec fn turns_of(msgs: Seq<MessageView>) -> Seq<Turn>
    decreases msgs.len(),
{
    if msgs.len() == 0 {
        Seq::empty()
    } else {
        let before = turns_of(msgs.drop_last());
        if is_request(msgs.last()) {
            closed(before, (msgs.len() - 1) as nat).push(
                Turn { start_idx: (msgs.len() - 1) as usize, message_count: OPEN_TURN, complete: false },
            )
        } else {
            before
        }
    }
}

/// The messages that are left when the first `n` are compressed away: the
/// first request among them stays in front of the rest.
pub open spec fn survivors(msgs: Seq<MessageView>, n: nat) -> Seq<MessageView> {
    let k = if n <= msgs.len() { n } else { msgs.len() };
    match first_request(msgs, k) {
        Some(i) => seq![msgs[i]] + msgs.skip(k as int),
        None => msgs.skip(k as int),
    }
}

/// The latest summaries after `summary` joined them.
pub open spec fn colder(cold: Seq<Seq<char>>, summary: Seq<char>) -> Seq<Seq<char>> {
    let all = cold.push(summary);
    if all.len() > MAX_COLD_SUMMARIES {
        all.skip(all.len() - MAX_COLD_SUMMARIES)
    } else {
        all
    }
}

fn request(m: &Message) -> (r: bool)
    ensures
        r == is_request(m@),
{
    match &m.content {
        MessageContent::Text(_) => m.role == Role::User && !m.synthetic,
        _ => false,
    }
}

impl Conversation {
    pub fn new() -> (r: Conversation)
        ensures
            r@.messages == Seq::<MessageView>::empty(),
            r@.turns == Seq::<Turn>::empty(),
            r@.cold_summaries == Seq::<Seq<char>>::empty(),
            r@.pending == Seq::<char>::empty(),
    {
        let r = Conversation {
            messages: Vec::new(),
            turn_tracker: TurnTracker { turns: Vec::new() },
            cold_summaries: Vec::new(),
            pending: String::new(),
        };
        assert(views(r.messages@) =~= Seq::<MessageView>::empty());
        assert(texts(r.cold_summaries@) =~= Seq::<Seq<char>>::empty());
        r
    }

    /// Records what the user said.
    pub fn add_user_message(&mut self, text: &str)
        ensures
            final(self)@ == old(self)@.said(text@),
    {
        let n = self.messages.len();
        let ghost was = self.messages@;
        let mut extended: Option<String> = None;
        if n > 0 {
            assert(views(was).last() == was.last()@);
            match &self.messages[n - 1].content {
                MessageContent::Text(t) => {
                    if self.messages[n - 1].role == Role::User {
                        let mut s = t.clone();
                        s.push('\n');
                        s.append(text);
                        extended = Some(s);
                        assert(extended->0@ =~= t@ + seq!['\n'] + text@);
                    }
                },
                _ => {},
            }
        }
        match extended {
            Some(s) => {
                let synthetic = self.messages[n - 1].synthetic;
                self.messages.truncate(n - 1);
                self.messages.push(Message { role: Role::User, content: MessageContent::Text(s), synthetic });
                assert(views(self.messages@) =~= old(self)@.said(text@).messages);
            },
            None => {
                self.messages.push(Message::new(Role::User, text));
                assert(views(self.messages@) =~= views(was).push(text_message(Role::User, text@)));
                self.turn_tracker.close_current(n);
                self.turn_tracker.turns.push(Turn { start_idx: n, message_count: OPEN_TURN, complete: false });
            },
        }
    }

    /// Records a reply that calls tools.
    pub fn add_assistant_tool_calls(
        &mut self,
        text: Option<&str>,
        tool_calls: Vec<ToolCall>,
        reasoning_content: Option<&str>,
    )
        ensures
            final(self)@ == old(self)@.with_message(
                MessageView {
                    role: Role::Assistant,
                    content: ContentView::Calls {
                        text: match text { Some(t) => Some(t@), None => None },
                        tool_calls: call_views(tool_calls@),
                        reasoning_content: match reasoning_content { Some(t) => Some(t@), None => None },
                        thinking_blocks: Seq::empty(),
                    },
                    synthetic: false,
                },
            ),
    {
        let ghost was = self.messages@;
        let m = Message {
            role: Role::Assistant,
            content: MessageContent::AssistantWithToolCalls {
                text: match text { Some(t) => Some(t.to_owned()), None => None },
                tool_calls,
                reasoning_content: match reasoning_content { Some(t) => Some(t.to_owned()), None => None },
                thinking_blocks: Vec::new(),
            },
            synthetic: false,
        };
        assert(texts(Seq::<String>::empty()) =~= Seq::<Seq<char>>::empty());
        self.messages.push(m);
        assert(views(self.messages@) =~= views(was).push(m@));
    }

    /// Records the result of a tool.
    pub fn add_tool_result(&mut self, result: ToolResult)
        ensures
            final(self)@ == old(self)@.with_message(
                MessageView { role: Role::Tool, content: ContentView::Output(result@), synthetic: false },
            ),
    {
        let ghost was = self.messages@;
        let m = Message { role: Role::Tool, content: MessageContent::ToolResult(result), synthetic: false };
        self.messages.push(m);
        assert(views(self.messages@) =~= views(was).push(m@));
    }

    /// Takes in a piece of a streamed reply.
    pub fn push_delta(&mut self, delta: &str)
        ensures
            final(self)@ == (ConversationView { pending: old(self)@.pending + delta@, ..old(self)@ }),
    {
        self.pending.append(delta);
    }

    /// Turns what was streamed into a reply.
    pub fn finalize_stream(&mut self)
        ensures
            old(self)@.pending.len() == 0 ==> final(self)@ == old(self)@,
            old(self)@.pending.len() > 0 ==> final(self)@ == (ConversationView {
                messages: old(self)@.messages.push(text_message(Role::Assistant, old(self)@.pending)),
                pending: Seq::empty(),
                ..old(self)@
            }),
    {
        if !self.pending.as_str().is_empty() {
            let ghost was = self.messages@;
            let m = Message::new(Role::Assistant, self.pending.as_str());
            self.messages.push(m);
            self.pending = String::new();
            assert(views(self.messages@) =~= views(was).push(m@));
        }
    }

    /// Replaces the first `n` messages by `summary`. The first request of the
    /// user among them is kept.
    pub fn apply_compression(&mut self, n: usize, summary: String)
        ensures
            final(self)@ == (ConversationView {
                messages: survivors(old(self)@.messages, n as nat),
                turns: turns_of(survivors(old(self)@.messages, n as nat)),
                cold_summaries: colder(old(self)@.cold_summaries, summary@),
                pending: old(self)@.pending,
            }),
    {
        let ghost all = views(self.messages@);
        let k: usize = if n <= self.messages.len() { n } else { self.messages.len() };
        let mut kept: Vec<Message> = Vec::new();
        let mut i: usize = 0;
        assert(views(kept@) =~= Seq::<MessageView>::empty());
        while i < k
            invariant
                i <= k <= self.messages.len(),
                all == views(self.messages@),
                match first_request(all, i as nat) {
                    Some(j) => views(kept@) == seq![all[j]],
                    None => kept@.len() == 0,
                },
            decreases k - i,
        {
            assert(all[i as int] == self.messages@[i as int]@);
            if kept.len() == 0 && request(&self.messages[i]) {
                kept.push(self.messages[i].clone());
                assert(views(kept@) =~= seq![all[i as int]]);
            }
            assert(first_request(all, (i + 1) as nat) == match first_request(all, i as nat) {
                Some(j) => Some(j),
                None => if is_request(all[i as int]) { Some(i as int) } else { None },
            });
            i = i + 1;
        }
        let m = self.messages.len();
        extend_messages(&mut kept, &self.messages, k, m);
        assert(views(kept@) =~= survivors(all, n as nat)) by {
            assert(all.subrange(k as int, m as int) =~= all.skip(k as int));
            assert(views(Seq::<Message>::empty()) =~= Seq::<MessageView>::empty());
        }
        let turns = rebuild_turns(&kept);
        self.messages = kept;
        self.turn_tracker = TurnTracker { turns };
        let ghost cold = self.cold_summaries@;
        self.cold_summaries.push(summary);
        assert(texts(self.cold_summaries@) =~= texts(cold).push(summary@));
        let ghost grown = texts(self.cold_summaries@);
        while self.cold_summaries.len() > MAX_COLD_SUMMARIES
            invariant
                self.cold_summaries.len() <= grown.len(),
                grown.len() <= MAX_COLD_SUMMARIES ==> self.cold_summaries.len() == grown.len(),
                grown.len() > MAX_COLD_SUMMARIES ==> self.cold_summaries.len() >= MAX_COLD_SUMMARIES,
                texts(self.cold_summaries@) == grown.skip(grown.len() - self.cold_summaries.len()),
                self.messages@ == kept@,
                self.turn_tracker.turns@ == turns@,
                self.pending@ == old(self)@.pending,
            decreases self.cold_summaries.len(),
        {
            let ghost before = self.cold_summaries@;
            let _oldest = self.cold_summaries.remove(0);
            assert(texts(self.cold_summaries@) =~= texts(before).drop_first());
            assert(grown.skip(grown.len() - before.len()).drop_first() =~= grown.skip(
                grown.len() - self.cold_summaries.len(),
            ));
        }
        assert(grown.skip(0) =~= grown);
    }
}

fn rebuild_turns(msgs: &Vec<Message>) -> (r: Vec<Turn>)
    ensures
        r@ == turns_of(views(msgs@)),
{
    let mut tracker = TurnTracker { turns: Vec::new() };
    let ghost all = views(msgs@);
    let mut i: usize = 0;
    assert(tracker.turns@ =~= turns_of(all.take(0)));
    while i < msgs.len()
        invariant
            i <= msgs.len(),
            all == views(msgs@),
            tracker.turns@ == turns_of(all.take(i as int)),
        decreases msgs.len() - i,
    {
        assert(all.take(i + 1).drop_last() =~= all.take(i as int));
        assert(all.take(i + 1).last() == msgs@[i as int]@);
        if request(&msgs[i]) {
            tracker.close_current(i);
            tracker.turns.push(Turn { start_idx: i, message_count: OPEN_TURN, complete: false });
        }
        i = i + 1;
    }
    assert(all.take(all.len() as int) =~= all);
    tracker.turns
}

// ---- What a conversation keeps ----

/// A message counts a token for four bytes of what is sent of it, and four for itself:
/// a text by its bytes, a list of calls by what is said, thought and asked for, a result
/// by its output.
pub proof fn messages_count_a_token_for_four_bytes(m: MessageView)
    requires
        weight(m.content) <= usize::MAX,
    ensures
        m.content matches ContentView::Text(t) ==> estimate(m) == byte_count(t) / 4 + 4,
        m.content matches ContentView::Output(r) ==> estimate(m) == byte_count(r.output) / 4 + 4,
        m.content matches ContentView::Stored(r) ==> estimate(m) == (byte_count(r.summary) + 10) / 4 + 4,
        m.content matches ContentView::Calls { text: Some(t), tool_calls, reasoning_content: None, thinking_blocks }
            ==> tool_calls.len() == 1 && thinking_blocks.len() == 0 ==> estimate(m) == (byte_count(t) + byte_count(
            tool_calls[0].name,
        ) + byte_count(tool_calls[0].arguments)) / 4 + 4,
        m.content matches ContentView::Calls { text: None, tool_calls, reasoning_content: Some(t), thinking_blocks }
            ==> tool_calls.len() == 0 && thinking_blocks.len() == 1 ==> estimate(m) == (byte_count(t) + byte_count(
            thinking_blocks[0],
        )) / 4 + 4,
        m.content matches ContentView::Parts(p) ==> p.len() == 1 ==> estimate(m) == byte_count(p[0]) / 4 + 4,
{
    reveal_with_fuel(calls_bytes, 2);
    reveal_with_fuel(all_bytes, 2);
}

/// What calls and parts count adds up.
pub proof fn bytes_add_up(a: Seq<CallView>, b: Seq<CallView>, x: Seq<Seq<char>>, y: Seq<Seq<char>>)
    ensures
        calls_bytes(a + b) == calls_bytes(a) + calls_bytes(b),
        all_bytes(x + y) == all_bytes(x) + all_bytes(y),
    decreases b.len() + y.len(),
{
    if b.len() > 0 {
        bytes_add_up(a, b.drop_last(), x, y);
        assert((a + b).drop_last() =~= a + b.drop_last());
    } else if y.len() > 0 {
        bytes_add_up(a, b, x, y.drop_last());
        assert((x + y).drop_last() =~= x + y.drop_last());
    } else {
        assert(a + b =~= a);
        assert(x + y =~= x);
    }
}

/// What the user says stands at the end of the conversation, and nothing else of it is
/// lost: it is a message of its own and opens a turn, unless the last message is a text
/// of the user that nobody answered; then it goes on with that one, on a line of its own,
/// and no turn opens.
pub proof fn what_is_said_stands_at_the_end(c: ConversationView, text: Seq<char>)
    ensures
        ({
            let now = c.said(text);
            let n = c.messages.len() as int;
            let goes_on = n > 0 && c.messages[n - 1].role == Role::User && c.messages[n - 1].content is Text;
            &&& now.cold_summaries == c.cold_summaries && now.pending == c.pending
            &&& goes_on ==> now.turns == c.turns && now.messages.len() == n && now.messages.take(n - 1)
                == c.messages.take(n - 1) && now.messages[n - 1].role == Role::User && now.messages[n
                - 1].content == ContentView::Text(
                c.messages[n - 1].content->Text_0 + seq!['\n'] + text,
            )
            &&& !goes_on ==> now.messages.len() == n + 1 && now.messages.take(n) == c.messages && now.messages[n]
                == (MessageView { role: Role::User, content: ContentView::Text(text), synthetic: false })
                && now.turns.len() == c.turns.len() + 1
            &&& !goes_on && n <= usize::MAX ==> now.turns.last().start_idx == n && now.turns.last().message_count
                == usize::MAX && !now.turns.last().complete
        }),
{
    let now = c.said(text);
    let n = c.messages.len() as int;
    if n > 0 && c.messages[n - 1].role == Role::User && c.messages[n - 1].content is Text {
        assert(now.messages.take(n - 1) =~= c.messages.take(n - 1));
    } else {
        assert(now.messages.take(n) =~= c.messages);
    }
}

/// What is left after a compression is what was not compressed, in front of it the first
/// request of what was, where there is one, so that the task stays known.
pub proof fn compression_keeps_the_rest_and_the_first_request(msgs: Seq<MessageView>, n: nat, i: int)
    requires
        n <= msgs.len(),
    ensures
        ({
            let left = survivors(msgs, n);
            let rest = msgs.skip(n as int);
            &&& left.len() == rest.len() || left.len() == rest.len() + 1
            &&& left.skip(left.len() - rest.len()) == rest
            &&& (forall|k: int| 0 <= k < n ==> !is_request(#[trigger] msgs[k])) ==> left == rest
            &&& 0 <= i < n && is_request(msgs[i]) && (forall|k: int| 0 <= k < i ==> !is_request(#[trigger] msgs[k]))
                ==> left.len() == rest.len() + 1 && left[0] == msgs[i]
        }),
{
    let left = survivors(msgs, n);
    let rest = msgs.skip(n as int);
    lemma_first_request(msgs, n);
    assert(left.skip(left.len() - rest.len()) =~= rest);
    if 0 <= i < n && is_request(msgs[i]) && (forall|k: int| 0 <= k < i ==> !is_request(#[trigger] msgs[k])) {
        let f = first_request(msgs, n)->0;
        if f < i {
            assert(!is_request(msgs[f]));
        }
    }
}

proof fn lemma_first_request(msgs: Seq<MessageView>, n: nat)
    requires
        n <= msgs.len(),
    ensures
        match first_request(msgs, n) {
            Some(f) => 0 <= f < n && is_request(msgs[f]) && forall|k: int|
                0 <= k < f ==> !is_request(#[trigger] msgs[k]),
            None => forall|k: int| 0 <= k < n ==> !is_request(#[trigger] msgs[k]),
        },
    decreases n,
{
    if n > 0 {
        lemma_first_request(msgs, (n - 1) as nat);
    }
}

/// How many requests of the user are among messages: texts of theirs that nobody else
/// wrote for them.
pub open spec fn requests(msgs: Seq<MessageView>) -> nat
    decreases msgs.len(),
{
    if msgs.len() == 0 {
        0
    } else {
        requests(msgs.drop_last()) + (if msgs.last().role == Role::User && msgs.last().content is Text
            && !msgs.last().synthetic {
            1nat
        } else {
            0
        })
    }
}

/// Turns that are made anew are one for each request: each starts at its request and
/// ends where the next starts, and the last is open.
pub proof fn each_request_has_its_turn(msgs: Seq<MessageView>)
    requires
        msgs.len() < usize::MAX,
    ensures
        ({
            let turns = turns_of(msgs);
            &&& turns.len() == requests(msgs)
            &&& forall|i: int|
                0 <= i < turns.len() ==> (#[trigger] turns[i]).start_idx < msgs.len() && is_request(
                    msgs[turns[i].start_idx as int],
                )
            &&& forall|i: int| #![trigger turns[i]]
                0 <= i < turns.len() - 1 ==> turns[i].complete && turns[i].message_count > 0 && turns[i].start_idx
                    + turns[i].message_count == turn_after(turns, i).start_idx
            &&& turns.len() > 0 ==> turns.last().message_count == usize::MAX && !turns.last().complete
        }),
    decreases msgs.len(),
{
    if msgs.len() > 0 {
        let rest = msgs.drop_last();
        each_request_has_its_turn(rest);
        let before = turns_of(rest);
        let turns = turns_of(msgs);
        assert forall|i: int| 0 <= i < turns.len() implies (#[trigger] turns[i]).start_idx < msgs.len() && is_request(
            msgs[turns[i].start_idx as int],
        ) by {
            if i < before.len() {
                assert(turns[i].start_idx == before[i].start_idx);
                assert(rest[before[i].start_idx as int] == msgs[before[i].start_idx as int]);
            }
        }
        assert forall|i: int| #![trigger turns[i]] 0 <= i < turns.len() - 1 implies turns[i].complete
            && turns[i].message_count > 0 && turns[i].start_idx + turns[i].message_count == turn_after(
            turns,
            i,
        ).start_idx by {
            assert(before[i].start_idx < rest.len());
            if i < before.len() - 1 {
                assert(before[i].complete);
                assert(turns[i] == before[i]);
                assert(turns[i + 1].start_idx == before[i + 1].start_idx);
            }
        }
    }
}

pub open spec fn turn_after(turns: Seq<Turn>, i: int) -> Turn {
    turns[i + 1]
}

/// The three latest summaries are kept, the newest last.
pub proof fn the_latest_summaries_are_kept(cold: Seq<Seq<char>>, summary: Seq<char>)
    ensures
        ({
            let now = colder(cold, summary);
            &&& now.last() == summary
            &&& now.len() == (if cold.len() < 3 {
                cold.len() + 1
            } else {
                3
            })
            &&& now.drop_last() == cold.skip(cold.len() - (now.len() - 1))
        }),
{
    let now = colder(cold, summary);
    assert(now.drop_last() =~= cold.skip(cold.len() - (now.len() - 1)));
}

/// A condensed result says how many lines it had and shows the first of them, the first
/// five where it is the reading of a file, each up to 120 characters. Its call and
/// whether it succeeded stay.
pub proof fn condensed_results_show_their_first_lines(m: MessageView, tool: Seq<char>, i: int)
    requires
        m.content is Output,
        0 <= i < lines(m.content->Output_0.output).len(),
        i == 0 || (i < 5 && tool == "read_file"@),
    ensures
        ({
            let was = m.content->Output_0;
            let line = lines(was.output)[i];
            let shown = if line.len() <= 120 {
                line
            } else {
                line.take(120)
            };
            &&& condensed(m, tool).role == m.role
            &&& condensed(m, tool).content is Output
            &&& condensed(m, tool).content->Output_0.call_id == was.call_id
            &&& condensed(m, tool).content->Output_0.success == was.success
            &&& contains(condensed(m, tool).content->Output_0.output, shown)
            &&& starts_with(
                condensed(m, tool).content->Output_0.output,
                "[condensed: "@ + decimal(lines(was.output).len()) + " lines]\n"@,
            )
            &&& tool != "read_file"@ ==> condensed(m, tool).content->Output_0.output.len() <= "[condensed: "@.len()
                + decimal(lines(was.output).len()).len() + " lines]\n"@.len() + 120
        }),
{
    let was = m.content->Output_0;
    let ls = lines(was.output);
    let kept: nat = if tool == "read_file"@ {
        5
    } else {
        1
    };
    let shown = if ls.len() <= kept {
        ls
    } else {
        ls.take(kept as int)
    };
    let head = "[condensed: "@ + decimal(ls.len()) + " lines]\n"@;
    let body = join(clipped(shown), "\n"@);
    joined_parts_are_kept(clipped(shown), "\n"@, i);
    lemma_contains_within(head, body, Seq::empty(), clipped(shown)[i]);
    assert(head + body + Seq::<char>::empty() =~= head + body);
    assert((head + body).subrange(0, head.len() as int) =~= head);
    if tool != "read_file"@ {
        assert(clipped(shown).len() == 1);
        assert(body == clipped(shown)[0]);
    }
}

} // verus!
