//! Hooks that are web services.

use vstd::prelude::*;
use vstd::string::*;

use crate::hook::{string_values, Hook, HookResult, HookResultView};
use crate::json::{Json, JsonView};
use crate::text::{
    contains, contains_text, decimal, lemma_contains_itself, lemma_contains_within, lowercase, opt, pairs, push_decimal,
    push_pair, same,
};
use crate::text_map::TextMap;

verus! {

/// How a web service is called.
#[derive(Debug)]
pub struct WebhookConfig {
    pub name: String,
    /// The points at which it is called, in any notation that names them.
    pub trigger: String,
    pub url: String,
    pub method: String,
    pub headers: TextMap<String>,
    pub timeout_secs: u64,
    /// How often a call is tried again.
    pub retries: u32,
    pub enabled: bool,
    pub description: String,
}

#[verifier::ext_equal]
pub struct WebhookConfigView {
    pub name: Seq<char>,
    pub trigger: Seq<char>,
    pub url: Seq<char>,
    pub method: Seq<char>,
    pub headers: Map<Seq<char>, Seq<char>>,
    pub timeout_secs: u64,
    pub retries: u32,
    pub enabled: bool,
    pub description: Seq<char>,
}

impl View for WebhookConfig {
    type V = WebhookConfigView;

    open spec fn view(&self) -> WebhookConfigView {
        WebhookConfigView {
            name: self.name@,
            trigger: self.trigger@,
            url: self.url@,
            method: self.method@,
            headers: string_values(self.headers@),
            timeout_secs: self.timeout_secs,
            retries: self.retries,
            enabled: self.enabled,
            description: self.description@,
        }
    }
}

pub const DEFAULT_TIMEOUT_SECS: u64 = 10;

pub const DEFAULT_RETRIES: u32 = 2;

impl WebhookConfig {
    pub open spec fn wf(&self) -> bool {
        self.headers.wf()
    }

    /// A web service that is called with `POST` and no headers of its own.
    pub fn new(name: String, trigger: String, url: String) -> (r: WebhookConfig)
        ensures
            r.wf(),
            r@ == (WebhookConfigView {
                name: name@,
                trigger: trigger@,
                url: url@,
                method: "POST"@,
                headers: Map::empty(),
                timeout_secs: 10,
                retries: 2,
                enabled: true,
                description: ""@,
            }),
    {
        let r = WebhookConfig {
            name,
            trigger,
            url,
            method: "POST".to_owned(),
            headers: TextMap::new(),
            timeout_secs: DEFAULT_TIMEOUT_SECS,
            retries: DEFAULT_RETRIES,
            enabled: true,
            description: "".to_owned(),
        };
        assert(string_values(r.headers@) =~= Map::<Seq<char>, Seq<char>>::empty());
        r
    }

    pub fn copy(&self) -> (r: WebhookConfig)
        requires
            self.wf(),
        ensures
            r.wf(),
            r@ == self@,
    {
        WebhookConfig {
            name: self.name.clone(),
            trigger: self.trigger.clone(),
            url: self.url.clone(),
            method: self.method.clone(),
            headers: self.headers.copy(),
            timeout_secs: self.timeout_secs,
            retries: self.retries,
            enabled: self.enabled,
            description: self.description.clone(),
        }
    }
}

/// A web service as a hook. Where `batched`, its calls are queued and sent
/// together.
#[derive(Debug)]
pub struct WebhookHook {
    pub config: WebhookConfig,
    pub batched: bool,
}

#[verifier::ext_equal]
pub struct WebhookView {
    pub config: WebhookConfigView,
    pub batched: bool,
}

impl View for WebhookHook {
    type V = WebhookView;

    open spec fn view(&self) -> WebhookView {
        WebhookView { config: self.config@, batched: self.batched }
    }
}

impl Hook for WebhookHook {
    open spec fn spec_name(&self) -> Seq<char> {
        self.config.name@
    }

    open spec fn spec_description(&self) -> Seq<char> {
        self.config.description@
    }

    open spec fn spec_enabled(&self) -> bool {
        self.config.enabled
    }

    open spec fn spec_priority(&self) -> i32 {
        0
    }

    fn name(&self) -> (r: &str) {
        self.config.name.as_str()
    }

    fn description(&self) -> (r: &str) {
        self.config.description.as_str()
    }

    fn is_enabled(&self) -> (r: bool) {
        self.config.enabled
    }

    fn priority(&self) -> (r: i32) {
        0
    }
}

/// What a web service answers.
#[derive(Debug)]
pub struct WebhookResponse {
    /// `ok`, `warning`, `deny` or `modify`.
    pub result: String,
    pub message: Option<String>,
    pub modified_content: Option<String>,
}

#[verifier::ext_equal]
pub struct WebhookResponseView {
    pub result: Seq<char>,
    pub message: Option<Seq<char>>,
    pub modified_content: Option<Seq<char>>,
}

impl View for WebhookResponse {
    type V = WebhookResponseView;

    open spec fn view(&self) -> WebhookResponseView {
        WebhookResponseView {
            result: self.result@,
            message: opt(self.message),
            modified_content: opt(self.modified_content),
        }
    }
}

pub open spec fn or_empty(s: Option<Seq<char>>) -> Seq<char> {
    match s {
        Some(t) => t,
        None => Seq::empty(),
    }
}

/// What an answer comes to.
pub open spec fn response_result(w: WebhookResponseView) -> HookResultView {
    if w.result == "ok"@ {
        HookResultView::Proceed
    } else if w.result == "warning"@ {
        HookResultView::Warning(or_empty(w.message))
    } else if w.result == "deny"@ {
        HookResultView::Denied(or_empty(w.message))
    } else if w.result == "modify"@ {
        HookResultView::Modified(or_empty(w.modified_content))
    } else {
        HookResultView::Warning("Unknown webhook result: "@ + w.result)
    }
}

fn text_or_empty(s: &Option<String>) -> (r: String)
    ensures
        r@ == or_empty(opt(*s)),
{
    match s {
        Some(t) => t.clone(),
        None => {
            let r = String::new();
            assert(r@ =~= Seq::<char>::empty());
            r
        },
    }
}

pub fn parse_webhook_response(response: &WebhookResponse) -> (r: HookResult)
    ensures
        r@ == response_result(response@),
{
    let result = response.result.as_str();
    if same(result, "ok") {
        HookResult::Proceed
    } else if same(result, "warning") {
        HookResult::Warning(text_or_empty(&response.message))
    } else if same(result, "deny") {
        HookResult::Denied(text_or_empty(&response.message))
    } else if same(result, "modify") {
        HookResult::Modified(text_or_empty(&response.modified_content))
    } else {
        let mut message: String = "Unknown webhook result: ".to_owned();
        message.append(result);
        HookResult::Warning(message)
    }
}

/// What a call comes to: its answer, or a warning that it failed.
pub open spec fn call_result(answer: Result<WebhookResponseView, Seq<char>>) -> HookResultView {
    match answer {
        Ok(w) => response_result(w),
        Err(e) => HookResultView::Warning("Webhook error: "@ + e),
    }
}

/// The view of the end of a call.
pub open spec fn answer_view(r: Result<WebhookResponse, String>) -> Result<WebhookResponseView, Seq<char>> {
    match r {
        Ok(w) => Ok(w@),
        Err(e) => Err(e@),
    }
}

pub fn webhook_result(answer: Result<WebhookResponse, String>) -> (r: HookResult)
    ensures
        r@ == call_result(answer_view(answer)),
{
    match answer {
        Ok(w) => parse_webhook_response(&w),
        Err(e) => {
            let mut message: String = "Webhook error: ".to_owned();
            message.append(e.as_str());
            HookResult::Warning(message)
        },
    }
}

/// What a call adds to the system prompt.
pub open spec fn prompt_extension(answer: Result<WebhookResponseView, Seq<char>>) -> Option<Seq<char>> {
    match answer {
        Ok(w) => if w.result == "ok"@ || w.result == "modify"@ {
            match w.modified_content {
                Some(c) => Some(c),
                None => w.message,
            }
        } else {
            None
        },
        Err(_) => None,
    }
}

pub fn webhook_extension(answer: Result<WebhookResponse, String>) -> (r: Option<String>)
    ensures
        opt(r) == prompt_extension(answer_view(answer)),
{
    match answer {
        Ok(w) => if same(w.result.as_str(), "ok") || same(w.result.as_str(), "modify") {
            match w.modified_content {
                Some(c) => Some(c),
                None => w.message,
            }
        } else {
            None
        },
        Err(_e) => None,
    }
}

// ---- When a web service is called ----

/// The points at which a web service can be called.
#[derive(Debug, Clone, Copy, PartialEq, Eq, Structural)]
pub enum WebhookPoint {
    Message,
    PreTool,
    PostTool,
    PostTurn,
    SystemPrompt,
    SessionStart,
    SessionEnd,
    Error,
    TurnStart,
    TurnComplete,
    ToolCallStart,
    ModelResponse,
}

/// Whether a trigger in lower case names a point.
pub open spec fn trigger_names(t: Seq<char>, p: WebhookPoint) -> bool {
    match p {
        WebhookPoint::Message => contains(t, "message"@),
        WebhookPoint::PreTool => contains(t, "pre_tool"@) || contains(t, "before_tool"@),
        WebhookPoint::PostTool => contains(t, "post_tool"@) || contains(t, "after_tool"@),
        WebhookPoint::PostTurn => contains(t, "post_turn"@),
        WebhookPoint::SystemPrompt => contains(t, "system_prompt"@),
        WebhookPoint::SessionStart => contains(t, "session_start"@),
        WebhookPoint::SessionEnd => contains(t, "session_end"@),
        WebhookPoint::Error => contains(t, "error"@),
        WebhookPoint::TurnStart => contains(t, "turn_start"@),
        WebhookPoint::TurnComplete => contains(t, "turn_complete"@) || contains(t, "after_turn"@),
        WebhookPoint::ToolCallStart => contains(t, "tool_call_start"@),
        WebhookPoint::ModelResponse => contains(t, "model_response"@),
    }
}

/// Whether a trigger in lower case names a point.
pub fn names_point(t: &str, p: WebhookPoint) -> (r: bool)
    ensures
        r == trigger_names(t@, p),
{
    match p {
        WebhookPoint::Message => contains_text(t, "message"),
        WebhookPoint::PreTool => contains_text(t, "pre_tool") || contains_text(t, "before_tool"),
        WebhookPoint::PostTool => contains_text(t, "post_tool") || contains_text(t, "after_tool"),
        WebhookPoint::PostTurn => contains_text(t, "post_turn"),
        WebhookPoint::SystemPrompt => contains_text(t, "system_prompt"),
        WebhookPoint::SessionStart => contains_text(t, "session_start"),
        WebhookPoint::SessionEnd => contains_text(t, "session_end"),
        WebhookPoint::Error => contains_text(t, "error"),
        WebhookPoint::TurnStart => contains_text(t, "turn_start"),
        WebhookPoint::TurnComplete => contains_text(t, "turn_complete") || contains_text(t, "after_turn"),
        WebhookPoint::ToolCallStart => contains_text(t, "tool_call_start"),
        WebhookPoint::ModelResponse => contains_text(t, "model_response"),
    }
}

/// How a point is named to the web service.
pub open spec fn point_name(p: WebhookPoint) -> Seq<char> {
    match p {
        WebhookPoint::Message => "on_message_received"@,
        WebhookPoint::PreTool => "pre_tool_execution"@,
        WebhookPoint::PostTool => "post_tool_execution"@,
        WebhookPoint::PostTurn => "post_turn"@,
        WebhookPoint::SystemPrompt => "system_prompt"@,
        WebhookPoint::SessionStart => "on_session_start"@,
        WebhookPoint::SessionEnd => "on_session_end"@,
        WebhookPoint::Error => "on_error"@,
        WebhookPoint::TurnStart => "on_turn_start"@,
        WebhookPoint::TurnComplete => "on_turn_complete"@,
        WebhookPoint::ToolCallStart => "on_tool_call_start"@,
        WebhookPoint::ModelResponse => "on_model_response"@,
    }
}

impl WebhookPoint {
    pub fn name(&self) -> (r: &'static str)
        ensures
            r@ == point_name(*self),
    {
        match self {
            WebhookPoint::Message => "on_message_received",
            WebhookPoint::PreTool => "pre_tool_execution",
            WebhookPoint::PostTool => "post_tool_execution",
            WebhookPoint::PostTurn => "post_turn",
            WebhookPoint::SystemPrompt => "system_prompt",
            WebhookPoint::SessionStart => "on_session_start",
            WebhookPoint::SessionEnd => "on_session_end",
            WebhookPoint::Error => "on_error",
            WebhookPoint::TurnStart => "on_turn_start",
            WebhookPoint::TurnComplete => "on_turn_complete",
            WebhookPoint::ToolCallStart => "on_tool_call_start",
            WebhookPoint::ModelResponse => "on_model_response",
        }
    }
}

/// What a web service is sent at a point, with what the point adds to it.
pub open spec fn call_payload(
    name: Seq<char>,
    trigger: Seq<char>,
    p: WebhookPoint,
    more: Seq<(Seq<char>, JsonView)>,
) -> JsonView {
    JsonView::Object(
        seq![
            ("hook_name"@, JsonView::Text(name)),
            ("trigger"@, JsonView::Text(trigger)),
            ("event"@, JsonView::Text(point_name(p))),
        ] + more,
    )
}

/// The view of the members of an object.
pub open spec fn members(v: Seq<(String, Json)>) -> Seq<(Seq<char>, JsonView)> {
    v.map_values(|e: (String, Json)| (e.0@, e.1@))
}

// ---- Sending ----

/// What comes of one attempt to call a web service.
#[derive(Debug)]
pub enum Attempt {
    /// It answered. `answer` is the body, where the body is an answer.
    Answered { success: bool, status: String, body: String, answer: Option<WebhookResponse> },
    /// It could not be reached.
    Failed { error: String },
}

/// What comes next of a call.
#[derive(Debug)]
pub enum SendNext {
    /// Try (again) after so many milliseconds.
    Send { after_ms: u64 },
    /// The call is over, after so many milliseconds.
    Done { after_ms: u64, result: Result<WebhookResponse, String> },
}

/// Two to the power of `n`.
pub open spec fn two_to(n: nat) -> nat
    decreases n,
{
    if n == 0 {
        1
    } else {
        2 * two_to((n - 1) as nat)
    }
}

/// How long to wait after an attempt that reached nobody, in milliseconds.
pub open spec fn backoff(attempt: nat) -> nat {
    100 * two_to(attempt)
}

proof fn lemma_two_to(n: nat)
    requires
        n <= 57,
    ensures
        two_to(n) <= 0x200_0000_0000_0000,
    decreases n,
{
    lemma_two_to_grows(n, 57);
    assert(two_to(57) == 0x200_0000_0000_0000) by {
        reveal_with_fuel(two_to, 58);
    }
}

proof fn lemma_two_to_grows(a: nat, b: nat)
    requires
        a <= b,
    ensures
        two_to(a) <= two_to(b),
    decreases b - a,
{
    if a < b {
        lemma_two_to_grows(a, (b - 1) as nat);
    }
}

/// How long to wait after the attempt with this number, counted from zero.
pub fn backoff_ms(attempt: u32) -> (r: u64)
    requires
        attempt <= 57,
    ensures
        r == backoff(attempt as nat),
{
    let mut r: u64 = 1;
    let mut i: u32 = 0;
    while i < attempt
        invariant
            i <= attempt <= 57,
            r == two_to(i as nat),
        decreases attempt - i,
    {
        proof {
            lemma_two_to((i + 1) as nat);
        }
        r = r * 2;
        i = i + 1;
    }
    proof {
        lemma_two_to(attempt as nat);
    }
    r * 100
}

/// The answer that stands for a body that is none.
pub open spec fn plain_ok() -> WebhookResponseView {
    WebhookResponseView { result: "ok"@, message: None, modified_content: None }
}

/// What went wrong with an attempt, counted from one.
pub open spec fn attempt_error(number: nat, a: Attempt) -> Seq<char> {
    match a {
        Attempt::Answered { success, status, body, answer } => "HTTP "@ + status@ + " at attempt "@ + decimal(
            number,
        ) + ": "@ + body@,
        Attempt::Failed { error } => "Request failed at attempt "@ + decimal(number) + ": "@ + error@,
    }
}

/// How long to wait after an attempt, counted from zero.
pub open spec fn attempt_wait(number: nat, a: Attempt) -> nat {
    match a {
        Attempt::Answered { success, status, body, answer } => 0,
        Attempt::Failed { error } => backoff(number),
    }
}

/// The answer of an attempt that succeeded.
pub open spec fn attempt_answer(a: Attempt) -> Option<WebhookResponseView> {
    match a {
        Attempt::Answered { success, status, body, answer } => if success {
            match answer {
                Some(w) => Some(w@),
                None => Some(plain_ok()),
            }
        } else {
            None
        },
        Attempt::Failed { error } => None,
    }
}

/// What comes next after the attempt with number `attempt`, counted from zero, of
/// one and `retries` more.
pub fn after_attempt(attempt: u32, retries: u32, outcome: Attempt) -> (r: SendNext)
    requires
        attempt <= retries,
        outcome is Failed ==> attempt <= 57,
    ensures
        match attempt_answer(outcome) {
            Some(w) => r matches SendNext::Done { after_ms, result } && after_ms == 0 && answer_view(result)
                == Ok::<WebhookResponseView, Seq<char>>(w),
            None => if attempt < retries {
                r matches SendNext::Send { after_ms } && after_ms == attempt_wait(attempt as nat, outcome)
            } else {
                r matches SendNext::Done { after_ms, result } && after_ms == attempt_wait(
                    attempt as nat,
                    outcome,
                ) && answer_view(result) == Err::<WebhookResponseView, Seq<char>>(
                    attempt_error((attempt + 1) as nat, outcome),
                )
            },
        },
{
    match outcome {
        Attempt::Answered { success, status, body, answer } => {
            if success {
                let w = match answer {
                    Some(w) => w,
                    None => WebhookResponse { result: "ok".to_owned(), message: None, modified_content: None },
                };
                return SendNext::Done { after_ms: 0, result: Ok(w) };
            }
            if attempt < retries {
                return SendNext::Send { after_ms: 0 };
            }
            let mut e: String = "HTTP ".to_owned();
            e.append(status.as_str());
            e.append(" at attempt ");
            push_decimal(&mut e, attempt as u64 + 1);
            e.append(": ");
            e.append(body.as_str());
            SendNext::Done { after_ms: 0, result: Err(e) }
        },
        Attempt::Failed { error } => {
            let wait = backoff_ms(attempt);
            if attempt < retries {
                return SendNext::Send { after_ms: wait };
            }
            let mut e: String = "Request failed at attempt ".to_owned();
            push_decimal(&mut e, attempt as u64 + 1);
            e.append(": ");
            e.append(error.as_str());
            SendNext::Done { after_ms: wait, result: Err(e) }
        },
    }
}

/// What the queue's word on a call comes to.
pub open spec fn queued_answer(q: HookResultView) -> Result<WebhookResponseView, Seq<char>> {
    match q {
        HookResultView::Proceed => Ok(
            WebhookResponseView {
                result: "ok"@,
                message: Some("Queued for async sending"@),
                modified_content: None,
            },
        ),
        HookResultView::Warning(m) => Err("Async queue failed: "@ + m),
        _ => Err("Async queue denied"@),
    }
}

/// The end of a call that was queued.
pub fn after_queueing(queued: HookResult) -> (r: Result<WebhookResponse, String>)
    ensures
        answer_view(r) == queued_answer(queued@),
{
    match queued {
        HookResult::Proceed => Ok(
            WebhookResponse {
                result: "ok".to_owned(),
                message: Some("Queued for async sending".to_owned()),
                modified_content: None,
            },
        ),
        HookResult::Warning(m) => {
            let mut e: String = "Async queue failed: ".to_owned();
            e.append(m.as_str());
            Err(e)
        },
        _ => Err("Async queue denied".to_owned()),
    }
}

/// The name of the event that a payload is about.
pub fn payload_event(payload: &Json) -> (r: String)
    ensures
        r@ == match payload@.text_at("event"@) {
            Some(e) => e,
            None => "unknown"@,
        },
{
    match payload.str_at("event") {
        Some(e) => e.to_owned(),
        None => "unknown".to_owned(),
    }
}

/// The headers that every call carries besides its own.
pub open spec fn fixed_headers(name: Seq<char>, version: Seq<char>) -> Seq<(Seq<char>, Seq<char>)> {
    seq![
        ("Content-Type"@, "application/json"@),
        ("X-AtomCode-Version"@, version),
        ("X-AtomCode-Hook"@, name),
    ]
}

impl WebhookHook {
    pub open spec fn wf(&self) -> bool {
        self.config.wf()
    }

    pub fn new(config: WebhookConfig) -> (r: WebhookHook)
        ensures
            r@ == (WebhookView { config: config@, batched: false }),
            r.config == config,
    {
        WebhookHook { config, batched: false }
    }

    /// A web service whose calls are queued.
    pub fn new_with_async(config: WebhookConfig) -> (r: WebhookHook)
        ensures
            r@ == (WebhookView { config: config@, batched: true }),
            r.config == config,
    {
        WebhookHook { config, batched: true }
    }

    pub fn copy(&self) -> (r: WebhookHook)
        requires
            self.wf(),
        ensures
            r.wf(),
            r@ == self@,
    {
        WebhookHook { config: self.config.copy(), batched: self.batched }
    }

    /// Whether the web service is called at a point.
    pub fn listens(&self, p: WebhookPoint) -> (r: bool)
        ensures
            r == trigger_names(lowercase(self.config.trigger@), p),
    {
        let t = self.config.trigger.as_str().to_lowercase();
        names_point(t.as_str(), p)
    }

    /// What the web service is sent at a point.
    pub fn payload(&self, p: WebhookPoint, more: Vec<(String, Json)>) -> (r: Json)
        ensures
            r@ == call_payload(self.config.name@, self.config.trigger@, p, members(more@)),
    {
        let mut all: Vec<(String, Json)> = Vec::new();
        all.push(("hook_name".to_owned(), Json::of_text(self.config.name.as_str())));
        all.push(("trigger".to_owned(), Json::of_text(self.config.trigger.as_str())));
        all.push(("event".to_owned(), Json::of_text(p.name())));
        let mut more = more;
        let ghost added = more@;
        all.append(&mut more);
        let r = Json::Object(all);
        assert(r@->Object_0 =~= call_payload(self.config.name@, self.config.trigger@, p, members(added))->Object_0);
        r
    }

    /// The headers of a call: its own, then those that every call carries.
    pub fn call_headers(&self, version: &str) -> (r: Vec<(String, String)>)
        requires
            self.wf(),
        ensures
            pairs(r@) == pairs(self.config.headers.list()) + fixed_headers(
                self.config.name@,
                version@,
            ),
    {
        let n = self.config.headers.len();
        let ghost list = self.config.headers.list();
        let mut out: Vec<(String, String)> = Vec::new();
        let mut i: usize = 0;
        assert(pairs(out@) =~= pairs(list).take(0));
        while i < n
            invariant
                i <= n == list.len(),
                list == self.config.headers.list(),
                self.config.headers.wf(),
                pairs(out@) == pairs(list).take(i as int),
            decreases n - i,
        {
            push_pair(&mut out, self.config.headers.key_at(i).as_str(), self.config.headers.value_at(i).as_str());
            assert(pairs(list)[i as int] == (list[i as int].0@, list[i as int].1@));
            i = i + 1;
        }
        assert(pairs(list).take(i as int) =~= pairs(list));
        push_pair(&mut out, "Content-Type", "application/json");
        push_pair(&mut out, "X-AtomCode-Version", version);
        push_pair(&mut out, "X-AtomCode-Hook", self.config.name.as_str());
        assert(pairs(out@) =~= pairs(list) + fixed_headers(self.config.name@, version@));
        out
    }
}

/// Each wait is twice the one before it.
pub proof fn waits_double(attempt: nat)
    ensures
        backoff(attempt + 1) == 2 * backoff(attempt),
        backoff(0) == 100,
{
    reveal_with_fuel(two_to, 2);
}

/// An answer that denies denies, with its message; a warning warns, a change is taken
/// over, and consent lets things go on. Any other answer, and a call that failed, only
/// warns: neither denies.
pub proof fn only_a_denial_denies(w: WebhookResponseView, message: Seq<char>, error: Seq<char>)
    ensures
        w.result == "deny"@ && w.message == Some(message) ==> call_result(Ok(w)) == HookResultView::Denied(message),
        w.result == "warning"@ && w.message == Some(message) ==> call_result(Ok(w)) == HookResultView::Warning(message),
        w.result == "modify"@ && w.modified_content == Some(message) ==> call_result(Ok(w))
            == HookResultView::Modified(message),
        w.result == "ok"@ ==> call_result(Ok(w)) == HookResultView::Proceed,
        w.result != "deny"@ ==> !(call_result(Ok(w)) is Denied),
        w.result != "deny"@ && w.result != "warning"@ && w.result != "modify"@ && w.result != "ok"@ ==> call_result(Ok(w)) is Warning,
        call_result(Err(error)) is Warning,
        call_result(Err(error)) == HookResultView::Warning("Webhook error: "@ + error),
{
    reveal_strlit("deny");
    reveal_strlit("warning");
    reveal_strlit("modify");
    reveal_strlit("ok");
    assert("deny"@.len() == 4 && "warning"@.len() == 7 && "modify"@.len() == 6 && "ok"@.len() == 2);
}

/// An answer adds to the system prompt where it consents or changes: its content, or else
/// its message. A denial, a warning and a failure add nothing.
pub proof fn only_consent_extends_the_prompt(w: WebhookResponseView, error: Seq<char>)
    ensures
        w.result == "ok"@ || w.result == "modify"@ ==> prompt_extension(Ok(w)) == (if w.modified_content is Some {
            w.modified_content
        } else {
            w.message
        }),
        w.result == "deny"@ || w.result == "warning"@ ==> prompt_extension(Ok(w)) is None,
        prompt_extension(Err(error)) is None,
{
    reveal_strlit("deny");
    reveal_strlit("warning");
    reveal_strlit("modify");
    reveal_strlit("ok");
    assert("deny"@.len() == 4 && "warning"@.len() == 7 && "modify"@.len() == 6 && "ok"@.len() == 2);
}

/// A trigger that names a point by its own name, alone or among others, calls the service
/// there.
pub proof fn triggers_name_points(a: Seq<char>, b: Seq<char>)
    ensures
        trigger_names(a + "pre_tool"@ + b, WebhookPoint::PreTool),
        trigger_names(a + "before_tool"@ + b, WebhookPoint::PreTool),
        trigger_names(a + "post_tool"@ + b, WebhookPoint::PostTool),
        trigger_names(a + "after_tool"@ + b, WebhookPoint::PostTool),
        trigger_names(a + "post_turn"@ + b, WebhookPoint::PostTurn),
        trigger_names(a + "system_prompt"@ + b, WebhookPoint::SystemPrompt),
        trigger_names(a + "session_start"@ + b, WebhookPoint::SessionStart),
        trigger_names(a + "session_end"@ + b, WebhookPoint::SessionEnd),
        trigger_names(a + "error"@ + b, WebhookPoint::Error),
        trigger_names(a + "turn_start"@ + b, WebhookPoint::TurnStart),
        trigger_names(a + "turn_complete"@ + b, WebhookPoint::TurnComplete),
        trigger_names(a + "after_turn"@ + b, WebhookPoint::TurnComplete),
        trigger_names(a + "tool_call_start"@ + b, WebhookPoint::ToolCallStart),
        trigger_names(a + "model_response"@ + b, WebhookPoint::ModelResponse),
        trigger_names(a + "message"@ + b, WebhookPoint::Message),
        forall|p: WebhookPoint| !#[trigger] trigger_names(Seq::empty(), p),
{
    lemma_named_within(a, "pre_tool"@, b);
    lemma_named_within(a, "before_tool"@, b);
    lemma_named_within(a, "post_tool"@, b);
    lemma_named_within(a, "after_tool"@, b);
    lemma_named_within(a, "post_turn"@, b);
    lemma_named_within(a, "system_prompt"@, b);
    lemma_named_within(a, "session_start"@, b);
    lemma_named_within(a, "session_end"@, b);
    lemma_named_within(a, "error"@, b);
    lemma_named_within(a, "turn_start"@, b);
    lemma_named_within(a, "turn_complete"@, b);
    lemma_named_within(a, "after_turn"@, b);
    lemma_named_within(a, "tool_call_start"@, b);
    lemma_named_within(a, "model_response"@, b);
    lemma_named_within(a, "message"@, b);
    reveal_strlit("pre_tool");
    reveal_strlit("before_tool");
    reveal_strlit("post_tool");
    reveal_strlit("after_tool");
    reveal_strlit("post_turn");
    reveal_strlit("system_prompt");
    reveal_strlit("session_start");
    reveal_strlit("session_end");
    reveal_strlit("error");
    reveal_strlit("turn_start");
    reveal_strlit("turn_complete");
    reveal_strlit("after_turn");
    reveal_strlit("tool_call_start");
    reveal_strlit("model_response");
    reveal_strlit("message");
}

proof fn lemma_named_within(a: Seq<char>, t: Seq<char>, b: Seq<char>)
    ensures
        contains(a + t + b, t),
{
    lemma_contains_itself(t);
    lemma_contains_within(a, t, b, t);
}

/// A service that answered with success has answered, with what its body says, or plain
/// consent where that is no answer. One that answered without success is tried again at
/// once; one that was not reached after a tenth of a second, doubled each time.
pub proof fn attempts_end_with_success(
    number: nat,
    success: bool,
    status: String,
    body: String,
    answer: Option<WebhookResponse>,
    error: String,
)
    ensures
        attempt_answer(Attempt::Answered { success: true, status, body, answer }) == (match answer {
            Some(w) => Some(w@),
            None => Some(WebhookResponseView { result: "ok"@, message: None, modified_content: None }),
        }),
        attempt_answer(Attempt::Answered { success: false, status, body, answer }) is None,
        attempt_answer(Attempt::Failed { error }) is None,
        attempt_wait(number, Attempt::Answered { success, status, body, answer }) == 0,
        attempt_wait(0, Attempt::Failed { error }) == 100,
        attempt_wait(number + 1, Attempt::Failed { error }) == 2 * attempt_wait(number, Attempt::Failed { error }),
        contains(attempt_error(number, Attempt::Failed { error }), error@),
        contains(attempt_error(number, Attempt::Answered { success, status, body, answer }), body@),
        contains(attempt_error(number, Attempt::Answered { success, status, body, answer }), status@),
{
    reveal_with_fuel(two_to, 2);
    let head = "Request failed at attempt "@ + decimal(number) + ": "@;
    lemma_named_within(head, error@, Seq::empty());
    assert(head + error@ + Seq::<char>::empty() =~= head + error@);
    let a = "HTTP "@;
    let mid = " at attempt "@ + decimal(number) + ": "@;
    lemma_named_within(a, status@, mid + body@);
    let all = "HTTP "@ + status@ + " at attempt "@ + decimal(number) + ": "@ + body@;
    assert(a + status@ + (mid + body@) =~= all);
    let before = a + status@ + mid;
    lemma_named_within(before, body@, Seq::empty());
    assert(before + body@ + Seq::<char>::empty() =~= all);
}

/// What a service is sent names the hook, its trigger and the event, and holds all that
/// the point adds.
pub proof fn payloads_name_the_event(
    name: Seq<char>,
    trigger: Seq<char>,
    p: WebhookPoint,
    more: Seq<(Seq<char>, JsonView)>,
    i: int,
)
    ensures
        ({
            let o = call_payload(name, trigger, p, more)->Object_0;
            &&& call_payload(name, trigger, p, more) is Object
            &&& o.contains(("hook_name"@, JsonView::Text(name)))
            &&& o.contains(("trigger"@, JsonView::Text(trigger)))
            &&& o.contains(("event"@, JsonView::Text(point_name(p))))
            &&& 0 <= i < more.len() ==> o.contains(more[i])
            &&& o.len() == 3 + more.len()
        }),
{
    let o = call_payload(name, trigger, p, more)->Object_0;
    assert(o[0] == ("hook_name"@, JsonView::Text(name)));
    assert(o[1] == ("trigger"@, JsonView::Text(trigger)));
    assert(o[2] == ("event"@, JsonView::Text(point_name(p))));
    if 0 <= i < more.len() {
        assert(o[3 + i] == more[i]);
    }
}

/// Each call says that it is JSON, what sends it and for which hook.
pub proof fn calls_say_what_they_are(name: Seq<char>, version: Seq<char>)
    ensures
        fixed_headers(name, version).contains(("Content-Type"@, "application/json"@)),
        fixed_headers(name, version).contains(("X-AtomCode-Version"@, version)),
        fixed_headers(name, version).contains(("X-AtomCode-Hook"@, name)),
        fixed_headers(name, version).len() == 3,
{
    let h = fixed_headers(name, version);
    assert(h[0] == ("Content-Type"@, "application/json"@));
    assert(h[1] == ("X-AtomCode-Version"@, version));
    assert(h[2] == ("X-AtomCode-Hook"@, name));
}

/// A call that was queued is one with consent; one that could not be is a failure.
pub proof fn queued_calls_are_consent(message: Seq<char>)
    ensures
        queued_answer(HookResultView::Proceed) is Ok && call_result(queued_answer(HookResultView::Proceed))
            == HookResultView::Proceed,
        queued_answer(HookResultView::Warning(message)) is Err,
        queued_answer(HookResultView::Denied(message)) is Err,
        !(call_result(queued_answer(HookResultView::Denied(message))) is Denied),
{
}

} // verus!
