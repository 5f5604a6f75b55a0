//! Hooks: commands, scripts and web services that are called at points of an
//! agent's life and have a say in what happens next.

use vstd::prelude::*;
use vstd::string::*;

use crate::json::{opt_json, Json, JsonView};
use crate::text::opt;
use crate::text_map::TextMap;

pub mod config;
pub mod config_loader;
pub mod engine;
pub mod executor;
pub mod json_config;
pub mod prompt;
pub mod shell;
pub mod webhook;

pub use crate::hook::engine::HookEngine;

verus! {

/// The points at which a configured command is called.
#[derive(Debug, Clone, Copy, PartialEq, Eq, Hash, Structural)]
pub enum HookEvent {
    PreToolUse,
    PostToolUse,
    SessionStart,
    SessionEnd,
    Notification,
    UserPromptSubmit,
}

/// How an event is written in configurations and handed to commands.
pub open spec fn event_name(e: HookEvent) -> Seq<char> {
    match e {
        HookEvent::PreToolUse => "pre_tool_use"@,
        HookEvent::PostToolUse => "post_tool_use"@,
        HookEvent::SessionStart => "session_start"@,
        HookEvent::SessionEnd => "session_end"@,
        HookEvent::Notification => "notification"@,
        HookEvent::UserPromptSubmit => "user_prompt_submit"@,
    }
}

impl HookEvent {
    pub fn name(&self) -> (r: &'static str)
        ensures
            r@ == event_name(*self),
    {
        match self {
            HookEvent::PreToolUse => "pre_tool_use",
            HookEvent::PostToolUse => "post_tool_use",
            HookEvent::SessionStart => "session_start",
            HookEvent::SessionEnd => "session_end",
            HookEvent::Notification => "notification",
            HookEvent::UserPromptSubmit => "user_prompt_submit",
        }
    }
}

/// How long a command may run where nothing is configured.
pub const DEFAULT_TIMEOUT_MS: u64 = 10_000;

/// A command that is called at an event.
#[derive(Debug)]
pub struct HookConfig {
    pub event: HookEvent,
    /// The tools that it is called for, where the event is about a tool.
    pub matcher: Option<String>,
    pub command: String,
    pub timeout_ms: u64,
    /// Where the plugin lives that brought the command.
    pub plugin_root: Option<String>,
}

#[verifier::ext_equal]
pub struct HookConfigView {
    pub event: HookEvent,
    pub matcher: Option<Seq<char>>,
    pub command: Seq<char>,
    pub timeout_ms: u64,
    pub plugin_root: Option<Seq<char>>,
}

impl View for HookConfig {
    type V = HookConfigView;

    open spec fn view(&self) -> HookConfigView {
        HookConfigView {
            event: self.event,
            matcher: opt(self.matcher),
            command: self.command@,
            timeout_ms: self.timeout_ms,
            plugin_root: opt(self.plugin_root),
        }
    }
}

impl Clone for HookConfig {
    fn clone(&self) -> (r: Self)
        ensures
            r@ == self@,
    {
        HookConfig {
            event: self.event,
            matcher: crate::conversation::clone_opt(&self.matcher),
            command: self.command.clone(),
            timeout_ms: self.timeout_ms,
            plugin_root: crate::conversation::clone_opt(&self.plugin_root),
        }
    }
}

/// What a command is told of a prompt that was submitted.
#[derive(Debug)]
pub struct UserPromptSubmitPayload {
    pub session_id: String,
    pub hook_event_name: String,
    pub prompt: String,
    pub cwd: String,
}

/// What all hooks together make of a prompt.
#[derive(Debug)]
pub enum UserPromptHookResult {
    Continue,
    /// The prompt goes on with this behind it.
    Inject(String),
    /// The prompt goes no further.
    Block(String),
    /// The prompt goes on, and this is shown.
    Warning(String),
}

/// What one hook makes of a prompt.
#[derive(Debug)]
pub enum UserPromptSubmitResult {
    Continue,
    Inject(String),
    Block(String),
    Warning(String),
}

/// What becomes of a prompt.
#[verifier::ext_equal]
pub enum PromptView {
    Continue,
    Inject(Seq<char>),
    Block(Seq<char>),
    Warning(Seq<char>),
}

impl View for UserPromptHookResult {
    type V = PromptView;

    open spec fn view(&self) -> PromptView {
        match self {
            UserPromptHookResult::Continue => PromptView::Continue,
            UserPromptHookResult::Inject(s) => PromptView::Inject(s@),
            UserPromptHookResult::Block(s) => PromptView::Block(s@),
            UserPromptHookResult::Warning(s) => PromptView::Warning(s@),
        }
    }
}

impl View for UserPromptSubmitResult {
    type V = PromptView;

    open spec fn view(&self) -> PromptView {
        match self {
            UserPromptSubmitResult::Continue => PromptView::Continue,
            UserPromptSubmitResult::Inject(s) => PromptView::Inject(s@),
            UserPromptSubmitResult::Block(s) => PromptView::Block(s@),
            UserPromptSubmitResult::Warning(s) => PromptView::Warning(s@),
        }
    }
}

/// What a command said of a prompt, where it said so in JSON.
#[derive(Debug)]
pub struct UserPromptSubmitOutput {
    pub decision: Option<String>,
    pub reason: Option<String>,
    pub hook_specific_output: Option<UserPromptHookSpecific>,
}

#[derive(Debug)]
pub struct UserPromptHookSpecific {
    pub additional_context: Option<String>,
}

#[verifier::ext_equal]
pub struct PromptOutputView {
    pub decision: Option<Seq<char>>,
    pub reason: Option<Seq<char>>,
    pub additional_context: Option<Seq<char>>,
}

impl View for UserPromptSubmitOutput {
    type V = PromptOutputView;

    open spec fn view(&self) -> PromptOutputView {
        PromptOutputView {
            decision: opt(self.decision),
            reason: opt(self.reason),
            additional_context: match self.hook_specific_output {
                Some(o) => opt(o.additional_context),
                None => None,
            },
        }
    }
}

/// What a command said of a tool call.
#[derive(Debug)]
pub enum PreHookResult {
    Allow,
    Block { reason: String },
    Modify { args: Json },
}

#[verifier::ext_equal]
pub enum PreHookView {
    Allow,
    Block(Seq<char>),
    Modify(JsonView),
}

impl View for PreHookResult {
    type V = PreHookView;

    open spec fn view(&self) -> PreHookView {
        match self {
            PreHookResult::Allow => PreHookView::Allow,
            PreHookResult::Block { reason } => PreHookView::Block(reason@),
            PreHookResult::Modify { args } => PreHookView::Modify(args@),
        }
    }
}

impl Clone for PreHookResult {
    fn clone(&self) -> (r: Self)
        ensures
            r@ == self@,
    {
        match self {
            PreHookResult::Allow => PreHookResult::Allow,
            PreHookResult::Block { reason } => PreHookResult::Block { reason: reason.clone() },
            PreHookResult::Modify { args } => PreHookResult::Modify { args: args.clone() },
        }
    }
}

/// What a command is told of an event.
#[derive(Debug)]
pub struct HookContext {
    pub event: String,
    pub tool_name: Option<String>,
    pub tool_args: Option<Json>,
    pub tool_result: Option<String>,
    pub tool_success: Option<bool>,
    pub session_id: String,
    pub working_dir: String,
}

#[verifier::ext_equal]
pub struct HookContextView {
    pub event: Seq<char>,
    pub tool_name: Option<Seq<char>>,
    pub tool_args: Option<JsonView>,
    pub tool_result: Option<Seq<char>>,
    pub tool_success: Option<bool>,
    pub session_id: Seq<char>,
    pub working_dir: Seq<char>,
}

impl View for HookContext {
    type V = HookContextView;

    open spec fn view(&self) -> HookContextView {
        HookContextView {
            event: self.event@,
            tool_name: opt(self.tool_name),
            tool_args: opt_json(self.tool_args),
            tool_result: opt(self.tool_result),
            tool_success: self.tool_success,
            session_id: self.session_id@,
            working_dir: self.working_dir@,
        }
    }
}

/// What a hook makes of what it was called for.
#[derive(Debug)]
pub enum HookResult {
    Proceed,
    /// Go on, and ask nobody for approval.
    ExplicitAllow,
    /// Go on; something is wrong with the hook.
    Warning(String),
    /// Do not go on.
    Denied(String),
    /// Go on with this instead.
    Modified(String),
}

#[verifier::ext_equal]
pub enum HookResultView {
    Proceed,
    ExplicitAllow,
    Warning(Seq<char>),
    Denied(Seq<char>),
    Modified(Seq<char>),
}

impl View for HookResult {
    type V = HookResultView;

    open spec fn view(&self) -> HookResultView {
        match self {
            HookResult::Proceed => HookResultView::Proceed,
            HookResult::ExplicitAllow => HookResultView::ExplicitAllow,
            HookResult::Warning(s) => HookResultView::Warning(s@),
            HookResult::Denied(s) => HookResultView::Denied(s@),
            HookResult::Modified(s) => HookResultView::Modified(s@),
        }
    }
}

/// What a hook's say on a prompt is as a say on anything.
pub open spec fn as_hook_result(p: PromptView) -> HookResultView {
    match p {
        PromptView::Continue => HookResultView::Proceed,
        PromptView::Inject(s) => HookResultView::Modified(s),
        PromptView::Block(s) => HookResultView::Denied(s),
        PromptView::Warning(_) => HookResultView::Warning(Seq::empty()),
    }
}

impl UserPromptSubmitResult {
    /// The say on a prompt as a say on anything. The text of a warning is dropped.
    pub fn into_hook_result(self) -> (r: HookResult)
        ensures
            r@ == as_hook_result(self@),
    {
        match self {
            UserPromptSubmitResult::Continue => HookResult::Proceed,
            UserPromptSubmitResult::Inject(s) => HookResult::Modified(s),
            UserPromptSubmitResult::Block(s) => HookResult::Denied(s),
            UserPromptSubmitResult::Warning(_) => HookResult::Warning(String::new()),
        }
    }
}

#[derive(Debug)]
pub struct UserMessageContext {
    pub content: String,
    pub session_id: Option<String>,
    pub attached_files: Vec<String>,
    pub timestamp: String,
}

#[derive(Debug)]
pub struct TurnStartContext {
    pub turn_number: u32,
    pub session_id: Option<String>,
    pub working_dir: String,
    pub phase: String,
    pub has_file_context: bool,
}

#[derive(Debug)]
pub struct ToolCallStartContext {
    pub tool_name: String,
    pub tool_args: String,
    pub call_id: String,
    pub turn_number: u32,
}

#[derive(Debug)]
pub struct TurnCompleteContext {
    pub turn_number: u32,
    pub result_type: String,
    pub tokens_used: usize,
    pub tool_calls: usize,
    pub duration_ms: u64,
    pub truncated: bool,
    pub edited_files: Vec<String>,
}

#[derive(Debug)]
pub struct SessionContext {
    pub session_id: String,
    pub working_dir: String,
    pub model_name: String,
    pub provider_name: String,
}

#[derive(Debug)]
pub struct ErrorContext {
    pub error_type: String,
    pub error_message: String,
    pub phase: String,
    pub turn_number: Option<u32>,
}

/// What hooks are told of a tool call.
#[derive(Debug)]
pub struct HookCtx {
    pub tool_name: String,
    pub tool_args: String,
    pub working_dir: String,
    pub session_id: Option<String>,
    pub turn_number: u32,
    pub metadata: Option<TextMap<String>>,
}

/// The texts of a map of strings.
pub open spec fn string_values(m: Map<Seq<char>, String>) -> Map<Seq<char>, Seq<char>> {
    m.map_values(|s: String| s@)
}

impl HookCtx {
    pub open spec fn wf(&self) -> bool {
        match self.metadata {
            Some(m) => m.wf(),
            None => true,
        }
    }

    /// What is told besides: nothing where nothing was ever added.
    pub open spec fn notes(&self) -> Map<Seq<char>, Seq<char>> {
        match self.metadata {
            Some(m) => string_values(m@),
            None => Map::empty(),
        }
    }

    pub fn new(tool_name: String, tool_args: String, working_dir: String) -> (r: HookCtx)
        ensures
            r.wf(),
            r.tool_name == tool_name,
            r.tool_args == tool_args,
            r.working_dir == working_dir,
            r.session_id is None,
            r.turn_number == 0,
            r.metadata is None,
    {
        HookCtx { tool_name, tool_args, working_dir, session_id: None, turn_number: 0, metadata: None }
    }

    pub fn with_session(self, session_id: String) -> (r: HookCtx)
        ensures
            r == (HookCtx { session_id: Some(session_id), ..self }),
    {
        HookCtx {
            tool_name: self.tool_name,
            tool_args: self.tool_args,
            working_dir: self.working_dir,
            session_id: Some(session_id),
            turn_number: self.turn_number,
            metadata: self.metadata,
        }
    }

    pub fn with_turn(self, turn_number: u32) -> (r: HookCtx)
        ensures
            r == (HookCtx { turn_number, ..self }),
    {
        HookCtx {
            tool_name: self.tool_name,
            tool_args: self.tool_args,
            working_dir: self.working_dir,
            session_id: self.session_id,
            turn_number,
            metadata: self.metadata,
        }
    }

    /// Adds a note; a later note of the same key replaces the earlier one.
    pub fn with_metadata(self, key: String, value: String) -> (r: HookCtx)
        requires
            self.wf(),
        ensures
            r.wf(),
            r.metadata is Some,
            r.notes() == self.notes().insert(key@, value@),
            r == (HookCtx { metadata: r.metadata, ..self }),
    {
        let ghost before = self.notes();
        let mut notes = match self.metadata {
            Some(m) => m,
            None => TextMap::new(),
        };
        assert(string_values(notes@) =~= before);
        let ghost was = notes@;
        notes.insert(key, value);
        assert(string_values(notes@) =~= string_values(was).insert(key@, value@));
        HookCtx {
            tool_name: self.tool_name,
            tool_args: self.tool_args,
            working_dir: self.working_dir,
            session_id: self.session_id,
            turn_number: self.turn_number,
            metadata: Some(notes),
        }
    }
}

/// What hooks are told of a tool's result.
#[derive(Debug)]
pub struct ToolResultContext {
    pub tool_name: String,
    pub tool_args: String,
    pub result: String,
    pub success: bool,
    pub duration_ms: u64,
}

/// What every hook says of itself.
pub trait Hook {
    spec fn spec_name(&self) -> Seq<char>;

    spec fn spec_description(&self) -> Seq<char>;

    spec fn spec_enabled(&self) -> bool;

    spec fn spec_priority(&self) -> i32;

    fn name(&self) -> (r: &str)
        ensures
            r@ == self.spec_name(),
    ;

    fn description(&self) -> (r: &str)
        ensures
            r@ == self.spec_description(),
    ;

    /// Whether the hook is called at all.
    fn is_enabled(&self) -> (r: bool)
        ensures
            r == self.spec_enabled(),
    ;

    /// The lower, the earlier the hook is called.
    fn priority(&self) -> (r: i32)
        ensures
            r == self.spec_priority(),
    ;
}

/// How many hooks wait at each point.
#[derive(Debug)]
pub struct HookStats {
    pub pre_tool_hooks: usize,
    pub post_tool_hooks: usize,
    pub post_turn_hooks: usize,
    pub system_prompt_hooks: usize,
    pub on_turn_start_hooks: usize,
    pub on_tool_call_start_hooks: usize,
    pub on_turn_complete_hooks: usize,
    pub on_session_start_hooks: usize,
    pub on_session_end_hooks: usize,
    pub on_error_hooks: usize,
    pub on_model_response_hooks: usize,
    pub on_user_prompt_submit_hooks: usize,
}

/// Only a block denies, only an addition changes, and a warning lets the prompt pass.
pub proof fn prompts_are_denied_by_blocks_alone(p: PromptView, s: Seq<char>)
    ensures
        as_hook_result(p) == HookResultView::Denied(s) <==> p == PromptView::Block(s),
        as_hook_result(p) == HookResultView::Modified(s) <==> p == PromptView::Inject(s),
        as_hook_result(p) == HookResultView::Proceed <==> p == PromptView::Continue,
        as_hook_result(p) is Warning <==> p is Warning,
        as_hook_result(p) != HookResultView::ExplicitAllow,
{
}

} // verus!
