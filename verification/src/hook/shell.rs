//! Hooks that are shell commands.

use vstd::prelude::*;
use vstd::string::*;

use crate::hook::config::{matches_tool, pattern_matches};
use crate::hook::prompt::{command_says, prompt_reply, CommandOutput};
use crate::hook::{
    event_name, Hook, HookConfig, HookConfigView, HookContext, HookContextView, HookCtx, HookEvent, HookResult,
    HookResultView, PreHookResult, PreHookView, PromptView, SessionContext, ToolResultContext,
    UserPromptSubmitOutput, UserPromptSubmitResult,
};
use crate::json::{json_to_text, settled, value_text, Json, JsonView};
use crate::text::opt;

verus! {

/// A configured command as a hook; it goes by its command line.
#[derive(Debug)]
pub struct ShellCommandHook {
    pub name: String,
    pub command: String,
    pub event: HookEvent,
    pub matcher: Option<String>,
    pub timeout_ms: u64,
    pub plugin_root: Option<String>,
}

#[verifier::ext_equal]
pub struct ShellView {
    pub name: Seq<char>,
    pub config: HookConfigView,
}

impl View for ShellCommandHook {
    type V = ShellView;

    open spec fn view(&self) -> ShellView {
        ShellView {
            name: self.name@,
            config: HookConfigView {
                event: self.event,
                matcher: opt(self.matcher),
                command: self.command@,
                timeout_ms: self.timeout_ms,
                plugin_root: opt(self.plugin_root),
            },
        }
    }
}

/// The hook that a configuration describes.
pub open spec fn shell_of(config: HookConfigView) -> ShellView {
    ShellView { name: config.command, config }
}

impl Clone for ShellCommandHook {
    fn clone(&self) -> (r: Self)
        ensures
            r@ == self@,
    {
        ShellCommandHook {
            name: self.name.clone(),
            command: self.command.clone(),
            event: self.event,
            matcher: crate::conversation::clone_opt(&self.matcher),
            timeout_ms: self.timeout_ms,
            plugin_root: crate::conversation::clone_opt(&self.plugin_root),
        }
    }
}

impl Hook for ShellCommandHook {
    open spec fn spec_name(&self) -> Seq<char> {
        self.name@
    }

    open spec fn spec_description(&self) -> Seq<char> {
        ""@
    }

    open spec fn spec_enabled(&self) -> bool {
        true
    }

    open spec fn spec_priority(&self) -> i32 {
        0
    }

    fn name(&self) -> (r: &str) {
        self.name.as_str()
    }

    fn description(&self) -> (r: &str) {
        ""
    }

    fn is_enabled(&self) -> (r: bool) {
        true
    }

    fn priority(&self) -> (r: i32) {
        0
    }
}

/// What a command's reply before a tool is used comes to.
pub open spec fn pre_result(reply: Option<PreHookView>) -> HookResultView {
    match reply {
        Some(PreHookView::Block(reason)) => HookResultView::Denied(reason),
        Some(PreHookView::Modify(args)) => HookResultView::Modified(value_text(settled(args))),
        Some(PreHookView::Allow) => HookResultView::ExplicitAllow,
        None => HookResultView::Proceed,
    }
}

/// What a command is told of a tool call.
pub open spec fn tool_context(
    event: HookEvent,
    tool_name: Seq<char>,
    tool_args: Seq<char>,
    session_id: Option<Seq<char>>,
    working_dir: Seq<char>,
    result: Option<(Seq<char>, bool)>,
) -> HookContextView {
    HookContextView {
        event: event_name(event),
        tool_name: Some(tool_name),
        tool_args: Some(JsonView::Text(tool_args)),
        tool_result: match result {
            Some(r) => Some(r.0),
            None => None,
        },
        tool_success: match result {
            Some(r) => Some(r.1),
            None => None,
        },
        session_id: match session_id {
            Some(s) => s,
            None => Seq::empty(),
        },
        working_dir,
    }
}

fn known_session(ctx: &HookCtx) -> (r: String)
    ensures
        r@ == match opt(ctx.session_id) {
            Some(s) => s,
            None => Seq::empty(),
        },
{
    match &ctx.session_id {
        Some(s) => s.clone(),
        None => {
            let r = String::new();
            assert(r@ =~= Seq::<char>::empty());
            r
        },
    }
}

impl ShellCommandHook {
    pub fn from_hook_config(config: HookConfig) -> (r: ShellCommandHook)
        ensures
            r@ == shell_of(config@),
    {
        ShellCommandHook {
            name: config.command.clone(),
            command: config.command,
            event: config.event,
            matcher: config.matcher,
            timeout_ms: config.timeout_ms,
            plugin_root: config.plugin_root,
        }
    }

    /// Whether the command is called for a tool.
    pub fn tool_matches(&self, tool_name: &str) -> (r: bool)
        ensures
            r == pattern_matches(opt(self.matcher), tool_name@),
    {
        matches_tool(&self.matcher, tool_name)
    }

    /// What the command is told before a tool is used, if it is called for it.
    pub fn pre_execute_context(&self, ctx: &HookCtx) -> (r: Option<HookContext>)
        ensures
            r is Some <==> pattern_matches(opt(self.matcher), ctx.tool_name@),
            match r {
                Some(c) => c@ == tool_context(
                    HookEvent::PreToolUse,
                    ctx.tool_name@,
                    ctx.tool_args@,
                    opt(ctx.session_id),
                    ctx.working_dir@,
                    None,
                ),
                None => true,
            },
    {
        if !self.tool_matches(ctx.tool_name.as_str()) {
            return None;
        }
        Some(
            HookContext {
                event: HookEvent::PreToolUse.name().to_owned(),
                tool_name: Some(ctx.tool_name.clone()),
                tool_args: Some(Json::Text(ctx.tool_args.clone())),
                tool_result: None,
                tool_success: None,
                session_id: known_session(ctx),
                working_dir: ctx.working_dir.clone(),
            },
        )
    }

    /// What the command's reply before a tool is used comes to. A command that
    /// failed, did not end in time or said nothing that counts has no reply.
    pub fn on_pre_execute(&self, ctx: &HookCtx, reply: Option<PreHookResult>) -> (r: HookResult)
        ensures
            r@ == (if pattern_matches(opt(self.matcher), ctx.tool_name@) {
                pre_result(
                    match reply {
                        Some(p) => Some(p@),
                        None => None,
                    },
                )
            } else {
                HookResultView::Proceed
            }),
    {
        if !self.tool_matches(ctx.tool_name.as_str()) {
            return HookResult::Proceed;
        }
        match reply {
            Some(PreHookResult::Block { reason }) => HookResult::Denied(reason),
            Some(PreHookResult::Modify { args }) => HookResult::Modified(json_to_text(&args)),
            Some(PreHookResult::Allow) => HookResult::ExplicitAllow,
            None => HookResult::Proceed,
        }
    }

    /// What the command is told after a tool was used, if it is called for it.
    pub fn post_execute_context(&self, ctx: &HookCtx, result_ctx: &ToolResultContext) -> (r: Option<HookContext>)
        ensures
            r is Some <==> pattern_matches(opt(self.matcher), ctx.tool_name@),
            match r {
                Some(c) => c@ == tool_context(
                    HookEvent::PostToolUse,
                    ctx.tool_name@,
                    ctx.tool_args@,
                    opt(ctx.session_id),
                    ctx.working_dir@,
                    Some((result_ctx.result@, result_ctx.success)),
                ),
                None => true,
            },
    {
        if !self.tool_matches(ctx.tool_name.as_str()) {
            return None;
        }
        Some(
            HookContext {
                event: HookEvent::PostToolUse.name().to_owned(),
                tool_name: Some(ctx.tool_name.clone()),
                tool_args: Some(Json::Text(ctx.tool_args.clone())),
                tool_result: Some(result_ctx.result.clone()),
                tool_success: Some(result_ctx.success),
                session_id: known_session(ctx),
                working_dir: ctx.working_dir.clone(),
            },
        )
    }

    /// What the command is told when a session starts or ends.
    pub fn session_context(&self, event: HookEvent, ctx: &SessionContext) -> (r: HookContext)
        ensures
            r@ == (HookContextView {
                event: event_name(event),
                tool_name: None,
                tool_args: None,
                tool_result: None,
                tool_success: None,
                session_id: ctx.session_id@,
                working_dir: ctx.working_dir@,
            }),
    {
        HookContext {
            event: event.name().to_owned(),
            tool_name: None,
            tool_args: None,
            tool_result: None,
            tool_success: None,
            session_id: ctx.session_id.clone(),
            working_dir: ctx.working_dir.clone(),
        }
    }

    /// What the command makes of a prompt.
    pub fn on_user_prompt_submit(
        &self,
        output: Option<CommandOutput>,
        parsed: Option<UserPromptSubmitOutput>,
    ) -> (r: UserPromptSubmitResult)
        ensures
            r@ == match output {
                Some(o) => command_says(
                    o.exit_ok,
                    o.stdout@,
                    o.stderr@,
                    match parsed {
                        Some(p) => Some(p@),
                        None => None,
                    },
                ),
                None => PromptView::Continue,
            },
    {
        prompt_reply(output, parsed)
    }
}

/// A command that blocks denies the tool, with its reason; one that allows it has nobody
/// asked; one that says nothing leaves the decision to others.
pub proof fn replies_of_commands_count(reason: Seq<char>, args: JsonView)
    ensures
        pre_result(Some(PreHookView::Block(reason))) == HookResultView::Denied(reason),
        pre_result(Some(PreHookView::Modify(args))) is Modified,
        pre_result(Some(PreHookView::Allow)) == HookResultView::ExplicitAllow,
        pre_result(None) == HookResultView::Proceed,
{
}

/// What a command is told of a tool call tells the event, the tool, its arguments, the
/// session and the place; of the result only after it was used.
pub proof fn contexts_tell_the_call(
    tool: Seq<char>,
    args: Seq<char>,
    session: Seq<char>,
    dir: Seq<char>,
    result: Seq<char>,
    success: bool,
)
    ensures
        ({
            let before = tool_context(HookEvent::PreToolUse, tool, args, Some(session), dir, None);
            let after = tool_context(HookEvent::PostToolUse, tool, args, Some(session), dir, Some((result, success)));
            &&& before.event == "pre_tool_use"@ && after.event == "post_tool_use"@
            &&& before.tool_name == Some(tool) && after.tool_name == Some(tool)
            &&& before.tool_args == Some(JsonView::Text(args)) && after.tool_args == Some(JsonView::Text(args))
            &&& before.session_id == session && after.session_id == session
            &&& before.working_dir == dir && after.working_dir == dir
            &&& before.tool_result is None && before.tool_success is None
            &&& after.tool_result == Some(result) && after.tool_success == Some(success)
        }),
{
}

} // verus!
