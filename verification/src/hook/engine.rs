//! The hooks that wait at each point, and what becomes of what they say.
//!
//! Calling a hook is left to the caller: it asks what comes next, calls it, and
//! asks again with what it said.

use vstd::prelude::*;
use vstd::string::*;

use crate::hook::config_loader::{
    script_views, webhook_views, with_scripts, with_webhooks, HooksConfig, ScriptHookConfig, ScriptView,
};
use crate::hook::prompt::{blocked, conclude, first_block, prompt_outcome, prompt_views};
use crate::hook::shell::{shell_of, ShellCommandHook, ShellView};
use crate::hook::webhook::{WebhookHook, WebhookView};
use crate::hook::{
    Hook, HookConfig, HookConfigView, HookEvent, HookResult, HookResultView, HookStats, UserPromptHookResult,
    UserPromptSubmitResult,
};
use crate::text::{opt, texts};

verus! {

/// A hook that the embedding program brings; it is known by a number.
#[derive(Debug)]
pub struct CustomHook {
    pub id: u64,
    pub name: String,
    pub description: String,
    pub enabled: bool,
    pub priority: i32,
}

#[verifier::ext_equal]
pub struct CustomView {
    pub id: u64,
    pub name: Seq<char>,
    pub description: Seq<char>,
    pub enabled: bool,
    pub priority: i32,
}

impl View for CustomHook {
    type V = CustomView;

    open spec fn view(&self) -> CustomView {
        CustomView {
            id: self.id,
            name: self.name@,
            description: self.description@,
            enabled: self.enabled,
            priority: self.priority,
        }
    }
}

/// A hook that can wait at a point.
#[derive(Debug)]
pub enum RegisteredHook {
    Shell(ShellCommandHook),
    Script(ScriptHookConfig),
    Webhook(WebhookHook),
    Custom(CustomHook),
}

#[verifier::ext_equal]
pub enum HookView {
    Shell(ShellView),
    Script(ScriptView),
    Webhook(WebhookView),
    Custom(CustomView),
}

impl View for RegisteredHook {
    type V = HookView;

    open spec fn view(&self) -> HookView {
        match self {
            RegisteredHook::Shell(h) => HookView::Shell(h@),
            RegisteredHook::Script(h) => HookView::Script(h@),
            RegisteredHook::Webhook(h) => HookView::Webhook(h@),
            RegisteredHook::Custom(h) => HookView::Custom(h@),
        }
    }
}

pub open spec fn hook_name(h: HookView) -> Seq<char> {
    match h {
        HookView::Shell(s) => s.name,
        HookView::Script(s) => s.name,
        HookView::Webhook(w) => w.config.name,
        HookView::Custom(c) => c.name,
    }
}

pub open spec fn hook_description(h: HookView) -> Seq<char> {
    match h {
        HookView::Shell(s) => ""@,
        HookView::Script(s) => s.description,
        HookView::Webhook(w) => w.config.description,
        HookView::Custom(c) => c.description,
    }
}

pub open spec fn hook_enabled(h: HookView) -> bool {
    match h {
        HookView::Shell(s) => true,
        HookView::Script(s) => s.enabled,
        HookView::Webhook(w) => w.config.enabled,
        HookView::Custom(c) => c.enabled,
    }
}

/// The lower, the earlier the hook is called.
pub open spec fn hook_priority(h: HookView) -> i32 {
    match h {
        HookView::Custom(c) => c.priority,
        _ => 0,
    }
}

impl Hook for RegisteredHook {
    open spec fn spec_name(&self) -> Seq<char> {
        hook_name(self@)
    }

    open spec fn spec_description(&self) -> Seq<char> {
        hook_description(self@)
    }

    open spec fn spec_enabled(&self) -> bool {
        hook_enabled(self@)
    }

    open spec fn spec_priority(&self) -> i32 {
        hook_priority(self@)
    }

    fn name(&self) -> (r: &str) {
        match self {
            RegisteredHook::Shell(h) => h.name.as_str(),
            RegisteredHook::Script(h) => h.name.as_str(),
            RegisteredHook::Webhook(h) => h.config.name.as_str(),
            RegisteredHook::Custom(h) => h.name.as_str(),
        }
    }

    fn description(&self) -> (r: &str) {
        match self {
            RegisteredHook::Shell(_h) => "",
            RegisteredHook::Script(h) => h.description.as_str(),
            RegisteredHook::Webhook(h) => h.config.description.as_str(),
            RegisteredHook::Custom(h) => h.description.as_str(),
        }
    }

    fn is_enabled(&self) -> (r: bool) {
        match self {
            RegisteredHook::Shell(_h) => true,
            RegisteredHook::Script(h) => h.enabled,
            RegisteredHook::Webhook(h) => h.config.enabled,
            RegisteredHook::Custom(h) => h.enabled,
        }
    }

    fn priority(&self) -> (r: i32) {
        match self {
            RegisteredHook::Custom(h) => h.priority,
            _ => 0,
        }
    }
}

/// The points at which hooks wait.
#[derive(Debug, Clone, Copy, PartialEq, Eq, Structural)]
pub enum Slot {
    PreTool,
    PostTool,
    PostTurn,
    SystemPrompt,
    SessionStart,
    SessionEnd,
    Error,
    UserPromptSubmit,
    TurnStart,
    TurnComplete,
    ToolCallStart,
    ModelResponse,
}

/// Whether the hooks of a point are called by their priority; those of the other
/// points are called as they came.
pub open spec fn by_priority(s: Slot) -> bool {
    s == Slot::PreTool || s == Slot::PostTool || s == Slot::PostTurn
}

pub open spec fn hook_views(v: Seq<RegisteredHook>) -> Seq<HookView> {
    v.map_values(|h: RegisteredHook| h@)
}

/// Where a hook of a priority goes: behind all hooks that are called before it or
/// along with it.
pub open spec fn place(slot: Seq<HookView>, priority: i32) -> int
    decreases slot.len(),
{
    if slot.len() == 0 {
        0
    } else if hook_priority(slot.last()) <= priority {
        slot.len() as int
    } else {
        place(slot.drop_last(), priority)
    }
}

/// The hooks of a point with one more.
pub open spec fn added(slot: Seq<HookView>, s: Slot, h: HookView) -> Seq<HookView> {
    if by_priority(s) {
        slot.insert(place(slot, hook_priority(h)), h)
    } else {
        slot.push(h)
    }
}

/// The hooks of all points with one more at a point; a hook that is switched off
/// is not added.
pub open spec fn registered(e: Map<Slot, Seq<HookView>>, s: Slot, h: HookView) -> Map<Slot, Seq<HookView>> {
    if hook_enabled(h) {
        e.insert(s, added(e[s], s, h))
    } else {
        e
    }
}

/// The hooks of all points with one more at some of them.
pub open spec fn registered_at(e: Map<Slot, Seq<HookView>>, slots: Seq<Slot>, h: HookView) -> Map<
    Slot,
    Seq<HookView>,
>
    decreases slots.len(),
{
    if slots.len() == 0 {
        e
    } else {
        registered(registered_at(e, slots.drop_last(), h), slots.last(), h)
    }
}

/// Whether the hooks of a list are in the order of their priorities.
pub open spec fn in_order(slot: Seq<HookView>) -> bool {
    forall|i: int, j: int|
        0 <= i < j < slot.len() ==> hook_priority(#[trigger] slot[i]) <= hook_priority(#[trigger] slot[j])
}

/// Puts a hook where its priority belongs.
fn insert_by_priority(slot: &mut Vec<RegisteredHook>, hook: RegisteredHook)
    ensures
        hook_views(final(slot)@) == hook_views(old(slot)@).insert(
            place(hook_views(old(slot)@), hook_priority(hook@)),
            hook@,
        ),
{
    let ghost views = hook_views(slot@);
    let p = hook.priority();
    let mut n: usize = slot.len();
    assert(views.take(n as int) =~= views);
    while n > 0 && slot[n - 1].priority() > p
        invariant
            n <= slot.len(),
            views == hook_views(slot@),
            p == hook_priority(hook@),
            place(views, p) == place(views.take(n as int), p),
        decreases n,
    {
        assert(views.take(n as int).last() == slot@[n - 1]@);
        assert(views.take(n as int).drop_last() =~= views.take(n - 1));
        n = n - 1;
    }
    if n > 0 {
        assert(views.take(n as int).last() == slot@[n - 1]@);
    }
    assert(place(views, p) == n);
    slot.insert(n, hook);
    assert(hook_views(slot@) =~= views.insert(n as int, hook@));
}

fn push_hook(slot: &mut Vec<RegisteredHook>, hook: RegisteredHook)
    ensures
        hook_views(final(slot)@) == hook_views(old(slot)@).push(hook@),
{
    let ghost was = slot@;
    slot.push(hook);
    assert(hook_views(slot@) =~= hook_views(was).push(hook@));
}

#[derive(Debug)]
pub struct HookEngine {
    pub pre_tool_hooks: Vec<RegisteredHook>,
    pub post_tool_hooks: Vec<RegisteredHook>,
    pub post_turn_hooks: Vec<RegisteredHook>,
    pub system_prompt_hooks: Vec<RegisteredHook>,
    pub on_session_start_hooks: Vec<RegisteredHook>,
    pub on_session_end_hooks: Vec<RegisteredHook>,
    pub on_error_hooks: Vec<RegisteredHook>,
    pub on_user_prompt_submit_hooks: Vec<RegisteredHook>,
    pub on_turn_start_hooks: Vec<RegisteredHook>,
    pub on_turn_complete_hooks: Vec<RegisteredHook>,
    pub on_tool_call_start_hooks: Vec<RegisteredHook>,
    pub on_model_response_hooks: Vec<RegisteredHook>,
}

impl HookEngine {
    /// The hooks of a point.
    pub open spec fn at(&self, s: Slot) -> Seq<HookView> {
        match s {
            Slot::PreTool => hook_views(self.pre_tool_hooks@),
            Slot::PostTool => hook_views(self.post_tool_hooks@),
            Slot::PostTurn => hook_views(self.post_turn_hooks@),
            Slot::SystemPrompt => hook_views(self.system_prompt_hooks@),
            Slot::SessionStart => hook_views(self.on_session_start_hooks@),
            Slot::SessionEnd => hook_views(self.on_session_end_hooks@),
            Slot::Error => hook_views(self.on_error_hooks@),
            Slot::UserPromptSubmit => hook_views(self.on_user_prompt_submit_hooks@),
            Slot::TurnStart => hook_views(self.on_turn_start_hooks@),
            Slot::TurnComplete => hook_views(self.on_turn_complete_hooks@),
            Slot::ToolCallStart => hook_views(self.on_tool_call_start_hooks@),
            Slot::ModelResponse => hook_views(self.on_model_response_hooks@),
        }
    }
}

impl View for HookEngine {
    type V = Map<Slot, Seq<HookView>>;

    /// The hooks of all points.
    open spec fn view(&self) -> Map<Slot, Seq<HookView>> {
        Map::new(|s: Slot| true, |s: Slot| self.at(s))
    }
}

/// No hooks at any point.
pub open spec fn no_hooks() -> Map<Slot, Seq<HookView>> {
    Map::new(|s: Slot| true, |s: Slot| Seq::<HookView>::empty())
}

// ---- What hooks say before a tool is used ----

pub open spec fn result_views(v: Seq<HookResult>) -> Seq<HookResultView> {
    v.map_values(|r: HookResult| r@)
}

/// The first of the hooks that denies, as a message with its name.
pub open spec fn first_denial(hooks: Seq<HookView>, said: Seq<HookResultView>) -> Option<Seq<char>>
    decreases said.len(),
{
    if said.len() == 0 {
        None
    } else {
        match first_denial(hooks, said.drop_last()) {
            Some(m) => Some(m),
            None => match said.last() {
                HookResultView::Denied(reason) => Some(hook_name(hooks[said.len() - 1]) + ": "@ + reason),
                _ => None,
            },
        }
    }
}

/// The last arguments that a hook put in place of the tool's.
pub open spec fn last_args(said: Seq<HookResultView>) -> Option<Seq<char>>
    decreases said.len(),
{
    if said.len() == 0 {
        None
    } else {
        match said.last() {
            HookResultView::Modified(args) => Some(args),
            _ => last_args(said.drop_last()),
        }
    }
}

/// Whether a hook wants nobody asked.
pub open spec fn any_explicit(said: Seq<HookResultView>) -> bool {
    exists|i: int| 0 <= i < said.len() && #[trigger] said[i] == HookResultView::ExplicitAllow
}

/// What comes next before a tool is used.
#[derive(Debug)]
pub enum PreToolTurn<'a> {
    Call(&'a RegisteredHook),
    Denied(String),
    /// Go on, with other arguments where there are any, and without asking where
    /// `allowed`.
    Go { args: Option<String>, allowed: bool },
}

/// What comes next for a prompt.
#[derive(Debug)]
pub enum PromptTurn<'a> {
    Call(&'a RegisteredHook),
    Done(UserPromptHookResult),
}

/// The texts that hooks put forward at the start of a session.
pub open spec fn modified_texts(said: Seq<HookResultView>) -> Seq<Seq<char>>
    decreases said.len(),
{
    if said.len() == 0 {
        Seq::empty()
    } else {
        match said.last() {
            HookResultView::Modified(m) => modified_texts(said.drop_last()).push(m),
            _ => modified_texts(said.drop_last()),
        }
    }
}

/// The texts of a list that are there.
pub open spec fn present_texts(v: Seq<Option<Seq<char>>>) -> Seq<Seq<char>>
    decreases v.len(),
{
    if v.len() == 0 {
        Seq::empty()
    } else {
        match v.last() {
            Some(t) => present_texts(v.drop_last()).push(t),
            None => present_texts(v.drop_last()),
        }
    }
}

pub open spec fn opt_views(v: Seq<Option<String>>) -> Seq<Option<Seq<char>>> {
    v.map_values(|s: Option<String>| opt(s))
}

/// The point at which a configured command waits; notifications have none.
pub open spec fn event_slot(e: HookEvent) -> Option<Slot> {
    match e {
        HookEvent::PreToolUse => Some(Slot::PreTool),
        HookEvent::PostToolUse => Some(Slot::PostTool),
        HookEvent::SessionStart => Some(Slot::SessionStart),
        HookEvent::SessionEnd => Some(Slot::SessionEnd),
        HookEvent::UserPromptSubmit => Some(Slot::UserPromptSubmit),
        HookEvent::Notification => None,
    }
}

/// The hooks of all points with configured commands added.
pub open spec fn with_commands(e: Map<Slot, Seq<HookView>>, configs: Seq<HookConfigView>) -> Map<
    Slot,
    Seq<HookView>,
>
    decreases configs.len(),
{
    if configs.len() == 0 {
        e
    } else {
        let before = with_commands(e, configs.drop_last());
        match event_slot(configs.last().event) {
            Some(s) => registered(before, s, HookView::Shell(shell_of(configs.last()))),
            None => before,
        }
    }
}

pub open spec fn config_views(v: Seq<HookConfig>) -> Seq<HookConfigView> {
    v.map_values(|c: HookConfig| c@)
}

impl HookEngine {
    pub fn new() -> (r: HookEngine)
        ensures
            r@ == no_hooks(),
    {
        let r = HookEngine {
            pre_tool_hooks: Vec::new(),
            post_tool_hooks: Vec::new(),
            post_turn_hooks: Vec::new(),
            system_prompt_hooks: Vec::new(),
            on_session_start_hooks: Vec::new(),
            on_session_end_hooks: Vec::new(),
            on_error_hooks: Vec::new(),
            on_user_prompt_submit_hooks: Vec::new(),
            on_turn_start_hooks: Vec::new(),
            on_turn_complete_hooks: Vec::new(),
            on_tool_call_start_hooks: Vec::new(),
            on_model_response_hooks: Vec::new(),
        };
        assert forall|s: Slot| #[trigger] r.at(s) == Seq::<HookView>::empty() by {
            assert(r.at(s) =~= Seq::<HookView>::empty());
        }
        assert(r@ =~= no_hooks());
        r
    }

    pub fn register_pre_tool_hook(&mut self, hook: RegisteredHook)
        ensures
            final(self)@ == registered(old(self)@, Slot::PreTool, hook@),
    {
        if hook.is_enabled() {
            insert_by_priority(&mut self.pre_tool_hooks, hook);
        }
        assert(self@ =~= registered(old(self)@, Slot::PreTool, hook@));
    }

    pub fn register_post_tool_hook(&mut self, hook: RegisteredHook)
        ensures
            final(self)@ == registered(old(self)@, Slot::PostTool, hook@),
    {
        if hook.is_enabled() {
            insert_by_priority(&mut self.post_tool_hooks, hook);
        }
        assert(self@ =~= registered(old(self)@, Slot::PostTool, hook@));
    }

    pub fn register_post_turn_hook(&mut self, hook: RegisteredHook)
        ensures
            final(self)@ == registered(old(self)@, Slot::PostTurn, hook@),
    {
        if hook.is_enabled() {
            insert_by_priority(&mut self.post_turn_hooks, hook);
        }
        assert(self@ =~= registered(old(self)@, Slot::PostTurn, hook@));
    }

    pub fn register_system_prompt_hook(&mut self, hook: RegisteredHook)
        ensures
            final(self)@ == registered(old(self)@, Slot::SystemPrompt, hook@),
    {
        if hook.is_enabled() {
            push_hook(&mut self.system_prompt_hooks, hook);
        }
        assert(self@ =~= registered(old(self)@, Slot::SystemPrompt, hook@));
    }

    pub fn register_on_session_start_hook(&mut self, hook: RegisteredHook)
        ensures
            final(self)@ == registered(old(self)@, Slot::SessionStart, hook@),
    {
        if hook.is_enabled() {
            push_hook(&mut self.on_session_start_hooks, hook);
        }
        assert(self@ =~= registered(old(self)@, Slot::SessionStart, hook@));
    }

    pub fn register_on_session_end_hook(&mut self, hook: RegisteredHook)
        ensures
            final(self)@ == registered(old(self)@, Slot::SessionEnd, hook@),
    {
        if hook.is_enabled() {
            push_hook(&mut self.on_session_end_hooks, hook);
        }
        assert(self@ =~= registered(old(self)@, Slot::SessionEnd, hook@));
    }

    pub fn register_on_error_hook(&mut self, hook: RegisteredHook)
        ensures
            final(self)@ == registered(old(self)@, Slot::Error, hook@),
    {
        if hook.is_enabled() {
            push_hook(&mut self.on_error_hooks, hook);
        }
        assert(self@ =~= registered(old(self)@, Slot::Error, hook@));
    }

    pub fn register_on_user_prompt_submit_hook(&mut self, hook: RegisteredHook)
        ensures
            final(self)@ == registered(old(self)@, Slot::UserPromptSubmit, hook@),
    {
        if hook.is_enabled() {
            push_hook(&mut self.on_user_prompt_submit_hooks, hook);
        }
        assert(self@ =~= registered(old(self)@, Slot::UserPromptSubmit, hook@));
    }

    pub fn register_on_tool_call_start_hook(&mut self, hook: RegisteredHook)
        ensures
            final(self)@ == registered(old(self)@, Slot::ToolCallStart, hook@),
    {
        if hook.is_enabled() {
            push_hook(&mut self.on_tool_call_start_hooks, hook);
        }
        assert(self@ =~= registered(old(self)@, Slot::ToolCallStart, hook@));
    }

    pub fn register_on_model_response_hook(&mut self, hook: RegisteredHook)
        ensures
            final(self)@ == registered(old(self)@, Slot::ModelResponse, hook@),
    {
        if hook.is_enabled() {
            push_hook(&mut self.on_model_response_hooks, hook);
        }
        assert(self@ =~= registered(old(self)@, Slot::ModelResponse, hook@));
    }

    pub fn register_on_turn_start_hook(&mut self, hook: RegisteredHook)
        ensures
            final(self)@ == registered(old(self)@, Slot::TurnStart, hook@),
    {
        if hook.is_enabled() {
            push_hook(&mut self.on_turn_start_hooks, hook);
        }
        assert(self@ =~= registered(old(self)@, Slot::TurnStart, hook@));
    }

    pub fn register_on_turn_complete_hook(&mut self, hook: RegisteredHook)
        ensures
            final(self)@ == registered(old(self)@, Slot::TurnComplete, hook@),
    {
        if hook.is_enabled() {
            push_hook(&mut self.on_turn_complete_hooks, hook);
        }
        assert(self@ =~= registered(old(self)@, Slot::TurnComplete, hook@));
    }

    /// What comes next before a tool is used, after these replies. The first hook
    /// that denies decides; without one the last arguments count.
    pub fn trigger_pre_tool_use(&self, replies: &Vec<HookResult>) -> (r: PreToolTurn)
        requires
            replies@.len() <= self@[Slot::PreTool].len(),
        ensures
            ({
                let hooks = self@[Slot::PreTool];
                let said = result_views(replies@);
                match first_denial(hooks, said) {
                    Some(m) => r matches PreToolTurn::Denied(d) && d@ == m,
                    None => if said.len() < hooks.len() {
                        r matches PreToolTurn::Call(h) && h@ == hooks[said.len() as int]
                    } else {
                        r matches PreToolTurn::Go { args, allowed } && opt(args) == last_args(said) && allowed
                            == any_explicit(said)
                    },
                }
            }),
    {
        let ghost hooks = self@[Slot::PreTool];
        let ghost said = result_views(replies@);
        assert(hooks == hook_views(self.pre_tool_hooks@));
        let mut args: Option<String> = None;
        let mut allowed: bool = false;
        let mut i: usize = 0;
        assert(said.take(0) =~= Seq::<HookResultView>::empty());
        while i < replies.len()
            invariant
                i <= replies.len() <= self.pre_tool_hooks.len(),
                hooks == hook_views(self.pre_tool_hooks@),
                said == result_views(replies@),
                first_denial(hooks, said.take(i as int)) is None,
                opt(args) == last_args(said.take(i as int)),
                allowed == any_explicit(said.take(i as int)),
            decreases replies.len() - i,
        {
            let ghost now = said.take(i + 1);
            assert(now.drop_last() =~= said.take(i as int));
            assert(now.last() == replies@[i as int]@);
            proof {
                lemma_explicit_step(now);
            }
            match &replies[i] {
                HookResult::Denied(reason) => {
                    let mut m: String = self.pre_tool_hooks[i].name().to_owned();
                    m.append(": ");
                    m.append(reason.as_str());
                    assert(hooks[i as int] == self.pre_tool_hooks@[i as int]@);
                    proof {
                        lemma_denial_stays(hooks, said, i + 1);
                    }
                    return PreToolTurn::Denied(m);
                },
                HookResult::ExplicitAllow => {
                    allowed = true;
                },
                HookResult::Modified(new_args) => {
                    args = Some(new_args.clone());
                },
                _ => {},
            }
            i = i + 1;
        }
        assert(said.take(i as int) =~= said);
        if replies.len() < self.pre_tool_hooks.len() {
            let next = &self.pre_tool_hooks[replies.len()];
            assert(hooks[replies@.len() as int] == next@);
            return PreToolTurn::Call(next);
        }
        PreToolTurn::Go { args, allowed }
    }

    /// What comes next for a prompt, after these replies.
    pub fn trigger_user_prompt_submit(&self, replies: &Vec<UserPromptSubmitResult>) -> (r: PromptTurn)
        ensures
            ({
                let hooks = self@[Slot::UserPromptSubmit];
                let said = prompt_views(replies@);
                if first_block(said) is None && said.len() < hooks.len() {
                    r matches PromptTurn::Call(h) && h@ == hooks[said.len() as int]
                } else {
                    r matches PromptTurn::Done(p) && p@ == prompt_outcome(said, false)
                }
            }),
    {
        assert(self@[Slot::UserPromptSubmit] == hook_views(self.on_user_prompt_submit_hooks@));
        assert(prompt_views(replies@).len() == replies@.len());
        if blocked(replies).is_none() && replies.len() < self.on_user_prompt_submit_hooks.len() {
            let next = &self.on_user_prompt_submit_hooks[replies.len()];
            assert(hook_views(self.on_user_prompt_submit_hooks@)[replies@.len() as int] == next@);
            return PromptTurn::Call(next);
        }
        PromptTurn::Done(conclude(replies, false))
    }

    /// The messages that the hooks of a session's start put forward.
    pub fn trigger_session_start(&self, replies: &Vec<HookResult>) -> (r: Vec<String>)
        ensures
            texts(r@) == modified_texts(result_views(replies@)),
    {
        let ghost said = result_views(replies@);
        let mut out: Vec<String> = Vec::new();
        let mut i: usize = 0;
        assert(said.take(0) =~= Seq::<HookResultView>::empty());
        assert(texts(out@) =~= modified_texts(said.take(0)));
        while i < replies.len()
            invariant
                i <= replies.len(),
                said == result_views(replies@),
                texts(out@) == modified_texts(said.take(i as int)),
            decreases replies.len() - i,
        {
            assert(said.take(i + 1).drop_last() =~= said.take(i as int));
            assert(said.take(i + 1).last() == replies@[i as int]@);
            let ghost was = out@;
            if let HookResult::Modified(m) = &replies[i] {
                out.push(m.clone());
                assert(texts(out@) =~= texts(was).push(m@));
            }
            i = i + 1;
        }
        assert(said.take(i as int) =~= said);
        out
    }

    /// What the hooks add to the system prompt, in order.
    pub fn collect_system_prompt_extensions(&self, replies: &Vec<Option<String>>) -> (r: Vec<String>)
        ensures
            texts(r@) == present_texts(opt_views(replies@)),
    {
        let ghost said = opt_views(replies@);
        let mut out: Vec<String> = Vec::new();
        let mut i: usize = 0;
        assert(said.take(0) =~= Seq::<Option<Seq<char>>>::empty());
        assert(texts(out@) =~= present_texts(said.take(0)));
        while i < replies.len()
            invariant
                i <= replies.len(),
                said == opt_views(replies@),
                texts(out@) == present_texts(said.take(i as int)),
            decreases replies.len() - i,
        {
            assert(said.take(i + 1).drop_last() =~= said.take(i as int));
            assert(said.take(i + 1).last() == opt(replies@[i as int]));
            let ghost was = out@;
            if let Some(m) = &replies[i] {
                out.push(m.clone());
                assert(texts(out@) =~= texts(was).push(m@));
            }
            i = i + 1;
        }
        assert(said.take(i as int) =~= said);
        out
    }

    /// Whether any hook waits at any point.
    pub fn has_any(&self) -> (r: bool)
        ensures
            r == exists|s: Slot| (#[trigger] self.at(s)).len() > 0,
    {
        let r = self.pre_tool_hooks.len() > 0 || self.post_tool_hooks.len() > 0 || self.post_turn_hooks.len() > 0
            || self.system_prompt_hooks.len() > 0 || self.on_session_start_hooks.len() > 0
            || self.on_session_end_hooks.len() > 0 || self.on_error_hooks.len() > 0
            || self.on_user_prompt_submit_hooks.len() > 0 || self.on_turn_start_hooks.len() > 0
            || self.on_turn_complete_hooks.len() > 0 || self.on_tool_call_start_hooks.len() > 0
            || self.on_model_response_hooks.len() > 0;
        proof {
            assert(self.at(Slot::PreTool).len() == self.pre_tool_hooks@.len());
            assert(self.at(Slot::PostTool).len() == self.post_tool_hooks@.len());
            assert(self.at(Slot::PostTurn).len() == self.post_turn_hooks@.len());
            assert(self.at(Slot::SystemPrompt).len() == self.system_prompt_hooks@.len());
            assert(self.at(Slot::SessionStart).len() == self.on_session_start_hooks@.len());
            assert(self.at(Slot::SessionEnd).len() == self.on_session_end_hooks@.len());
            assert(self.at(Slot::Error).len() == self.on_error_hooks@.len());
            assert(self.at(Slot::UserPromptSubmit).len() == self.on_user_prompt_submit_hooks@.len());
            assert(self.at(Slot::TurnStart).len() == self.on_turn_start_hooks@.len());
            assert(self.at(Slot::TurnComplete).len() == self.on_turn_complete_hooks@.len());
            assert(self.at(Slot::ToolCallStart).len() == self.on_tool_call_start_hooks@.len());
            assert(self.at(Slot::ModelResponse).len() == self.on_model_response_hooks@.len());
        }
        r
    }

    /// How many hooks wait at each point.
    pub fn stats(&self) -> (r: HookStats)
        ensures
            r.pre_tool_hooks == self@[Slot::PreTool].len(),
            r.post_tool_hooks == self@[Slot::PostTool].len(),
            r.post_turn_hooks == self@[Slot::PostTurn].len(),
            r.system_prompt_hooks == self@[Slot::SystemPrompt].len(),
            r.on_session_start_hooks == self@[Slot::SessionStart].len(),
            r.on_session_end_hooks == self@[Slot::SessionEnd].len(),
            r.on_error_hooks == self@[Slot::Error].len(),
            r.on_user_prompt_submit_hooks == self@[Slot::UserPromptSubmit].len(),
            r.on_turn_start_hooks == self@[Slot::TurnStart].len(),
            r.on_turn_complete_hooks == self@[Slot::TurnComplete].len(),
            r.on_tool_call_start_hooks == self@[Slot::ToolCallStart].len(),
            r.on_model_response_hooks == self@[Slot::ModelResponse].len(),
    {
        HookStats {
            pre_tool_hooks: self.pre_tool_hooks.len(),
            post_tool_hooks: self.post_tool_hooks.len(),
            post_turn_hooks: self.post_turn_hooks.len(),
            system_prompt_hooks: self.system_prompt_hooks.len(),
            on_session_start_hooks: self.on_session_start_hooks.len(),
            on_session_end_hooks: self.on_session_end_hooks.len(),
            on_error_hooks: self.on_error_hooks.len(),
            on_user_prompt_submit_hooks: self.on_user_prompt_submit_hooks.len(),
            on_turn_start_hooks: self.on_turn_start_hooks.len(),
            on_turn_complete_hooks: self.on_turn_complete_hooks.len(),
            on_tool_call_start_hooks: self.on_tool_call_start_hooks.len(),
            on_model_response_hooks: self.on_model_response_hooks.len(),
        }
    }

    /// Takes configured commands in; those for notifications are passed over.
    pub fn load_json_hooks(&mut self, configs: Vec<HookConfig>)
        ensures
            final(self)@ == with_commands(old(self)@, config_views(configs@)),
    {
        let ghost start = self@;
        let ghost views = config_views(configs@);
        let mut i: usize = 0;
        assert(views.take(0) =~= Seq::<HookConfigView>::empty());
        while i < configs.len()
            invariant
                i <= configs.len(),
                views == config_views(configs@),
                self@ == with_commands(start, views.take(i as int)),
            decreases configs.len() - i,
        {
            assert(views.take(i + 1).drop_last() =~= views.take(i as int));
            assert(views.take(i + 1).last() == configs@[i as int]@);
            let config = configs[i].clone();
            let event = config.event;
            let hook = RegisteredHook::Shell(ShellCommandHook::from_hook_config(config));
            match event {
                HookEvent::PreToolUse => self.register_pre_tool_hook(hook),
                HookEvent::PostToolUse => self.register_post_tool_hook(hook),
                HookEvent::SessionStart => self.register_on_session_start_hook(hook),
                HookEvent::SessionEnd => self.register_on_session_end_hook(hook),
                HookEvent::UserPromptSubmit => self.register_on_user_prompt_submit_hook(hook),
                HookEvent::Notification => {},
            }
            i = i + 1;
        }
        assert(views.take(i as int) =~= views);
    }
}

/// What was found in a directory of hooks: its configuration, and which of the
/// files of its scripts are there.
#[derive(Debug)]
pub struct HookDir {
    pub config: HooksConfig,
    pub base_dir: String,
    pub present: Vec<String>,
}

/// The hooks of all points with the scripts of some directories added.
pub open spec fn with_script_dirs(e: Map<Slot, Seq<HookView>>, dirs: Seq<HookDir>) -> Map<Slot, Seq<HookView>>
    decreases dirs.len(),
{
    if dirs.len() == 0 {
        e
    } else {
        with_scripts(
            with_script_dirs(e, dirs.drop_last()),
            script_views(dirs.last().config.hooks@),
            dirs.last().base_dir@,
            texts(dirs.last().present@),
        )
    }
}

/// The hooks of all points with the web services of some directories added.
pub open spec fn with_webhook_dirs(e: Map<Slot, Seq<HookView>>, dirs: Seq<HookDir>) -> Map<Slot, Seq<HookView>>
    decreases dirs.len(),
{
    if dirs.len() == 0 {
        e
    } else {
        with_webhooks(
            with_webhook_dirs(e, dirs.drop_last()),
            webhook_views(dirs.last().config.webhooks@),
            dirs.last().config.async_webhooks@,
        )
    }
}

impl HookEngine {
    /// Takes everything in that is configured: commands first, then scripts, then
    /// web services.
    pub fn load_all(&mut self, commands: Vec<HookConfig>, dirs: &Vec<HookDir>)
        requires
            forall|i: int| 0 <= i < dirs@.len() ==> (#[trigger] dirs@[i]).config.wf(),
        ensures
            final(self)@ == with_webhook_dirs(
                with_script_dirs(with_commands(old(self)@, config_views(commands@)), dirs@),
                dirs@,
            ),
    {
        self.load_json_hooks(commands);
        let ghost loaded = self@;
        let mut i: usize = 0;
        assert(dirs@.take(0) =~= Seq::<HookDir>::empty());
        while i < dirs.len()
            invariant
                i <= dirs.len(),
                self@ == with_script_dirs(loaded, dirs@.take(i as int)),
            decreases dirs.len() - i,
        {
            assert(dirs@.take(i + 1).drop_last() =~= dirs@.take(i as int));
            dirs[i].config.register_hooks_to_engine(self, dirs[i].base_dir.as_str(), &dirs[i].present);
            i = i + 1;
        }
        assert(dirs@.take(i as int) =~= dirs@);
        let ghost scripted = self@;
        let mut k: usize = 0;
        while k < dirs.len()
            invariant
                k <= dirs.len(),
                forall|i: int| 0 <= i < dirs@.len() ==> (#[trigger] dirs@[i]).config.wf(),
                self@ == with_webhook_dirs(scripted, dirs@.take(k as int)),
            decreases dirs.len() - k,
        {
            assert(dirs@.take(k + 1).drop_last() =~= dirs@.take(k as int));
            assert(dirs@[k as int].config.wf());
            dirs[k].config.register_webhooks_to_engine(self);
            k = k + 1;
        }
        assert(dirs@.take(k as int) =~= dirs@);
    }
}

pub proof fn lemma_denial_stays(hooks: Seq<HookView>, said: Seq<HookResultView>, n: int)
    requires
        0 <= n <= said.len(),
        first_denial(hooks, said.take(n)) is Some,
    ensures
        first_denial(hooks, said) == first_denial(hooks, said.take(n)),
    decreases said.len() - n,
{
    if n == said.len() {
        assert(said.take(n) =~= said);
    } else {
        assert(said.take(n + 1).drop_last() =~= said.take(n));
        lemma_denial_stays(hooks, said, n + 1);
    }
}

proof fn lemma_explicit_step(said: Seq<HookResultView>)
    requires
        said.len() > 0,
    ensures
        any_explicit(said) == (any_explicit(said.drop_last()) || said.last() == HookResultView::ExplicitAllow),
{
    let before = said.drop_last();
    if any_explicit(before) {
        let i = choose|i: int| 0 <= i < before.len() && #[trigger] before[i] == HookResultView::ExplicitAllow;
        assert(said[i] == HookResultView::ExplicitAllow);
    }
    if said.last() == HookResultView::ExplicitAllow {
        assert(said[said.len() - 1] == HookResultView::ExplicitAllow);
    }
    if any_explicit(said) && said.last() != HookResultView::ExplicitAllow {
        let i = choose|i: int| 0 <= i < said.len() && #[trigger] said[i] == HookResultView::ExplicitAllow;
        assert(before[i] == HookResultView::ExplicitAllow);
    }
}

/// Where a hook goes, all before it are called no later and all behind it later.
pub proof fn lemma_place(slot: Seq<HookView>, priority: i32)
    requires
        in_order(slot),
    ensures
        0 <= place(slot, priority) <= slot.len(),
        forall|i: int| 0 <= i < place(slot, priority) ==> hook_priority(#[trigger] slot[i]) <= priority,
        forall|i: int| place(slot, priority) <= i < slot.len() ==> hook_priority(#[trigger] slot[i]) > priority,
    decreases slot.len(),
{
    if slot.len() > 0 && hook_priority(slot.last()) > priority {
        let rest = slot.drop_last();
        assert forall|i: int, j: int| 0 <= i < j < rest.len() implies hook_priority(#[trigger] rest[i])
            <= hook_priority(#[trigger] rest[j]) by {
            assert(rest[i] == slot[i] && rest[j] == slot[j]);
        }
        lemma_place(rest, priority);
        assert forall|i: int| 0 <= i < place(slot, priority) implies hook_priority(#[trigger] slot[i])
            <= priority by {
            assert(rest[i] == slot[i]);
        }
        assert forall|i: int| place(slot, priority) <= i < slot.len() implies hook_priority(#[trigger] slot[i])
            > priority by {
            if i < rest.len() {
                assert(rest[i] == slot[i]);
            }
        }
    }
}

/// Registering a hook keeps the hooks of the points that go by priority in order.
pub proof fn registering_keeps_order(e: Map<Slot, Seq<HookView>>, s: Slot, h: HookView, at: Slot)
    requires
        by_priority(at),
        e.contains_key(s),
        e.contains_key(at),
        in_order(e[at]),
    ensures
        in_order(registered(e, s, h)[at]),
{
    if hook_enabled(h) && s == at {
        let slot = e[at];
        lemma_place(slot, hook_priority(h));
        let k = place(slot, hook_priority(h));
        let now = slot.insert(k, h);
        assert forall|i: int, j: int| 0 <= i < j < now.len() implies hook_priority(#[trigger] now[i])
            <= hook_priority(#[trigger] now[j]) by {
            let x = if i < k { i } else { i - 1 };
            let y = if j < k { j } else { j - 1 };
            if i == k {
                assert(now[j] == slot[y]);
            } else if j == k {
                assert(now[i] == slot[x]);
            } else {
                assert(now[i] == slot[x] && now[j] == slot[y]);
            }
        }
    }
}

/// A hook that is switched off is nowhere registered.
pub proof fn disabled_hooks_do_not_wait(e: Map<Slot, Seq<HookView>>, s: Slot, h: HookView)
    requires
        !hook_enabled(h),
    ensures
        registered(e, s, h) == e,
{
}

/// Registering a hook leaves the hooks of every other point as they are.
pub proof fn registering_touches_one_point(e: Map<Slot, Seq<HookView>>, s: Slot, h: HookView, other: Slot)
    requires
        e.contains_key(other),
        other != s,
    ensures
        registered(e, s, h).contains_key(other),
        registered(e, s, h)[other] == e[other],
{
}

/// Once a hook has denied a tool call, no later one changes that.
pub proof fn the_first_denial_decides(hooks: Seq<HookView>, said: Seq<HookResultView>, later: Seq<HookResultView>)
    requires
        first_denial(hooks, said) is Some,
    ensures
        first_denial(hooks, said + later) == first_denial(hooks, said),
{
    assert((said + later).take(said.len() as int) =~= said);
    lemma_denial_stays(hooks, said + later, said.len() as int);
}

/// The hook that is denied by is the first that denies, and the message names it.
pub proof fn denials_name_the_first_hook(hooks: Seq<HookView>, said: Seq<HookResultView>, i: int)
    ensures
        0 <= i < said.len() && said[i] is Denied && (forall|k: int| 0 <= k < i ==> !(#[trigger] said[k] is Denied))
            ==> first_denial(hooks, said) == Some(hook_name(hooks[i]) + ": "@ + said[i]->Denied_0),
        (forall|k: int| 0 <= k < said.len() ==> !(#[trigger] said[k] is Denied)) ==> first_denial(hooks, said) is None,
{
    if 0 <= i < said.len() && said[i] is Denied && (forall|k: int| 0 <= k < i ==> !(#[trigger] said[k] is Denied)) {
        let t = said.take(i + 1);
        assert(t.drop_last() =~= said.take(i));
        assert(t.last() == said[i]);
        lemma_no_denial(hooks, said.take(i));
        lemma_denial_stays(hooks, said, i + 1);
    }
    if forall|k: int| 0 <= k < said.len() ==> !(#[trigger] said[k] is Denied) {
        lemma_no_denial(hooks, said);
    }
}

proof fn lemma_no_denial(hooks: Seq<HookView>, said: Seq<HookResultView>)
    requires
        forall|k: int| 0 <= k < said.len() ==> !(#[trigger] said[k] is Denied),
    ensures
        first_denial(hooks, said) is None,
    decreases said.len(),
{
    if said.len() > 0 {
        let t = said.drop_last();
        assert forall|k: int| 0 <= k < t.len() implies !(#[trigger] t[k] is Denied) by {
            assert(t[k] == said[k]);
        }
        lemma_no_denial(hooks, t);
        assert(!(said[said.len() - 1] is Denied));
    }
}

/// The arguments that count are the last that a hook put in place; where none did, the
/// tool's own. What else hooks say does not change that.
pub proof fn the_last_arguments_count(said: Seq<HookResultView>, args: Seq<char>, r: HookResultView)
    ensures
        last_args(said.push(HookResultView::Modified(args))) == Some(args),
        !(r is Modified) ==> last_args(said.push(r)) == last_args(said),
        last_args(Seq::empty()) is None,
{
    assert(said.push(r).drop_last() =~= said);
    assert(said.push(HookResultView::Modified(args)).drop_last() =~= said);
}

/// A hook that is switched on waits at its point once more than before, and those that
/// waited there still do, in their order: it stands behind all of a lower or the same
/// priority and before all of a higher one where priorities count, and last elsewhere.
pub proof fn registered_hooks_wait(e: Map<Slot, Seq<HookView>>, s: Slot, h: HookView) -> (at: int)
    requires
        e.contains_key(s),
        hook_enabled(h),
        in_order(e[s]),
    ensures
        0 <= at <= e[s].len(),
        registered(e, s, h)[s] == e[s].insert(at, h),
        s == Slot::PreTool || s == Slot::PostTool || s == Slot::PostTurn ==> (forall|i: int|
            0 <= i < at ==> hook_priority(#[trigger] e[s][i]) <= hook_priority(h)) && (forall|i: int|
            at <= i < e[s].len() ==> hook_priority(#[trigger] e[s][i]) > hook_priority(h)),
        s != Slot::PreTool && s != Slot::PostTool && s != Slot::PostTurn ==> at == e[s].len(),
{
    let slot = e[s];
    lemma_place(slot, hook_priority(h));
    if by_priority(s) {
        place(slot, hook_priority(h))
    } else {
        assert(slot.push(h) =~= slot.insert(slot.len() as int, h));
        slot.len() as int
    }
}

/// Configured commands wait at the point of their event, each behind those before it;
/// notifications wait nowhere.
pub proof fn commands_wait_at_their_event(e: Map<Slot, Seq<HookView>>, configs: Seq<HookConfigView>, i: int)
    requires
        forall|s: Slot| #[trigger] e.contains_key(s),
        0 <= i < configs.len(),
    ensures
        ({
            let now = with_commands(e, configs);
            let h = HookView::Shell(shell_of(configs[i]));
            &&& forall|s: Slot| #[trigger] now.contains_key(s)
            &&& configs[i].event == HookEvent::PreToolUse ==> now[Slot::PreTool].contains(h)
            &&& configs[i].event == HookEvent::PostToolUse ==> now[Slot::PostTool].contains(h)
            &&& configs[i].event == HookEvent::SessionStart ==> now[Slot::SessionStart].contains(h)
            &&& configs[i].event == HookEvent::SessionEnd ==> now[Slot::SessionEnd].contains(h)
            &&& configs[i].event == HookEvent::UserPromptSubmit ==> now[Slot::UserPromptSubmit].contains(h)
        }),
    decreases configs.len(),
{
    lemma_commands(e, configs, i);
}

proof fn lemma_commands_slots(e: Map<Slot, Seq<HookView>>, configs: Seq<HookConfigView>)
    requires
        forall|s: Slot| #[trigger] e.contains_key(s),
    ensures
        forall|s: Slot| #[trigger] with_commands(e, configs).contains_key(s),
    decreases configs.len(),
{
    if configs.len() > 0 {
        let before = with_commands(e, configs.drop_last());
        lemma_commands_slots(e, configs.drop_last());
        assert forall|s: Slot| #[trigger] with_commands(e, configs).contains_key(s) by {
            assert(before.contains_key(s));
        }
    }
}

proof fn lemma_place_range(slot: Seq<HookView>, priority: i32)
    ensures
        0 <= place(slot, priority) <= slot.len(),
    decreases slot.len(),
{
    if slot.len() > 0 {
        lemma_place_range(slot.drop_last(), priority);
    }
}

proof fn lemma_commands(e: Map<Slot, Seq<HookView>>, configs: Seq<HookConfigView>, i: int)
    requires
        forall|s: Slot| #[trigger] e.contains_key(s),
        0 <= i < configs.len(),
    ensures
        forall|s: Slot| #[trigger] with_commands(e, configs).contains_key(s),
        event_slot(configs[i].event) is Some ==> with_commands(e, configs)[event_slot(configs[i].event)->0].contains(
            HookView::Shell(shell_of(configs[i])),
        ),
    decreases configs.len(),
{
    let t = configs.drop_last();
    let before = with_commands(e, t);
    let now = with_commands(e, configs);
    lemma_commands_slots(e, configs);
    lemma_commands_slots(e, t);
    let c = configs.last();
    let added_hook = HookView::Shell(shell_of(c));
    if event_slot(configs[i].event) is Some {
        let s = event_slot(configs[i].event)->0;
        let h = HookView::Shell(shell_of(configs[i]));
        if event_slot(c.event) is Some {
            lemma_place_range(before[event_slot(c.event)->0], hook_priority(added_hook));
        }
        if i < configs.len() - 1 {
            assert(t[i] == configs[i]);
            lemma_commands(e, t, i);
            let k = choose|k: int| 0 <= k < before[s].len() && before[s][k] == h;
            if event_slot(c.event) == Some(s) {
                let at = place(before[s], hook_priority(added_hook));
                if by_priority(s) {
                    if k < at {
                        assert(now[s][k] == h);
                    } else {
                        assert(now[s][k + 1] == h);
                    }
                } else {
                    assert(now[s][k] == h);
                }
            } else {
                assert(now[s] == before[s]);
                assert(now[s][k] == h);
            }
        } else {
            let at = place(before[s], hook_priority(h));
            if by_priority(s) {
                assert(now[s][at] == h);
            } else {
                assert(now[s][now[s].len() - 1] == h);
            }
        }
    }
}

/// What hooks put forward at the start of a session is what they changed, in order, and
/// what they add to the system prompt is all that is there, in order.
pub proof fn texts_are_put_forward_in_order(
    said: Seq<HookResultView>,
    r: HookResultView,
    v: Seq<Option<Seq<char>>>,
    t: Seq<char>,
)
    ensures
        modified_texts(said.push(HookResultView::Modified(t))) == modified_texts(said).push(t),
        !(r is Modified) ==> modified_texts(said.push(r)) == modified_texts(said),
        modified_texts(Seq::empty()).len() == 0,
        present_texts(v.push(Some(t))) == present_texts(v).push(t),
        present_texts(v.push(None)) == present_texts(v),
        present_texts(Seq::empty()).len() == 0,
{
    assert(said.push(r).drop_last() =~= said);
    assert(said.push(HookResultView::Modified(t)).drop_last() =~= said);
    assert(v.push(Some(t)).drop_last() =~= v);
    assert(v.push(None).drop_last() =~= v);
}

pub proof fn lemma_registered(e: Map<Slot, Seq<HookView>>, s: Slot, h: HookView, t: Slot, x: HookView)
    requires
        forall|k: Slot| #[trigger] e.contains_key(k),
    ensures
        forall|k: Slot| #[trigger] registered(e, s, h).contains_key(k),
        hook_enabled(h) ==> registered(e, s, h)[s].contains(h),
        e[t].contains(x) ==> registered(e, s, h)[t].contains(x),
        registered(e, s, h)[t].contains(x) && x != h ==> e[t].contains(x),
        t != s ==> registered(e, s, h)[t] == e[t],
{
    let now = registered(e, s, h);
    assert forall|k: Slot| #[trigger] now.contains_key(k) by {
        assert(e.contains_key(k));
    }
    lemma_place_range(e[s], hook_priority(h));
    let at = if by_priority(s) {
        place(e[s], hook_priority(h))
    } else {
        e[s].len() as int
    };
    if hook_enabled(h) {
        assert(now[s] =~= e[s].insert(at, h));
        assert(now[s][at] == h);
        if e[t].contains(x) {
            let i = choose|i: int| 0 <= i < e[t].len() && e[t][i] == x;
            if t == s {
                if i < at {
                    assert(now[t][i] == x);
                } else {
                    assert(now[t][i + 1] == x);
                }
            } else {
                assert(now[t][i] == x);
            }
        }
        if now[t].contains(x) && x != h && t == s {
            let i = choose|i: int| 0 <= i < now[t].len() && now[t][i] == x;
            if i < at {
                assert(e[t][i] == x);
            } else {
                assert(e[t][i - 1] == x);
            }
        }
    }
}

pub proof fn lemma_registered_at(e: Map<Slot, Seq<HookView>>, slots: Seq<Slot>, h: HookView, t: Slot, x: HookView)
    requires
        forall|k: Slot| #[trigger] e.contains_key(k),
    ensures
        forall|k: Slot| #[trigger] registered_at(e, slots, h).contains_key(k),
        hook_enabled(h) && slots.contains(t) ==> registered_at(e, slots, h)[t].contains(h),
        e[t].contains(x) ==> registered_at(e, slots, h)[t].contains(x),
        !slots.contains(t) ==> registered_at(e, slots, h)[t] == e[t],
    decreases slots.len(),
{
    if slots.len() > 0 {
        let rest = slots.drop_last();
        let before = registered_at(e, rest, h);
        lemma_registered_at(e, rest, h, t, x);
        lemma_registered(before, slots.last(), h, t, x);
        lemma_registered(before, slots.last(), h, t, h);
        if slots.contains(t) {
            let i = choose|i: int| 0 <= i < slots.len() && slots[i] == t;
            if i < rest.len() {
                assert(rest[i] == t);
            }
        } else {
            assert(!rest.contains(t)) by {
                if rest.contains(t) {
                    let i = choose|i: int| 0 <= i < rest.len() && rest[i] == t;
                    assert(slots[i] == t);
                }
            }
            assert(slots[slots.len() - 1] != t);
        }
    }
}

/// Nobody is asked where any hook says so, and only then.
pub proof fn one_explicit_consent_is_enough(said: Seq<HookResultView>, r: HookResultView)
    ensures
        any_explicit(said.push(HookResultView::ExplicitAllow)),
        any_explicit(said) ==> any_explicit(said.push(r)),
        r != HookResultView::ExplicitAllow && any_explicit(said.push(r)) ==> any_explicit(said),
        !any_explicit(Seq::empty()),
{
    assert(said.push(r).drop_last() =~= said);
    lemma_explicit_step(said.push(r));
    let e = said.push(HookResultView::ExplicitAllow);
    assert(e.drop_last() =~= said);
    lemma_explicit_step(e);
}

} // verus!
