//! Calling the commands that an event calls. Running a command is left to the
//! caller: it asks what comes next, runs it, and asks again with what it said.

use vstd::prelude::*;
use vstd::string::*;

use crate::hook::config::{matched, matching_hooks, pointed};
use crate::hook::prompt::{blocked, conclude, first_block, prompt_outcome, prompt_views};
use crate::hook::{
    HookConfig, HookContext, HookEvent, PreHookResult, PreHookView, UserPromptHookResult, UserPromptSubmitResult,
};
use crate::text::{decimal_int, opt, pairs, push_decimal_int, push_pair};

verus! {

#[derive(Debug)]
pub struct HookExecutor {
    pub hooks: Vec<HookConfig>,
}

/// What comes next before a tool is used.
#[derive(Debug)]
pub enum PreToolNext<'a> {
    Run(&'a HookConfig),
    Done(PreHookResult),
}

/// What comes next for a prompt.
#[derive(Debug)]
pub enum PromptNext<'a> {
    Run(&'a HookConfig),
    Done(UserPromptHookResult),
}

/// The views of what commands said of a tool call; a command that said nothing
/// that counts has none.
pub open spec fn pre_views(v: Seq<Option<PreHookResult>>) -> Seq<Option<PreHookView>> {
    v.map_values(
        |r: Option<PreHookResult>|
            match r {
                Some(p) => Some(p@),
                None => None,
            },
    )
}

/// The first reply that blocks.
pub open spec fn first_pre_block(v: Seq<Option<PreHookView>>) -> Option<PreHookView>
    decreases v.len(),
{
    if v.len() == 0 {
        None
    } else {
        match first_pre_block(v.drop_last()) {
            Some(r) => Some(r),
            None => match v.last() {
                Some(PreHookView::Block(reason)) => Some(PreHookView::Block(reason)),
                _ => None,
            },
        }
    }
}

/// The last reply that replaces the arguments, or consent.
pub open spec fn last_modify(v: Seq<Option<PreHookView>>) -> PreHookView
    decreases v.len(),
{
    if v.len() == 0 {
        PreHookView::Allow
    } else {
        match v.last() {
            Some(PreHookView::Modify(args)) => PreHookView::Modify(args),
            _ => last_modify(v.drop_last()),
        }
    }
}

/// What becomes of a tool call: the first block decides, and without one the last
/// replacement of the arguments counts.
pub open spec fn pre_tool_outcome(v: Seq<Option<PreHookView>>) -> PreHookView {
    match first_pre_block(v) {
        Some(b) => b,
        None => last_modify(v),
    }
}

pub proof fn lemma_pre_block_stays(v: Seq<Option<PreHookView>>, n: int)
    requires
        0 <= n <= v.len(),
        first_pre_block(v.take(n)) is Some,
    ensures
        first_pre_block(v) == first_pre_block(v.take(n)),
    decreases v.len() - n,
{
    if n == v.len() {
        assert(v.take(n) =~= v);
    } else {
        assert(v.take(n + 1).drop_last() =~= v.take(n));
        lemma_pre_block_stays(v, n + 1);
    }
}

fn pre_tool_result(replies: &Vec<Option<PreHookResult>>) -> (r: (PreHookResult, bool))
    ensures
        r.0@ == pre_tool_outcome(pre_views(replies@)),
        r.1 == (first_pre_block(pre_views(replies@)) is Some),
{
    let ghost views = pre_views(replies@);
    let mut result = PreHookResult::Allow;
    let mut i: usize = 0;
    assert(views.take(0) =~= Seq::<Option<PreHookView>>::empty());
    while i < replies.len()
        invariant
            i <= replies.len(),
            views == pre_views(replies@),
            first_pre_block(views.take(i as int)) is None,
            result@ == last_modify(views.take(i as int)),
        decreases replies.len() - i,
    {
        assert(views.take(i + 1).drop_last() =~= views.take(i as int));
        assert(views.take(i + 1).last() == match replies@[i as int] {
            Some(p) => Some(p@),
            None => None,
        });
        if let Some(reply) = &replies[i] {
            match reply {
                PreHookResult::Block { reason } => {
                    proof {
                        lemma_pre_block_stays(views, i + 1);
                    }
                    return (PreHookResult::Block { reason: reason.clone() }, true);
                },
                PreHookResult::Modify { args } => {
                    result = PreHookResult::Modify { args: args.clone() };
                },
                PreHookResult::Allow => {},
            }
        }
        i = i + 1;
    }
    assert(views.take(i as int) =~= views);
    (result, false)
}

/// The variables that a command finds in its environment.
pub open spec fn environment(
    event: Seq<char>,
    context_json: Seq<char>,
    tool_name: Option<Seq<char>>,
    plugin_root: Option<Seq<char>>,
) -> Seq<(Seq<char>, Seq<char>)> {
    seq![("ATOMCODE_HOOK_EVENT"@, event), ("ATOMCODE_HOOK_CONTEXT"@, context_json)] + (match tool_name {
        Some(t) => seq![("ATOMCODE_TOOL_NAME"@, t)],
        None => Seq::empty(),
    }) + plugin_environment(plugin_root)
}

/// The variables that tell a plugin's command where the plugin lives.
pub open spec fn plugin_environment(plugin_root: Option<Seq<char>>) -> Seq<(Seq<char>, Seq<char>)> {
    match plugin_root {
        Some(p) => seq![("CLAUDE_PLUGIN_ROOT"@, p), ("ATOMCODE_PLUGIN_ROOT"@, p)],
        None => Seq::empty(),
    }
}

/// The environment of a command that reads its payload from its input.
pub fn plugin_variables(plugin_root: &Option<String>) -> (r: Vec<(String, String)>)
    ensures
        pairs(r@) == plugin_environment(opt(*plugin_root)),
{
    let mut out: Vec<(String, String)> = Vec::new();
    assert(pairs(out@) =~= Seq::<(Seq<char>, Seq<char>)>::empty());
    if let Some(root) = plugin_root {
        push_pair(&mut out, "CLAUDE_PLUGIN_ROOT", root.as_str());
        push_pair(&mut out, "ATOMCODE_PLUGIN_ROOT", root.as_str());
        assert(pairs(out@) =~= plugin_environment(opt(*plugin_root)));
    }
    out
}

/// The environment of a command that is told of an event through it.
pub fn command_variables(ctx: &HookContext, context_json: &str, plugin_root: &Option<String>) -> (r: Vec<
    (String, String),
>)
    ensures
        pairs(r@) == environment(ctx.event@, context_json@, opt(ctx.tool_name), opt(*plugin_root)),
{
    let mut out: Vec<(String, String)> = Vec::new();
    push_pair(&mut out, "ATOMCODE_HOOK_EVENT", ctx.event.as_str());
    push_pair(&mut out, "ATOMCODE_HOOK_CONTEXT", context_json);
    let ghost head = pairs(out@);
    assert(head =~= seq![("ATOMCODE_HOOK_EVENT"@, ctx.event@), ("ATOMCODE_HOOK_CONTEXT"@, context_json@)]);
    if let Some(name) = &ctx.tool_name {
        push_pair(&mut out, "ATOMCODE_TOOL_NAME", name.as_str());
        assert(pairs(out@) =~= head + seq![("ATOMCODE_TOOL_NAME"@, name@)]);
    } else {
        assert(pairs(out@) =~= head + Seq::<(Seq<char>, Seq<char>)>::empty());
    }
    let ghost before = pairs(out@);
    let mut more = plugin_variables(plugin_root);
    let ghost was = out@;
    let ghost added = more@;
    out.append(&mut more);
    assert(pairs(out@) =~= pairs(was) + pairs(added));
    out
}

/// The error of a command that failed.
pub fn exit_error(code: Option<i32>) -> (r: String)
    ensures
        r@ == "hook command exited with status "@ + decimal_int(
            match code {
                Some(c) => c as int,
                None => -1,
            },
        ),
{
    let mut out: String = "hook command exited with status ".to_owned();
    let n: i64 = match code {
        Some(c) => c as i64,
        None => -1,
    };
    push_decimal_int(&mut out, n);
    out
}

impl HookExecutor {
    pub fn new(hooks: Vec<HookConfig>) -> (r: HookExecutor)
        ensures
            r.hooks == hooks,
    {
        HookExecutor { hooks }
    }

    /// An executor that calls nothing.
    pub fn empty() -> (r: HookExecutor)
        ensures
            r.hooks@.len() == 0,
    {
        HookExecutor { hooks: Vec::new() }
    }

    pub fn has_hooks(&self) -> (r: bool)
        ensures
            r == (self.hooks@.len() > 0),
    {
        self.hooks.len() > 0
    }

    /// What comes next before a tool is used, after these replies. A command that
    /// failed, did not end in time or said nothing that counts has no reply.
    pub fn run_pre_tool_use(&self, tool_name: &str, replies: &Vec<Option<PreHookResult>>) -> (r: PreToolNext)
        ensures
            ({
                let hooks = matched(self.hooks@, HookEvent::PreToolUse, Some(tool_name@));
                let said = pre_views(replies@);
                if first_pre_block(said) is None && said.len() < hooks.len() {
                    r matches PreToolNext::Run(h) && *h == hooks[said.len() as int]
                } else {
                    r matches PreToolNext::Done(p) && p@ == pre_tool_outcome(said)
                }
            }),
    {
        let hooks = matching_hooks(self.hooks.as_slice(), HookEvent::PreToolUse, Some(tool_name));
        let ghost all = matched(self.hooks@, HookEvent::PreToolUse, Some(tool_name@));
        assert(pointed(hooks@) == all);
        assert(pointed(hooks@).len() == hooks@.len());
        assert(pre_views(replies@).len() == replies@.len());
        let (result, is_blocked) = pre_tool_result(replies);
        if !is_blocked && replies.len() < hooks.len() {
            let next = hooks[replies.len()];
            assert(pointed(hooks@)[replies@.len() as int] == *next);
            return PreToolNext::Run(next);
        }
        PreToolNext::Done(result)
    }

    /// The commands to call after a tool was used. What they say does not count.
    pub fn run_post_tool_use(&self, tool_name: &str) -> (r: Vec<&HookConfig>)
        ensures
            pointed(r@) == matched(self.hooks@, HookEvent::PostToolUse, Some(tool_name@)),
    {
        matching_hooks(self.hooks.as_slice(), HookEvent::PostToolUse, Some(tool_name))
    }

    /// The commands to call at an event of the session. What they say does not
    /// count.
    pub fn run_session_event(&self, event: HookEvent) -> (r: Vec<&HookConfig>)
        ensures
            pointed(r@) == matched(self.hooks@, event, None),
    {
        matching_hooks(self.hooks.as_slice(), event, None)
    }

    /// What comes next for a prompt, after these replies.
    pub fn run_user_prompt_submit(&self, replies: &Vec<UserPromptSubmitResult>) -> (r: PromptNext)
        ensures
            ({
                let hooks = matched(self.hooks@, HookEvent::UserPromptSubmit, None);
                let said = prompt_views(replies@);
                if first_block(said) is None && said.len() < hooks.len() {
                    r matches PromptNext::Run(h) && *h == hooks[said.len() as int]
                } else {
                    r matches PromptNext::Done(p) && p@ == prompt_outcome(said, true)
                }
            }),
    {
        let hooks = matching_hooks(self.hooks.as_slice(), HookEvent::UserPromptSubmit, None);
        let ghost all = matched(self.hooks@, HookEvent::UserPromptSubmit, None);
        assert(pointed(hooks@) == all);
        assert(pointed(hooks@).len() == hooks@.len());
        assert(prompt_views(replies@).len() == replies@.len());
        if blocked(replies).is_none() && replies.len() < hooks.len() {
            let next = hooks[replies.len()];
            assert(pointed(hooks@)[replies@.len() as int] == *next);
            return PromptNext::Run(next);
        }
        PromptNext::Done(conclude(replies, true))
    }
}

/// Once a command has blocked a tool call, nothing that a later one says changes
/// that.
pub proof fn the_first_pre_block_decides(v: Seq<Option<PreHookView>>, later: Seq<Option<PreHookView>>)
    requires
        first_pre_block(v) is Some,
    ensures
        pre_tool_outcome(v + later) == pre_tool_outcome(v),
{
    assert((v + later).take(v.len() as int) =~= v);
    lemma_pre_block_stays(v + later, v.len() as int);
}

/// Without a block, the last command that replaces the arguments wins over all
/// before it, and those after it that replace nothing leave it as it is.
pub proof fn the_last_modify_wins(v: Seq<Option<PreHookView>>, args: crate::json::JsonView)
    requires
        first_pre_block(v) is None,
    ensures
        pre_tool_outcome(v.push(Some(PreHookView::Modify(args)))) == PreHookView::Modify(args),
        pre_tool_outcome(v.push(Some(PreHookView::Allow))) == pre_tool_outcome(v),
        pre_tool_outcome(v.push(None)) == pre_tool_outcome(v),
{
    assert(v.push(Some(PreHookView::Modify(args))).drop_last() =~= v);
    assert(v.push(Some(PreHookView::Allow)).drop_last() =~= v);
    assert(v.push(None).drop_last() =~= v);
}

/// Commands that have nothing to say let the tool be used as it is.
pub proof fn silent_commands_allow(n: nat)
    ensures
        pre_tool_outcome(Seq::new(n, |i: int| None::<PreHookView>)) == PreHookView::Allow,
    decreases n,
{
    let v = Seq::new(n, |i: int| None::<PreHookView>);
    if n > 0 {
        silent_commands_allow((n - 1) as nat);
        assert(v.drop_last() =~= Seq::new((n - 1) as nat, |i: int| None::<PreHookView>));
    }
}

/// A tool call is blocked exactly where a command blocks it, with the reason of the first
/// that does.
pub proof fn a_block_is_the_first_one(v: Seq<Option<PreHookView>>, i: int)
    ensures
        0 <= i < v.len() && v[i] is Some && v[i]->0 is Block && (forall|k: int|
            0 <= k < i ==> !((#[trigger] v[k]) is Some && v[k]->0 is Block)) ==> pre_tool_outcome(v) == v[i]->0,
        (forall|k: int| 0 <= k < v.len() ==> !((#[trigger] v[k]) is Some && v[k]->0 is Block)) ==> !(
        pre_tool_outcome(v) is Block),
    decreases v.len(),
{
    if 0 <= i < v.len() && v[i] is Some && v[i]->0 is Block && (forall|k: int|
        0 <= k < i ==> !((#[trigger] v[k]) is Some && v[k]->0 is Block)) {
        let t = v.take(i + 1);
        assert(t.drop_last() =~= v.take(i));
        lemma_no_pre_block(v.take(i));
        assert(t.last() == v[i]);
        lemma_pre_block_stays(v, i + 1);
    }
    if forall|k: int| 0 <= k < v.len() ==> !((#[trigger] v[k]) is Some && v[k]->0 is Block) {
        lemma_no_pre_block(v);
        lemma_modify_or_allow(v);
    }
}

proof fn lemma_no_pre_block(v: Seq<Option<PreHookView>>)
    requires
        forall|k: int| 0 <= k < v.len() ==> !((#[trigger] v[k]) is Some && v[k]->0 is Block),
    ensures
        first_pre_block(v) is None,
    decreases v.len(),
{
    if v.len() > 0 {
        let t = v.drop_last();
        assert forall|k: int| 0 <= k < t.len() implies !((#[trigger] t[k]) is Some && t[k]->0 is Block) by {
            assert(t[k] == v[k]);
        }
        lemma_no_pre_block(t);
        assert(v[v.len() - 1] == v.last());
    }
}

proof fn lemma_modify_or_allow(v: Seq<Option<PreHookView>>)
    ensures
        !(last_modify(v) is Block),
    decreases v.len(),
{
    if v.len() > 0 {
        lemma_modify_or_allow(v.drop_last());
    }
}

/// A command is told the event and what is known of it, the tool where there is one, and
/// where its plugin lives, where it has one; of the last it is told under both names.
pub proof fn commands_are_told(event: Seq<char>, context: Seq<char>, tool: Seq<char>, root: Seq<char>)
    ensures
        ({
            let all = environment(event, context, Some(tool), Some(root));
            let few = environment(event, context, None, None);
            &&& all.len() == 5 && few.len() == 2
            &&& all.contains(("ATOMCODE_HOOK_EVENT"@, event)) && few.contains(("ATOMCODE_HOOK_EVENT"@, event))
            &&& all.contains(("ATOMCODE_HOOK_CONTEXT"@, context)) && few.contains(("ATOMCODE_HOOK_CONTEXT"@, context))
            &&& all.contains(("ATOMCODE_TOOL_NAME"@, tool))
            &&& all.contains(("CLAUDE_PLUGIN_ROOT"@, root))
            &&& all.contains(("ATOMCODE_PLUGIN_ROOT"@, root))
        }),
{
    let all = environment(event, context, Some(tool), Some(root));
    let few = environment(event, context, None, None);
    assert(all[0] == ("ATOMCODE_HOOK_EVENT"@, event) && few[0] == ("ATOMCODE_HOOK_EVENT"@, event));
    assert(all[1] == ("ATOMCODE_HOOK_CONTEXT"@, context) && few[1] == ("ATOMCODE_HOOK_CONTEXT"@, context));
    assert(all[2] == ("ATOMCODE_TOOL_NAME"@, tool));
    assert(all[3] == ("CLAUDE_PLUGIN_ROOT"@, root));
    assert(all[4] == ("ATOMCODE_PLUGIN_ROOT"@, root));
}

} // verus!
