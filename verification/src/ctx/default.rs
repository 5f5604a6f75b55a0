//! The strategy for every model without rules of its own.

use vstd::prelude::*;
use vstd::string::*;

use crate::config::ProviderConfig;
use crate::conversation::{views, ContextStats, Conversation, ConversationView, Message, ResultView, ToolResult};
use crate::ctx::compress::{build_compression_content, compression_content, compression_due, needs_compression};
use crate::ctx::render::{apply_model_directives, build_messages, directed, render_stats, rendered};
use crate::ctx::truncate::{truncate_output, truncated};
use crate::ctx::CtxBuilder;
use crate::text::lowercase;

verus! {

/// The fallback strategy.
#[derive(Debug)]
pub struct DefaultCtx {
    /// The token budget, at least 8000.
    pub ctx_window: usize,
    /// The lower-case name of the model.
    pub model_id: String,
}

/// What a compression plan says: the summary and how many messages go, or
/// nothing where there is nothing to compress.
pub open spec fn plan(conv: ConversationView, keep_ceiling: nat) -> Option<(Seq<char>, nat)> {
    let c = compression_content(conv.messages, keep_ceiling);
    if c.0.len() == 0 || c.1 == 0 {
        None
    } else {
        Some(c)
    }
}

pub open spec fn plan_view(p: Option<(String, usize)>) -> Option<(Seq<char>, nat)> {
    match p {
        Some(c) => Some((c.0@, c.1 as nat)),
        None => None,
    }
}

/// The compression plan for a conversation.
pub fn plan_compression(conv: &Conversation, keep_ceiling: usize) -> (r: Option<(String, usize)>)
    ensures
        plan_view(r) == plan(conv@, keep_ceiling as nat),
{
    let (content, n) = build_compression_content(conv, keep_ceiling);
    if content.as_str().is_empty() || n == 0 {
        None
    } else {
        Some((content, n))
    }
}

impl DefaultCtx {
    pub open spec fn model(&self) -> Seq<char> {
        self.model_id@
    }

    /// The strategy for a provider.
    pub fn new(provider: &ProviderConfig) -> (r: DefaultCtx)
        ensures
            r.ctx_window == if provider.context_window >= 8000 { provider.context_window } else { 8000 },
            r.model() == lowercase(provider.model@),
    {
        DefaultCtx {
            ctx_window: if provider.context_window >= 8000 { provider.context_window } else { 8000 },
            model_id: provider.model.as_str().to_lowercase(),
        }
    }
}

impl CtxBuilder for DefaultCtx {
    fn build_messages(&self, conv: &Conversation, system_prompt: &str, turn_reminder: &str) -> (r: (
        Vec<Message>,
        ContextStats,
    ))
        ensures
            views(r.0@) == rendered(
                conv@,
                directed(system_prompt@, self.model()),
                self.ctx_window as nat,
                turn_reminder@,
            ),
            r.1 == render_stats(
                conv@,
                directed(system_prompt@, self.model()),
                self.ctx_window as nat,
                turn_reminder@,
            ),
    {
        let sys = apply_model_directives(system_prompt, self.model_id.as_str());
        build_messages(conv, sys.as_str(), self.ctx_window, turn_reminder)
    }

    fn needs_compression(&self, conv: &Conversation, system_tokens: usize) -> (r: bool)
        ensures
            r == compression_due(conv@.messages, system_tokens as nat, self.ctx_window as nat),
    {
        needs_compression(conv, system_tokens, self.ctx_window)
    }

    fn compression_plan(&self, conv: &Conversation, keep_ceiling: usize) -> (r: Option<(String, usize)>)
        ensures
            plan_view(r) == plan(conv@, keep_ceiling as nat),
    {
        plan_compression(conv, keep_ceiling)
    }

    fn truncate_tool_output(&self, result: &mut ToolResult, tool_name: &str)
        ensures
            final(result)@ == (ResultView {
                output: truncated(tool_name@, old(result)@.output, self.ctx_window as nat),
                ..old(result)@
            }),
    {
        truncate_output(result, tool_name, self.ctx_window);
    }

    fn ctx_window(&self) -> (r: usize)
        ensures
            r == self.ctx_window,
    {
        self.ctx_window
    }

    fn name(&self) -> (r: &'static str)
        ensures
            r@ == "default"@,
    {
        "default"
    }
}

/// A plan says how many messages go and what is told of them; there is none where
/// nothing goes.
pub proof fn plans_remove_something(conv: ConversationView, keep_ceiling: nat)
    ensures
        plan(conv, keep_ceiling) is Some ==> ({
            let p = plan(conv, keep_ceiling)->0;
            p.1 > 0 && p.0.len() > 0 && p == compression_content(conv.messages, keep_ceiling)
        }),
        compression_content(conv.messages, keep_ceiling).1 == 0 ==> plan(conv, keep_ceiling) is None,
        compression_content(conv.messages, keep_ceiling).1 > 0 && compression_content(
            conv.messages,
            keep_ceiling,
        ).0.len() > 0 ==> plan(conv, keep_ceiling) is Some,
{
}

} // verus!
