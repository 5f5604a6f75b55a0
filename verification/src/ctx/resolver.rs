//! Choosing the strategy for a provider.

use vstd::prelude::*;

use crate::config::ProviderConfig;
use crate::conversation::{views, ContextStats, Conversation, Message, ResultView, ToolResult};
use crate::ctx::compress::compression_due;
use crate::ctx::default::{plan, plan_view, DefaultCtx};
use crate::ctx::ollama::{output_cap, tightened, OllamaCtx};
use crate::ctx::render::{directed, render_stats, rendered};
use crate::ctx::truncate::truncated;
use crate::ctx::CtxBuilder;
use crate::text::{lowercase, same};

verus! {

/// The strategy of a provider.
#[derive(Debug)]
pub enum ProviderCtx {
    Default(DefaultCtx),
    Ollama(OllamaCtx),
}

/// The strategy for a provider: local models by their provider type, everyone
/// else by the default.
pub fn for_provider(provider: &ProviderConfig) -> (r: ProviderCtx)
    ensures
        match r {
            ProviderCtx::Ollama(o) => provider.provider_type@ == "ollama"@ && o.model() == lowercase(
                provider.model@,
            ) && o.window() == if provider.context_window >= 4000 {
                provider.context_window
            } else {
                4000
            },
            ProviderCtx::Default(d) => provider.provider_type@ != "ollama"@ && d.model()
                == lowercase(provider.model@) && d.ctx_window == if provider.context_window >= 8000 {
                provider.context_window
            } else {
                8000
            },
        },
{
    if same(provider.provider_type.as_str(), "ollama") {
        ProviderCtx::Ollama(OllamaCtx::new(provider))
    } else {
        ProviderCtx::Default(DefaultCtx::new(provider))
    }
}

impl ProviderCtx {
    pub open spec fn window(&self) -> nat {
        match *self {
            ProviderCtx::Default(d) => d.ctx_window as nat,
            ProviderCtx::Ollama(o) => o.window() as nat,
        }
    }

    pub open spec fn model(&self) -> Seq<char> {
        match *self {
            ProviderCtx::Default(d) => d.model(),
            ProviderCtx::Ollama(o) => o.model(),
        }
    }
}

impl CtxBuilder for ProviderCtx {
    fn build_messages(&self, conv: &Conversation, system_prompt: &str, turn_reminder: &str) -> (r: (
        Vec<Message>,
        ContextStats,
    ))
        ensures
            views(r.0@) == rendered(
                conv@,
                directed(system_prompt@, self.model()),
                self.window(),
                turn_reminder@,
            ),
            r.1 == render_stats(
                conv@,
                directed(system_prompt@, self.model()),
                self.window(),
                turn_reminder@,
            ),
    {
        match self {
            ProviderCtx::Default(d) => d.build_messages(conv, system_prompt, turn_reminder),
            ProviderCtx::Ollama(o) => o.build_messages(conv, system_prompt, turn_reminder),
        }
    }

    fn needs_compression(&self, conv: &Conversation, system_tokens: usize) -> (r: bool)
        ensures
            r == compression_due(conv@.messages, system_tokens as nat, self.window()),
    {
        match self {
            ProviderCtx::Default(d) => d.needs_compression(conv, system_tokens),
            ProviderCtx::Ollama(o) => o.needs_compression(conv, system_tokens),
        }
    }

    fn compression_plan(&self, conv: &Conversation, keep_ceiling: usize) -> (r: Option<
        (String, usize),
    >)
        ensures
            plan_view(r) == plan(conv@, keep_ceiling as nat),
    {
        match self {
            ProviderCtx::Default(d) => d.compression_plan(conv, keep_ceiling),
            ProviderCtx::Ollama(o) => o.compression_plan(conv, keep_ceiling),
        }
    }

    fn truncate_tool_output(&self, result: &mut ToolResult, tool_name: &str)
        ensures
            final(result)@ == (ResultView {
                output: match *self {
                    ProviderCtx::Default(_) => truncated(
                        tool_name@,
                        old(result)@.output,
                        self.window(),
                    ),
                    ProviderCtx::Ollama(_) => tightened(
                        truncated(tool_name@, old(result)@.output, self.window()),
                        output_cap(self.window()),
                    ),
                },
                ..old(result)@
            }),
    {
        match self {
            ProviderCtx::Default(d) => d.truncate_tool_output(result, tool_name),
            ProviderCtx::Ollama(o) => o.truncate_tool_output(result, tool_name),
        }
    }

    fn ctx_window(&self) -> (r: usize)
        ensures
            r == self.window(),
    {
        match self {
            ProviderCtx::Default(d) => d.ctx_window(),
            ProviderCtx::Ollama(o) => o.ctx_window(),
        }
    }

    fn name(&self) -> (r: &'static str)
        ensures
            r@ == match *self {
                ProviderCtx::Default(_) => "default"@,
                ProviderCtx::Ollama(_) => "ollama"@,
            },
    {
        match self {
            ProviderCtx::Default(d) => d.name(),
            ProviderCtx::Ollama(o) => o.name(),
        }
    }
}

} // verus!
