//! The strategy for local models with small windows.

use vstd::prelude::*;
use vstd::string::*;

use crate::config::ProviderConfig;
use crate::conversation::{views, ContextStats, Conversation, Message, ResultView, ToolResult};
use crate::ctx::compress::{compression_due, needs_compression};
use crate::ctx::default::{plan, plan_compression, plan_view};
use crate::ctx::render::{apply_model_directives, build_messages, directed, render_stats, rendered};
use crate::ctx::truncate::{truncate_output, truncated};
use crate::ctx::CtxBuilder;
use crate::text::{
    byte_count, byte_len, byte_prefix, byte_prefix_is_longest, byte_prefix_of, lemma_byte_ascii,
    lemma_byte_concat, lowercase,
};

verus! {

/// The strategy for local models: like the default, with tighter outputs.
#[derive(Debug)]
pub struct OllamaCtx {
    ctx_window: usize,
    model_id: String,
}

/// The most bytes of one tool output: an eighth of the window, between 2000 and
/// 6000.
pub open spec fn output_cap(ctx_window: nat) -> nat {
    let eighth = ctx_window / 8;
    if eighth > 6_000 {
        6_000
    } else if eighth < 2_000 {
        2_000
    } else {
        eighth
    }
}

/// An output cut to `cap` bytes, at a character boundary, with a note.
pub open spec fn tightened(output: Seq<char>, cap: nat) -> Seq<char> {
    if byte_count(output) > cap {
        byte_prefix(output, cap) + "\n[... truncated by OllamaCtx (small window) ...]"@
    } else {
        output
    }
}

/// A tightened output is at most fifty bytes longer than the cap.
pub proof fn tightened_outputs_are_small(output: Seq<char>, cap: nat)
    ensures
        byte_count(tightened(output, cap)) <= cap + 50,
{
    let note = "\n[... truncated by OllamaCtx (small window) ...]"@;
    reveal_strlit("\n[... truncated by OllamaCtx (small window) ...]");
    lemma_byte_ascii(note);
    byte_prefix_is_longest(output, cap);
    lemma_byte_concat(byte_prefix(output, cap), note);
}

impl OllamaCtx {
    pub closed spec fn model(&self) -> Seq<char> {
        self.model_id@
    }

    pub closed spec fn window(&self) -> usize {
        self.ctx_window
    }

    /// The strategy for a provider. The window is at least 4000.
    pub fn new(provider: &ProviderConfig) -> (r: OllamaCtx)
        ensures
            r.window() == if provider.context_window >= 4000 { provider.context_window } else { 4000 },
            r.model() == lowercase(provider.model@),
    {
        OllamaCtx {
            ctx_window: if provider.context_window >= 4000 { provider.context_window } else { 4000 },
            model_id: provider.model.as_str().to_lowercase(),
        }
    }

    /// The most bytes of one tool output.
    pub fn tool_output_cap(&self) -> (r: usize)
        ensures
            r == output_cap(self.window() as nat),
    {
        let eighth: usize = self.ctx_window / 8;
        if eighth > 6_000 {
            6_000
        } else if eighth < 2_000 {
            2_000
        } else {
            eighth
        }
    }
}

impl CtxBuilder for OllamaCtx {
    fn build_messages(&self, conv: &Conversation, system_prompt: &str, turn_reminder: &str) -> (r: (
        Vec<Message>,
        ContextStats,
    ))
        ensures
            views(r.0@) == rendered(
                conv@,
                directed(system_prompt@, self.model()),
                self.window() as nat,
                turn_reminder@,
            ),
            r.1 == render_stats(
                conv@,
                directed(system_prompt@, self.model()),
                self.window() as nat,
                turn_reminder@,
            ),
    {
        let sys = apply_model_directives(system_prompt, self.model_id.as_str());
        build_messages(conv, sys.as_str(), self.ctx_window, turn_reminder)
    }

    fn needs_compression(&self, conv: &Conversation, system_tokens: usize) -> (r: bool)
        ensures
            r == compression_due(conv@.messages, system_tokens as nat, self.window() as nat),
    {
        needs_compression(conv, system_tokens, self.ctx_window)
    }

    fn compression_plan(&self, conv: &Conversation, keep_ceiling: usize) -> (r: Option<(String, usize)>)
        ensures
            plan_view(r) == plan(conv@, keep_ceiling as nat),
    {
        plan_compression(conv, keep_ceiling)
    }

    fn truncate_tool_output(&self, result: &mut ToolResult, tool_name: &str)
        ensures
            final(result)@ == (ResultView {
                output: tightened(
                    truncated(tool_name@, old(result)@.output, self.window() as nat),
                    output_cap(self.window() as nat),
                ),
                ..old(result)@
            }),
    {
        truncate_output(result, tool_name, self.ctx_window);
        let cap = self.tool_output_cap();
        if byte_len(result.output.as_str()) > cap {
            let mut out = byte_prefix_of(result.output.as_str(), cap);
            out.append("\n[... truncated by OllamaCtx (small window) ...]");
            result.output = out;
        }
    }

    fn ctx_window(&self) -> (r: usize)
        ensures
            r == self.window(),
    {
        self.ctx_window
    }

    fn name(&self) -> (r: &'static str)
        ensures
            r@ == "ollama"@,
    {
        "ollama"
    }
}

/// An output within the cap is kept; a longer one keeps as many characters from its
/// front as fit the cap, and says at its end that it was cut.
pub proof fn tightened_outputs_keep_their_front(output: Seq<char>, cap: nat)
    ensures
        byte_count(output) <= cap ==> tightened(output, cap) == output,
        byte_count(output) > cap ==> {
            let note = "\n[... truncated by OllamaCtx (small window) ...]"@;
            let cut = tightened(output, cap);
            let kept = cut.len() - note.len();
            &&& 0 <= kept < output.len()
            &&& cut == output.take(kept) + note
            &&& byte_count(output.take(kept)) <= cap
            &&& byte_count(output.take(kept + 1)) > cap
        },
{
    let note = "\n[... truncated by OllamaCtx (small window) ...]"@;
    byte_prefix_is_longest(output, cap);
    let kept = byte_prefix(output, cap);
    if byte_count(output) > cap {
        assert(output.take(output.len() as int) =~= output);
        assert(kept =~= output.take(kept.len() as int));
    }
}

/// The cap is an eighth of the window, but no less than 2000 and no more than 6000 bytes.
pub proof fn caps_follow_the_window(ctx_window: nat)
    ensures
        ctx_window <= 16_000 ==> output_cap(ctx_window) == 2_000,
        16_000 <= ctx_window <= 48_000 ==> output_cap(ctx_window) == ctx_window / 8,
        ctx_window >= 48_000 ==> output_cap(ctx_window) == 6_000,
{
}

} // verus!
