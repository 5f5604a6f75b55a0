//! Building the context that is sent to the model.
//!
//! | Module       | Role                                                  |
//! |--------------|-------------------------------------------------------|
//! | `resolver`   | choosing the strategy of a provider                   |
//! | `render`     | rendering a conversation into one request             |
//! | `pairing`    | tool calls and their results                          |
//! | `cleanup`    | joining and dropping messages before they are sent    |
//! | `compress`   | when to compress, and the summary lines               |
//! | `compact`    | stubs in place of old tool results                    |
//! | `truncate`   | cutting single tool outputs                           |
//! | `share`      | the part of a budget that falls to a size             |
//! | `guarantees` | what holds of every rendering                         |

use vstd::prelude::*;

use crate::conversation::{ContextStats, Conversation, Message, ToolResult};

pub mod cleanup;
pub mod compact;
pub mod compress;
pub mod default;
pub mod env;
pub mod file_store;
pub mod guarantees;
pub mod ollama;
pub mod pairing;
pub mod render;
pub mod resolver;
pub mod share;
pub mod truncate;

pub use default::DefaultCtx;
pub use env::EnvSnapshot;
pub use ollama::OllamaCtx;
pub use resolver::for_provider;

verus! {

/// How context is built for one session.
pub trait CtxBuilder {
    /// The messages to send, and what was done to get there.
    fn build_messages(&self, conv: &Conversation, system_prompt: &str, turn_reminder: &str) -> (
        Vec<Message>,
        ContextStats,
    );

    /// Whether the conversation should be compressed. By default never.
    fn needs_compression(&self, _conv: &Conversation, _system_tokens: usize) -> (r: bool)
        default_ensures
            !r,
    {
        false
    }

    /// The text to summarise and how many messages it stands for. By default
    /// there is no plan.
    fn compression_plan(&self, _conv: &Conversation, _keep_ceiling: usize) -> (r: Option<(String, usize)>)
        default_ensures
            r is None,
    {
        None
    }

    /// Cuts one tool output.
    fn truncate_tool_output(&self, result: &mut ToolResult, tool_name: &str);

    /// The token budget that the strategy works with.
    fn ctx_window(&self) -> usize;

    /// The name of the strategy.
    fn name(&self) -> &'static str;
}

} // verus!
