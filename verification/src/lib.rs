//! Context, code-graph, hook, language-server and tool-server logic of a
//! coding agent, with machine-checked contracts.

pub mod config;
pub mod conversation;
pub mod ctx;
pub mod graph;
pub mod hashing;
pub mod hook;
pub mod json;
pub mod locale;
pub mod lsp;
pub mod mcp;
pub mod notify;
pub mod paths;
pub mod seqs;
pub mod text;
pub mod text_map;
pub mod text_order;
