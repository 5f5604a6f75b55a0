//! Language servers.

pub mod client;
pub mod diagnostics;
pub mod jsonrpc;
pub mod manager;
pub mod registry;
pub mod types;
pub mod uri;
