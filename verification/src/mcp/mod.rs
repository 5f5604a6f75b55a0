//! The Model Context Protocol: servers that offer tools.

pub mod client;
pub mod config;
pub mod config_file;
pub mod expand;
pub mod transport_http;
pub mod types;
