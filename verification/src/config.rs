//! Settings that the library reads.

use vstd::prelude::*;

use crate::lsp::registry::LspServerConfig;
use crate::text_map::TextMap;

verus! {

/// How a model provider is reached.
#[derive(Debug)]
pub struct ProviderConfig {
    pub provider_type: String,
    pub api_key: Option<String>,
    pub model: String,
    pub base_url: Option<String>,
    pub system_prompt: Option<String>,
    pub user_agent: Option<String>,
    pub context_window: usize,
    pub max_tokens: Option<usize>,
    pub thinking_type: Option<String>,
    pub thinking_keep: Option<String>,
    pub reasoning_history: Option<String>,
    pub reasoning_effort: Option<String>,
    pub thinking_enabled: Option<bool>,
    pub thinking_budget: Option<usize>,
    pub skip_tls_verify: bool,
    pub ephemeral: bool,
}

/// How language servers are used.
#[derive(Debug)]
pub struct LspConfig {
    pub enabled: bool,
    /// Whether the common servers are known without being configured.
    pub auto_detect: bool,
    /// The servers by file extension.
    pub servers: TextMap<LspServerConfig>,
    /// Milliseconds to wait for diagnostics after a file was sent.
    pub diagnostics_settle_delay_ms: u64,
}

/// When and how the user is notified.
#[derive(Debug)]
pub struct NotificationConfig {
    pub enabled: bool,
    /// Turns that took less are not worth a notification.
    pub min_duration_secs: u64,
    /// Whether nobody is told who looks at the terminal.
    pub background_only: bool,
    pub terminal: bool,
    pub system: bool,
    pub bell: bool,
}

impl Default for NotificationConfig {
    fn default() -> (r: Self)
        ensures
            r == (NotificationConfig {
                enabled: true,
                min_duration_secs: 10,
                background_only: true,
                terminal: true,
                system: true,
                bell: true,
            }),
    {
        NotificationConfig {
            enabled: true,
            min_duration_secs: 10,
            background_only: true,
            terminal: true,
            system: true,
            bell: true,
        }
    }
}

} // verus!
