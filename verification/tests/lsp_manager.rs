use atomcode_core::config::LspConfig;
use atomcode_core::lsp::client::LspClient;
use atomcode_core::lsp::manager::{
    build_lsp_manager, build_registry, extension_to_language_id, LspConnectEvent, LspManager, ServerNeed,
};
use atomcode_core::lsp::registry::{LspServerConfig, LspServerRegistry};
use atomcode_core::text_map::TextMap;

fn manager(enabled: bool) -> LspManager {
    LspManager::new("/tmp".into(), LspServerRegistry::with_defaults(), enabled, 150)
}

fn config(enabled: bool, auto_detect: bool) -> LspConfig {
    LspConfig { enabled, auto_detect, servers: TextMap::new(), diagnostics_settle_delay_ms: 150 }
}

#[test]
fn extension_to_language_id_maps_common_langs() {
    assert_eq!(extension_to_language_id("rs"), "rust");
    assert_eq!(extension_to_language_id("ts"), "typescript");
    assert_eq!(extension_to_language_id("tsx"), "typescriptreact");
    assert_eq!(extension_to_language_id("py"), "python");
    assert_eq!(extension_to_language_id("go"), "go");
    assert_eq!(extension_to_language_id("java"), "java");
    assert_eq!(extension_to_language_id("js"), "javascript");
}

#[test]
fn extension_to_language_id_unknown_returns_self() {
    assert_eq!(extension_to_language_id("xyz"), "xyz");
}

#[test]
fn extension_to_language_id_covers_families() {
    assert_eq!(extension_to_language_id("jsx"), "javascriptreact");
    assert_eq!(extension_to_language_id("cc"), "cpp");
    assert_eq!(extension_to_language_id("cxx"), "cpp");
    assert_eq!(extension_to_language_id("cs"), "csharp");
    assert_eq!(extension_to_language_id("rb"), "ruby");
    assert_eq!(extension_to_language_id("kts"), "kotlin");
    assert_eq!(extension_to_language_id("scala"), "scala");
}

#[test]
fn disabled_manager_returns_false() {
    assert!(matches!(manager(false).ensure_server("test.rs"), ServerNeed::Unavailable));
}

#[test]
fn no_config_for_extension_returns_false() {
    assert!(matches!(manager(true).ensure_server("test.xyz"), ServerNeed::Unavailable));
}

#[test]
fn no_extension_returns_false() {
    assert!(matches!(manager(true).ensure_server("Makefile"), ServerNeed::Unavailable));
}

#[test]
fn empty_diagnostics_for_unknown_file() {
    assert!(manager(true).diagnostics("test.xyz").is_empty());
}

#[test]
fn active_servers_empty_initially() {
    assert!(manager(true).active_servers().is_empty());
}

#[test]
fn all_diagnostics_empty_initially() {
    assert!(manager(true).all_diagnostics().is_empty());
}

#[test]
fn shutdown_on_empty_is_noop() {
    let mut mgr = manager(true);
    let ended = mgr.shutdown();
    assert_eq!(ended.len(), 0);
}

#[test]
fn build_lsp_manager_returns_none_when_disabled() {
    let result = build_lsp_manager(&config(false, true), "/tmp");
    assert!(result.is_none());
}

#[test]
fn build_lsp_manager_returns_some_when_enabled() {
    let result = build_lsp_manager(&config(true, true), "/tmp");
    assert!(result.is_some());
}

#[test]
fn build_lsp_manager_respects_auto_detect() {
    let result = build_lsp_manager(&config(true, false), "/tmp");
    assert!(result.is_some());
    assert!(result.unwrap().registry.available_languages().is_empty());
}

#[test]
fn build_lsp_manager_merges_user_servers() {
    let mut c = config(true, true);
    c.servers.insert(
        "xyz".to_string(),
        LspServerConfig { command: "my-lsp".to_string(), args: vec![], root_markers: vec![] },
    );
    let result = build_lsp_manager(&c, "/tmp");
    assert!(result.is_some());
    let mgr = result.unwrap();
    assert_eq!(mgr.registry.get("xyz").unwrap().command, "my-lsp");
    assert_eq!(mgr.registry.get("rs").unwrap().command, "rust-analyzer");
    assert_eq!(mgr.diagnostics_settle_delay_ms(), 150);
    assert_eq!(build_registry(&c).available_languages().len(), 8);
}

#[test]
fn ensure_server_silent_when_command_missing() {
    let mut servers = TextMap::new();
    servers.insert(
        "xyz".to_string(),
        LspServerConfig {
            command: "atomcode-lsp-does-not-exist".to_string(),
            args: vec![],
            root_markers: vec![],
        },
    );
    let mut registry = LspServerRegistry::empty();
    registry.merge_user_config(servers);
    let mgr = LspManager::new("/tmp".into(), registry, true, 150);
    match mgr.ensure_server("test.xyz") {
        ServerNeed::Start { ext, command } => {
            assert_eq!(ext, "xyz");
            assert_eq!(command, "atomcode-lsp-does-not-exist");
            assert!(mgr.start_order(&ext, false).is_none(), "missing command must not start");
        }
        other => panic!("unexpected {:?}", other),
    }
    assert!(mgr.active_servers().is_empty());
}

#[test]
fn a_started_server_is_used_for_its_files() {
    let mut mgr = manager(true);
    let order = mgr.start_order("rs", true).unwrap();
    assert_eq!(order.config.command, "rust-analyzer");
    assert_eq!(order.project_root, "/tmp");
    assert_eq!(order.language_id, "rust");
    assert!(mgr.notify_file_changed("/tmp/a.rs", "fn a() {}").is_none());
    let (client, _handshake) =
        LspClient::start(&order.config, &order.project_root, &order.language_id, 1, "0");
    match mgr.server_started("rs".into(), "rust-analyzer".into(), client) {
        LspConnectEvent::Started { command, ext } => {
            assert_eq!((command.as_str(), ext.as_str()), ("rust-analyzer", "rs"));
        }
        other => panic!("unexpected {:?}", other),
    }
    assert!(matches!(mgr.ensure_server("/tmp/a.rs"), ServerNeed::Running));
    assert!(mgr.start_order("rs", true).is_none());
    assert_eq!(mgr.active_servers(), vec!["rs"]);
    assert_eq!(mgr.notify_file_changed("/tmp/a.rs", "x").unwrap().method, "textDocument/didOpen");
    assert_eq!(mgr.notify_file_changed("/tmp/a.rs", "y").unwrap().method, "textDocument/didChange");
    assert!(mgr.notify_file_changed("/tmp/a.py", "y").is_none());
    assert_eq!(mgr.shutdown().len(), 1);
    assert!(mgr.active_servers().is_empty());
}

#[test]
fn failures_and_warnings_are_told() {
    let mgr = manager(true);
    match mgr.server_failed("rs".into(), "ra".into(), "boom".into()) {
        LspConnectEvent::Failed { command, ext, error } => {
            assert_eq!((command.as_str(), ext.as_str(), error.as_str()), ("ra", "rs", "boom"));
        }
        other => panic!("unexpected {:?}", other),
    }
    match mgr.shutdown_warning("rs".into(), "slow") {
        LspConnectEvent::Warning { ext, message } => {
            assert_eq!((ext.as_str(), message.as_str()), ("rs", "shutdown error: slow"));
        }
        other => panic!("unexpected {:?}", other),
    }
}
