use atomcode_core::lsp::registry::{LspServerConfig, LspServerRegistry};
use atomcode_core::text_map::TextMap;

#[test]
fn defaults_include_common_langs() {
    let registry = LspServerRegistry::with_defaults();
    let langs = registry.available_languages();
    assert!(langs.contains(&"rs"));
    assert!(langs.contains(&"ts"));
    assert!(langs.contains(&"py"));
    assert!(langs.contains(&"go"));
    assert!(langs.contains(&"java"));
    assert!(langs.contains(&"js"));
    assert!(langs.contains(&"tsx"));
}

#[test]
fn server_for_file_resolves() {
    let registry = LspServerRegistry::with_defaults();

    let rust_cfg = registry.server_for_file("src/main.rs").unwrap();
    assert_eq!(rust_cfg.command, "rust-analyzer");

    let ts_cfg = registry.server_for_file("app/index.ts").unwrap();
    assert_eq!(ts_cfg.command, "typescript-language-server");

    let py_cfg = registry.server_for_file("script.py").unwrap();
    assert_eq!(py_cfg.command, "pylsp");

    // Unknown extension returns None
    assert!(registry.server_for_file("data.csv").is_none());
}

#[test]
fn user_config_overrides() {
    let mut registry = LspServerRegistry::with_defaults();

    // Override Rust to use a custom analyzer
    let mut user = TextMap::new();
    user.insert(
        "rs".into(),
        LspServerConfig {
            command: "custom-rust-analyzer".into(),
            args: vec!["--custom".into()],
            root_markers: vec!["Cargo.toml".into()],
        },
    );
    // Add a new language
    user.insert(
        "rb".into(),
        LspServerConfig {
            command: "solargraph".into(),
            args: vec!["stdio".into()],
            root_markers: vec!["Gemfile".into()],
        },
    );
    registry.merge_user_config(user);

    let rust_cfg = registry.get("rs").unwrap();
    assert_eq!(rust_cfg.command, "custom-rust-analyzer");

    let ruby_cfg = registry.get("rb").unwrap();
    assert_eq!(ruby_cfg.command, "solargraph");
}

#[test]
fn languages_are_listed_in_order() {
    let registry = LspServerRegistry::with_defaults();
    assert_eq!(registry.available_languages(), vec!["go", "java", "js", "py", "rs", "ts", "tsx"]);
    assert!(LspServerRegistry::empty().available_languages().is_empty());
}

#[test]
fn default_servers_are_exact() {
    let registry = LspServerRegistry::with_defaults();
    let go = registry.get("go").unwrap();
    assert_eq!(go.command, "gopls");
    assert_eq!(go.args, vec!["serve"]);
    assert_eq!(go.root_markers, vec!["go.mod"]);
    let ts = registry.get("ts").unwrap();
    assert_eq!(ts.args, vec!["--stdio"]);
    assert_eq!(ts.root_markers, vec!["tsconfig.json", "package.json"]);
    let java = registry.get("java").unwrap();
    assert_eq!(java.command, "jdtls");
    assert!(java.args.is_empty());
    assert_eq!(java.root_markers, vec!["pom.xml", "build.gradle"]);
}

/// A name without a dot is its own extension.
#[test]
fn bare_names_are_their_own_extension() {
    let registry = LspServerRegistry::with_defaults();
    assert_eq!(registry.server_for_file("rs").unwrap().command, "rust-analyzer");
    assert!(registry.server_for_file("src/rs").is_none());
}
