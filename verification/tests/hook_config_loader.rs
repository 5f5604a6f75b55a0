use atomcode_core::hook::config_loader::{
    script_point, webhook_points, AsyncWebhookConfig, HooksConfig, ScriptHookConfig,
};
use atomcode_core::hook::engine::{HookDir, HookEngine, RegisteredHook, Slot};
use atomcode_core::hook::webhook::WebhookConfig;
use atomcode_core::hook::Hook;
use atomcode_core::text_map::TextMap;

fn present() -> Vec<String> {
    vec!["/bin/echo".to_string()]
}

fn make_script_config(name: &str, trigger: &str, script: &str) -> ScriptHookConfig {
    ScriptHookConfig {
        name: name.to_string(),
        trigger: trigger.to_string(),
        script: script.to_string(),
        script_type: "shell".to_string(),
        enabled: true,
        timeout_secs: 5,
        description: String::new(),
    }
}


#[test]
fn test_register_hooks_to_engine_pre_tool() {
    let config = HooksConfig {
        hooks: vec![make_script_config("pre", "pre_tool", "/bin/echo")],
        webhooks: vec![],
        async_webhooks: vec![],
    };
    let mut engine = HookEngine::new();
    config.register_hooks_to_engine(&mut engine, "/tmp", &present());
    assert!(engine.has_any());
}

#[test]
fn test_register_hooks_to_engine_post_tool() {
    let config = HooksConfig {
        hooks: vec![make_script_config("post", "post_tool", "/bin/echo")],
        webhooks: vec![],
        async_webhooks: vec![],
    };
    let mut engine = HookEngine::new();
    config.register_hooks_to_engine(&mut engine, "/tmp", &present());
    assert!(engine.has_any());
}

#[test]
fn test_register_hooks_to_engine_post_turn() {
    let config = HooksConfig {
        hooks: vec![make_script_config("turn", "post_turn", "/bin/echo")],
        webhooks: vec![],
        async_webhooks: vec![],
    };
    let mut engine = HookEngine::new();
    config.register_hooks_to_engine(&mut engine, "/tmp", &present());
    assert!(engine.has_any());
}

#[test]
fn test_register_hooks_to_engine_system_prompt() {
    let config = HooksConfig {
        hooks: vec![make_script_config("sys", "system_prompt", "/bin/echo")],
        webhooks: vec![],
        async_webhooks: vec![],
    };
    let mut engine = HookEngine::new();
    config.register_hooks_to_engine(&mut engine, "/tmp", &present());
    assert!(engine.has_any());
}

#[test]
fn test_register_hooks_to_engine_unknown_trigger() {
    let config = HooksConfig {
        hooks: vec![make_script_config("bad", "unknown_trigger", "/bin/echo")],
        webhooks: vec![],
        async_webhooks: vec![],
    };
    let mut engine = HookEngine::new();
    config.register_hooks_to_engine(&mut engine, "/tmp", &present());
    assert!(!engine.has_any(), "unknown trigger should register nothing");
}

#[test]
fn test_register_hooks_to_engine_disabled_skipped() {
    let mut script_cfg = make_script_config("disabled", "pre_tool", "/bin/echo");
    script_cfg.enabled = false;
    let config = HooksConfig {
        hooks: vec![script_cfg],
        webhooks: vec![],
        async_webhooks: vec![],
    };
    let mut engine = HookEngine::new();
    config.register_hooks_to_engine(&mut engine, "/tmp", &present());
    assert!(!engine.has_any(), "disabled hook should not register");
}

#[test]
fn test_register_hooks_to_engine_nonexistent_script() {
    let config = HooksConfig {
        hooks: vec![make_script_config("missing", "pre_tool", "/tmp/nonexistent_script_12345.sh")],
        webhooks: vec![],
        async_webhooks: vec![],
    };
    let mut engine = HookEngine::new();
    config.register_hooks_to_engine(&mut engine, "/tmp", &present());
    assert!(!engine.has_any(), "nonexistent script should not register");
}

#[test]
fn test_register_webhooks_to_engine_with_webhook() {
    let config = HooksConfig {
        hooks: vec![],
        webhooks: vec![WebhookConfig {
            name: "test-webhook".to_string(),
            trigger: "pre_tool".to_string(),
            url: "http://localhost:9999/hook".to_string(),
            enabled: true,
            timeout_secs: 5,
            method: "POST".to_string(),
            headers: TextMap::new(),
            description: String::new(),
            retries: 0,
        }],
        async_webhooks: vec![],
    };
    let mut engine = HookEngine::new();
    config.register_webhooks_to_engine(&mut engine);
    assert!(engine.has_any());
}

#[test]
fn test_register_webhooks_to_engine_empty() {
    let config = HooksConfig {
        hooks: vec![],
        webhooks: vec![],
        async_webhooks: vec![],
    };
    let mut engine = HookEngine::new();
    config.register_webhooks_to_engine(&mut engine);
    assert!(!engine.has_any());
}

#[test]
fn test_hooks_config_empty() {
    let config = HooksConfig::empty();
    assert!(config.hooks.is_empty());
    assert!(config.webhooks.is_empty());
    assert!(config.async_webhooks.is_empty());
}

#[test]
fn test_hook_engine_load_all_from_dir() {
    let dir = HookDir {
        config: HooksConfig {
            hooks: vec![make_script_config("test-hook", "pre_tool", "/bin/echo")],
            webhooks: vec![],
            async_webhooks: vec![],
        },
        base_dir: "/project".to_string(),
        present: present(),
    };
    let mut engine = HookEngine::new();
    engine.load_all(vec![], &vec![dir]);
    assert!(engine.has_any(), "engine should have hooks after loading");
    assert_eq!(engine.stats().pre_tool_hooks, 1);
}

#[test]
fn scripts_are_looked_for_below_the_base() {
    let mut off = make_script_config("off", "pre_tool", "off.sh");
    off.enabled = false;
    let config = HooksConfig {
        hooks: vec![
            make_script_config("a", "pre_tool", "a.sh"),
            make_script_config("b", "nowhere", "/abs/b.sh"),
            off,
        ],
        webhooks: vec![],
        async_webhooks: vec![],
    };
    let wanted = config.script_paths("/base");
    assert_eq!(wanted, vec!["/base/a.sh", "/abs/b.sh"]);
    let mut engine = HookEngine::new();
    config.register_hooks_to_engine(&mut engine, "/base", &vec!["/base/a.sh".to_string()]);
    assert_eq!(engine.pre_tool_hooks.len(), 1);
    match &engine.pre_tool_hooks[0] {
        RegisteredHook::Script(s) => assert_eq!(s.script, "/base/a.sh"),
        other => panic!("unexpected {:?}", other),
    }
    assert_eq!(engine.pre_tool_hooks[0].name(), "a");
}

#[test]
fn script_triggers_name_one_point() {
    assert_eq!(script_point("pre_tool"), Some(Slot::PreTool));
    assert_eq!(script_point("post_turn"), Some(Slot::PostTurn));
    assert_eq!(script_point("PRE_TOOL"), None);
    assert_eq!(script_point(""), None);
}

#[test]
fn batched_services_take_the_place_of_single_calls() {
    let mut config = HooksConfig::empty();
    config.webhooks.push(WebhookConfig::new("w".into(), "PRE_TOOL".into(), "http://localhost/".into()));
    config.async_webhooks.push(AsyncWebhookConfig { name: "w".into(), enabled: true, batch_size: 10 });
    let mut engine = HookEngine::new();
    config.register_webhooks_to_engine(&mut engine);
    assert!(engine.has_any());
    let waiting = webhook_points("pre_tool").len();
    assert!(waiting > 0);
    let mut off = HooksConfig::empty();
    let mut w = WebhookConfig::new("w".into(), "pre_tool".into(), "http://localhost/".into());
    w.enabled = false;
    off.webhooks.push(w);
    let mut engine = HookEngine::new();
    off.register_webhooks_to_engine(&mut engine);
    assert!(!engine.has_any());
}
