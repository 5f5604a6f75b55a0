use atomcode_core::hook::json_config::{
    cc_event_name_to_event, cc_hooks_to_atomcode, load_hooks_config, load_hooks_file, parse_hook_event, CCHookGroup,
    CCHookSpec, HookEntry, PluginHooks,
};
use atomcode_core::hook::{HookConfig, HookEvent};

fn group(matcher: Option<&str>, command: &str, timeout: Option<u64>) -> CCHookGroup {
    CCHookGroup {
        matcher: matcher.map(String::from),
        hooks: vec![CCHookSpec { kind: "command".into(), command: command.into(), timeout }],
    }
}

fn entry(event: &str, command: &str) -> HookEntry {
    HookEntry {
        event: event.into(),
        matcher: None,
        command: command.into(),
        timeout_ms: 10_000,
        disabled: false,
    }
}

fn named(list: Vec<(&str, HookEntry)>) -> Vec<(String, HookEntry)> {
    list.into_iter().map(|(n, e)| (n.to_string(), e)).collect()
}

fn commands(hooks: &[HookConfig]) -> Vec<&str> {
    hooks.iter().map(|h| h.command.as_str()).collect()
}

#[test]
fn cc_hooks_to_atomcode_records_plugin_root_without_substitution() {
    let cc = vec![(
        "UserPromptSubmit".to_string(),
        vec![group(None, "python \"${CLAUDE_PLUGIN_ROOT}/h.py\"", Some(5))],
    )];
    let plugin_root = "/opt/x";
    let out = cc_hooks_to_atomcode(&cc, plugin_root);
    assert_eq!(out.len(), 1);
    let (_, h) = &out[0];
    assert_eq!(h.event, HookEvent::UserPromptSubmit);
    assert_eq!(h.command, "python \"${CLAUDE_PLUGIN_ROOT}/h.py\"");
    assert_eq!(h.plugin_root.as_deref(), Some(plugin_root));
    assert_eq!(h.timeout_ms, 5_000);
}

#[test]
fn cc_hooks_to_atomcode_skips_unsupported_events() {
    let cc = vec![("Stop".to_string(), vec![group(None, "echo", None)])];
    assert!(cc_hooks_to_atomcode(&cc, "/").is_empty());
}

#[test]
fn cc_hooks_to_atomcode_default_timeout_when_omitted() {
    let cc = vec![("PreToolUse".to_string(), vec![group(Some("bash"), "echo", None)])];
    let out = cc_hooks_to_atomcode(&cc, "/");
    assert_eq!(out[0].1.timeout_ms, 10_000);
    assert_eq!(out[0].1.matcher.as_deref(), Some("bash"));
}

#[test]
fn cc_hooks_are_named_by_their_place() {
    let mut other = group(None, "echo 2", Some(u64::MAX));
    other.hooks.push(CCHookSpec { kind: "prompt".into(), command: "no".into(), timeout: None });
    other.hooks.push(CCHookSpec { kind: "command".into(), command: "echo 3".into(), timeout: Some(0) });
    let cc = vec![("PreToolUse".to_string(), vec![group(None, "echo 1", None), other])];
    let out = cc_hooks_to_atomcode(&cc, "/p");
    let names: Vec<&str> = out.iter().map(|(n, _)| n.as_str()).collect();
    assert_eq!(names, vec!["PreToolUse-0-0", "PreToolUse-1-0", "PreToolUse-1-2"]);
    assert_eq!(out[1].1.timeout_ms, u64::MAX);
    assert_eq!(out[2].1.timeout_ms, 0);
}

#[test]
fn disabled_hooks_are_skipped() {
    let mut inactive = entry("pre_tool_use", "echo no");
    inactive.disabled = true;
    let hooks = load_hooks_file(&named(vec![
        ("active", entry("pre_tool_use", "echo yes")),
        ("inactive", inactive),
    ]));
    assert_eq!(hooks.len(), 1);
    assert_eq!(hooks[0].0, "active");
}

#[test]
fn empty_hooks_object() {
    assert!(load_hooks_file(&vec![]).is_empty());
}

#[test]
fn project_overrides_global_by_name() {
    let global = named(vec![
        ("audit", entry("pre_tool_use", "echo global-audit")),
        ("global-only", entry("session_start", "echo global-only")),
    ]);
    let project = named(vec![
        ("audit", entry("pre_tool_use", "echo project-audit")),
        ("project-only", entry("post_tool_use", "echo project-only")),
    ]);
    let merged = load_hooks_config(&global, &vec![], &project);
    assert_eq!(merged.len(), 3);
    assert_eq!(commands(&merged), vec!["echo project-audit", "echo global-only", "echo project-only"]);
}

#[test]
fn event_string_mapping() {
    let hooks = load_hooks_file(&named(vec![
        ("h1", entry("pre_tool_use", "a")),
        ("h2", entry("post_tool_use", "b")),
        ("h3", entry("session_start", "c")),
        ("h4", entry("session_end", "d")),
    ]));
    assert_eq!(hooks[0].1.event, HookEvent::PreToolUse);
    assert_eq!(hooks[1].1.event, HookEvent::PostToolUse);
    assert_eq!(hooks[2].1.event, HookEvent::SessionStart);
    assert_eq!(hooks[3].1.event, HookEvent::SessionEnd);
}

#[test]
fn pascal_case_event_names_are_accepted() {
    let hooks = load_hooks_file(&named(vec![
        ("h1", entry("PreToolUse", "a")),
        ("h2", entry("UserPromptSubmit", "b")),
    ]));
    assert_eq!(hooks[0].1.event, HookEvent::PreToolUse);
    assert_eq!(hooks[1].1.event, HookEvent::UserPromptSubmit);
}

#[test]
fn invalid_event_name_is_skipped() {
    let hooks = load_hooks_file(&named(vec![
        ("typo", entry("pre_tool", "should-not-run")),
        ("valid", entry("post_tool_use", "echo ok")),
    ]));
    assert_eq!(hooks.len(), 1);
    assert_eq!(hooks[0].0, "valid");
    assert_eq!(hooks[0].1.event, HookEvent::PostToolUse);
}

#[test]
fn plugin_hooks_are_loaded_with_prefix() {
    let plugin = PluginHooks {
        plugin: "p".into(),
        plugin_dir: "/home/plugins/marketplaces/p".into(),
        manifest: None,
        file: named(vec![("on_pre", entry("PreToolUse", "echo hi"))]),
    };
    let hooks = load_hooks_config(&vec![], &vec![plugin], &vec![]);
    assert!(hooks.iter().any(|h| h.command == "echo hi"));
}

/// The hooks of a plugin do not stand in the way of others of the same name.
#[test]
fn plugins_keep_their_names_apart() {
    let plugin = |name: &str| PluginHooks {
        plugin: name.into(),
        plugin_dir: "/d".into(),
        manifest: None,
        file: named(vec![("a", entry("PreToolUse", name))]),
    };
    let global = named(vec![("a", entry("PreToolUse", "global"))]);
    let hooks = load_hooks_config(&global, &vec![plugin("x"), plugin("y")], &vec![]);
    assert_eq!(hooks.len(), 3);
}

#[test]
fn hook_event_deserializes_from_snake_case() {
    assert_eq!(parse_hook_event("pre_tool_use"), Some(HookEvent::PreToolUse));
    assert_eq!(parse_hook_event("post_tool_use"), Some(HookEvent::PostToolUse));
    assert_eq!(cc_event_name_to_event("post_tool_use"), None);
}

#[test]
fn hook_event_serializes_to_snake_case() {
    assert_eq!(HookEvent::PreToolUse.name(), "pre_tool_use");
    assert_eq!(HookEvent::PostToolUse.name(), "post_tool_use");
    assert_eq!(HookEvent::SessionStart.name(), "session_start");
    assert_eq!(HookEvent::SessionEnd.name(), "session_end");
    assert_eq!(HookEvent::Notification.name(), "notification");
}

#[test]
fn a_disabled_project_hook_hides_the_global_one() {
    let global = named(vec![("audit", entry("pre_tool_use", "echo g")), ("other", entry("pre_tool_use", "echo o"))]);
    let mut off = entry("pre_tool_use", "echo p");
    off.disabled = true;
    let hooks = load_hooks_config(&global, &vec![], &named(vec![("audit", off)]));
    assert_eq!(commands(&hooks), vec!["echo o"]);
    let unknown = named(vec![("audit", entry("pre_tool", "echo p"))]);
    assert_eq!(commands(&load_hooks_config(&global, &vec![], &unknown)), vec!["echo g", "echo o"]);
}
