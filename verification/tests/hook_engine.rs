use atomcode_core::hook::engine::{CustomHook, HookEngine, PreToolTurn, PromptTurn, RegisteredHook};
use atomcode_core::hook::prompt::CommandOutput;
use atomcode_core::hook::shell::ShellCommandHook;
use atomcode_core::hook::{
    Hook, HookConfig, HookCtx, HookEvent, HookResult, PreHookResult, SessionContext, ToolResultContext,
    UserPromptHookResult, UserPromptHookSpecific, UserPromptSubmitOutput, UserPromptSubmitResult,
};
use atomcode_core::json::{json_to_text, parse_json};

fn make_hook(event: HookEvent, matcher: Option<&str>, cmd: &str) -> HookConfig {
    HookConfig {
        event,
        matcher: matcher.map(String::from),
        command: cmd.to_string(),
        timeout_ms: 10_000,
        plugin_root: None,
    }
}

fn shell(event: HookEvent, matcher: Option<&str>) -> ShellCommandHook {
    ShellCommandHook::from_hook_config(make_hook(event, matcher, "c"))
}

fn custom(id: u64, enabled: bool, priority: i32) -> RegisteredHook {
    RegisteredHook::Custom(CustomHook {
        id,
        name: "custom".into(),
        description: String::new(),
        enabled,
        priority,
    })
}

fn ids(hooks: &[RegisteredHook]) -> Vec<u64> {
    hooks
        .iter()
        .map(|h| match h {
            RegisteredHook::Custom(c) => c.id,
            other => panic!("unexpected {:?}", other),
        })
        .collect()
}

fn ctx(tool: &str) -> HookCtx {
    HookCtx::new(tool.into(), "{}".into(), "/tmp".into())
}

fn out(exit_ok: bool, stdout: &str, stderr: &str) -> Option<CommandOutput> {
    Some(CommandOutput { exit_ok, stdout: stdout.into(), stderr: stderr.into() })
}

fn decision(decision: Option<&str>, reason: Option<&str>, context: Option<&str>) -> Option<UserPromptSubmitOutput> {
    Some(UserPromptSubmitOutput {
        decision: decision.map(String::from),
        reason: reason.map(String::from),
        hook_specific_output: context
            .map(|c| UserPromptHookSpecific { additional_context: Some(c.to_string()) }),
    })
}

#[test]
fn empty_engine_allows() {
    let engine = HookEngine::new();
    match engine.trigger_pre_tool_use(&vec![]) {
        PreToolTurn::Go { args, allowed } => {
            assert!(args.is_none());
            assert!(!allowed);
        }
        other => panic!("unexpected {:?}", other),
    }
}

#[test]
fn shell_command_hook_returning_allow_json() {
    let hook = shell(HookEvent::PreToolUse, None);
    let result = hook.on_pre_execute(&ctx("bash"), Some(PreHookResult::Allow));
    assert!(matches!(result, HookResult::ExplicitAllow));
}

#[test]
fn shell_command_hook_returning_block_json() {
    let hook = shell(HookEvent::PreToolUse, None);
    let reply = PreHookResult::Block { reason: "not allowed".into() };
    let result = hook.on_pre_execute(&ctx("bash"), Some(reply));
    assert!(matches!(result, HookResult::Denied(s) if s == "not allowed"));
}

#[test]
fn shell_command_hook_returning_modify_json() {
    let hook = shell(HookEvent::PreToolUse, None);
    let reply = PreHookResult::Modify { args: parse_json("{\"modified\": true}").unwrap() };
    let result = hook.on_pre_execute(&ctx("bash"), Some(reply));
    assert!(matches!(result, HookResult::Modified(s) if s == "{\"modified\":true}"));
}

#[test]
fn engine_hook_returning_non_json_allows() {
    let hook = shell(HookEvent::PreToolUse, None);
    assert!(matches!(hook.on_pre_execute(&ctx("bash"), None), HookResult::Proceed));
}

#[test]
fn engine_matcher_filters_correctly() {
    let hook = shell(HookEvent::PreToolUse, Some("edit_*"));
    let no = || Some(PreHookResult::Block { reason: "no".into() });
    assert!(matches!(hook.on_pre_execute(&ctx("edit_file"), no()), HookResult::Denied(_)));
    assert!(matches!(hook.on_pre_execute(&ctx("bash"), no()), HookResult::Proceed));
    assert!(hook.pre_execute_context(&ctx("bash")).is_none());
    assert!(hook.tool_matches("edit_x"));
}

#[test]
fn engine_user_prompt_no_hooks_returns_continue() {
    let engine = HookEngine::new();
    assert!(matches!(
        engine.trigger_user_prompt_submit(&vec![]),
        PromptTurn::Done(UserPromptHookResult::Continue)
    ));
}

#[test]
fn engine_user_prompt_decision_block_blocks() {
    let hook = shell(HookEvent::UserPromptSubmit, None);
    let r = hook.on_user_prompt_submit(
        out(true, "{\"decision\": \"block\", \"reason\": \"no\"}\n", ""),
        decision(Some("block"), Some("no"), None),
    );
    assert!(matches!(r, UserPromptSubmitResult::Block(_)));
}

#[test]
fn engine_user_prompt_hook_specific_output_injects() {
    let hook = shell(HookEvent::UserPromptSubmit, None);
    let r = hook.on_user_prompt_submit(
        out(true, "{\"hookSpecificOutput\": {\"additionalContext\": \"helpful context\"}}\n", ""),
        decision(None, None, Some("helpful context")),
    );
    assert!(matches!(r, UserPromptSubmitResult::Inject(s) if s == "helpful context"));
}

#[test]
fn engine_user_prompt_plain_stdout_injects_context() {
    let hook = shell(HookEvent::UserPromptSubmit, None);
    let r = hook.on_user_prompt_submit(out(true, "some plain text\n", ""), None);
    assert!(matches!(r, UserPromptSubmitResult::Inject(ref s) if s == "some plain text"));
}

#[test]
fn engine_user_prompt_nonzero_exit_blocks_with_stderr() {
    let hook = shell(HookEvent::UserPromptSubmit, None);
    let r = hook.on_user_prompt_submit(out(false, "", "block message\n"), None);
    assert!(matches!(r, UserPromptSubmitResult::Warning(ref s) if s == "block message"));
}

#[test]
fn engine_user_prompt_timeout_degrades_to_continue() {
    let hook = shell(HookEvent::UserPromptSubmit, None);
    assert!(matches!(hook.on_user_prompt_submit(None, None), UserPromptSubmitResult::Continue));
}

#[test]
fn engine_user_prompt_json_empty_object_continues() {
    let hook = shell(HookEvent::UserPromptSubmit, None);
    let r = hook.on_user_prompt_submit(out(true, "{}\n", ""), decision(None, None, None));
    assert!(matches!(r, UserPromptSubmitResult::Continue));
}

#[test]
fn engine_user_prompt_whitespace_only_continues() {
    let hook = shell(HookEvent::UserPromptSubmit, None);
    let r = hook.on_user_prompt_submit(out(true, "   \n", ""), None);
    assert!(matches!(r, UserPromptSubmitResult::Continue));
}

#[test]
fn engine_session_start_runs_matching_hooks() {
    let mut engine = HookEngine::new();
    engine.register_on_session_start_hook(RegisteredHook::Shell(shell(HookEvent::SessionStart, None)));
    assert_eq!(engine.stats().on_session_start_hooks, 1);
    let told = shell(HookEvent::SessionStart, None).session_context(
        HookEvent::SessionStart,
        &SessionContext {
            session_id: "test-s1".into(),
            working_dir: "/tmp".into(),
            model_name: "test-model".into(),
            provider_name: "mock".into(),
        },
    );
    assert_eq!(told.event, "session_start");
    assert_eq!(told.session_id, "test-s1");
    assert!(told.tool_name.is_none());
    let texts = engine.trigger_session_start(&vec![
        HookResult::Modified("a".into()),
        HookResult::Warning("w".into()),
        HookResult::Modified("b".into()),
    ]);
    assert_eq!(texts, vec!["a", "b"]);
}

#[test]
fn load_all_does_not_panic() {
    let mut engine = HookEngine::new();
    engine.load_all(vec![], &vec![]);
    assert!(!engine.has_any());
}

#[test]
fn has_any_returns_false_for_empty_engine() {
    assert!(!HookEngine::new().has_any());
}

#[test]
fn has_any_returns_true_with_pre_tool_hook() {
    let mut engine = HookEngine::new();
    engine.register_pre_tool_hook(RegisteredHook::Shell(shell(HookEvent::PreToolUse, None)));
    assert!(engine.has_any());
}

#[test]
fn hooks_wait_by_priority_or_as_they_came() {
    let mut engine = HookEngine::new();
    engine.register_pre_tool_hook(custom(1, true, 50));
    engine.register_pre_tool_hook(custom(2, true, 10));
    engine.register_pre_tool_hook(custom(3, true, 50));
    engine.register_pre_tool_hook(custom(4, false, 0));
    assert_eq!(ids(&engine.pre_tool_hooks), vec![2, 1, 3]);
    engine.register_on_error_hook(custom(1, true, 50));
    engine.register_on_error_hook(custom(2, true, 10));
    assert_eq!(ids(&engine.on_error_hooks), vec![1, 2]);
}

#[test]
fn denials_stop_and_changes_are_carried_on() {
    let mut engine = HookEngine::new();
    for id in 0..3 {
        engine.register_pre_tool_hook(custom(id, true, 100));
    }
    let mut said = vec![HookResult::Modified("{\"a\":1}".into())];
    assert!(matches!(engine.trigger_pre_tool_use(&said), PreToolTurn::Call(RegisteredHook::Custom(c)) if c.id == 1));
    said.push(HookResult::ExplicitAllow);
    said.push(HookResult::Warning("slow".into()));
    match engine.trigger_pre_tool_use(&said) {
        PreToolTurn::Go { args, allowed } => {
            assert_eq!(args.as_deref(), Some("{\"a\":1}"));
            assert!(allowed);
        }
        other => panic!("unexpected {:?}", other),
    }
    let said = vec![HookResult::Denied("no".into())];
    assert!(matches!(engine.trigger_pre_tool_use(&said), PreToolTurn::Denied(s) if s == "custom: no"));
}

#[test]
fn extensions_are_collected_in_order() {
    let engine = HookEngine::new();
    let got = engine.collect_system_prompt_extensions(&vec![Some("x".into()), None, Some("y".into())]);
    assert_eq!(got, vec!["x", "y"]);
}

#[test]
fn commands_are_loaded_where_their_event_is() {
    let mut engine = HookEngine::new();
    engine.load_json_hooks(vec![
        make_hook(HookEvent::PreToolUse, Some("bash"), "a"),
        make_hook(HookEvent::PostToolUse, None, "b"),
        make_hook(HookEvent::SessionStart, None, "c"),
        make_hook(HookEvent::SessionEnd, None, "d"),
        make_hook(HookEvent::UserPromptSubmit, None, "e"),
    ]);
    let s = engine.stats();
    assert_eq!((s.pre_tool_hooks, s.post_tool_hooks), (1, 1));
    assert_eq!((s.on_session_start_hooks, s.on_session_end_hooks), (1, 1));
    assert_eq!(engine.on_user_prompt_submit_hooks.len(), 1);
    assert_eq!(engine.pre_tool_hooks[0].priority(), 0);
    assert!(engine.pre_tool_hooks[0].is_enabled());
}

#[test]
fn commands_are_told_of_the_call() {
    let hook = shell(HookEvent::PostToolUse, None);
    let c = ctx("bash").with_session("s1".into()).with_turn(4).with_metadata("k".into(), "v".into());
    assert_eq!(c.turn_number, 4);
    assert_eq!(c.metadata.as_ref().unwrap().get("k").map(|s| s.as_str()), Some("v"));
    let told = hook.pre_execute_context(&c).unwrap();
    assert_eq!(told.session_id, "s1");
    assert_eq!(json_to_text(&told.tool_args.unwrap()), "\"{}\"");
    let done = ToolResultContext {
        tool_name: "bash".into(),
        tool_args: "not json".into(),
        result: "fine".into(),
        success: true,
        duration_ms: 5,
    };
    let told = hook.post_execute_context(&c, &done).unwrap();
    assert_eq!(told.tool_result.as_deref(), Some("fine"));
    assert_eq!(told.tool_success, Some(true));
}
