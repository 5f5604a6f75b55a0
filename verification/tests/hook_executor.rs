use atomcode_core::hook::executor::{
    command_variables, exit_error, plugin_variables, HookExecutor, PreToolNext, PromptNext,
};
use atomcode_core::hook::prompt::{
    blocked, decision_line, prompt_payload, prompt_reply, push_context, CommandOutput,
};
use atomcode_core::hook::{
    HookConfig, HookContext, HookEvent, PreHookResult, UserPromptHookResult, UserPromptHookSpecific,
    UserPromptSubmitOutput, UserPromptSubmitResult,
};
use atomcode_core::json::{json_to_text, parse_json, Json};

fn test_ctx() -> HookContext {
    HookContext {
        event: "pre_tool_use".into(),
        tool_name: Some("bash".into()),
        tool_args: parse_json(r#"{"command":"ls"}"#),
        tool_result: None,
        tool_success: None,
        session_id: "test-session".into(),
        working_dir: "/tmp".into(),
    }
}

fn make_hook(event: HookEvent, matcher: Option<&str>, cmd: &str) -> HookConfig {
    HookConfig {
        event,
        matcher: matcher.map(String::from),
        command: cmd.to_string(),
        timeout_ms: 10_000,
        plugin_root: None,
    }
}

/// As many commands as there are replies, each for `bash`.
fn pre_tool(tool: &str, replies: Vec<Option<PreHookResult>>) -> PreHookResult {
    let hooks = replies.iter().map(|_| make_hook(HookEvent::PreToolUse, Some("bash"), "c")).collect();
    let exec = HookExecutor::new(hooks);
    let mut said: Vec<Option<PreHookResult>> = vec![];
    for r in replies {
        match exec.run_pre_tool_use(tool, &said) {
            PreToolNext::Run(h) => assert_eq!(h.command, "c"),
            PreToolNext::Done(done) => return done,
        }
        said.push(r);
    }
    match exec.run_pre_tool_use(tool, &said) {
        PreToolNext::Done(done) => done,
        PreToolNext::Run(h) => panic!("one too many: {:?}", h),
    }
}

fn modify(text: &str) -> Option<PreHookResult> {
    Some(PreHookResult::Modify { args: parse_json(text).unwrap() })
}

fn block(reason: &str) -> Option<PreHookResult> {
    Some(PreHookResult::Block { reason: reason.into() })
}

fn modified_to(r: PreHookResult, text: &str) {
    match r {
        PreHookResult::Modify { args } => assert_eq!(json_to_text(&args), text),
        other => panic!("unexpected {:?}", other),
    }
}

fn blocked_with(r: PreHookResult, text: &str) {
    match r {
        PreHookResult::Block { reason } => assert_eq!(reason, text),
        other => panic!("unexpected {:?}", other),
    }
}

fn parsed(stdout: &str) -> Option<UserPromptSubmitOutput> {
    let line = decision_line(stdout)?;
    let j = parse_json(&line)?;
    if !matches!(j, Json::Object(_)) {
        return None;
    }
    Some(UserPromptSubmitOutput {
        decision: j.str_at("decision").map(String::from),
        reason: j.str_at("reason").map(String::from),
        hook_specific_output: j.get("hookSpecificOutput").map(|o| UserPromptHookSpecific {
            additional_context: o.str_at("additionalContext").map(String::from),
        }),
    })
}

fn reply(exit_ok: bool, stdout: &str, stderr: &str) -> UserPromptSubmitResult {
    let p = parsed(stdout);
    prompt_reply(Some(CommandOutput { exit_ok, stdout: stdout.into(), stderr: stderr.into() }), p)
}

fn says(stdout: &str) -> UserPromptSubmitResult {
    reply(true, stdout, "")
}

fn prompt(replies: Vec<UserPromptSubmitResult>) -> UserPromptHookResult {
    let hooks = replies.iter().map(|_| make_hook(HookEvent::UserPromptSubmit, None, "c")).collect();
    let exec = HookExecutor::new(hooks);
    let mut said = vec![];
    for r in replies {
        match exec.run_user_prompt_submit(&said) {
            PromptNext::Run(h) => assert_eq!(h.command, "c"),
            PromptNext::Done(done) => return done,
        }
        said.push(r);
    }
    match exec.run_user_prompt_submit(&said) {
        PromptNext::Done(done) => done,
        PromptNext::Run(h) => panic!("one too many: {:?}", h),
    }
}

fn injects(r: UserPromptHookResult, text: &str) {
    match r {
        UserPromptHookResult::Inject(s) => assert_eq!(s, text),
        other => panic!("unexpected {:?}", other),
    }
}

fn blocks(r: UserPromptHookResult, text: &str) {
    match r {
        UserPromptHookResult::Block(s) => assert_eq!(s, text),
        other => panic!("unexpected {:?}", other),
    }
}

fn warns(r: UserPromptHookResult, text: &str) {
    match r {
        UserPromptHookResult::Warning(s) => assert_eq!(s, text),
        other => panic!("unexpected {:?}", other),
    }
}

#[test]
fn empty_executor_allows() {
    let exec = HookExecutor::empty();
    assert!(!exec.has_hooks());
    assert!(matches!(exec.run_pre_tool_use("bash", &vec![]), PreToolNext::Done(PreHookResult::Allow)));
}

#[test]
fn hook_returning_allow_json() {
    assert!(matches!(pre_tool("bash", vec![Some(PreHookResult::Allow)]), PreHookResult::Allow));
}

#[test]
fn hook_returning_block_json() {
    blocked_with(pre_tool("bash", vec![block("dangerous")]), "dangerous");
}

#[test]
fn hook_returning_modify_json() {
    modified_to(pre_tool("bash", vec![modify(r#"{"command":"ls -la"}"#)]), r#"{"command":"ls -la"}"#);
}

#[test]
fn pre_tool_multiple_modify_last_wins() {
    let r = pre_tool("bash", vec![modify(r#"{"command":"first"}"#), Some(PreHookResult::Allow)]);
    modified_to(r, r#"{"command":"first"}"#);
}

#[test]
fn pre_tool_multiple_block_short_circuits() {
    let r = pre_tool("bash", vec![Some(PreHookResult::Allow), block("second blocks"), None]);
    blocked_with(r, "second blocks");
}

#[test]
fn executor_hook_returning_non_json_allows() {
    assert!(matches!(pre_tool("bash", vec![None]), PreHookResult::Allow));
}

#[test]
fn pre_tool_two_modifys_last_wins() {
    let r = pre_tool("bash", vec![modify(r#"{"command":"first"}"#), modify(r#"{"command":"second"}"#)]);
    modified_to(r, r#"{"command":"second"}"#);
}

#[test]
fn executor_matcher_filters_correctly() {
    blocked_with(pre_tool("bash", vec![block("bash only")]), "bash only");
    assert!(matches!(pre_tool("grep", vec![block("bash only")]), PreHookResult::Allow));
}

#[test]
fn post_tool_matcher_filters() {
    let exec = HookExecutor::new(vec![make_hook(HookEvent::PostToolUse, Some("grep"), "touch p")]);
    assert!(exec.run_post_tool_use("bash").is_empty());
    assert_eq!(exec.run_post_tool_use("grep").len(), 1);
}

#[test]
fn post_tool_multiple_all_fire() {
    let exec = HookExecutor::new(vec![
        make_hook(HookEvent::PostToolUse, None, "a"),
        make_hook(HookEvent::PreToolUse, None, "x"),
        make_hook(HookEvent::PostToolUse, None, "b"),
    ]);
    let run = exec.run_post_tool_use("bash");
    assert_eq!((run[0].command.as_str(), run[1].command.as_str(), run.len()), ("a", "b", 2));
}

#[test]
fn hook_receives_env_vars() {
    let vars = command_variables(&test_ctx(), "{...}", &None);
    assert!(vars.contains(&("ATOMCODE_HOOK_EVENT".to_string(), "pre_tool_use".to_string())));
    assert!(vars.contains(&("ATOMCODE_TOOL_NAME".to_string(), "bash".to_string())));
    assert!(vars.contains(&("ATOMCODE_HOOK_CONTEXT".to_string(), "{...}".to_string())));
    assert_eq!(vars.len(), 3);
}

#[test]
fn execute_hook_without_tool_name_does_not_set_env() {
    let mut ctx = test_ctx();
    ctx.tool_name = None;
    let vars = command_variables(&ctx, "{}", &None);
    assert!(!vars.iter().any(|(k, _)| k == "ATOMCODE_TOOL_NAME"));
}

#[test]
fn execute_hook_with_plugin_root_sets_both_env_vars() {
    let root = Some("/opt/has space/x".to_string());
    let vars = plugin_variables(&root);
    assert_eq!(
        vars,
        vec![
            ("CLAUDE_PLUGIN_ROOT".to_string(), "/opt/has space/x".to_string()),
            ("ATOMCODE_PLUGIN_ROOT".to_string(), "/opt/has space/x".to_string()),
        ]
    );
    assert_eq!(command_variables(&test_ctx(), "{}", &root).len(), 5);
}

#[test]
fn execute_hook_nonzero_exit_returns_error() {
    assert_eq!(exit_error(Some(2)), "hook command exited with status 2");
    assert_eq!(exit_error(None), "hook command exited with status -1");
}

#[test]
fn executor_user_prompt_no_hooks_returns_continue() {
    let exec = HookExecutor::empty();
    assert!(matches!(
        exec.run_user_prompt_submit(&vec![]),
        PromptNext::Done(UserPromptHookResult::Continue)
    ));
}

#[test]
fn executor_user_prompt_plain_stdout_injects_context() {
    injects(prompt(vec![says("extra-info\n")]), "extra-info");
}

#[test]
fn executor_user_prompt_decision_block_blocks() {
    blocks(prompt(vec![says("{\"decision\":\"block\",\"reason\":\"nope\"}\n")]), "nope");
}

#[test]
fn executor_user_prompt_hook_specific_output_injects() {
    let said = says("{\"hookSpecificOutput\":{\"additionalContext\":\"ctx-bag\"}}\n");
    injects(prompt(vec![said]), "ctx-bag");
}

#[test]
fn executor_user_prompt_nonzero_exit_blocks_with_stderr() {
    warns(prompt(vec![reply(false, "", "bad\n")]), "bad");
}

#[test]
fn executor_user_prompt_block_after_debug_noise_still_blocks() {
    let said = says("debug line 1\ndebug line 2\n{\"decision\":\"block\",\"reason\":\"final\"}\n");
    blocks(prompt(vec![said]), "final");
}

#[test]
fn user_prompt_nonzero_exit_with_json_block_still_blocks() {
    let said = reply(false, "{\"decision\":\"block\",\"reason\":\"intentional\"}\n", "");
    blocks(prompt(vec![said]), "intentional");
}

#[test]
fn user_prompt_payload_reaches_stdin() {
    let p = prompt_payload("ping-payload", "sess", "/tmp");
    assert_eq!(p.prompt, "ping-payload");
    assert_eq!(p.session_id, "sess");
    assert_eq!(p.cwd, "/tmp");
    assert_eq!(p.hook_event_name, "UserPromptSubmit");
}

#[test]
fn user_prompt_multiple_hooks_first_blocks() {
    let r = prompt(vec![
        says("{\"decision\":\"block\",\"reason\":\"blocked by first\"}\n"),
        says("plain inject from second\n"),
    ]);
    blocks(r, "blocked by first");
}

#[test]
fn user_prompt_all_inject_combined() {
    let r = prompt(vec![says("context from first\n"), says("context from second\n")]);
    injects(r, "context from first\n\ncontext from second");
}

#[test]
fn user_prompt_nonzero_exit_no_stderr() {
    warns(prompt(vec![reply(false, "", "")]), "hook exited with error");
}

#[test]
fn executor_user_prompt_json_empty_object_continues() {
    assert!(matches!(prompt(vec![says("{}\n")]), UserPromptHookResult::Continue));
}

#[test]
fn user_prompt_decision_allow_continues() {
    assert!(matches!(prompt(vec![says("{\"decision\":\"allow\"}\n")]), UserPromptHookResult::Continue));
}

#[test]
fn user_prompt_json_block_with_trailing_debug_falls_through() {
    let r = prompt(vec![says("{\"decision\":\"block\",\"reason\":\"missed\"}\nsome trailing log\n")]);
    match r {
        UserPromptHookResult::Inject(ctx) => {
            assert!(ctx.contains("some trailing log"), "ctx: {ctx}");
            assert!(ctx.contains("missed"), "ctx: {ctx}");
        }
        other => panic!("expected Inject, got {:?}", other),
    }
}

#[test]
fn user_prompt_json_decision_allow_with_context_injects() {
    let said = says("{\"decision\":\"allow\",\"hookSpecificOutput\":{\"additionalContext\":\"extra\"}}\n");
    injects(prompt(vec![said]), "extra");
}

#[test]
fn executor_user_prompt_whitespace_only_continues() {
    assert!(matches!(prompt(vec![says("   \n")]), UserPromptHookResult::Continue));
}

#[test]
fn executor_user_prompt_timeout_degrades_to_continue() {
    assert!(matches!(prompt(vec![prompt_reply(None, None)]), UserPromptHookResult::Continue));
}

#[test]
fn user_prompt_block_after_inject_still_blocks() {
    let r = prompt(vec![
        says("injected\n"),
        says("{\"decision\":\"block\",\"reason\":\"second blocks\"}\n"),
    ]);
    blocks(r, "second blocks");
}

#[test]
fn user_prompt_stderr_preferred_over_stdout_for_block() {
    warns(prompt(vec![reply(false, "stdout msg\n", "stderr reason\n")]), "stderr reason");
}

#[test]
fn user_prompt_three_injects_combined() {
    let r = prompt(vec![says("first\n"), says("second\n"), says("third\n")]);
    injects(r, "first\n\nsecond\n\nthird");
}

#[test]
fn failures_are_told_together_and_hide_context() {
    let r = prompt(vec![reply(false, "one\n", ""), says("context\n"), reply(false, "", " two ")]);
    warns(r, "one; two");
}

#[test]
fn a_block_without_a_reason_has_one() {
    let r = prompt(vec![says("{\"decision\":\"block\"}")]);
    blocks(r, "user prompt blocked by hook");
}

#[test]
fn the_first_block_is_found() {
    let said = vec![says("context"), says("{\"decision\":\"block\",\"reason\":\"x\"}")];
    assert_eq!(blocked(&said).as_deref(), Some("x"));
    assert_eq!(blocked(&vec![says("context")]), None);
}

#[test]
fn executor_session_start_runs_matching_hooks() {
    let exec = HookExecutor::new(vec![make_hook(HookEvent::SessionStart, None, "touch p")]);
    assert_eq!(exec.run_session_event(HookEvent::SessionStart).len(), 1);
}

#[test]
fn executor_session_end_runs_matching_hooks() {
    let exec = HookExecutor::new(vec![make_hook(HookEvent::SessionEnd, None, "touch p")]);
    assert_eq!(exec.run_session_event(HookEvent::SessionEnd).len(), 1);
}

#[test]
fn executor_session_event_no_matching_hooks_noop() {
    let exec = HookExecutor::new(vec![make_hook(HookEvent::PostToolUse, None, "echo should-not-run")]);
    assert!(exec.run_session_event(HookEvent::SessionStart).is_empty());
}

#[test]
fn session_event_tool_matcher_ignored() {
    let exec = HookExecutor::new(vec![make_hook(HookEvent::SessionStart, Some("grep"), "touch p")]);
    assert_eq!(exec.run_session_event(HookEvent::SessionStart).len(), 1);
}

#[test]
fn session_event_multiple_hooks_all_fire() {
    let exec = HookExecutor::new(vec![
        make_hook(HookEvent::SessionEnd, None, "touch 1"),
        make_hook(HookEvent::SessionEnd, None, "touch 2"),
    ]);
    assert_eq!(exec.run_session_event(HookEvent::SessionEnd).len(), 2);
}

#[test]
fn session_notification_runs() {
    let exec = HookExecutor::new(vec![make_hook(HookEvent::Notification, None, "touch p")]);
    assert!(exec.has_hooks());
    assert_eq!(exec.run_session_event(HookEvent::Notification).len(), 1);
}

#[test]
fn push_context_empty_acc() {
    let mut acc = String::new();
    push_context(&mut acc, "hello");
    assert_eq!(acc, "hello");
}

#[test]
fn push_context_non_empty_acc() {
    let mut acc = "first".to_string();
    push_context(&mut acc, "second");
    assert_eq!(acc, "first\n\nsecond");
}

#[test]
fn push_context_empty_extra() {
    let mut acc = "first".to_string();
    push_context(&mut acc, "");
    assert_eq!(acc, "first");
}

#[test]
fn push_context_multiple_appends() {
    let mut acc = String::new();
    push_context(&mut acc, "a");
    push_context(&mut acc, "b");
    push_context(&mut acc, "c");
    assert_eq!(acc, "a\n\nb\n\nc");
}
