use atomcode_core::conversation::{
    Conversation, Message, MessageContent, Role, ToolCall, ToolResult, ToolResultRef, KEEP_MESSAGES,
};
use atomcode_core::ctx::compact::{build_compact_stub, collapse_committed, compact_old_tool_results_in_place};
use atomcode_core::ctx::compress::{auto_compact_threshold, build_compression_content, needs_compression};
use atomcode_core::ctx::pairing::sanitize_messages;
use atomcode_core::ctx::render::{apply_model_directives, build_messages};

#[test]
fn apply_model_directives_noop_for_generic_model() {
    let out = apply_model_directives("SYS", "gpt-4o");
    assert_eq!(out, "SYS");
    let out = apply_model_directives("SYS", "gemini-1.5-pro");
    assert_eq!(out, "SYS");
}

#[test]
fn auto_compact_threshold_large_window_uses_large_buffer() {
    assert_eq!(auto_compact_threshold(200_000), 187_000);
    assert_eq!(auto_compact_threshold(131_072), 118_072);
}

#[test]
fn auto_compact_threshold_small_window_uses_small_buffer() {
    assert_eq!(auto_compact_threshold(65_000), 60_000);
    assert_eq!(auto_compact_threshold(100_000), 95_000);
    assert_eq!(auto_compact_threshold(101_000), 88_000);
}

#[test]
fn auto_compact_threshold_tiny_window_caps_at_quarter() {
    assert_eq!(auto_compact_threshold(8_000), 6_000);
    assert_eq!(auto_compact_threshold(16_000), 12_000);
    assert_eq!(auto_compact_threshold(20_000), 15_000);
}

#[test]
fn auto_compact_threshold_handles_degenerate_window() {
    assert_eq!(auto_compact_threshold(0), 0);
}

#[test]
fn needs_compression_fires_at_absolute_headroom_not_percentage() {
    let mut conv = Conversation::new();
    for i in 0..8 {
        conv.messages.push(Message::new(Role::User, &format!("u{}", i)));
        conv.messages.push(Message::new(Role::Assistant, &format!("a{}", i)));
    }
    assert_eq!(conv.messages.len(), 16);
    assert!(!needs_compression(&conv, 0, 131_072));

    conv.messages
        .push(Message::new(Role::User, &"x".repeat(500_000)));
    assert!(needs_compression(&conv, 0, 131_072));
}

#[test]
fn large_window_ignores_message_count_for_compaction() {
    let mut conv = Conversation::new();
    for _ in 0..15 {
        conv.messages
            .push(Message::new(Role::User, &"x".repeat(20_000)));
        conv.messages
            .push(Message::new(Role::Assistant, &"y".repeat(20_000)));
    }
    let total: usize = conv.messages.iter().map(|m| m.estimate_tokens()).sum();
    assert_eq!(conv.messages.len(), 30, "fixture exceeds KEEP_MESSAGES=20");
    assert!(
        (120_000..400_000).contains(&total),
        "fixture should be ~150K tokens, got {}",
        total
    );

    assert!(
        !needs_compression(&conv, 0, 1_000_000),
        "large window must not compress a far-under-budget conversation regardless of message count"
    );
    assert!(
        needs_compression(&conv, 0, 128_000),
        "small window over threshold must still compress"
    );
}

#[test]
fn tool_result_ref_token_estimate_uses_summary_not_byte_size() {

    let big_ref = ToolResultRef {
        call_id: "call_1".into(),
        hash: "deadbeef".into(),
        summary: "hello".into(),
        byte_size: 200_000,
        success: true,
    };
    let msg = Message {
        role: Role::User,
        content: MessageContent::ToolResultRef(big_ref),
                synthetic: false,
    };
    assert!(
        msg.estimate_tokens() < 20,
        "expected estimate to track summary size, got {}",
        msg.estimate_tokens()
    );
}

#[test]
fn apply_model_directives_cn_lock_for_cjk_tier() {
    for id in ["qwen3-max", "deepseek-v3", "kimi-k2"] {
        let out = apply_model_directives("SYS", id);
        assert!(
            out.contains("用户可见的输出请用中文"),
            "model {id} missing CN lock"
        );
        assert!(
            !out.contains("THINKING 简洁纪律"),
            "model {id} got MiniMax directive erroneously"
        );
    }
}

#[test]
fn apply_model_directives_minimax_gets_both_blocks() {
    let out = apply_model_directives("SYS", "minimax-m2");
    assert!(out.contains("用户可见的输出请用中文"));
    assert!(out.contains("THINKING 简洁纪律"));
    let cn_idx = out.find("用户可见的输出").unwrap();
    let thinking_idx = out.find("THINKING").unwrap();
    assert!(thinking_idx > cn_idx);
}

#[test]
fn apply_model_directives_preserves_system_prompt_prefix() {
    let sys = "You are AtomCode. Working directory: /tmp\n";
    let out = apply_model_directives(sys, "minimax-m2");
    assert!(out.starts_with(sys));
}

#[test]
fn test_budgeted_empty_conversation() {
    let conv = Conversation::new();
    let (msgs, _stats) = build_messages(&conv, "system prompt", 8000, "");
    assert_eq!(msgs.len(), 1);
    assert!(matches!(msgs[0].role, Role::System));
}

#[test]
fn test_budgeted_includes_recent_messages() {
    let mut conv = Conversation::new();
    conv.add_user_message("hello");
    conv.messages
        .push(Message::new(Role::Assistant, "hi there"));
    conv.add_user_message("do something");

    let (msgs, _stats) = build_messages(&conv, "sys", 8000, "");
    assert_eq!(msgs.len(), 4);
    assert!(matches!(msgs[0].role, Role::System));
}

#[test]
fn test_budgeted_sends_all_when_under_80pct() {
    let mut conv = Conversation::new();

    for turn in 0..2 {
        conv.add_user_message(&format!("task {}", turn));
        let call = ToolCall {
            id: format!("call_{}", turn),
            name: "read_file".to_string(),
            arguments: format!(r#"{{"file_path":"/tmp/file_{}.rs"}}"#, turn),
        };
        conv.add_assistant_tool_calls(None, vec![call], None);
        conv.add_tool_result(ToolResult {
            call_id: format!("call_{}", turn),
            output: "short result".to_string(),
            success: true,
        });
    }
    conv.add_user_message("now what?");

    let (msgs, stats) = build_messages(&conv, "sys", 100000, "");
    assert_eq!(msgs.len(), 8);
    assert!(matches!(msgs[0].role, Role::System));
    assert_eq!(msgs.last().unwrap().text(), Some("now what?"));
    assert_eq!(stats.dropped_tokens, 0, "Nothing should be dropped");
}

#[test]
fn test_budgeted_drops_oldest_turns_when_over_budget() {
    let mut conv = Conversation::new();

    for turn in 0..5 {
        conv.add_user_message(&format!("task {}", turn));
        for i in 0..4 {
            let idx = turn * 4 + i;
            let call = ToolCall {
                id: format!("call_{}", idx),
                name: "read_file".to_string(),
                arguments: format!(r#"{{"file_path":"/tmp/file_{}.rs"}}"#, idx),
            };
            conv.add_assistant_tool_calls(None, vec![call], None);
            conv.add_tool_result(ToolResult {
                call_id: format!("call_{}", idx),
                output: "x".repeat(2000),
                success: true,
            });
        }
    }
    conv.add_user_message("now what?");

    let (msgs, stats) = build_messages(&conv, "sys", 4000, "");
    assert!(
        stats.dropped_tokens > 0,
        "Some turns should have been dropped"
    );
    assert_eq!(msgs.last().unwrap().text(), Some("now what?"));
    assert!(matches!(msgs[0].role, Role::System));
}

#[test]
fn repro_reasoning_overflow_with_auto_compaction() {

    fn simulate_compress(conv: &mut Conversation, sys_tokens: usize, budget: usize) {
        if !needs_compression(conv, sys_tokens, budget) {
            return;
        }
        compact_old_tool_results_in_place(conv, 3, false);
        if !needs_compression(conv, sys_tokens, budget) {
            return;
        }
        let cold_zone: usize = conv.cold_summaries.iter().map(|s| s.len() / 4 + 4).sum();
        let output_reserve = (budget / 4).clamp(8_000, 16_384);
        let keep_ceiling = budget
            .saturating_sub(sys_tokens)
            .saturating_sub(cold_zone)
            .saturating_sub(output_reserve)
            .max(budget / 4);
        let (content, n) = build_compression_content(conv, keep_ceiling);
        if !content.is_empty() && n > 0 {
            conv.apply_compression(n, content);
        }
    }

    let window = 128_000usize;
    let sys = "sys";
    let sys_tokens = sys.len() / 4 + 4;

    let mut conv = Conversation::new();
    conv.add_user_message("read the whole repo and explain the architecture");

    for round in 0..15 {
        let call = ToolCall {
            id: format!("call_{}", round),
            name: "read_file".to_string(),
            arguments: format!(r#"{{"file_path":"/src/f_{}.rs"}}"#, round),
        };
        conv.add_assistant_tool_calls(
            Some("looking..."),
            vec![call],
            Some(&"思考过程".repeat(10_000)),
        );
        conv.add_tool_result(ToolResult {
            call_id: format!("call_{}", round),
            output: "x".repeat(8_000),
            success: true,
        });
        simulate_compress(&mut conv, sys_tokens, window);
    }

    let (msgs, _stats) = build_messages(&conv, sys, window, "");
    let total: usize = msgs.iter().map(|m| m.estimate_tokens()).sum();

    assert!(
        total <= window,
        "even WITH auto-compaction the payload is {total} tok > {window} \
         window — the KEEP_MESSAGES=20 keep-floor of reasoning-heavy rounds \
         can't be compressed (faithful repro of the prod overflow)."
    );
}

#[test]
fn budgeted_does_not_drop_under_80pct_of_1m_budget() {
    let mut conv = Conversation::new();

    for turn in 0..25 {
        conv.add_user_message(&format!("task {}", turn));
        let call = ToolCall {
            id: format!("call_{}", turn),
            name: "read_file".to_string(),
            arguments: format!(r#"{{"file_path":"/tmp/f_{}.rs"}}"#, turn),
        };
        conv.add_assistant_tool_calls(None, vec![call], None);
        conv.add_tool_result(ToolResult {
            call_id: format!("call_{}", turn),
            output: "x".repeat(32_000),
            success: true,
        });
    }
    conv.add_user_message("now what?");

    let (_msgs, stats) = build_messages(&conv, "sys", 1_000_000, "");
    assert_eq!(
        stats.dropped_tokens, 0,
        "200K tokens under 1M budget (80%=800K) must not drop \
         any turns — pre-fix the 60K cap clipped this to 60K and \
         dropped most of the history despite the 1M window."
    );
}

#[test]
fn budgeted_drops_when_over_80pct_of_1m_budget() {
    let mut conv = Conversation::new();

    for turn in 0..32 {
        conv.add_user_message(&format!("task {}", turn));
        let call = ToolCall {
            id: format!("call_{}", turn),
            name: "read_file".to_string(),
            arguments: format!(r#"{{"file_path":"/tmp/f_{}.rs"}}"#, turn),
        };
        conv.add_assistant_tool_calls(None, vec![call], None);
        conv.add_tool_result(ToolResult {
            call_id: format!("call_{}", turn),
            output: "x".repeat(128_000),
            success: true,
        });
    }
    conv.add_user_message("now what?");

    let (msgs, stats) = build_messages(&conv, "sys", 1_000_000, "");
    assert!(
        stats.dropped_tokens > 0,
        "over-800K conversation on 1M budget must trigger the \
         80% drop floor"
    );
    assert_eq!(msgs.last().unwrap().text(), Some("now what?"));
}

#[test]
fn test_budgeted_always_keeps_latest_turn() {
    let mut conv = Conversation::new();

    conv.add_user_message("big task");
    let call = ToolCall {
        id: "c0".to_string(),
        name: "bash".to_string(),
        arguments: "{}".to_string(),
    };
    conv.add_assistant_tool_calls(Some("running..."), vec![call], None);
    conv.add_tool_result(ToolResult {
        call_id: "c0".to_string(),
        output: "z".repeat(50000),
        success: true,
    });

    let (msgs, _stats) = build_messages(&conv, "sys", 1000, "");
    assert!(!msgs.is_empty(), "Must at least have system prompt");
    assert!(matches!(msgs[0].role, Role::System));
}

#[test]
fn test_budgeted_never_returns_system_only_when_messages_exist() {
    let mut conv = Conversation::new();

    for i in 0..5 {
        conv.add_user_message(&format!("task {}", i));
        let call = ToolCall {
            id: format!("c{}", i),
            name: "bash".to_string(),
            arguments: "{}".to_string(),
        };
        conv.add_assistant_tool_calls(Some("ok"), vec![call], None);
        conv.add_tool_result(ToolResult {
            call_id: format!("c{}", i),
            output: "x".repeat(500),
            success: true,
        });
    }

    conv.add_user_message("find everything");
    let call = ToolCall {
        id: "c5".to_string(),
        name: "bash".to_string(),
        arguments: "{}".to_string(),
    };
    conv.add_assistant_tool_calls(Some("finding..."), vec![call], None);
    conv.add_tool_result(ToolResult {
        call_id: "c5".to_string(),
        output: "z".repeat(200_000),
        success: true,
    });

    let (msgs, _stats) = build_messages(&conv, "sys", 10_000, "");
    let non_system = msgs
        .iter()
        .filter(|m| !matches!(m.role, Role::System))
        .count();
    assert!(
        non_system > 0,
        "never return system-only result when messages exist — got msgs.len()={}",
        msgs.len()
    );
}

#[test]
fn test_budgeted_emergency_restores_last_user_when_all_else_dropped() {
    let mut conv = Conversation::new();
    conv.add_user_message("original question");
    for i in 0..20 {
        conv.add_assistant_tool_calls(
            Some(&format!("reasoning {}", i)),
            vec![ToolCall {
                id: format!("c{}", i),
                name: "bash".to_string(),
                arguments: "{}".to_string(),
            }],
            None,
        );
        conv.add_tool_result(ToolResult {
            call_id: format!("c{}", i),
            output: "y".repeat(10_000),
            success: true,
        });
    }

    let (msgs, _stats) = build_messages(&conv, "sys", 5_000, "");
    let has_user = msgs.iter().any(|m| matches!(m.role, Role::User));
    assert!(
        has_user,
        "last user message must always survive, got {} msgs",
        msgs.len()
    );
}

#[test]
fn build_compact_stub_skips_bash_elapsed_metadata() {
    let bash_failure = "[elapsed: 1.9s, exit: 101]\nerror: cannot find type `Foo` in this scope";
    let stub = build_compact_stub("bash", bash_failure, false);
    assert!(
        stub.contains("error: cannot find type"),
        "bash stub must surface the actual error, not the elapsed metadata: {}",
        stub
    );
    assert!(
        !stub.contains("first: [elapsed:"),
        "bash stub first-line must skip the elapsed metadata: {}",
        stub
    );
}

#[test]
fn build_compact_stub_falls_back_to_line1_when_only_one_line() {
    let one_liner = "42";
    let stub = build_compact_stub("bash", one_liner, true);
    assert!(stub.contains("first: 42"), "got: {}", stub);
}

#[test]
fn build_compact_stub_unaffected_for_non_bash_tools() {
    let grep = "src/foo.rs:42:    fn bar() {}\nsrc/baz.rs:10:    fn baz()";
    let stub = build_compact_stub("grep", grep, true);
    assert!(
        stub.contains("first: src/foo.rs:42:"),
        "grep stub must keep line 1 intact: {}",
        stub
    );

    let edit = "Edited /path/to/file.rs (-3 +5 lines).";
    let stub = build_compact_stub("edit_file", edit, true);
    assert!(stub.contains("first: Edited /path"), "got: {}", stub);
}

#[test]
fn collapse_committed_skips_read_file_to_preserve_long_session_context() {
    let mut conv = Conversation::new();
    conv.add_user_message("explore");

    conv.add_assistant_tool_calls(
        None,
        vec![ToolCall {
            id: "c_read".into(),
            name: "read_file".into(),
            arguments: "{}".into(),
        }],
        None,
    );
    let read_body = format!("first line of read\n{}", "x".repeat(5_000));
    conv.add_tool_result(ToolResult {
        call_id: "c_read".into(),
        output: read_body.clone(),
        success: true,
    });

    for i in 0..30 {
        let id = format!("c_pad{}", i);
        conv.add_assistant_tool_calls(
            None,
            vec![ToolCall {
                id: id.clone(),
                name: "bash".into(),
                arguments: "{}".into(),
            }],
            None,
        );
        conv.add_tool_result(ToolResult {
            call_id: id,
            output: format!("[elapsed: 0.0s, exit: 0]\n{}", "x".repeat(4_000)),
            success: true,
        });
    }
    conv.add_user_message("now what");

    collapse_committed(&mut conv, 40_000);
    let (msgs, _) = build_messages(&conv, "sys", 40_000, "");

    let body = msgs
        .iter()
        .find_map(|m| {
            if let MessageContent::ToolResult(r) = &m.content {
                if r.call_id == "c_read" {
                    return Some(r.output.clone());
                }
            }
            None
        })
        .expect("c_read must survive in rendered messages");

    assert!(
        !body.starts_with("[read_file "),
        "read_file got compacted (伪自信 risk): {}",
        &body[..body.len().min(200)]
    );
    assert_eq!(
        body.len(),
        read_body.len(),
        "read_file body length must equal original (uncompacted)"
    );
    assert!(
        body.contains("first line of read"),
        "first line lost: {}",
        &body[..body.len().min(200)]
    );

    let any_bash_compacted = msgs.iter().any(|m| {
        if let MessageContent::ToolResult(r) = &m.content {
            r.output.starts_with("[bash ok: ")
        } else {
            false
        }
    });
    assert!(
        any_bash_compacted,
        "bash padding should have been compacted; if not, the \
         threshold isn't actually triggering and read_file passing \
         through is a false positive"
    );
}

#[test]
fn test_cold_zone_compression() {
    let mut conv = Conversation::new();

    for turn in 0..8 {
        conv.add_user_message(&format!("task {}", turn));
        let call = ToolCall {
            id: format!("c{}", turn),
            name: "bash".to_string(),
            arguments: "{}".to_string(),
        };
        conv.add_assistant_tool_calls(Some("ok"), vec![call], None);
        conv.add_tool_result(ToolResult {
            call_id: format!("c{}", turn),
            output: "x".repeat(100),
            success: true,
        });
    }

    conv.apply_compression(9, "User ran tasks 0, 1, 2 with bash.".to_string());

    assert_eq!(conv.cold_summaries.len(), 1);
    assert_eq!(conv.turn_tracker.turns.len(), 6);

    let (msgs, _stats) = build_messages(&conv, "sys", 100000, "");
    let has_cold = msgs.iter().any(|m| {
        m.text()
            .map_or(false, |t| t.contains("Earlier conversation history"))
    });
    assert!(has_cold, "Cold zone summary should appear in output");
}

#[test]
fn test_no_consecutive_system_messages_after_compression() {
    let mut conv = Conversation::new();

    for turn in 0..8 {
        conv.add_user_message(&format!("task {}", turn));
        let call = ToolCall {
            id: format!("c{}", turn),
            name: "bash".to_string(),
            arguments: "{}".to_string(),
        };
        conv.add_assistant_tool_calls(Some("ok"), vec![call], None);
        conv.add_tool_result(ToolResult {
            call_id: format!("c{}", turn),
            output: "x".repeat(100),
            success: true,
        });
    }

    conv.apply_compression(9, "User ran tasks 0, 1, 2 with bash.".to_string());
    assert_eq!(conv.cold_summaries.len(), 1);

    let (msgs, _stats) = build_messages(&conv, "you are atomcode", 100_000, "");

    for pair in msgs.windows(2) {
        assert!(
            !(pair[0].role == Role::System && pair[1].role == Role::System),
            "consecutive system messages found at the wire boundary"
        );
    }

    let sys = msgs
        .iter()
        .find(|m| matches!(m.role, Role::System))
        .and_then(|m| m.text())
        .expect("at least one system message");
    assert!(
        sys.contains("you are atomcode"),
        "system must keep original prompt"
    );
    assert!(
        !sys.contains("Earlier conversation history"),
        "cold-zone summary must NOT be in the system message (prefix-cache stability)"
    );
    let summary_in_user = msgs.iter().any(|m| {
        matches!(m.role, Role::User)
            && m.text().map_or(false, |t| t.contains("Earlier conversation history"))
    });
    assert!(
        summary_in_user,
        "cold-zone summary must ride on a User message so context is retained"
    );
}

#[test]
fn test_budgeted_drops_when_no_summary_and_over_budget() {
    let mut conv = Conversation::new();

    for turn in 0..3 {
        conv.add_user_message(&format!("task {}", turn));
        let call = ToolCall {
            id: format!("c{}", turn),
            name: "bash".to_string(),
            arguments: "{}".to_string(),
        };
        conv.add_assistant_tool_calls(Some("ok"), vec![call], None);
        conv.add_tool_result(ToolResult {
            call_id: format!("c{}", turn),
            output: "x".repeat(4000),
            success: true,
        });
    }

    let (msgs, stats) = build_messages(&conv, "sys", 2000, "");
    assert!(
        stats.dropped_tokens > 0,
        "Should drop turns when over budget"
    );
    assert!(matches!(msgs[0].role, Role::System));
}

#[test]
fn test_final_byte_ceiling_condenses_oversized_recent_toolresults() {
    let mut conv = Conversation::new();
    conv.cold_summaries.push("earlier task summary".to_string());

    for turn in 0..20 {
        conv.add_user_message(&format!("task {}", turn));
        conv.add_assistant_tool_calls(
            Some("ok"),
            vec![ToolCall {
                id: format!("c{}", turn),
                name: "bash".to_string(),
                arguments: "{}".to_string(),
            }],
            None,
        );
        conv.add_tool_result(ToolResult {
            call_id: format!("c{}", turn),
            output: "x".repeat(6000),
            success: true,
        });
    }

    let (msgs, _stats) = build_messages(&conv, "sys", 10_000, "");
    let total_tokens: usize = msgs.iter().map(|m| m.estimate_tokens()).sum();
    assert!(
        total_tokens <= 8_000,
        "Total estimated tokens {} exceeded 80% ceiling 8000 — \
         final byte ceiling did not run",
        total_tokens,
    );
    let newest_still_full = msgs
        .iter()
        .any(|m| m.text().map_or(false, |t| t.contains(&"x".repeat(100))));
    assert!(
        newest_still_full,
        "Newest turn's full-size tool result must be preserved",
    );
}

#[test]
fn test_budgeted_preserves_message_order() {
    let mut conv = Conversation::new();
    conv.add_user_message("first");
    conv.messages
        .push(Message::new(Role::Assistant, "response 1"));
    conv.add_user_message("second");
    conv.messages
        .push(Message::new(Role::Assistant, "response 2"));
    conv.add_user_message("third");

    let (msgs, _stats) = build_messages(&conv, "sys", 100000, "");
    assert_eq!(msgs.len(), 6);
    assert_eq!(msgs[1].text(), Some("first"));
    assert_eq!(msgs[2].text(), Some("response 1"));
    assert_eq!(msgs[3].text(), Some("second"));
    assert_eq!(msgs[4].text(), Some("response 2"));
    assert_eq!(msgs[5].text(), Some("third"));
}

#[test]
fn test_sanitize_removes_orphan_tool_results() {
    let mut msgs = vec![
        Message::new(Role::System, "sys"),
        Message {
            role: Role::Tool,
            content: MessageContent::ToolResult(ToolResult {
                call_id: "orphan_1".to_string(),
                output: "some output".to_string(),
                success: true,
            }),
            synthetic: false,
        },
        Message::new(Role::User, "hello"),
    ];
    sanitize_messages(&mut msgs);
    assert_eq!(msgs.len(), 2);
    assert!(matches!(msgs[0].role, Role::System));
    assert!(matches!(msgs[1].role, Role::User));
}

#[test]
fn test_sanitize_preserves_valid_pairs() {
    let mut msgs = vec![
        Message::new(Role::System, "sys"),
        Message::new(Role::User, "do it"),
        Message {
            role: Role::Assistant,
            content: MessageContent::AssistantWithToolCalls {
                text: None,
                tool_calls: vec![ToolCall {
                    id: "c1".to_string(),
                    name: "bash".to_string(),
                    arguments: "{}".to_string(),
                }],
                reasoning_content: None,
                thinking_blocks: Vec::new(),
            },
            synthetic: false,
        },
        Message {
            role: Role::Tool,
            content: MessageContent::ToolResult(ToolResult {
                call_id: "c1".to_string(),
                output: "ok".to_string(),
                success: true,
            }),
            synthetic: false,
        },
    ];
    sanitize_messages(&mut msgs);
    assert_eq!(msgs.len(), 4);
}

#[test]
fn test_sanitize_drops_under_paired_atc_in_middle_of_history() {
    let mut msgs = vec![
        Message::new(Role::System, "sys"),
        Message::new(Role::User, "first"),
        Message {
            role: Role::Assistant,
            content: MessageContent::AssistantWithToolCalls {
                text: None,
                tool_calls: vec![
                    ToolCall {
                        id: "c1".into(),
                        name: "bash".into(),
                        arguments: "{}".into(),
                    },
                    ToolCall {
                        id: "c2".into(),
                        name: "bash".into(),
                        arguments: "{}".into(),
                    },
                    ToolCall {
                        id: "c3".into(),
                        name: "bash".into(),
                        arguments: "{}".into(),
                    },
                ],
                reasoning_content: None,
                thinking_blocks: Vec::new(),
            },
            synthetic: false,
        },
        Message {
            role: Role::Tool,
            content: MessageContent::ToolResult(ToolResult {
                call_id: "c1".into(),
                output: "ok1".into(),
                success: true,
            }),
            synthetic: false,
        },
        Message {
            role: Role::Tool,
            content: MessageContent::ToolResult(ToolResult {
                call_id: "c2".into(),
                output: "ok2".into(),
                success: true,
            }),
            synthetic: false,
        },
        Message::new(Role::User, "second"),
    ];
    sanitize_messages(&mut msgs);
    assert_eq!(msgs.len(), 3, "got: {:?}", msgs);
    assert!(matches!(msgs[0].role, Role::System));
    assert_eq!(msgs[1].text(), Some("first"));
    assert_eq!(msgs[2].text(), Some("second"));
}

#[test]
fn test_sanitize_drops_under_paired_atc_when_followed_by_another_atc() {
    let mut msgs = vec![
        Message::new(Role::User, "go"),
        Message {
            role: Role::Assistant,
            content: MessageContent::AssistantWithToolCalls {
                text: None,
                tool_calls: vec![
                    ToolCall {
                        id: "a1".into(),
                        name: "bash".into(),
                        arguments: "{}".into(),
                    },
                    ToolCall {
                        id: "a2".into(),
                        name: "bash".into(),
                        arguments: "{}".into(),
                    },
                ],
                reasoning_content: None,
                thinking_blocks: Vec::new(),
            },
            synthetic: false,
        },
        Message {
            role: Role::Tool,
            content: MessageContent::ToolResult(ToolResult {
                call_id: "a1".into(),
                output: "ok".into(),
                success: true,
            }),
            synthetic: false,
        },
        Message {
            role: Role::Assistant,
            content: MessageContent::AssistantWithToolCalls {
                text: None,
                tool_calls: vec![ToolCall {
                    id: "b1".into(),
                    name: "bash".into(),
                    arguments: "{}".into(),
                }],
                reasoning_content: None,
                thinking_blocks: Vec::new(),
            },
            synthetic: false,
        },
        Message {
            role: Role::Tool,
            content: MessageContent::ToolResult(ToolResult {
                call_id: "b1".into(),
                output: "ok".into(),
                success: true,
            }),
            synthetic: false,
        },
    ];
    sanitize_messages(&mut msgs);
    assert_eq!(msgs.len(), 3, "got: {:?}", msgs);
    assert_eq!(msgs[0].text(), Some("go"));
    assert!(matches!(
        msgs[1].content,
        MessageContent::AssistantWithToolCalls { .. }
    ));
    assert!(matches!(msgs[2].content, MessageContent::ToolResult(_)));
}

#[test]
fn test_sanitize_drops_under_paired_atc_at_tail() {
    let mut msgs = vec![
        Message::new(Role::User, "go"),
        Message {
            role: Role::Assistant,
            content: MessageContent::AssistantWithToolCalls {
                text: None,
                tool_calls: vec![
                    ToolCall {
                        id: "c1".into(),
                        name: "bash".into(),
                        arguments: "{}".into(),
                    },
                    ToolCall {
                        id: "c2".into(),
                        name: "bash".into(),
                        arguments: "{}".into(),
                    },
                ],
                reasoning_content: None,
                thinking_blocks: Vec::new(),
            },
            synthetic: false,
        },
        Message {
            role: Role::Tool,
            content: MessageContent::ToolResult(ToolResult {
                call_id: "c1".into(),
                output: "ok".into(),
                success: true,
            }),
            synthetic: false,
        },
    ];
    sanitize_messages(&mut msgs);
    assert_eq!(msgs.len(), 1);
    assert_eq!(msgs[0].text(), Some("go"));
}

#[test]
fn test_sanitize_preserves_fully_paired_history_through_text_boundaries() {
    let mut msgs = vec![
        Message::new(Role::User, "first"),
        Message {
            role: Role::Assistant,
            content: MessageContent::AssistantWithToolCalls {
                text: None,
                tool_calls: vec![
                    ToolCall {
                        id: "c1".into(),
                        name: "bash".into(),
                        arguments: "{}".into(),
                    },
                    ToolCall {
                        id: "c2".into(),
                        name: "bash".into(),
                        arguments: "{}".into(),
                    },
                ],
                reasoning_content: None,
                thinking_blocks: Vec::new(),
            },
            synthetic: false,
        },
        Message {
            role: Role::Tool,
            content: MessageContent::ToolResult(ToolResult {
                call_id: "c1".into(),
                output: "ok1".into(),
                success: true,
            }),
            synthetic: false,
        },
        Message {
            role: Role::Tool,
            content: MessageContent::ToolResult(ToolResult {
                call_id: "c2".into(),
                output: "ok2".into(),
                success: true,
            }),
            synthetic: false,
        },
        Message::new(Role::Assistant, "done"),
        Message::new(Role::User, "second"),
    ];
    let len_before = msgs.len();
    sanitize_messages(&mut msgs);
    assert_eq!(msgs.len(), len_before, "must not drop fully-paired history");
}

#[test]
fn build_messages_satisfies_atc_pairing_after_under_paired_mid_history() {
    let mut conv = Conversation::new();
    conv.add_user_message("first task");
    conv.add_assistant_tool_calls(
        None,
        vec![
            ToolCall { id: "c1".into(), name: "bash".into(), arguments: "{}".into() },
            ToolCall { id: "c2".into(), name: "bash".into(), arguments: "{}".into() },
            ToolCall { id: "c3".into(), name: "bash".into(), arguments: "{}".into() },
        ],
        None,
    );
    conv.add_tool_result(ToolResult {
        call_id: "c1".into(),
        output: "ok1".into(),
        success: true,
    });
    conv.add_tool_result(ToolResult {
        call_id: "c2".into(),
        output: "ok2".into(),
        success: true,
    });
    conv.add_user_message("second task");

    let (msgs, _stats) = build_messages(&conv, "sys", 8000, "");

    let mut i = 0;
    while i < msgs.len() {
        if let MessageContent::AssistantWithToolCalls { tool_calls, .. } = &msgs[i].content {
            let n = tool_calls.len();
            for j in 0..n {
                let next_idx = i + 1 + j;
                assert!(
                    next_idx < msgs.len(),
                    "ATC at {} expects {} tool_results but messages end at {}: {:?}",
                    i,
                    n,
                    msgs.len(),
                    msgs.iter().map(|m| &m.role).collect::<Vec<_>>()
                );
                assert!(
                    matches!(
                        msgs[next_idx].content,
                        MessageContent::ToolResult(_) | MessageContent::ToolResultRef(_)
                    ),
                    "ATC at {} expects tool_result at {} but found {:?}",
                    i,
                    next_idx,
                    msgs[next_idx].role
                );
            }
            i += 1 + n;
        } else {
            i += 1;
        }
    }

    for m in &msgs {
        if let MessageContent::AssistantWithToolCalls { tool_calls, .. } = &m.content {
            for tc in tool_calls {
                assert_ne!(tc.id, "c3", "dropped ATC's call_ids must not survive");
                assert_ne!(tc.id, "c1");
                assert_ne!(tc.id, "c2");
            }
        }
        if let MessageContent::ToolResult(r) = &m.content {
            assert_ne!(r.call_id, "c1", "partial tool_results must not survive");
            assert_ne!(r.call_id, "c2");
        }
    }
}

#[test]
fn compression_cut_never_splits_tool_use_result_pair() {

    let build_conv = || {
        let mut conv = Conversation::new();

        for i in 0..10 {
            conv.add_user_message(&format!("prefix task {}", i));
            conv.push_delta(&format!("prefix reply {}", i));
            conv.finalize_stream();
        }

        conv.add_user_message("trigger tool");
        conv.add_assistant_tool_calls(
            Some("r"),
            vec![ToolCall {
                id: "call_would_orphan".to_string(),
                name: "bash".to_string(),
                arguments: "{}".to_string(),
            }],
            None,
        );
        conv.add_tool_result(ToolResult {
            call_id: "call_would_orphan".to_string(),
            output: "tool output that must not be lost".to_string(),
            success: true,
        });

        for i in 0..9 {
            conv.add_user_message(&format!("suffix task {}", i));
            conv.push_delta(&format!("suffix reply {}", i));
            conv.finalize_stream();
        }
        conv.add_user_message("final task");
        conv
    };

    let conv = build_conv();
    let len = conv.messages.len();
    assert_eq!(len, 42, "conv layout wrong");

    let naive_cut = len - KEEP_MESSAGES;
    assert_eq!(naive_cut, 22);
    assert!(
        matches!(conv.messages[22].content, MessageContent::ToolResult(_)),
        "test layout broken: msg[22] should be ToolResult"
    );

    let (_summary, actual_cut) = build_compression_content(&conv, usize::MAX);

    if actual_cut < conv.messages.len() {
        let first_survivor = &conv.messages[actual_cut];
        let is_tool_result = matches!(
            first_survivor.content,
            MessageContent::ToolResult(_) | MessageContent::ToolResultRef(_)
        );
        assert!(
            !is_tool_result,
            "cut index {} lands on ToolResult (naive was {}); \
             surviving range would start with orphan",
            actual_cut, naive_cut
        );
    }

    let mut c2 = build_conv();
    c2.apply_compression(actual_cut, "summary".to_string());

    let mut live_call_ids = std::collections::HashSet::<String>::new();
    for msg in &c2.messages {
        match &msg.content {
            MessageContent::AssistantWithToolCalls { tool_calls, .. } => {
                for tc in tool_calls {
                    live_call_ids.insert(tc.id.clone());
                }
            }
            MessageContent::ToolResult(r) => {
                assert!(
                    live_call_ids.contains(&r.call_id),
                    "orphan ToolResult({}) in surviving range — its ATC was dropped",
                    r.call_id
                );
            }
            _ => {}
        }
    }
}

#[test]
fn compression_must_be_judged_by_wire_token_savings() {
    let mut conv = Conversation::new();
    for i in 0..16 {
        conv.add_user_message(&format!("task {}", i));
        conv.push_delta("ok");
        conv.finalize_stream();
    }

    let before_tokens: usize = build_messages(&conv, "sys", 64_000, "")
        .0
        .iter()
        .map(|m| m.estimate_tokens())
        .sum();
    let (_mechanical_summary, remove_count) = build_compression_content(&conv, usize::MAX);
    assert!(remove_count > 0, "test conversation should be compressible");

    conv.apply_compression(remove_count, "expanded summary ".repeat(2_000));
    conv.add_user_message(
        "[Context was compressed. Here is your current state:]\n\
         TASK: continue the current issue analysis\n\
         RECENTLY READ: crates/atomcode-core/src/agent/mod.rs",
    );

    let after_tokens: usize = build_messages(&conv, "sys", 64_000, "")
        .0
        .iter()
        .map(|m| m.estimate_tokens())
        .sum();

    assert!(
        after_tokens > before_tokens,
        "dropped messages alone is not a valid compaction success metric: \
         before={before_tokens}, after={after_tokens}"
    );
}

#[test]
fn historical_read_results_are_frozen_after_edit() {

    let path_str = "/tmp/atomcode_frozen_read_test.rs".to_string();

    let mut conv = Conversation::new();
    conv.add_user_message("read the file");

    conv.add_assistant_tool_calls(
        None,
        vec![ToolCall {
            id: "call_read".into(),
            name: "read_file".into(),
            arguments: format!(r#"{{"file_path":"{path_str}"}}"#),
        }],
        None,
    );
    let frozen_read = "   1| fn main() {}".to_string();
    conv.add_tool_result(ToolResult {
        call_id: "call_read".into(),
        output: frozen_read.clone(),
        success: true,
    });

    conv.add_assistant_tool_calls(
        None,
        vec![ToolCall {
            id: "call_edit".into(),
            name: "edit_file".into(),
            arguments: format!(r#"{{"file_path":"{path_str}"}}"#),
        }],
        None,
    );
    conv.add_tool_result(ToolResult {
        call_id: "call_edit".into(),
        output: "Edited successfully".into(),
        success: true,
    });
    conv.add_user_message("continue");

    let (msgs, _stats) = build_messages(&conv, "sys", 1_000_000, "");

    let read_result = msgs.iter().find_map(|m| match &m.content {
        MessageContent::ToolResult(r) if r.call_id == "call_read" => Some(r.output.clone()),
        _ => None,
    });
    assert_eq!(
        read_result.as_deref(),
        Some(frozen_read.as_str()),
        "historical read_file result was re-rendered from live disk — \
         the sent prefix is no longer byte-stable and the prompt cache breaks"
    );
}

#[test]
fn consecutive_turns_keep_byte_stable_prefix_across_disk_edit() {

    let path_str = "/tmp/atomcode_prefix_stable_test.rs".to_string();

    let mut conv = Conversation::new();
    conv.add_user_message("look at the file");
    conv.add_assistant_tool_calls(
        None,
        vec![ToolCall {
            id: "c_read".into(),
            name: "read_file".into(),
            arguments: format!(r#"{{"file_path":"{path_str}"}}"#),
        }],
        None,
    );
    conv.add_tool_result(ToolResult {
        call_id: "c_read".into(),
        output: "   1| line one\n   2| line two\n   3| line three".into(),
        success: true,
    });
    conv.add_user_message("now edit it");

    let (turn_n, _) = build_messages(&conv, "sys", 1_000_000, "");

    conv.add_assistant_tool_calls(
        None,
        vec![ToolCall {
            id: "c_edit".into(),
            name: "edit_file".into(),
            arguments: format!(r#"{{"file_path":"{path_str}"}}"#),
        }],
        None,
    );
    conv.add_tool_result(ToolResult {
        call_id: "c_edit".into(),
        output: "Edited successfully".into(),
        success: true,
    });
    conv.add_user_message("what changed?");

    let (turn_n1, _) = build_messages(&conv, "sys", 1_000_000, "");

    assert!(
        turn_n1.len() > turn_n.len(),
        "turn N+1 must extend turn N at the tail"
    );
    let fingerprint = |m: &Message| format!("{:?}|{:?}", m.role, m.content);
    for (i, m) in turn_n.iter().enumerate() {
        assert_eq!(
            fingerprint(&turn_n1[i]),
            fingerprint(m),
            "prefix diverged at message {i}: turn N+1 rewrote a historical \
             message instead of only appending — prompt cache would break here"
        );
    }
}

#[test]
fn render_drop_defers_to_persisted_compaction_in_upper_band() {
    let budget = 100_000usize;
    let trigger = auto_compact_threshold(budget);
    let eighty = budget * 80 / 100;

    let turn = |c: &mut Conversation, i: usize, user_chars: usize| {
        c.add_user_message(&format!("{i} {}", "x".repeat(user_chars)));
        c.push_delta(&format!("ok {i}"));
        c.finalize_stream();
        c.turn_tracker.complete_current();
    };
    let base = || {
        let mut c = Conversation::new();
        for i in 0..42 {
            turn(&mut c, i, 8_000);
        }
        c
    };
    let conv = base();
    let total: usize = conv.messages.iter().map(|m| m.estimate_tokens()).sum();
    assert!(
        total > eighty && total < trigger,
        "precondition: total {total} must sit in [80%={eighty}, threshold={trigger})"
    );

    let (msgs, _) = build_messages(&conv, "sys", budget, "");
    let has_drop_digest = msgs.iter().any(|m| {
        matches!(&m.content, MessageContent::Text(t) if t.contains("earlier turns compressed"))
    });
    assert!(
        !has_drop_digest,
        "render-drop fired inside the 80%–98.7% band; it must defer to the \
         persisted compaction (which breaks the prefix once then freezes) \
         instead of pre-empting it and sliding the boundary every few turns"
    );

    let mut conv2 = base();
    turn(&mut conv2, 42, 8_000);
    let (msgs2, _) = build_messages(&conv2, "sys", budget, "");
    let fp = |m: &Message| format!("{:?}|{:?}", m.role, m.content);
    for (i, m) in msgs.iter().enumerate() {
        assert_eq!(
            fp(&msgs2[i]),
            fp(m),
            "prefix diverged at message {i}: render stopped being append-only in the band"
        );
    }

    let mut over = base();
    turn(&mut over, 99, 60_000);
    let (over_msgs, _) = build_messages(&over, "sys", budget, "");
    let fired = over_msgs.iter().any(|m| {
        matches!(&m.content, MessageContent::Text(t) if t.contains("earlier turns compressed"))
    });
    assert!(
        fired,
        "render-drop must still engage as a last-resort once total exceeds the threshold"
    );
}

#[test]
fn compact_old_exempts_read_file_when_flagged() {
    let mut conv = Conversation::new();
    conv.add_user_message("t0");
    conv.add_assistant_tool_calls(
        None,
        vec![ToolCall { id: "r".into(), name: "read_file".into(), arguments: "{}".into() }],
        None,
    );
    conv.add_tool_result(ToolResult {
        call_id: "r".into(),
        output: format!("L1\n{}", "x".repeat(2_000)),
        success: true,
    });
    conv.add_assistant_tool_calls(
        None,
        vec![ToolCall { id: "b".into(), name: "bash".into(), arguments: "{}".into() }],
        None,
    );
    conv.add_tool_result(ToolResult {
        call_id: "b".into(),
        output: format!("[elapsed: 0.0s, exit: 0]\n{}", "x".repeat(2_000)),
        success: true,
    });
    conv.add_user_message("t1");

    compact_old_tool_results_in_place(&mut conv, 1, true);

    let get = |cid: &str, conv: &Conversation| {
        conv.messages.iter().find_map(|m| match &m.content {
            MessageContent::ToolResult(r) if r.call_id == cid => Some(r.output.clone()),
            _ => None,
        }).unwrap()
    };
    assert!(!get("r", &conv).starts_with('['), "read_file must stay full when exempt");
    assert!(get("b", &conv).starts_with("[bash "), "bash must be stubbed");
}

#[test]
fn compact_old_stubs_read_file_when_not_exempt() {
    let mut conv = Conversation::new();
    conv.add_user_message("t0");
    conv.add_assistant_tool_calls(
        None,
        vec![ToolCall { id: "r".into(), name: "read_file".into(), arguments: "{}".into() }],
        None,
    );
    conv.add_tool_result(ToolResult {
        call_id: "r".into(),
        output: format!("L1\n{}", "x".repeat(2_000)),
        success: true,
    });
    conv.add_user_message("t1");

    compact_old_tool_results_in_place(&mut conv, 1, false);

    let out = conv.messages.iter().find_map(|m| match &m.content {
        MessageContent::ToolResult(r) if r.call_id == "r" => Some(r.output.clone()),
        _ => None,
    }).unwrap();
    assert!(out.starts_with("[read_file "), "emergency path must still stub read_file");
}

#[test]
fn collapse_committed_noop_below_threshold() {
    let mut conv = Conversation::new();
    conv.add_user_message("t0");
    conv.add_assistant_tool_calls(
        None,
        vec![ToolCall { id: "b".into(), name: "bash".into(), arguments: "{}".into() }],
        None,
    );
    conv.add_tool_result(ToolResult {
        call_id: "b".into(),
        output: format!("[elapsed: 0.0s, exit: 0]\n{}", "x".repeat(1_000)),
        success: true,
    });
    conv.add_user_message("t1");

    collapse_committed(&mut conv, 1_000_000);

    let out = conv.messages.iter().find_map(|m| match &m.content {
        MessageContent::ToolResult(r) if r.call_id == "b" => Some(r.output.clone()),
        _ => None,
    }).unwrap();
    assert!(!out.starts_with("[bash "), "below threshold must stay full (append-only)");
}

#[test]
fn collapse_committed_stubs_old_keeps_active_and_exempts_read_file() {
    let mut conv = Conversation::new();
    for n in 0..3 {
        conv.add_user_message(&format!("t{n}"));
        let r = format!("r{n}");
        conv.add_assistant_tool_calls(
            None,
            vec![ToolCall { id: r.clone(), name: "read_file".into(), arguments: "{}".into() }],
            None,
        );
        conv.add_tool_result(ToolResult {
            call_id: r,
            output: format!("L1\n{}", "x".repeat(6_000)),
            success: true,
        });
        let b = format!("b{n}");
        conv.add_assistant_tool_calls(
            None,
            vec![ToolCall { id: b.clone(), name: "bash".into(), arguments: "{}".into() }],
            None,
        );
        conv.add_tool_result(ToolResult {
            call_id: b,
            output: format!("[elapsed: 0.0s, exit: 0]\n{}", "x".repeat(6_000)),
            success: true,
        });
    }
    conv.add_user_message("active");
    conv.add_assistant_tool_calls(
        None,
        vec![ToolCall { id: "ba".into(), name: "bash".into(), arguments: "{}".into() }],
        None,
    );
    conv.add_tool_result(ToolResult {
        call_id: "ba".into(),
        output: format!("[elapsed: 0.0s, exit: 0]\n{}", "x".repeat(6_000)),
        success: true,
    });

    collapse_committed(&mut conv, 8_000);

    let get = |cid: &str, conv: &Conversation| {
        conv.messages.iter().find_map(|m| match &m.content {
            MessageContent::ToolResult(r) if r.call_id == cid => Some(r.output.clone()),
            _ => None,
        }).unwrap()
    };
    assert!(get("b0", &conv).starts_with("[bash "), "old bash must be stubbed");
    assert!(!get("r0", &conv).starts_with('['), "old read_file must stay full (exempt)");
    assert!(!get("ba", &conv).starts_with("[bash "), "active-turn bash must stay full");
}

#[test]
fn collapse_committed_is_idempotent() {
    let mut conv = Conversation::new();
    conv.add_user_message("t0");
    conv.add_assistant_tool_calls(
        None,
        vec![ToolCall { id: "b".into(), name: "bash".into(), arguments: "{}".into() }],
        None,
    );
    conv.add_tool_result(ToolResult {
        call_id: "b".into(),
        output: format!("[elapsed: 0.0s, exit: 0]\n{}", "x".repeat(30_000)),
        success: true,
    });
    conv.add_user_message("t1");

    collapse_committed(&mut conv, 8_000);
    let after_first = conv.messages.iter().find_map(|m| match &m.content {
        MessageContent::ToolResult(r) if r.call_id == "b" => Some(r.output.clone()),
        _ => None,
    }).unwrap();
    collapse_committed(&mut conv, 8_000);
    let after_second = conv.messages.iter().find_map(|m| match &m.content {
        MessageContent::ToolResult(r) if r.call_id == "b" => Some(r.output.clone()),
        _ => None,
    }).unwrap();
    assert_eq!(after_first, after_second, "re-running must not re-stub (idempotent)");
}

#[test]
fn compact_old_noop_when_turns_below_keep_recent() {
    let mut conv = Conversation::new();
    conv.add_user_message("t0");
    conv.add_assistant_tool_calls(
        None,
        vec![ToolCall { id: "b".into(), name: "bash".into(), arguments: "{}".into() }],
        None,
    );
    conv.add_tool_result(ToolResult {
        call_id: "b".into(),
        output: format!("[elapsed: 0.0s, exit: 0]\n{}", "x".repeat(10_000)),
        success: true,
    });
    let before_count = conv.messages.len();
    compact_old_tool_results_in_place(&mut conv, 1, false);
    assert_eq!(conv.messages.len(), before_count, "must be noop when turns <= keep_recent_turns");
}

#[test]
fn compact_old_skips_output_below_min_collapse_size() {
    let mut conv = Conversation::new();
    conv.add_user_message("t0");
    conv.add_assistant_tool_calls(
        None,
        vec![ToolCall { id: "b".into(), name: "bash".into(), arguments: "{}".into() }],
        None,
    );
    conv.add_tool_result(ToolResult {
        call_id: "b".into(),
        output: "tiny output".into(),
        success: true,
    });
    conv.add_user_message("t1");

    compact_old_tool_results_in_place(&mut conv, 1, false);

    let out = conv.messages.iter().find_map(|m| match &m.content {
        MessageContent::ToolResult(r) if r.call_id == "b" => Some(r.output.clone()),
        _ => None,
    }).unwrap();
    assert_eq!(out, "tiny output", "output below MIN_COLLAPSE_SIZE must stay intact");
}

#[test]
fn compact_old_stubs_unknown_tool() {
    let mut conv = Conversation::new();
    conv.add_user_message("t0");
    conv.add_assistant_tool_calls(
        None,
        vec![ToolCall { id: "x".into(), name: "mystery_tool".into(), arguments: "{}".into() }],
        None,
    );
    conv.add_tool_result(ToolResult {
        call_id: "x".into(),
        output: format!("{}", "x".repeat(2_000)),
        success: true,
    });
    conv.add_user_message("t1");

    compact_old_tool_results_in_place(&mut conv, 1, true);

    let out = conv.messages.iter().find_map(|m| match &m.content {
        MessageContent::ToolResult(r) if r.call_id == "x" => Some(r.output.clone()),
        _ => None,
    }).unwrap();
    assert!(out.starts_with("[mystery_tool "), "unknown tool must still be stubbed with its name");
}

#[test]
fn collapse_committed_noop_on_empty_conversation() {
    let mut conv = Conversation::new();
    collapse_committed(&mut conv, 8_000);
    assert!(conv.messages.is_empty(), "empty conv must stay empty");
}

#[test]
fn collapse_committed_noop_on_zero_budget() {
    let mut conv = Conversation::new();
    conv.add_user_message("t0");
    conv.add_assistant_tool_calls(
        None,
        vec![ToolCall { id: "b".into(), name: "bash".into(), arguments: "{}".into() }],
        None,
    );
    conv.add_tool_result(ToolResult {
        call_id: "b".into(),
        output: format!("{}", "x".repeat(2_000)),
        success: true,
    });
    conv.add_user_message("t1");

    let snapshot_len = conv.messages.len();
    collapse_committed(&mut conv, 0);
    assert_eq!(conv.messages.len(), snapshot_len, "zero budget, but conv unchanged");
}

#[test]
fn compact_old_multiple_consecutive_exempt_read_files() {
    let mut conv = Conversation::new();
    conv.add_user_message("t0");
    conv.add_assistant_tool_calls(
        None,
        vec![
            ToolCall { id: "r1".into(), name: "read_file".into(), arguments: "{}".into() },
            ToolCall { id: "r2".into(), name: "read_file".into(), arguments: "{}".into() },
        ],
        None,
    );
    conv.add_tool_result(ToolResult {
        call_id: "r1".into(),
        output: format!("{}", "x".repeat(3_000)),
        success: true,
    });
    conv.add_tool_result(ToolResult {
        call_id: "r2".into(),
        output: format!("{}", "y".repeat(3_000)),
        success: true,
    });
    conv.add_assistant_tool_calls(
        None,
        vec![ToolCall { id: "b".into(), name: "bash".into(), arguments: "{}".into() }],
        None,
    );
    conv.add_tool_result(ToolResult {
        call_id: "b".into(),
        output: format!("[elapsed: 0.0s]\n{}", "z".repeat(3_000)),
        success: true,
    });
    conv.add_user_message("t1");

    compact_old_tool_results_in_place(&mut conv, 1, true);

    let get = |cid: &str| -> String {
        conv.messages.iter().find_map(|m| match &m.content {
            MessageContent::ToolResult(r) if r.call_id == cid => Some(r.output.clone()),
            _ => None,
        }).unwrap()
    };
    assert!(!get("r1").starts_with('['), "first read_file must be exempt");
    assert!(!get("r2").starts_with('['), "second read_file must also be exempt");
    assert!(get("b").starts_with("[bash "), "bash must still be stubbed");
}

#[test]
fn compact_old_keep_one_recent_turn_keeps_last_turn_full() {
    let mut conv = Conversation::new();
    for n in 0..3 {
        conv.add_user_message(&format!("t{n}"));
        let id = format!("b{n}");
        conv.add_assistant_tool_calls(
            None,
            vec![ToolCall { id: id.clone(), name: "bash".into(), arguments: "{}".into() }],
            None,
        );
        conv.add_tool_result(ToolResult {
            call_id: id,
            output: format!("[elapsed: 0.{}s, exit: 0]\n{}", n, "x".repeat(3_000)),
            success: true,
        });
    }

    compact_old_tool_results_in_place(&mut conv, 1, false);
    let get = |cid: &str| -> String {
        conv.messages.iter().find_map(|m| match &m.content {
            MessageContent::ToolResult(r) if r.call_id == cid => Some(r.output.clone()),
            _ => None,
        }).unwrap()
    };
    assert!(get("b0").starts_with("[bash "), "b0 must be stubbed");
    assert!(get("b1").starts_with("[bash "), "b1 must be stubbed");
    assert!(!get("b2").starts_with("[bash "), "b2 (last turn) must stay full");
}

#[test]
fn compact_old_keep_zero_recent_turns_stubs_all() {
    let mut conv = Conversation::new();
    for n in 0..3 {
        conv.add_user_message(&format!("t{n}"));
        let id = format!("b{n}");
        conv.add_assistant_tool_calls(
            None,
            vec![ToolCall { id: id.clone(), name: "bash".into(), arguments: "{}".into() }],
            None,
        );
        conv.add_tool_result(ToolResult {
            call_id: id,
            output: format!("[elapsed: 0.{}s, exit: 0]\n{}", n, "x".repeat(3_000)),
            success: true,
        });
    }

    compact_old_tool_results_in_place(&mut conv, 0, false);
    assert!(conv.messages.iter().any(|m| match &m.content {
        MessageContent::ToolResult(r) => r.output.starts_with("[bash "),
        _ => false,
    }), "all bash results must be stubbed when keep_recent_turns=0");
}

#[test]
fn collapse_committed_freezes_stubbed_prefix_across_turns() {
    let budget = 1_000;

    let add_turn = |conv: &mut Conversation, n: usize| {
        conv.add_user_message(&format!("task {n}"));
        let id = format!("c{n}");
        conv.add_assistant_tool_calls(
            None,
            vec![ToolCall { id: id.clone(), name: "bash".into(), arguments: "{}".into() }],
            None,
        );
        conv.add_tool_result(ToolResult {
            call_id: id,
            output: format!("[elapsed: 0.0s, exit: 0]\n{}", "x".repeat(6_000)),
            success: true,
        });
    };

    let mut conv = Conversation::new();
    for n in 0..5 {
        add_turn(&mut conv, n);
    }
    collapse_committed(&mut conv, budget);

    let stubbed_before: Vec<(usize, String)> = conv
        .messages
        .iter()
        .enumerate()
        .filter_map(|(i, m)| match &m.content {
            MessageContent::ToolResult(r)
                if r.output.starts_with('[') && r.output.contains("lines, first:") =>
            {
                Some((i, r.output.clone()))
            }
            _ => None,
        })
        .collect();
    assert!(!stubbed_before.is_empty(), "expected stubs after first collapse");

    add_turn(&mut conv, 5);
    collapse_committed(&mut conv, budget);

    for (i, before) in &stubbed_before {
        match &conv.messages[*i].content {
            MessageContent::ToolResult(r) => assert_eq!(
                &r.output, before,
                "stub at message #{i} mutated across turns — prefix cache would break"
            ),
            other => panic!("message #{i} changed content variant: {:?}", other),
        }
    }
}
