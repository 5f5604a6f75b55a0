use atomcode_core::conversation::{Conversation, Message, MessageContent, Role, ToolCall, ToolResult};
use atomcode_core::ctx::cleanup::{build_call_id_to_tool_map, clean_message_pipeline, lookup_tool};
use atomcode_core::ctx::compact::{build_compact_stub, compact_old_tool_results_in_place};
use atomcode_core::ctx::compress::auto_compact_threshold;
use atomcode_core::ctx::pairing::sanitize_messages;
use atomcode_core::ctx::render::{build_messages, build_messages_fallback, snap_to_valid_boundary};

fn calls(ids: &[&str]) -> Message {
    Message {
        role: Role::Assistant,
        content: MessageContent::AssistantWithToolCalls {
            text: None,
            tool_calls: ids
                .iter()
                .map(|id| ToolCall { id: id.to_string(), name: "bash".into(), arguments: "{}".into() })
                .collect(),
            reasoning_content: None,
            thinking_blocks: Vec::new(),
        },
        synthetic: false,
    }
}

fn result(id: &str) -> Message {
    Message {
        role: Role::Tool,
        content: MessageContent::ToolResult(ToolResult {
            call_id: id.to_string(),
            output: format!("output of {id}"),
            success: true,
        }),
        synthetic: false,
    }
}

/// A history with an orphan, an unanswered call and an empty reply in it.
fn messy() -> Vec<Message> {
    vec![
        Message::new(Role::System, "sys"),
        result("stray"),
        Message::new(Role::User, "go"),
        calls(&["a", "b"]),
        result("a"),
        result("b"),
        Message::new(Role::Assistant, ""),
        calls(&["c", "d"]),
        result("c"),
        Message::new(Role::User, "again"),
        calls(&["e"]),
    ]
}

fn shown(msgs: &[Message]) -> String {
    format!("{:?}", msgs)
}

/// Every call is answered by the results right behind it, and by nothing else.
fn paired(msgs: &[Message]) -> bool {
    let mut waiting: Vec<String> = vec![];
    for m in msgs {
        match &m.content {
            MessageContent::AssistantWithToolCalls { tool_calls, .. } => {
                if !waiting.is_empty() {
                    return false;
                }
                waiting = tool_calls.iter().map(|c| c.id.clone()).collect();
            }
            MessageContent::ToolResult(r) => match waiting.iter().position(|id| *id == r.call_id) {
                Some(i) => {
                    waiting.remove(i);
                }
                None => return false,
            },
            _ => {
                if !waiting.is_empty() {
                    return false;
                }
            }
        }
    }
    waiting.is_empty()
}

#[test]
fn sanitizing_pairs_and_then_changes_nothing() {
    let mut msgs = messy();
    assert!(!paired(&msgs));
    sanitize_messages(&mut msgs);
    assert!(paired(&msgs));
    let once = shown(&msgs);
    sanitize_messages(&mut msgs);
    assert_eq!(shown(&msgs), once);
    assert!(once.contains("output of a") && !once.contains("output of c"));
}

#[test]
fn cleaning_keeps_pairs_and_then_changes_nothing() {
    let mut msgs = messy();
    sanitize_messages(&mut msgs);
    clean_message_pipeline(&mut msgs);
    assert!(paired(&msgs));
    let once = shown(&msgs);
    clean_message_pipeline(&mut msgs);
    assert_eq!(shown(&msgs), once);
}

#[test]
fn calls_are_found_by_their_identifiers() {
    let table = build_call_id_to_tool_map(&messy());
    assert_eq!(lookup_tool(&table, "d").as_deref(), Some("bash"));
    assert_eq!(lookup_tool(&table, "stray"), None);
}

#[test]
fn stubs_are_too_small_to_be_stubbed_again() {
    let long = "x".repeat(5_000);
    assert_eq!(build_compact_stub("grep", &long, true), format!("[grep ok: 1 lines, first: {}]", "x".repeat(80)));
    assert_eq!(build_compact_stub("bash", "", false), "[bash FAILED: 0 lines, first: (empty)]");
    let mut conv = Conversation::new();
    conv.add_user_message("go");
    conv.messages.push(calls(&["a"]));
    conv.messages.push(Message {
        role: Role::Tool,
        content: MessageContent::ToolResult(ToolResult { call_id: "a".into(), output: long, success: true }),
        synthetic: false,
    });
    compact_old_tool_results_in_place(&mut conv, 0, true);
    let once = shown(&conv.messages);
    assert!(once.contains("[bash ok: 1 lines, first: "));
    compact_old_tool_results_in_place(&mut conv, 0, true);
    assert_eq!(shown(&conv.messages), once);
}

#[test]
fn thresholds_grow_and_leave_room() {
    let mut last = 0;
    for budget in (0..300_000).step_by(997) {
        let t = auto_compact_threshold(budget);
        assert!(t <= budget);
        assert!(4 * t >= 3 * budget);
        if budget <= 100_000 {
            assert!(t >= last, "{budget}");
            last = t;
        }
    }
}

#[test]
fn whatever_is_rendered_is_answered() {
    let mut conv = Conversation::new();
    conv.add_user_message("go");
    for m in messy().into_iter().skip(3) {
        conv.messages.push(m);
    }
    for budget in [0, 10, 100, 1_000, 100_000] {
        let (msgs, _) = build_messages(&conv, "SYS", budget, "");
        assert!(paired(&msgs), "{budget}");
        assert!(matches!(msgs[0].role, Role::System));
        assert!(msgs.len() > 1);
        let kept = build_messages_fallback(&conv, Message::new(Role::System, "SYS"), budget);
        assert!(paired(&kept), "{budget}");
    }
}

#[test]
fn boundaries_do_not_part_calls_from_results() {
    let msgs = messy();
    for i in 0..=msgs.len() {
        let at = snap_to_valid_boundary(&msgs, i);
        assert!(at == msgs.len() || !matches!(msgs[at].content, MessageContent::ToolResult(_)));
    }
}

#[test]
fn reminders_are_given_without_turns_too() {
    let mut conv = Conversation::new();
    conv.messages.push(Message::new(Role::User, "hello"));
    let (plain, _) = build_messages(&conv, "SYS", 100_000, "");
    let (told, _) = build_messages(&conv, "SYS", 100_000, "note");
    assert_eq!(plain[1].text(), Some("hello"));
    assert_eq!(told[1].text(), Some("note\nhello"));
    assert_eq!(shown(&told[..1]), shown(&plain[..1]));
}

#[test]
fn renderings_only_grow_at_the_end() {
    let mut conv = Conversation::new();
    conv.add_user_message("one");
    conv.messages.push(calls(&["a"]));
    conv.messages.push(result("a"));
    conv.add_user_message("two");
    let (first, _) = build_messages(&conv, "SYS", 100_000, "");
    conv.messages.push(calls(&["b"]));
    conv.messages.push(result("b"));
    conv.add_user_message("three");
    let (second, _) = build_messages(&conv, "SYS", 100_000, "");
    assert!(second.len() > first.len());
    assert_eq!(shown(&second[..first.len()]), shown(&first));
}
