use atomcode_core::conversation::{Message, MessageContent, Role, ToolCall, ToolResult};
use atomcode_core::ctx::share::share_of;
use atomcode_core::ctx::truncate::{post_process_tool_results, truncate_generic, truncate_output};

fn make_result(output: &str) -> ToolResult {
    ToolResult {
        call_id: "test_call".to_string(),
        output: output.to_string(),
        success: true,
    }
}

fn make_tool_result_message(output: &str) -> Message {
    Message {
        role: Role::Tool,
        content: MessageContent::ToolResult(make_result(output)),
        synthetic: false,
    }
}

fn make_atc(call_id: &str, tool_name: &str) -> Message {
    Message {
        role: Role::Assistant,
        content: MessageContent::AssistantWithToolCalls {
            text: None,
            tool_calls: vec![ToolCall {
                id: call_id.to_string(),
                name: tool_name.to_string(),
                arguments: String::new(),
            }],
            reasoning_content: None,
            thinking_blocks: Vec::new(),
        },
        synthetic: false,
    }
}

fn make_tool_result_with_id(call_id: &str, output: &str) -> Message {
    Message {
        role: Role::Tool,
        content: MessageContent::ToolResult(ToolResult {
            call_id: call_id.to_string(),
            output: output.to_string(),
            success: true,
        }),
        synthetic: false,
    }
}

#[test]
fn bash_short_output_passes_through_verbatim() {
    let output: String = (0..100)
        .map(|i| format!("line {}", i))
        .collect::<Vec<_>>()
        .join("\n");
    let mut result = make_result(&output);
    truncate_output(&mut result, "bash", 64_000);
    assert_eq!(
        result.output, output,
        "bash output under 300 lines must not be touched"
    );
}

#[test]
fn bash_huge_output_hits_universal_line_cap_only() {
    let output: String = (0..500)
        .map(|i| format!("line {}", i))
        .collect::<Vec<_>>()
        .join("\n");
    let mut result = make_result(&output);
    truncate_output(&mut result, "bash", 64_000);
    assert!(result.output.contains("line 0"), "head must be preserved");
    assert!(result.output.contains("line 499"), "tail must be preserved");
    assert!(
        result.output.contains("lines omitted"),
        "omission marker required"
    );
    assert!(result.output.lines().count() <= 110);
}

#[test]
fn bash_chinese_stderr_survives_truncation() {
    let output: String = (0..50)
        .map(|_| "编译失败：找不到符号".to_string())
        .collect::<Vec<_>>()
        .join("\n");
    let mut result = make_result(&output);
    truncate_output(&mut result, "bash", 64_000);
    assert_eq!(result.output.matches("编译失败").count(), 50);
}

#[test]
fn truncate_generic_under_limit_unchanged() {
    let output = "line1\nline2\nline3\n";
    let mut result = make_result(output);
    truncate_generic(&mut result, 200, 30, 50);
    assert_eq!(result.output, output);
}

#[test]
fn truncate_generic_over_limit_has_head_and_tail() {
    let lines: Vec<String> = (0..300).map(|i| format!("line {}", i)).collect();
    let output = lines.join("\n");
    let mut result = make_result(&output);
    truncate_generic(&mut result, 200, 30, 50);
    assert!(result.output.len() < output.len());
    assert!(result.output.contains("line 0"));
    assert!(result.output.contains("line 299"));
    assert!(result.output.contains("lines omitted"));
}

#[test]
fn truncate_output_hard_char_limit() {
    let output = "x".repeat(20000);
    let mut result = make_result(&output);
    truncate_output(&mut result, "unknown_tool", 16000);
    assert!(
        result.output.len() <= 8_500,
        "got {} chars",
        result.output.len()
    );
    assert!(
        result.output.contains("chars omitted"),
        "got: {}",
        result.output
    );
}

#[test]
fn truncate_output_universal_line_cap() {
    let output: String = (0..500)
        .map(|i| format!("line {}", i))
        .collect::<Vec<_>>()
        .join("\n");
    let mut result = make_result(&output);
    truncate_output(&mut result, "unknown_tool", 64_000);
    let line_count = result.output.lines().count();
    assert!(
        line_count <= 110,
        "got {} lines, expected ≤ 110",
        line_count
    );
    assert!(result.output.contains("lines omitted"));
}

#[test]
fn truncate_output_caps_never_grow_with_huge_window() {
    let output = "x".repeat(200_000);
    let mut result = make_result(&output);
    truncate_output(&mut result, "unknown_tool", 1_000_000);
    assert!(
        result.output.len() <= 33_000,
        "single tool output should never exceed 32K chars, got {}",
        result.output.len()
    );
}

#[test]
fn post_process_truncates_results() {
    let large_output = "x".repeat(20000);
    let mut messages = vec![make_tool_result_message(&large_output)];
    post_process_tool_results(&mut messages, 1, "unknown_tool", 16000);
    assert!(matches!(messages[0].content, MessageContent::ToolResult(_)));
    if let MessageContent::ToolResult(ref r) = messages[0].content {
        assert!(r.output.len() <= 8_500);
    }
}

#[test]
fn post_process_keeps_small_results_unchanged() {
    let small_output = "short output";
    let mut messages = vec![make_tool_result_message(small_output)];
    post_process_tool_results(&mut messages, 1, "bash", 16000);
    assert!(matches!(messages[0].content, MessageContent::ToolResult(_)));
    if let MessageContent::ToolResult(ref r) = messages[0].content {
        assert_eq!(r.output, "short output");
    }
}

#[test]
fn post_process_keys_truncation_by_each_result_tool_not_current() {
    let file_content: String = (0..400)
        .map(|i| format!("line {}", i))
        .collect::<Vec<_>>()
        .join("\n");
    let original_line_count = file_content.lines().count();

    let mut messages = vec![
        make_atc("rf1", "read_file"),
        make_tool_result_with_id("rf1", &file_content),
    ];

    post_process_tool_results(&mut messages, 2, "bash", 128_000);

    if let MessageContent::ToolResult(ref r) = messages[1].content {
        assert_eq!(
            r.output.lines().count(),
            original_line_count,
            "read_file content must stay intact when current_tool_name \
             is a different tool — got {} lines (expected {})",
            r.output.lines().count(),
            original_line_count,
        );
    } else {
        panic!("expected ToolResult at index 1");
    }
}

#[test]
fn shares_are_those_of_doubles() {
    let expected = |size: usize, budget: usize, all: usize| {
        let ratio = budget as f64 / all as f64;
        (size as f64 * ratio) as usize
    };
    for (size, budget, all) in [
        (1000, 4000, 4001),
        (1000, 4000, 4248),
        (4248, 4000, 4248),
        (0, 4000, 4001),
        (1 << 62, 64_000, 1 << 63),
        ((1 << 53) + 1, 4001, (1 << 53) + 3),
        (usize::MAX, 63_999, usize::MAX),
    ] {
        assert_eq!(share_of(size, budget, all as u128), expected(size, budget, all), "{size} {budget} {all}");
    }
    let mut x: u64 = 88172645463325252;
    let mut next = || {
        x ^= x << 13;
        x ^= x >> 7;
        x ^= x << 17;
        x
    };
    let mut below: usize = 0;
    for round in 0..40_000 {
        let budget = 4_000 + (next() % 60_001) as usize;
        let bits = if round % 2 == 0 { next() % 12 } else { next() % 47 };
        let all = budget + 1 + (next() as usize % (1usize << (bits + 6)));
        let size = if round % 3 == 0 { all - next() as usize % all.min(50) } else { next() as usize % (all + 1) };
        let got = share_of(size, budget, all as u128);
        assert_eq!(got, expected(size, budget, all), "{size} {budget} {all}");
        if (got as u128) < size as u128 * budget as u128 / all as u128 {
            below += 1;
        }
    }
    // A whole number is at times missed by rounding.
    assert!(below > 0);
}
