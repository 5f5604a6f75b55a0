use atomcode_core::config::ProviderConfig;
use atomcode_core::conversation::{Conversation, ToolResult};
use atomcode_core::ctx::{CtxBuilder, OllamaCtx};

fn ollama_provider(ctx: usize) -> ProviderConfig {
    ProviderConfig {
        provider_type: "ollama".into(),
        api_key: None,
        model: "llama3-8b".into(),
        base_url: Some("http://localhost:11434".into()),
        system_prompt: None,
        user_agent: None,
        context_window: ctx,
        max_tokens: None,
        thinking_type: None,
        thinking_keep: None,
        reasoning_history: None,
        reasoning_effort: None,
        thinking_enabled: None,
        thinking_budget: None,
        skip_tls_verify: false,
        ephemeral: false,
    }
}

#[test]
fn name_is_ollama() {
    let o = OllamaCtx::new(&ollama_provider(8_000));
    assert_eq!(o.name(), "ollama");
}

#[test]
fn ctx_window_clamped_to_4k_minimum() {
    let o = OllamaCtx::new(&ollama_provider(0));
    assert_eq!(o.ctx_window(), 4_000);

    let o = OllamaCtx::new(&ollama_provider(2_000));
    assert_eq!(o.ctx_window(), 4_000);

    let o = OllamaCtx::new(&ollama_provider(8_000));
    assert_eq!(o.ctx_window(), 8_000);

    let o = OllamaCtx::new(&ollama_provider(32_000));
    assert_eq!(o.ctx_window(), 32_000);
}

#[test]
fn tool_output_cap_follows_spec() {
    assert_eq!(
        OllamaCtx::new(&ollama_provider(8_000)).tool_output_cap(),
        2_000
    );
    assert_eq!(
        OllamaCtx::new(&ollama_provider(16_000)).tool_output_cap(),
        2_000
    );
    assert_eq!(
        OllamaCtx::new(&ollama_provider(32_000)).tool_output_cap(),
        4_000
    );
    assert_eq!(
        OllamaCtx::new(&ollama_provider(64_000)).tool_output_cap(),
        6_000
    );
}

#[test]
fn truncate_result_enforces_small_cap() {
    let o = OllamaCtx::new(&ollama_provider(8_000));
    let mut r = ToolResult {
        call_id: "t1".into(),
        output: "x".repeat(50_000),
        success: true,
    };
    o.truncate_tool_output(&mut r, "bash");
    assert!(
        r.output.len() <= 2_200,
        "OllamaCtx truncate 后输出 {} 字节超过 cap 2200",
        r.output.len()
    );
}

#[test]
fn truncate_result_utf8_safe_on_cjk_boundary() {
    let o = OllamaCtx::new(&ollama_provider(8_000));
    let mut r = ToolResult {
        call_id: "t1".into(),
        output: "中".repeat(5_000),
        success: true,
    };
    o.truncate_tool_output(&mut r, "bash");
    assert!(std::str::from_utf8(r.output.as_bytes()).is_ok());
    assert!(r.output.len() <= 2_200);
}

#[test]
fn needs_compression_triggers_earlier_than_default() {
    let o = OllamaCtx::new(&ollama_provider(8_000));
    let empty = Conversation::new();
    assert!(!o.needs_compression(&empty, 100));

    let mut conv = Conversation::new();
    for i in 0..8 {
        conv.add_user_message(&format!("user turn {} with moderate content", i));
        conv.add_assistant_tool_calls(
            Some(&format!("some assistant reasoning for turn {}", i)),
            vec![],
            None,
        );
    }
    assert!(!o.needs_compression(&conv, 50));

    for _ in 0..20 {
        conv.add_user_message(&"lorem ipsum ".repeat(50).repeat(2));
        conv.add_assistant_tool_calls(Some(&"dolor sit amet ".repeat(50)), vec![], None);
    }
    assert!(
        o.needs_compression(&conv, 50),
        "大对话下 OllamaCtx 应触发压缩(35% threshold)"
    );
}

#[test]
fn ollama_compression_plan_none_below_threshold() {
    let o = OllamaCtx::new(&ollama_provider(8_000));
    let conv = Conversation::new();
    assert!(o.compression_plan(&conv, usize::MAX).is_none());
}

#[test]
fn build_messages_returns_nonempty_for_simple_conv() {
    let o = OllamaCtx::new(&ollama_provider(8_000));
    let mut conv = Conversation::new();
    conv.add_user_message("hello");
    let (msgs, stats) = o.build_messages(&conv, "SYS", "");
    assert!(!msgs.is_empty());
    assert!(stats.sent_tokens <= 8_000);
}
