use atomcode_core::config::ProviderConfig;
use atomcode_core::conversation::{Conversation, Role};
use atomcode_core::ctx::{CtxBuilder, DefaultCtx};

fn test_provider(ctx: usize) -> ProviderConfig {
    ProviderConfig {
        provider_type: "test".into(),
        api_key: None,
        model: "test-model".into(),
        base_url: None,
        system_prompt: None,
        user_agent: None,
        context_window: ctx,
        max_tokens: None,
        thinking_type: None,
        thinking_keep: None,
        reasoning_history: None,
        reasoning_effort: None,
        thinking_enabled: None,
        thinking_budget: None,
        skip_tls_verify: false,
        ephemeral: false,
    }
}

#[test]
fn name_is_default() {
    let d = DefaultCtx::new(&test_provider(128_000));
    assert_eq!(d.name(), "default");
}

#[test]
fn ctx_window_clamped_to_8k_minimum() {
    let d = DefaultCtx::new(&test_provider(0));
    assert_eq!(d.ctx_window, 8000);
    let d = DefaultCtx::new(&test_provider(4_000));
    assert_eq!(d.ctx_window, 8000);
    let d = DefaultCtx::new(&test_provider(32_000));
    assert_eq!(d.ctx_window, 32_000);
}

#[test]
fn build_messages_empty_conv_returns_system_only() {
    let d = DefaultCtx::new(&test_provider(128_000));
    let conv = Conversation::new();
    let (msgs, _stats) = d.build_messages(&conv, "SYS", "");
    assert_eq!(msgs.len(), 1);
    assert!(matches!(msgs[0].role, Role::System));
}

#[test]
fn default_compression_plan_none_below_threshold() {
    let d = DefaultCtx::new(&test_provider(128_000));
    let conv = Conversation::new();
    assert!(d.compression_plan(&conv, usize::MAX).is_none());
}

/// The model's name decides about directives in any case.
#[test]
fn model_names_are_lowered() {
    let mut p = test_provider(32_000);
    p.model = "GLM-4.6".into();
    let d = DefaultCtx::new(&p);
    assert_eq!(d.model_id, "glm-4.6");
}
