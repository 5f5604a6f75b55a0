use atomcode_core::hook::webhook::{
    after_attempt, after_queueing, backoff_ms, names_point, parse_webhook_response, payload_event, webhook_extension,
    webhook_result, Attempt, SendNext, WebhookConfig, WebhookHook, WebhookPoint, WebhookResponse,
};
use atomcode_core::hook::{Hook, HookResult};
use atomcode_core::json::{parse_json, Json};
use atomcode_core::text_map::TextMap;

#[test]
fn test_webhook_config_defaults() {
    let config = WebhookConfig::new(
        "test-hook".to_string(),
        "message".to_string(),
        "https://example.com/hook".to_string(),
    );
    assert_eq!(config.name, "test-hook");
    assert_eq!(config.trigger, "message");
    assert_eq!(config.url, "https://example.com/hook");
    assert_eq!(config.method, "POST");
    assert_eq!(config.timeout_secs, 10);
    assert_eq!(config.retries, 2);
    assert!(config.enabled);
    assert!(config.description.is_empty());
    assert_eq!(config.headers.len(), 0);
}

#[test]
fn test_parse_webhook_response_ok() {
    let resp = WebhookResponse {
        result: "ok".to_string(),
        message: None,
        modified_content: None,
    };
    let result = parse_webhook_response(&resp);
    assert!(matches!(result, HookResult::Proceed));
}

#[test]
fn test_parse_webhook_response_warning() {
    let resp = WebhookResponse {
        result: "warning".to_string(),
        message: Some("caution".to_string()),
        modified_content: None,
    };
    let result = parse_webhook_response(&resp);
    assert!(matches!(result, HookResult::Warning(_)));
    if let HookResult::Warning(msg) = result {
        assert_eq!(msg, "caution");
    }
}

#[test]
fn test_parse_webhook_response_deny() {
    let resp = WebhookResponse {
        result: "deny".to_string(),
        message: Some("forbidden".to_string()),
        modified_content: None,
    };
    let result = parse_webhook_response(&resp);
    assert!(matches!(result, HookResult::Denied(_)));
    if let HookResult::Denied(msg) = result {
        assert_eq!(msg, "forbidden");
    }
}

#[test]
fn test_parse_webhook_response_modify() {
    let resp = WebhookResponse {
        result: "modify".to_string(),
        message: None,
        modified_content: Some("altered".to_string()),
    };
    let result = parse_webhook_response(&resp);
    assert!(matches!(result, HookResult::Modified(_)));
    if let HookResult::Modified(content) = result {
        assert_eq!(content, "altered");
    }
}

#[test]
fn test_parse_webhook_response_unknown() {
    let resp = WebhookResponse {
        result: "unknown_value".to_string(),
        message: None,
        modified_content: None,
    };
    let result = parse_webhook_response(&resp);
    assert!(matches!(result, HookResult::Warning(_)));
    if let HookResult::Warning(msg) = result {
        assert!(msg.contains("unknown_value"));
    }
}

#[test]
fn test_webhook_hook_new() {
    let config = WebhookConfig {
        name: "my-hook".to_string(),
        trigger: "message".to_string(),
        url: "http://localhost:1234/hook".to_string(),
        method: "POST".to_string(),
        headers: TextMap::new(),
        timeout_secs: 5,
        retries: 1,
        enabled: true,
        description: "Test hook".to_string(),
    };

    let hook = WebhookHook::new(config);

    assert_eq!(hook.name(), "my-hook");
    assert_eq!(hook.description(), "Test hook");
    assert!(hook.is_enabled());
}

#[test]
fn test_webhook_hook_trait() {
    let config = WebhookConfig {
        name: "trait-test".to_string(),
        trigger: "error".to_string(),
        url: "http://localhost:5678/hook".to_string(),
        method: "POST".to_string(),
        headers: TextMap::new(),
        timeout_secs: 3,
        retries: 0,
        enabled: false,
        description: "Disabled hook".to_string(),
    };

    let hook = WebhookHook::new(config);

    assert_eq!(hook.name(), "trait-test");
    assert_eq!(hook.description(), "Disabled hook");
    assert!(!hook.is_enabled());
}

fn answer(result: &str, message: Option<&str>, content: Option<&str>) -> WebhookResponse {
    WebhookResponse {
        result: result.to_string(),
        message: message.map(String::from),
        modified_content: content.map(String::from),
    }
}

#[test]
fn waits_double_from_a_tenth_of_a_second() {
    assert_eq!(backoff_ms(0), 100);
    assert_eq!(backoff_ms(1), 200);
    assert_eq!(backoff_ms(4), 1600);
}

#[test]
fn failed_attempts_are_tried_again() {
    match after_attempt(0, 1, Attempt::Failed { error: "refused".into() }) {
        SendNext::Send { after_ms } => assert_eq!(after_ms, backoff_ms(0)),
        other => panic!("unexpected {:?}", other),
    }
    match after_attempt(1, 1, Attempt::Failed { error: "refused".into() }) {
        SendNext::Done { result: Err(e), .. } => assert!(e.contains("refused")),
        other => panic!("unexpected {:?}", other),
    }
    let ok = Attempt::Answered {
        success: true,
        status: "200 OK".into(),
        body: "{}".into(),
        answer: Some(answer("ok", None, None)),
    };
    assert!(matches!(after_attempt(0, 3, ok), SendNext::Done { after_ms: 0, result: Ok(_) }));
}

#[test]
fn service_errors_only_warn() {
    assert!(matches!(webhook_result(Err("down".into())), HookResult::Warning(m) if m.contains("down")));
    assert!(matches!(webhook_result(Ok(answer("ok", None, None))), HookResult::Proceed));
    assert_eq!(webhook_extension(Err("down".into())), None);
    assert_eq!(webhook_extension(Ok(answer("modify", None, Some("more")))).as_deref(), Some("more"));
}

#[test]
fn queued_calls_are_answered_at_once() {
    assert!(after_queueing(HookResult::Proceed).is_ok());
}

#[test]
fn triggers_name_points() {
    assert!(names_point("pre_tool,error", WebhookPoint::Error));
    assert!(!names_point("pre_tool", WebhookPoint::Error));
    let hook = WebhookHook::new(WebhookConfig::new("w".into(), "On_ERROR".into(), "u".into()));
    assert!(hook.listens(WebhookPoint::Error));
    assert!(!hook.listens(WebhookPoint::Message));
}

#[test]
fn payloads_name_their_event() {
    let hook = WebhookHook::new_with_async(WebhookConfig::new("w".into(), "error".into(), "u".into()));
    assert!(hook.batched);
    let p = hook.payload(WebhookPoint::Error, vec![("phase".to_string(), Json::of_text("run"))]);
    assert_eq!(payload_event(&p), WebhookPoint::Error.name());
    assert_eq!(p.str_at("phase"), Some("run"));
    assert_eq!(payload_event(&parse_json("{}").unwrap()), "unknown");
}

#[test]
fn headers_are_sent_with_every_call() {
    let mut config = WebhookConfig::new("w".into(), "error".into(), "u".into());
    config.headers.insert("X-Auth".into(), "t".into());
    let headers = WebhookHook::new(config).call_headers("1.2");
    assert!(headers.contains(&("X-Auth".to_string(), "t".to_string())));
    assert!(headers.iter().any(|(_, v)| v.contains("1.2")));
}
