use atomcode_core::json::{parse_json, Json};
use atomcode_core::mcp::config::{McpHttpAuthConfig, McpOAuthConfig};
use atomcode_core::mcp::transport_http::{
    match_answer, parse_sse_jsonrpc, sse_frames, HttpClient, HttpError, HttpMethod, HttpReply,
};
use atomcode_core::mcp::types::{read_response, JsonRpcResponse};
use atomcode_core::text_map::TextMap;

const MOCK_SESSION: &str = "mock-session-7";

fn test_client() -> HttpClient {
    HttpClient::new(
        "test".to_string(),
        "http://127.0.0.1:3845/mcp".to_string(),
        TextMap::new(),
        None,
        Some(5_000),
    )
}

fn reply(status: u16, content_type: Option<&str>, body: &str) -> HttpReply {
    HttpReply {
        status,
        status_text: format!("{status} x"),
        session_id: None,
        content_type: content_type.map(String::from),
        body: body.to_string(),
        answer: parse_json(body).and_then(|j| read_response(&j)),
    }
}

fn header<'a>(headers: &'a [(String, String)], name: &str) -> Option<&'a str> {
    headers.iter().find(|(k, _)| k.eq_ignore_ascii_case(name)).map(|(_, v)| v.as_str())
}

#[test]
fn single_data_frame_with_event_header() {
    let body =
        "event: message\ndata: {\"jsonrpc\":\"2.0\",\"id\":1,\"result\":{\"ok\":true}}\n\n";
    let resp = parse_sse_jsonrpc(body, 1).expect("parse");
    assert_eq!(resp.id, 1);
    assert!(resp.error.is_none());
    assert_eq!(
        resp.result
            .as_ref()
            .and_then(|v| v.get("ok"))
            .map(|v| matches!(v, Json::Bool(true))),
        Some(true)
    );
}

#[test]
fn data_only_frame_without_event_header() {
    let body = "data: {\"jsonrpc\":\"2.0\",\"id\":7,\"result\":{}}\n\n";
    let resp = parse_sse_jsonrpc(body, 7).expect("parse");
    assert_eq!(resp.id, 7);
}

#[test]
fn skips_notifications_picks_matching_id() {
    let body = "data: {\"jsonrpc\":\"2.0\",\"method\":\"progress\",\"params\":{}}\n\n\
                data: {\"jsonrpc\":\"2.0\",\"id\":99,\"result\":{}}\n\n\
                data: {\"jsonrpc\":\"2.0\",\"id\":42,\"result\":{\"hit\":true}}\n\n";
    let resp = parse_sse_jsonrpc(body, 42).expect("parse");
    assert_eq!(resp.id, 42);
    assert_eq!(
        resp.result
            .as_ref()
            .and_then(|v| v.get("hit"))
            .map(|v| matches!(v, Json::Bool(true))),
        Some(true)
    );
}

#[test]
fn multi_line_data_concatenates() {
    let body = "data: {\"jsonrpc\":\"2.0\",\n\
                data: \"id\":3,\n\
                data: \"result\":{}}\n\n";
    let resp = parse_sse_jsonrpc(body, 3).expect("parse");
    assert_eq!(resp.id, 3);
}

#[test]
fn trailing_frame_without_blank_terminator() {
    let body = "data: {\"jsonrpc\":\"2.0\",\"id\":2,\"result\":{}}";
    let resp = parse_sse_jsonrpc(body, 2).expect("parse");
    assert_eq!(resp.id, 2);
}

#[test]
fn ignores_sse_comments_and_other_fields() {
    let body = ": this is a heartbeat comment\n\
                event: message\n\
                id: 17\n\
                retry: 5000\n\
                data: {\"jsonrpc\":\"2.0\",\"id\":1,\"result\":{}}\n\n";
    let resp = parse_sse_jsonrpc(body, 1).expect("parse");
    assert_eq!(resp.id, 1);
}

#[test]
fn no_matching_id_returns_error() {
    let body = "data: {\"jsonrpc\":\"2.0\",\"id\":99,\"result\":{}}\n\n";
    let err = parse_sse_jsonrpc(body, 1).expect_err("must fail");
    assert!(format!("{}", err).contains("no JSON-RPC response matching id 1"));
}

#[test]
fn skips_non_json_data_lines() {
    let body = "data: [DONE]\n\n\
                data: {\"jsonrpc\":\"2.0\",\"id\":5,\"result\":{}}\n\n";
    let resp = parse_sse_jsonrpc(body, 5).expect("parse");
    assert_eq!(resp.id, 5);
}

#[test]
fn captures_session_id_from_response_headers() {
    let mut client = test_client();
    assert!(client.session_id().is_none());
    client.capture_session_id(&Some("abc-123".to_string()));
    assert_eq!(client.session_id().as_deref(), Some("abc-123"));
}

#[test]
fn ignores_missing_or_empty_session_id() {
    let mut client = test_client();
    client.capture_session_id(&None);
    assert!(client.session_id().is_none());
    client.capture_session_id(&Some(String::new()));
    assert!(client.session_id().is_none());
}

#[test]
fn echoes_session_id_so_followup_requests_are_accepted() {
    let mut client = test_client();
    let (id, first) = client.initialize("4.0", &None);
    assert!(header(&first.headers, "mcp-session-id").is_none());
    let mut r = reply(200, Some("application/json"), &format!(r#"{{"jsonrpc":"2.0","id":{id},"result":{{}}}}"#));
    r.session_id = Some(MOCK_SESSION.to_string());
    client.receive(id, r).expect("initialize");
    assert_eq!(client.session_id().as_deref(), Some(MOCK_SESSION));
    let (_, next) = client.list_tools(&None);
    assert_eq!(header(&next.headers, "mcp-session-id"), Some(MOCK_SESSION));
    assert_eq!(next.body.unwrap().str_at("method"), Some("tools/list"));
}

#[test]
fn drop_sends_session_delete_when_session_present() {
    let mut client = test_client();
    client.capture_session_id(&Some(MOCK_SESSION.to_string()));
    let request = client.close_request().expect("a session is given back");
    assert_eq!(request.method, HttpMethod::Delete);
    assert_eq!(header(&request.headers, "mcp-session-id"), Some(MOCK_SESSION));
}

#[test]
fn drop_without_session_sends_nothing() {
    assert!(test_client().close_request().is_none());
}

#[test]
fn own_headers_are_sent_and_tokens_only_where_none_is() {
    let mut headers = TextMap::new();
    headers.insert("X-Own".to_string(), "1".to_string());
    let mut client = HttpClient::new("s".into(), "u".into(), headers, None, None);
    let (id, r) = client.call_tool("t", parse_json("{\"a\":1}").unwrap(), &Some("tok".to_string()));
    assert_eq!(header(&r.headers, "x-own"), Some("1"));
    assert_eq!(header(&r.headers, "Authorization"), Some("Bearer tok"));
    let body = r.body.unwrap();
    assert_eq!(body.u64_at("id"), Some(id));
    assert_eq!(body.get("params").unwrap().str_at("name"), Some("t"));
    let mut headers = TextMap::new();
    headers.insert("authorization".to_string(), "mine".to_string());
    let mut client = HttpClient::new("s".into(), "u".into(), headers, None, None);
    assert!(!client.wants_token());
    let (_, r) = client.send_request("m", None, &None);
    assert_eq!(header(&r.headers, "Authorization"), Some("mine"));
}

#[test]
fn identifiers_go_up() {
    let mut client = test_client();
    let (a, _) = client.list_tools(&None);
    let (b, _) = client.list_tools(&None);
    assert_eq!(b, a + 1);
}

#[test]
fn failures_are_told_apart() {
    let auth = Some(McpHttpAuthConfig::OAuth(McpOAuthConfig::default()));
    let mut client = HttpClient::new("s".into(), "u".into(), TextMap::new(), auth, None);
    assert!(client.wants_token());
    assert!(matches!(client.receive(1, reply(401, None, "")), Err(HttpError::RequiresLogin { .. })));
    assert!(matches!(client.receive(1, reply(403, None, "")), Err(HttpError::RequiresLogin { .. })));
    let mut client = test_client();
    assert!(matches!(client.receive(1, reply(401, None, "")), Err(HttpError::Status { .. })));
    assert!(matches!(client.receive(1, reply(500, None, "oops")), Err(HttpError::Status { .. })));
    assert!(matches!(
        client.receive(1, reply(200, Some("text/event-stream"), "data: x\n\n")),
        Err(HttpError::BadStream { .. })
    ));
    assert!(matches!(client.receive(1, reply(200, None, "<html>")), Err(HttpError::BadBody { .. })));
    let answered = r#"{"jsonrpc":"2.0","id":1,"error":{"code":-32000,"message":"no"}}"#;
    match client.receive(1, reply(200, Some("application/json"), answered)) {
        Err(HttpError::Answered { message, code }) => assert_eq!((message.as_str(), code), ("no", -32000)),
        other => panic!("unexpected {:?}", other),
    }
    let empty = r#"{"jsonrpc":"2.0","id":1}"#;
    assert!(matches!(client.receive(1, reply(200, None, empty)), Err(HttpError::MissingResult)));
}

#[test]
fn frames_are_cut_at_blank_lines() {
    assert_eq!(sse_frames("data: a\ndata:b\n\ndata:  c\n"), vec!["a\nb", " c"]);
    let doc = parse_json(r#"{"jsonrpc":"2.0","id":4,"result":1}"#).unwrap();
    assert!(match_answer(&doc, 4).is_some());
    assert!(match_answer(&doc, 5).is_none());
}

#[test]
fn failures_are_shown() {
    let shown = |e: HttpError| e.text("\"<html>\"", "\"text/html\"");
    assert_eq!(
        shown(HttpError::RequiresLogin { server: "s".into() }),
        "MCP server s requires OAuth; run `atomcode mcp login s` or `/mcp login s`"
    );
    assert_eq!(
        shown(HttpError::Status { server: "s".into(), status: "500 x".into(), body: "b".into() }),
        "MCP server s returned HTTP 500 x: b"
    );
    assert_eq!(
        shown(HttpError::BadBody { server: "s".into(), content_type: "text/html".into(), head: "<html>".into() }),
        "Failed to parse MCP HTTP response from s (content-type=\"text/html\", first 200 bytes: \"<html>\")"
    );
    assert_eq!(shown(HttpError::Answered { message: "no".into(), code: -3 }), "MCP error no (code -3): ");
    assert_eq!(shown(HttpError::MissingResult), "MCP response missing result");
}

#[test]
fn a_body_is_the_answer_that_it_is_read_as() {
    let mut client = test_client();
    // A member that is no part of an answer is passed over, whatever it holds.
    let body = r#"{"jsonrpc":"2.0","id":1,"result":7,"extra":"\ud800"}"#;
    let mut r = reply(200, Some("application/json"), body);
    assert!(r.answer.is_none());
    r.answer = Some(JsonRpcResponse { jsonrpc: "2.0".into(), id: 1, result: Some(Json::of_uint(7)), error: None });
    assert_eq!(client.receive(1, r).unwrap().as_u64(), Some(7));
    // A member that stands twice makes the body no answer.
    let body = r#"{"jsonrpc":"2.0","id":1,"id":1,"result":{}}"#;
    let mut r = reply(200, Some("application/json"), body);
    r.answer = None;
    assert!(matches!(client.receive(1, r), Err(HttpError::BadBody { .. })));
}
