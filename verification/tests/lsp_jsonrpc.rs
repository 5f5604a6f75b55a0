use atomcode_core::json::Json;
use atomcode_core::lsp::jsonrpc::{
    encode, notification, read_body, read_header_line, request, ReadError, ReadStep,
};

#[test]
fn encode_format() {
    let body = b"{\"jsonrpc\":\"2.0\"}";
    let encoded = encode(body);
    let expected = format!("Content-Length: {}\r\n\r\n{}", body.len(), "{\"jsonrpc\":\"2.0\"}");
    assert_eq!(encoded, expected.as_bytes());
}

#[test]
fn read_message_parses() {
    let body = b"{\"jsonrpc\":\"2.0\",\"id\":1}";
    let framed = encode(body);
    let text = String::from_utf8(framed).unwrap();
    let mut lines = text.split_inclusive('\n');
    let first = lines.next().unwrap();
    let length = match read_header_line(0, Some(first)) {
        ReadStep::Line(n) => n,
        other => panic!("expected a length, got {:?}", other),
    };
    assert_eq!(length, body.len());
    assert_eq!(read_header_line(length, lines.next()), ReadStep::Body(body.len()));
    let msg = read_body(body).unwrap();
    assert_eq!(msg.str_at("jsonrpc"), Some("2.0"));
    assert_eq!(msg.u64_at("id"), Some(1));
}

#[test]
fn read_message_eof_error() {
    let step = read_header_line(0, None);
    assert_eq!(step, ReadStep::Failed(ReadError::Eof));
    assert!(ReadError::Eof.text().contains("EOF"));
}

#[test]
fn header_lines_are_read_one_by_one() {
    assert_eq!(read_header_line(7, Some("Content-Type: x\r\n")), ReadStep::Line(7));
    assert_eq!(read_header_line(7, Some("Content-Length:   +12 \r\n")), ReadStep::Line(12));
    assert_eq!(read_header_line(0, Some("\r\n")), ReadStep::Failed(ReadError::NoLength));
    assert_eq!(read_header_line(0, Some("Content-Length: -1\r\n")), ReadStep::Failed(ReadError::BadLength));
    assert_eq!(
        read_header_line(0, Some("Content-Length: 99999999999999999999999\r\n")),
        ReadStep::Failed(ReadError::BadLength)
    );
    assert_eq!(ReadError::NoLength.text(), "No Content-Length in LSP message");
    assert_eq!(ReadError::BadLength.text(), "Invalid Content-Length in LSP header");
}

#[test]
fn bodies_that_are_no_documents_are_refused() {
    assert!(read_body(b"{").is_none());
    assert!(read_body(&[0xff, 0xfe]).is_none());
    assert!(matches!(read_body(b"null"), Some(Json::Null)));
}

#[test]
fn messages_carry_their_version() {
    let r = request(9, "shutdown", None);
    assert_eq!((r.jsonrpc.as_str(), r.id, r.method.as_str()), ("2.0", 9, "shutdown"));
    let n = notification("exit", Some(Json::Bool(true)));
    assert_eq!((n.jsonrpc.as_str(), n.method.as_str()), ("2.0", "exit"));
    assert!(n.params.is_some());
}
