use atomcode_core::json::{parse_json, Json};
use atomcode_core::lsp::client::{
    next_sync_action, Answer, DocumentSyncAction, Incoming, LspClient, OpenDocumentState,
};
use atomcode_core::lsp::diagnostics::store_diagnostics;
use atomcode_core::lsp::registry::LspServerConfig;
use atomcode_core::lsp::types::{Diagnostic, DiagnosticSeverity};
use atomcode_core::lsp::uri::{decoded_path, encoded_uri, path_to_uri, text_key, uri_to_path, LocalPath};
use atomcode_core::text_map::TextMap;

fn config() -> LspServerConfig {
    LspServerConfig {
        command: "rust-analyzer".into(),
        args: vec!["--stdio".into()],
        root_markers: vec![],
    }
}

fn client() -> LspClient {
    LspClient::start(&config(), "/tmp", "rust", 77, "4.2.0").0
}

fn doc(text: &str) -> Json {
    parse_json(text).unwrap()
}

#[test]
fn dispatch_response_resolves_pending() {
    let mut c = client();
    c.next_id = 42;
    let asked = c.send_request("textDocument/hover", None);
    assert_eq!(asked.id, 42);

    let msg = doc(r#"{"jsonrpc":"2.0","id":42,"result":{"capabilities":{}}}"#);
    match c.dispatch_message(&msg) {
        Incoming::Response { id, answer: Answer::Result(j) } => {
            assert_eq!(id, 42);
            assert!(j.get("capabilities").is_some());
        }
        other => panic!("unexpected {:?}", other),
    }
    assert!(!c.pending.contains(&42));
    // A second answer to the same request is ignored.
    assert!(matches!(c.dispatch_message(&msg), Incoming::Ignored));
}

#[test]
fn dispatch_error_response_rejects_pending() {
    let mut c = client();
    c.next_id = 7;
    c.send_request("x", None);
    let msg = doc(r#"{"jsonrpc":"2.0","id":7,"error":{"code":-32602,"message":"invalid initialize params"}}"#);
    match c.dispatch_message(&msg) {
        Incoming::Response { id, answer: Answer::Error(e) } => {
            assert_eq!(id, 7);
            assert_eq!(e.get("code").and_then(|v| v.as_i64()), Some(-32602));
            assert_eq!(e.str_at("message"), Some("invalid initialize params"));
        }
        other => panic!("unexpected {:?}", other),
    }
    assert!(!c.pending.contains(&7));
}

#[test]
fn dispatch_diagnostics_notification_caches() {
    let mut c = client();
    let msg = doc(
        r#"{
            "jsonrpc": "2.0",
            "method": "textDocument/publishDiagnostics",
            "params": {
                "uri": "file:///tmp/test.rs",
                "diagnostics": [
                    {
                        "range": {
                            "start": { "line": 9, "character": 4 },
                            "end": { "line": 9, "character": 14 }
                        },
                        "severity": 1,
                        "message": "unused variable",
                        "source": "rust-analyzer",
                        "code": "E0001"
                    }
                ]
            }
        }"#,
    );
    assert!(matches!(c.dispatch_message(&msg), Incoming::Diagnostics));

    let file_diags = c.diagnostics("/tmp/test.rs");
    assert_eq!(file_diags.len(), 1);
    // 0-based LSP → 1-based display
    assert_eq!(file_diags[0].line, 10);
    assert_eq!(file_diags[0].column, 5);
    assert_eq!(file_diags[0].end_line, Some(10));
    assert_eq!(file_diags[0].end_column, Some(15));
    assert_eq!(file_diags[0].severity, DiagnosticSeverity::Error);
    assert_eq!(file_diags[0].message, "unused variable");
    assert_eq!(file_diags[0].code.as_deref(), Some("E0001"));
    assert_eq!(c.all_diagnostics().len(), 1);
}

#[test]
fn empty_diagnostics_clears_cache() {
    let mut c = client();
    c.diagnostics_cache.insert(
        "/tmp/test.rs".into(),
        vec![Diagnostic {
            file: "/tmp/test.rs".into(),
            line: 1,
            column: 1,
            end_line: None,
            end_column: None,
            severity: DiagnosticSeverity::Error,
            message: "old error".into(),
            source: None,
            code: None,
        }],
    );

    let msg = doc(
        r#"{"jsonrpc":"2.0","method":"textDocument/publishDiagnostics",
            "params":{"uri":"file:///tmp/test.rs","diagnostics":[]}}"#,
    );
    c.dispatch_message(&msg);
    assert!(c.diagnostics_cache.get("/tmp/test.rs").is_none());
    assert!(c.diagnostics("/tmp/test.rs").is_empty());
}

#[test]
fn uri_to_path_handles_unix_path() {
    let path = uri_to_path("file:///tmp/test.rs");
    assert_eq!(path.bytes, "/tmp/test.rs".as_bytes());
}

#[test]
fn uri_to_path_handles_encoded_spaces() {
    let path = uri_to_path("file:///tmp/my%20file.rs");
    assert_eq!(path.bytes, "/tmp/my file.rs".as_bytes());
}

#[test]
fn path_to_uri_encodes_spaces_and_fragments() {
    let path = "/tmp/my file#1.rs";
    let uri = path_to_uri(path);
    assert!(
        uri.contains("my%20file%231.rs"),
        "path_to_uri must percent-encode reserved characters: {uri}"
    );
    assert_eq!(uri_to_path(&uri).bytes, path.as_bytes());
}

#[test]
fn open_document_state_tracks_version() {
    let state = OpenDocumentState {
        uri: "file:///tmp/test.rs".to_string(),
        language_id: "rust".to_string(),
        version: 1,
    };
    assert_eq!(state.version, 1);
}

#[test]
fn sync_action_uses_did_open_then_did_change_versions() {
    let mut opened: TextMap<OpenDocumentState> = TextMap::new();
    let path = "/tmp/test.rs";

    let first = next_sync_action(&mut opened, path, "rust");
    assert_eq!(first, DocumentSyncAction::DidOpen);

    let second = next_sync_action(&mut opened, path, "rust");
    assert_eq!(second, DocumentSyncAction::DidChange { version: 2 });

    let third = next_sync_action(&mut opened, path, "rust");
    assert_eq!(third, DocumentSyncAction::DidChange { version: 3 });

    let state = opened.get(path).unwrap();
    assert_eq!(state.version, 3);
    assert_eq!(state.language_id, "rust");
    assert_eq!(state.uri, path_to_uri(path));
}

#[test]
fn relative_paths_and_other_uris_are_taken_as_they_are() {
    assert_eq!(path_to_uri("src/main.rs"), "file://src/main.rs");
    assert_eq!(uri_to_path("untitled:Untitled-1").shown(), "untitled:Untitled-1");
    assert_eq!(uri_to_path("file://remote/share/a.rs").shown(), "file://remote/share/a.rs");
    assert_eq!(decoded_path("http://x/y", Some("/y".into())).bytes, "http://x/y".as_bytes());
    assert_eq!(decoded_path("file:///y", Some("/y".into())).bytes, "/y".as_bytes());
    assert_eq!(encoded_uri("a", None), "file://a");
    assert_eq!(encoded_uri("a", Some("file:///a".into())), "file:///a");
}

#[test]
fn items_without_a_start_are_passed_over() {
    let mut cache: TextMap<Vec<Diagnostic>> = TextMap::new();
    let params = doc(
        r#"{"diagnostics":[
            {"message":"no range"},
            {"range":{"start":{"line":0}}},
            {"range":{"start":{"line":0,"character":0}},"severity":3,"code":7},
            {"range":{"start":{"line":4294967295,"character":4294967296}},"severity":9}
        ]}"#,
    );
    store_diagnostics(&mut cache, &LocalPath::of_text("f"), &params);
    let known = cache.get("f").unwrap();
    assert_eq!(known.len(), 2);
    assert_eq!((known[0].line, known[0].column), (1, 1));
    assert_eq!(known[0].severity, DiagnosticSeverity::Info);
    assert_eq!(known[0].code.as_deref(), Some("7"));
    assert_eq!(known[0].message, "");
    assert_eq!(known[0].end_line, None);
    assert_eq!((known[1].line, known[1].column), (0, 1));
    assert_eq!(known[1].severity, DiagnosticSeverity::Hint);
}

#[test]
fn the_handshake_introduces_the_client() {
    let (c, h) = LspClient::start(&config(), "/tmp", "rust", 77, "4.2.0");
    assert_eq!(c.root_uri, "file:///tmp");
    assert_eq!(c.next_id, 2);
    assert_eq!(h.command, "rust-analyzer");
    assert_eq!(h.args, vec!["--stdio"]);
    assert_eq!(h.initialize.method, "initialize");
    let p = h.initialize.params.unwrap();
    assert_eq!(p.u64_at("processId"), Some(77));
    assert_eq!(p.str_at("rootUri"), Some("file:///tmp"));
    assert_eq!(p.get("clientInfo").unwrap().str_at("version"), Some("4.2.0"));
    let text = p.get("capabilities").unwrap().get("textDocument").unwrap();
    assert!(matches!(text.get("synchronization").unwrap().get("didChange"), Some(Json::Bool(true))));
    assert_eq!(h.initialized.method, "initialized");
    assert_eq!(h.spawn_error, "Failed to spawn LSP server: rust-analyzer");
    assert_eq!(
        h.handshake_error,
        "LSP initialize handshake failed for rust-analyzer (language: rust)"
    );
}

#[test]
fn documents_are_opened_changed_closed_and_opened_again() {
    let mut c = client();
    let n = c.sync_document("/tmp/a.rs", "one", "rust");
    assert_eq!(n.method, "textDocument/didOpen");
    let d = n.params.unwrap();
    let d = d.get("textDocument").unwrap();
    assert_eq!(d.str_at("text"), Some("one"));
    assert_eq!(d.u64_at("version"), Some(1));
    let n = c.sync_document("/tmp/a.rs", "two", "rust");
    assert_eq!(n.method, "textDocument/didChange");
    let p = n.params.unwrap();
    assert_eq!(p.get("textDocument").unwrap().u64_at("version"), Some(2));
    assert_eq!(p.get("contentChanges").unwrap().as_array().unwrap()[0].str_at("text"), Some("two"));
    assert_eq!(c.close_document("/tmp/a.rs").unwrap().method, "textDocument/didClose");
    assert!(c.close_document("/tmp/a.rs").is_none());
    assert_eq!(c.sync_document("/tmp/a.rs", "three", "rust").method, "textDocument/didOpen");
}

#[test]
fn other_messages_are_ignored() {
    let mut c = client();
    let msg = doc(r#"{"jsonrpc":"2.0","method":"window/logMessage","params":{}}"#);
    assert!(matches!(c.dispatch_message(&msg), Incoming::Ignored));
    let (ask, leave) = c.shutdown();
    assert_eq!(ask.method, "shutdown");
    assert_eq!(leave.method, "exit");
    // An answer with neither result nor error answers null.
    let msg = doc(&format!(r#"{{"id":{}}}"#, ask.id));
    match c.dispatch_message(&msg) {
        Incoming::Response { answer: Answer::Result(Json::Null), .. } => {}
        other => panic!("unexpected {:?}", other),
    }
}

#[test]
fn uris_of_plain_paths_are_read_back() {
    for path in ["/a", "/tmp/50% done?.rs", "/\u{4e2d}\u{6587}/x y/.hidden", "/a\\b/\"q\"/{z}"] {
        let uri = path_to_uri(path);
        assert!(uri.starts_with("file:///"));
        assert_eq!(uri_to_path(&uri).bytes, path.as_bytes());
    }
    // A name of two dots is no name of a place.
    assert_eq!(uri_to_path(&path_to_uri("/a/../b")).bytes, "/b".as_bytes());
}

#[test]
fn paths_that_are_no_text_are_kept_apart() {
    let path = uri_to_path("file:///tmp/%FF.rs");
    assert_eq!(path.bytes, b"/tmp/\xff.rs");
    assert_eq!(path.shown(), "/tmp/\u{fffd}.rs");
    let mut c = client();
    for (uri, message) in [("file:///tmp/%FF.rs", "one"), ("file:///tmp/%FE.rs", "two"), ("file:///tmp//%C3%A9.rs", "three")] {
        let msg = doc(&format!(
            r#"{{"method":"textDocument/publishDiagnostics","params":{{"uri":"{uri}","diagnostics":[
                {{"range":{{"start":{{"line":0,"character":0}}}},"message":"{message}"}}]}}}}"#
        ));
        c.dispatch_message(&msg);
    }
    let all = c.all_diagnostics();
    assert_eq!(all.len(), 3);
    assert_eq!(all.iter().filter(|d| d.file == "/tmp/\u{fffd}.rs").count(), 2);
    // A text does not name a path that is none.
    assert!(c.diagnostics("/tmp/\u{fffd}.rs").is_empty());
    assert!(c.diagnostics("/tmp/\u{ff}.rs").is_empty());
    assert_eq!(c.diagnostics("/tmp/./\u{e9}.rs")[0].message, "three");
    assert_eq!(text_key("/tmp/./a.rs"), "/tmp/a.rs");
    assert_eq!(text_key("/\u{e9}"), "/\u{c3}\u{a9}");
    assert_eq!(LocalPath::of_text("/tmp//a.rs").key(), text_key("/tmp/a.rs/"));
}
