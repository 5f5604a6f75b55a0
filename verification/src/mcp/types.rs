//! What is said between client and server.

use vstd::prelude::*;
use vstd::string::*;

use crate::json::{opt_json, whole_numbers_are_read_back, Json, JsonView};
use crate::text::decimal_int;

verus! {

/// A message with an id, which will be answered.
#[derive(Debug)]
pub struct JsonRpcRequest {
    pub jsonrpc: String,
    pub id: u64,
    pub method: String,
    pub params: Option<Json>,
}

/// The answer to a request.
#[derive(Debug)]
pub struct JsonRpcResponse {
    pub jsonrpc: String,
    pub id: u64,
    pub result: Option<Json>,
    pub error: Option<JsonRpcError>,
}

#[derive(Debug)]
pub struct JsonRpcError {
    pub code: i32,
    pub message: String,
}

#[verifier::ext_equal]
pub struct ErrorView {
    pub code: i32,
    pub message: Seq<char>,
}

#[verifier::ext_equal]
pub struct ResponseView {
    pub jsonrpc: Seq<char>,
    pub id: u64,
    pub result: Option<JsonView>,
    pub error: Option<ErrorView>,
}

impl View for JsonRpcError {
    type V = ErrorView;

    open spec fn view(&self) -> ErrorView {
        ErrorView { code: self.code, message: self.message@ }
    }
}

impl View for JsonRpcResponse {
    type V = ResponseView;

    open spec fn view(&self) -> ResponseView {
        ResponseView {
            jsonrpc: self.jsonrpc@,
            id: self.id,
            result: opt_json(self.result),
            error: match self.error {
                Some(e) => Some(e@),
                None => None,
            },
        }
    }
}

/// What a server says of itself.
#[derive(Debug)]
pub struct InitializeResult {
    pub protocol_version: String,
    pub capabilities: ServerCapabilities,
    pub server_info: ServerInfo,
}

#[derive(Debug)]
pub struct ServerCapabilities {
    pub tools: Option<ToolsCapability>,
}

#[derive(Debug)]
pub struct ToolsCapability {}

#[derive(Debug)]
pub struct ServerInfo {
    pub name: String,
    pub version: String,
}

/// A tool that a server offers.
#[derive(Debug)]
pub struct McpToolDefinition {
    pub name: String,
    pub description: String,
    pub input_schema: Json,
}

#[derive(Debug)]
pub struct ListToolsResult {
    pub tools: Vec<McpToolDefinition>,
}

/// A part of what a tool gives back.
#[derive(Debug)]
pub enum ContentBlock {
    Text { text: String },
    Image { data: String, mime_type: String },
    Resource { resource: ResourceContent },
}

#[derive(Debug)]
pub struct ResourceContent {
    pub uri: String,
    pub text: Option<String>,
    pub blob: Option<String>,
    pub mime_type: Option<String>,
}

/// What a tool gives back.
#[derive(Debug)]
pub struct CallToolResult {
    pub content: Vec<ContentBlock>,
    pub is_error: bool,
}

/// How a connection stands.
#[derive(Debug)]
pub enum ServerStatus {
    Connecting,
    Connected,
    Failed(String),
    Disconnected,
}

#[verifier::ext_equal]
pub enum StatusView {
    Connecting,
    Connected,
    Failed(Seq<char>),
    Disconnected,
}

impl View for ServerStatus {
    type V = StatusView;

    open spec fn view(&self) -> StatusView {
        match self {
            ServerStatus::Connecting => StatusView::Connecting,
            ServerStatus::Connected => StatusView::Connected,
            ServerStatus::Failed(e) => StatusView::Failed(e@),
            ServerStatus::Disconnected => StatusView::Disconnected,
        }
    }
}

pub open spec fn status_text(s: StatusView) -> Seq<char> {
    match s {
        StatusView::Connecting => "connecting"@,
        StatusView::Connected => "connected"@,
        StatusView::Failed(e) => "failed: "@ + e,
        StatusView::Disconnected => "disconnected"@,
    }
}

impl ServerStatus {
    pub fn to_string(&self) -> (r: String)
        ensures
            r@ == status_text(self@),
    {
        match self {
            ServerStatus::Connecting => "connecting".to_owned(),
            ServerStatus::Connected => "connected".to_owned(),
            ServerStatus::Failed(e) => {
                let mut out: String = "failed: ".to_owned();
                out.append(e.as_str());
                out
            },
            ServerStatus::Disconnected => "disconnected".to_owned(),
        }
    }
}

impl Clone for ServerStatus {
    fn clone(&self) -> (r: Self)
        ensures
            r@ == self@,
    {
        match self {
            ServerStatus::Connecting => ServerStatus::Connecting,
            ServerStatus::Connected => ServerStatus::Connected,
            ServerStatus::Failed(e) => ServerStatus::Failed(e.clone()),
            ServerStatus::Disconnected => ServerStatus::Disconnected,
        }
    }
}

// ---- Reading an answer ----

/// A value that may be absent: null counts as absent.
pub open spec fn unless_null(j: Option<JsonView>) -> Option<JsonView> {
    match j {
        Some(JsonView::Null) => None,
        other => other,
    }
}

/// The error that a code and a message make.
pub open spec fn error_from(code: Option<JsonView>, message: Option<JsonView>) -> Option<ErrorView> {
    match (code, message) {
        (Some(c), Some(m)) => match (c.integer(), m.text()) {
            (Some(n), Some(t)) => if i32::MIN <= n <= i32::MAX {
                Some(ErrorView { code: n as i32, message: t })
            } else {
                None
            },
            _ => None,
        },
        _ => None,
    }
}

/// The error that a value describes: an object with its code and message, or a
/// list of the two.
pub open spec fn error_of(j: JsonView) -> Option<ErrorView> {
    match j {
        JsonView::Object(_) => error_from(j.get("code"@), j.get("message"@)),
        JsonView::Array(a) => if a.len() == 2 {
            error_from(Some(a[0]), Some(a[1]))
        } else {
            None
        },
        _ => None,
    }
}

/// The answer that a version, an id, a result and an error make.
pub open spec fn response_from(
    version: Option<JsonView>,
    id: Option<JsonView>,
    result: Option<JsonView>,
    error: Option<JsonView>,
) -> Option<ResponseView> {
    match (version, id) {
        (Some(v), Some(i)) => match (v.text(), i.uint()) {
            (Some(jsonrpc), Some(id)) => match unless_null(error) {
                Some(e) => match error_of(e) {
                    Some(error) => Some(
                        ResponseView { jsonrpc, id, result: unless_null(result), error: Some(error) },
                    ),
                    None => None,
                },
                None => Some(ResponseView { jsonrpc, id, result: unless_null(result), error: None }),
            },
            _ => None,
        },
        _ => None,
    }
}

pub open spec fn item(a: Seq<JsonView>, i: int) -> Option<JsonView> {
    if 0 <= i < a.len() {
        Some(a[i])
    } else {
        None
    }
}

/// The answer that a document describes: an object with the members of an answer,
/// or a list of them in order. Other members are passed over.
pub open spec fn response_of(j: JsonView) -> Option<ResponseView> {
    match j {
        JsonView::Object(_) => response_from(
            j.get("jsonrpc"@),
            j.get("id"@),
            j.get("result"@),
            j.get("error"@),
        ),
        JsonView::Array(a) => if a.len() <= 4 {
            response_from(item(a, 0), item(a, 1), item(a, 2), item(a, 3))
        } else {
            None
        },
        _ => None,
    }
}

/// The view of a borrowed value that may be absent.
pub open spec fn ref_view(j: Option<&Json>) -> Option<JsonView> {
    match j {
        Some(v) => Some(v@),
        None => None,
    }
}

fn read_error_parts(code: Option<&Json>, message: Option<&Json>) -> (r: Option<JsonRpcError>)
    ensures
        match r {
            Some(e) => error_from(ref_view(code), ref_view(message)) == Some(e@),
            None => error_from(ref_view(code), ref_view(message)) is None,
        },
{
    let code = match code {
        Some(c) => c,
        None => return None,
    };
    let message = match message {
        Some(m) => m,
        None => return None,
    };
    match (code.as_i64(), message.as_str()) {
        (Some(n), Some(t)) => if -0x8000_0000 <= n && n <= 0x7fff_ffff {
            Some(JsonRpcError { code: n as i32, message: t.to_owned() })
        } else {
            None
        },
        _ => None,
    }
}

fn read_error(j: &Json) -> (r: Option<JsonRpcError>)
    ensures
        match r {
            Some(e) => error_of(j@) == Some(e@),
            None => error_of(j@) is None,
        },
{
    match j {
        Json::Object(_) => read_error_parts(j.get("code"), j.get("message")),
        Json::Array(a) => if a.len() == 2 {
            assert(j@->Array_0[0] == a@[0]@);
            assert(j@->Array_0[1] == a@[1]@);
            read_error_parts(Some(&a[0]), Some(&a[1]))
        } else {
            None
        },
        _ => None,
    }
}

fn read_present(j: Option<&Json>) -> (r: Option<Json>)
    ensures
        opt_json(r) == unless_null(ref_view(j)),
{
    match j {
        None => None,
        Some(v) => match v {
            Json::Null => None,
            other => Some(other.clone()),
        },
    }
}

fn read_response_parts(version: Option<&Json>, id: Option<&Json>, result: Option<&Json>, error: Option<&Json>) -> (r:
    Option<JsonRpcResponse>)
    ensures
        match r {
            Some(w) => response_from(ref_view(version), ref_view(id), ref_view(result), ref_view(error))
                == Some(w@),
            None => response_from(ref_view(version), ref_view(id), ref_view(result), ref_view(error)) is None,
        },
{
    let version = match version {
        Some(v) => v,
        None => return None,
    };
    let id = match id {
        Some(i) => i,
        None => return None,
    };
    match (version.as_str(), id.as_u64()) {
        (Some(v), Some(i)) => {
            let error = match error {
                None => None,
                Some(e) => match e {
                    Json::Null => None,
                    other => match read_error(other) {
                        Some(found) => Some(found),
                        None => return None,
                    },
                },
            };
            Some(JsonRpcResponse { jsonrpc: v.to_owned(), id: i, result: read_present(result), error })
        },
        _ => None,
    }
}

fn nth(a: &Vec<Json>, i: usize) -> (r: Option<&Json>)
    ensures
        ref_view(r) == item(crate::json::json_views(a@), i as int),
{
    if i < a.len() {
        Some(&a[i])
    } else {
        None
    }
}

/// Reads an answer.
pub fn read_response(j: &Json) -> (r: Option<JsonRpcResponse>)
    ensures
        match r {
            Some(w) => response_of(j@) == Some(w@),
            None => response_of(j@) is None,
        },
{
    match j {
        Json::Object(_) => read_response_parts(j.get("jsonrpc"), j.get("id"), j.get("result"), j.get("error")),
        Json::Array(a) => if a.len() <= 4 {
            assert(j@->Array_0 =~= crate::json::json_views(a@));
            read_response_parts(nth(a, 0), nth(a, 1), nth(a, 2), nth(a, 3))
        } else {
            None
        },
        _ => None,
    }
}

/// An answer has a version and a number; its result and its error are what the document
/// has for them, and nothing where that is null. What has no number is no answer, and
/// neither is what has an error that is none.
pub proof fn documents_are_answers(j: JsonView)
    requires
        j is Object,
    ensures
        response_of(j) is Some ==> {
            let w = response_of(j)->0;
            &&& j.text_at("jsonrpc"@) == Some(w.jsonrpc)
            &&& j.uint_at("id"@) == Some(w.id)
            &&& w.result == (match j.get("result"@) {
                Some(JsonView::Null) => None,
                other => other,
            })
            &&& w.error is Some <==> j.get("error"@) is Some && !(j.get("error"@)->0 is Null)
        },
        j.text_at("jsonrpc"@) is None || j.uint_at("id"@) is None ==> response_of(j) is None,
        j.text_at("jsonrpc"@) is Some && j.uint_at("id"@) is Some && (j.get("error"@) is None || j.get("error"@)->0 is Null)
            ==> response_of(j) is Some,
        j.get("error"@) is Some && j.get("error"@)->0 is Text ==> response_of(j) is None,
{
}

/// An error is an object with a whole code and a text, or a list of just the two; nothing
/// else is one.
pub proof fn errors_have_a_code_and_a_text(j: JsonView, code: i32, text: Seq<char>)
    ensures
        j is Object && j.get("code"@) == Some(JsonView::Number(decimal_int(code as int))) && j.get("message"@) == Some(
            JsonView::Text(text),
        ) ==> error_of(j) == Some(ErrorView { code, message: text }),
        j == JsonView::Array(seq![JsonView::Number(decimal_int(code as int)), JsonView::Text(text)]) ==> error_of(j)
            == Some(ErrorView { code, message: text }),
        j is Object && (j.get("code"@) is None || j.get("message"@) is None) ==> error_of(j) is None,
        j is Array && j->Array_0.len() != 2 ==> error_of(j) is None,
        j is Text || j is Number || j is Bool || j is Null ==> error_of(j) is None,
{
    whole_numbers_are_read_back(0, code as int);
}

} // verus!
