//! Speaking to a server over HTTP: what is sent, and what is made of what comes
//! back. Carrying the requests is left to the caller.

use vstd::prelude::*;
use vstd::string::*;

use crate::json::{json_text, members_are_found_by_their_key, opt_json, parse_json, Json, JsonView};
use crate::mcp::config::McpHttpAuthConfig;
use crate::mcp::types::{read_response, response_of, JsonRpcResponse, ResponseView, ServerStatus, StatusView};
use crate::text::{
    ascii_lower_text, contains, contains_text, decimal, decimal_int, lines, lines_of, opt, pairs, prefix,
    prefix_of, push_decimal, push_decimal_int, push_pair, same_ignoring_ascii_case, starts_with, strip_prefix_text,
    texts, to_ascii_lower, without_prefix,
};
use crate::text_map::TextMap;

verus! {

/// How long a request may take where nothing is configured, in milliseconds.
pub const DEFAULT_TIMEOUT_MS: u64 = 30_000;

// ---- Answers in a stream of events ----

/// A text without the one space that may start it.
pub open spec fn without_space(s: Seq<char>) -> Seq<char> {
    match without_prefix(s, " "@) {
        Some(rest) => rest,
        None => s,
    }
}

/// The data of a frame with one more line.
pub open spec fn more_data(data: Seq<char>, line: Seq<char>) -> Seq<char> {
    if data.len() > 0 {
        data + "\n"@ + line
    } else {
        line
    }
}

/// The data of the frames of a stream: frames end at empty lines, and the `data`
/// lines of a frame are joined. `data` is what the current frame holds so far.
pub open spec fn frames_from(v: Seq<Seq<char>>, data: Seq<char>) -> Seq<Seq<char>>
    decreases v.len(),
{
    if v.len() == 0 {
        seq![data]
    } else if v[0].len() == 0 {
        seq![data] + frames_from(v.skip(1), Seq::empty())
    } else {
        match without_prefix(v[0], "data:"@) {
            Some(rest) => frames_from(v.skip(1), more_data(data, without_space(rest))),
            None => frames_from(v.skip(1), data),
        }
    }
}

/// The data of the frames of a stream.
pub open spec fn frames_of(body: Seq<char>) -> Seq<Seq<char>> {
    frames_from(lines(body), Seq::empty())
}

/// The data of the frames of a stream of events.
pub fn sse_frames(body: &str) -> (r: Vec<String>)
    ensures
        texts(r@) == frames_of(body@),
{
    let all = lines_of(body);
    let ghost v = texts(all@);
    let mut out: Vec<String> = Vec::new();
    let mut current = String::new();
    let mut i: usize = 0;
    assert(v.skip(0) =~= v);
    assert(current@ =~= Seq::<char>::empty());
    assert(texts(out@) + frames_from(v, current@) =~= frames_from(v, Seq::empty()));
    while i < all.len()
        invariant
            i <= all.len(),
            v == texts(all@),
            texts(out@) + frames_from(v.skip(i as int), current@) == frames_from(v, Seq::empty()),
        decreases all.len() - i,
    {
        let ghost rest = v.skip(i as int);
        assert(rest[0] == all@[i as int]@);
        assert(rest.skip(1) =~= v.skip(i + 1));
        let line = all[i].as_str();
        if line.is_empty() {
            let ghost was = out@;
            let ghost done = current@;
            out.push(current);
            current = String::new();
            assert(current@ =~= Seq::<char>::empty());
            assert(texts(out@) =~= texts(was).push(done));
            assert(texts(out@) + frames_from(v.skip(i + 1), current@) =~= texts(was) + (seq![done] + frames_from(
                v.skip(i + 1),
                current@,
            )));
        } else {
            match strip_prefix_text(line, "data:") {
                Some(d) => {
                    let data = match strip_prefix_text(d.as_str(), " ") {
                        Some(stripped) => stripped,
                        None => d,
                    };
                    let ghost was = current@;
                    if !current.as_str().is_empty() {
                        current.append("\n");
                    }
                    current.append(data.as_str());
                    assert(current@ =~= more_data(was, data@));
                },
                None => {},
            }
        }
        i = i + 1;
    }
    assert(v.skip(i as int) =~= Seq::<Seq<char>>::empty());
    let ghost was = out@;
    out.push(current);
    assert(texts(out@) =~= texts(was) + seq![current@]);
    out
}

/// The answer to a request that a document is, if it is one.
pub open spec fn answer_to(doc: Option<JsonView>, id: u64) -> Option<ResponseView> {
    match doc {
        Some(j) => if j.uint_at("id"@) == Some(id) {
            response_of(j)
        } else {
            None
        },
        None => None,
    }
}

/// The answer to a request that a document is.
pub fn match_answer(doc: &Json, id: u64) -> (r: Option<JsonRpcResponse>)
    ensures
        match r {
            Some(w) => answer_to(Some(doc@), id) == Some(w@),
            None => answer_to(Some(doc@), id) is None,
        },
{
    match doc.u64_at("id") {
        Some(i) => if i == id {
            read_response(doc)
        } else {
            None
        },
        None => None,
    }
}

/// What the data of a frame says as a document; empty data says nothing.
pub open spec fn frame_document(data: Seq<char>) -> Option<JsonView> {
    if data.len() == 0 {
        None
    } else {
        json_text(data)
    }
}

/// The first of the frames that is the answer to a request.
pub open spec fn first_answer(frames: Seq<Seq<char>>, id: u64) -> Option<ResponseView>
    decreases frames.len(),
{
    if frames.len() == 0 {
        None
    } else {
        match answer_to(frame_document(frames[0]), id) {
            Some(w) => Some(w),
            None => first_answer(frames.skip(1), id),
        }
    }
}

/// The error of a stream without the answer.
pub open spec fn no_answer_text(id: u64) -> Seq<char> {
    "event-stream contained no JSON-RPC response matching id "@ + decimal(id as nat)
}

/// Finds the answer to a request in a stream of events. Frames that are no
/// documents, that are notifications or that answer something else are passed
/// over.
pub fn parse_sse_jsonrpc(body: &str, request_id: u64) -> (r: Result<JsonRpcResponse, String>)
    ensures
        match r {
            Ok(w) => first_answer(frames_of(body@), request_id) == Some(w@),
            Err(e) => first_answer(frames_of(body@), request_id) is None && e@ == no_answer_text(request_id),
        },
{
    let frames = sse_frames(body);
    let ghost all = texts(frames@);
    let mut i: usize = 0;
    assert(all.skip(0) =~= all);
    while i < frames.len()
        invariant
            i <= frames.len(),
            all == texts(frames@),
            all == frames_of(body@),
            first_answer(all, request_id) == first_answer(all.skip(i as int), request_id),
        decreases frames.len() - i,
    {
        assert(all.skip(i as int)[0] == frames@[i as int]@);
        assert(all.skip(i as int).skip(1) =~= all.skip(i + 1));
        if !frames[i].as_str().is_empty() {
            if let Some(doc) = parse_json(frames[i].as_str()) {
                if let Some(w) = match_answer(&doc, request_id) {
                    return Ok(w);
                }
            }
        }
        i = i + 1;
    }
    let mut e: String = "event-stream contained no JSON-RPC response matching id ".to_owned();
    push_decimal(&mut e, request_id);
    Err(e)
}

// ---- Requests ----

#[derive(Debug, Clone, Copy, PartialEq, Eq, Structural)]
pub enum HttpMethod {
    Post,
    Delete,
}

/// A request to be sent.
#[derive(Debug)]
pub struct HttpRequest {
    pub method: HttpMethod,
    pub url: String,
    pub headers: Vec<(String, String)>,
    pub body: Option<Json>,
}

/// What came back. The headers are those that were there and are text.
#[derive(Debug)]
pub struct HttpReply {
    pub status: u16,
    /// The status as it is shown.
    pub status_text: String,
    pub session_id: Option<String>,
    pub content_type: Option<String>,
    pub body: String,
    /// The answer that the body as a whole is read as, if it is one.
    pub answer: Option<JsonRpcResponse>,
}

/// Why a request has no result.
#[derive(Debug)]
pub enum HttpError {
    /// The server wants a login first.
    RequiresLogin { server: String },
    Status { server: String, status: String, body: String },
    BadStream { server: String, cause: String, head: String },
    BadBody { server: String, content_type: String, head: String },
    /// The server answered with an error.
    Answered { message: String, code: i32 },
    MissingResult,
}

#[verifier::ext_equal]
pub enum HttpErrorView {
    RequiresLogin(Seq<char>),
    Status(Seq<char>, Seq<char>, Seq<char>),
    BadStream(Seq<char>, Seq<char>, Seq<char>),
    BadBody(Seq<char>, Seq<char>, Seq<char>),
    Answered(Seq<char>, i32),
    MissingResult,
}

impl View for HttpError {
    type V = HttpErrorView;

    open spec fn view(&self) -> HttpErrorView {
        match self {
            HttpError::RequiresLogin { server } => HttpErrorView::RequiresLogin(server@),
            HttpError::Status { server, status, body } => HttpErrorView::Status(server@, status@, body@),
            HttpError::BadStream { server, cause, head } => HttpErrorView::BadStream(server@, cause@, head@),
            HttpError::BadBody { server, content_type, head } => HttpErrorView::BadBody(
                server@,
                content_type@,
                head@,
            ),
            HttpError::Answered { message, code } => HttpErrorView::Answered(message@, *code),
            HttpError::MissingResult => HttpErrorView::MissingResult,
        }
    }
}

/// An error as it is shown. `head` and `content_type` are the start of the body and
/// its type, in quotes.
pub open spec fn http_error_text(e: HttpErrorView, head: Seq<char>, content_type: Seq<char>) -> Seq<char> {
    match e {
        HttpErrorView::RequiresLogin(s) => "MCP server "@ + s + " requires OAuth; run `atomcode mcp login "@ + s
            + "` or `/mcp login "@ + s + "`"@,
        HttpErrorView::Status(s, status, body) => "MCP server "@ + s + " returned HTTP "@ + status + ": "@ + body,
        HttpErrorView::BadStream(s, _, _) => "Failed to parse MCP SSE response from "@ + s + " (first 200 bytes: "@
            + head + ")"@,
        HttpErrorView::BadBody(s, _, _) => "Failed to parse MCP HTTP response from "@ + s + " (content-type="@
            + content_type + ", first 200 bytes: "@ + head + ")"@,
        HttpErrorView::Answered(message, code) => "MCP error "@ + message + " (code "@ + decimal_int(code as int)
            + "): "@,
        HttpErrorView::MissingResult => "MCP response missing result"@,
    }
}

impl HttpError {
    /// The error as it is shown. `head` and `content_type` are the start of the body
    /// and its type, in quotes.
    pub fn text(&self, head: &str, content_type: &str) -> (r: String)
        ensures
            r@ == http_error_text(self@, head@, content_type@),
    {
        let mut out = String::new();
        match self {
            HttpError::RequiresLogin { server } => {
                out.append("MCP server ");
                out.append(server.as_str());
                out.append(" requires OAuth; run `atomcode mcp login ");
                out.append(server.as_str());
                out.append("` or `/mcp login ");
                out.append(server.as_str());
                out.append("`");
            },
            HttpError::Status { server, status, body } => {
                out.append("MCP server ");
                out.append(server.as_str());
                out.append(" returned HTTP ");
                out.append(status.as_str());
                out.append(": ");
                out.append(body.as_str());
            },
            HttpError::BadStream { server, .. } => {
                out.append("Failed to parse MCP SSE response from ");
                out.append(server.as_str());
                out.append(" (first 200 bytes: ");
                out.append(head);
                out.append(")");
            },
            HttpError::BadBody { server, .. } => {
                out.append("Failed to parse MCP HTTP response from ");
                out.append(server.as_str());
                out.append(" (content-type=");
                out.append(content_type);
                out.append(", first 200 bytes: ");
                out.append(head);
                out.append(")");
            },
            HttpError::Answered { message, code } => {
                out.append("MCP error ");
                out.append(message.as_str());
                out.append(" (code ");
                push_decimal_int(&mut out, *code as i64);
                out.append("): ");
            },
            HttpError::MissingResult => {
                out.append("MCP response missing result");
            },
        }
        assert(out@ =~= http_error_text(self@, head@, content_type@));
        out
    }
}

/// Whether a list of headers has one of this name, in any case.
pub open spec fn has_header(headers: Seq<(Seq<char>, Seq<char>)>, name: Seq<char>) -> bool {
    exists|i: int|
        0 <= i < headers.len() && ascii_lower_text((#[trigger] headers[i]).0) == ascii_lower_text(name)
}

pub open spec fn one_header(b: bool, name: Seq<char>, value: Seq<char>) -> Seq<(Seq<char>, Seq<char>)> {
    if b {
        seq![(name, value)]
    } else {
        Seq::empty()
    }
}

pub open spec fn opt_header(b: bool, name: Seq<char>, value: Option<Seq<char>>) -> Seq<(Seq<char>, Seq<char>)> {
    match value {
        Some(v) => one_header(b, name, v),
        None => Seq::empty(),
    }
}

pub open spec fn bearer(token: Option<Seq<char>>) -> Option<Seq<char>> {
    match token {
        Some(t) => Some("Bearer "@ + t),
        None => None,
    }
}

/// The headers of a request: what the configuration does not give is filled in.
pub open spec fn request_headers(
    own: Seq<(Seq<char>, Seq<char>)>,
    session: Option<Seq<char>>,
    token: Option<Seq<char>>,
) -> Seq<(Seq<char>, Seq<char>)> {
    one_header(!has_header(own, "accept"@), "Accept"@, "application/json, text/event-stream"@) + own + opt_header(
        !has_header(own, "mcp-session-id"@),
        "Mcp-Session-Id"@,
        session,
    ) + opt_header(!has_header(own, "authorization"@), "Authorization"@, bearer(token))
}

/// A request's document. Parameters that are not there are left out.
pub open spec fn request_document(id: u64, method: Seq<char>, params: Option<JsonView>) -> JsonView {
    JsonView::Object(
        seq![
            ("jsonrpc"@, JsonView::Text("2.0"@)),
            ("id"@, JsonView::Number(decimal(id as nat))),
            ("method"@, JsonView::Text(method)),
        ] + (match params {
            Some(p) => seq![("params"@, p)],
            None => Seq::empty(),
        }),
    )
}

pub open spec fn notification_document(method: Seq<char>) -> JsonView {
    JsonView::Object(seq![("jsonrpc"@, JsonView::Text("2.0"@)), ("method"@, JsonView::Text(method))])
}

/// What a client says of itself when it introduces itself.
pub open spec fn introduction(version: Seq<char>) -> JsonView {
    JsonView::Object(
        seq![
            ("protocolVersion"@, JsonView::Text("2024-11-05"@)),
            ("capabilities"@, JsonView::Object(seq![("tools"@, JsonView::Object(Seq::empty()))])),
            (
                "clientInfo"@,
                JsonView::Object(
                    seq![("name"@, JsonView::Text("atomcode"@)), ("version"@, JsonView::Text(version))],
                ),
            ),
        ],
    )
}

pub open spec fn call_params(tool: Seq<char>, arguments: JsonView) -> JsonView {
    JsonView::Object(seq![("name"@, JsonView::Text(tool)), ("arguments"@, arguments)])
}

fn push_all(out: &mut Vec<(String, String)>, m: &TextMap<String>)
    requires
        m.wf(),
    ensures
        pairs(final(out)@) == pairs(old(out)@) + pairs(m.list()),
{
    let ghost start = pairs(out@);
    let ghost list = m.list();
    let n = m.len();
    let mut i: usize = 0;
    assert(pairs(list).take(0) =~= Seq::<(Seq<char>, Seq<char>)>::empty());
    assert(start + pairs(list).take(0) =~= start);
    while i < n
        invariant
            i <= n == list.len(),
            m.wf(),
            list == m.list(),
            pairs(out@) == start + pairs(list).take(i as int),
        decreases n - i,
    {
        push_pair(out, m.key_at(i).as_str(), m.value_at(i).as_str());
        assert(pairs(list)[i as int] == (list[i as int].0@, list[i as int].1@));
        assert(start + pairs(list).take(i + 1) =~= (start + pairs(list).take(i as int)).push(pairs(list)[i as int]));
        i = i + 1;
    }
    assert(pairs(list).take(i as int) =~= pairs(list));
}

/// A client of a server at a web address.
#[derive(Debug)]
pub struct HttpClient {
    pub server_name: String,
    pub url: String,
    pub headers: TextMap<String>,
    pub auth: Option<McpHttpAuthConfig>,
    pub timeout_ms: u64,
    pub status: ServerStatus,
    pub next_id: u64,
    /// What the server wants to see again on every request.
    pub session_id: Option<String>,
}

/// Whether a status means success.
pub open spec fn is_success(status: u16) -> bool {
    200 <= status < 300
}

pub open spec fn opt_response(r: Option<JsonRpcResponse>) -> Option<ResponseView> {
    match r {
        Some(w) => Some(w@),
        None => None,
    }
}

/// The answer that a reply carries, or why it carries none: the one with the id in a
/// stream of events, or else the one that the body is as a whole.
pub open spec fn reply_answer(
    server: Seq<char>,
    id: u64,
    content_type: Option<Seq<char>>,
    body: Seq<char>,
    answer: Option<ResponseView>,
) -> Result<ResponseView, HttpErrorView> {
    let kind = match content_type {
        Some(t) => ascii_lower_text(t),
        None => Seq::empty(),
    };
    if contains(kind, "text/event-stream"@) {
        match first_answer(frames_of(body), id) {
            Some(w) => Ok(w),
            None => Err(HttpErrorView::BadStream(server, no_answer_text(id), prefix(body, 200))),
        }
    } else {
        match answer {
            Some(w) => Ok(w),
            None => Err(HttpErrorView::BadBody(server, kind, prefix(body, 200))),
        }
    }
}

/// The result of an answer: an error wins over a result.
pub open spec fn answer_result(w: ResponseView) -> Result<JsonView, HttpErrorView> {
    match w.error {
        Some(e) => Err(HttpErrorView::Answered(e.message, e.code)),
        None => match w.result {
            Some(j) => Ok(j),
            None => Err(HttpErrorView::MissingResult),
        },
    }
}

/// Why a reply without success has no result.
pub open spec fn status_error(server: Seq<char>, status: u16, status_text: Seq<char>, body: Seq<char>, login: bool) -> HttpErrorView {
    if (status == 401 || status == 403) && login {
        HttpErrorView::RequiresLogin(server)
    } else {
        HttpErrorView::Status(server, status_text, body)
    }
}

/// The session after a reply: a header that is there and not empty names it.
pub open spec fn session_after(session: Option<Seq<char>>, header: Option<Seq<char>>) -> Option<Seq<char>> {
    match header {
        Some(h) => if h.len() > 0 {
            Some(h)
        } else {
            session
        },
        None => session,
    }
}

/// The result of an answer.
pub fn take_result(answer: JsonRpcResponse) -> (r: Result<Json, HttpError>)
    ensures
        match r {
            Ok(j) => answer_result(answer@) == Ok::<JsonView, HttpErrorView>(j@),
            Err(e) => answer_result(answer@) == Err::<JsonView, HttpErrorView>(e@),
        },
{
    match answer.error {
        Some(e) => Err(HttpError::Answered { message: e.message, code: e.code }),
        None => match answer.result {
            Some(j) => Ok(j),
            None => Err(HttpError::MissingResult),
        },
    }
}

/// The answer that a reply carries.
pub fn read_answer(
    server: &str,
    id: u64,
    content_type: &Option<String>,
    body: &str,
    answer: Option<JsonRpcResponse>,
) -> (r: Result<JsonRpcResponse, HttpError>)
    ensures
        match r {
            Ok(w) => reply_answer(server@, id, opt(*content_type), body@, opt_response(answer)) == Ok::<
                ResponseView,
                HttpErrorView,
            >(w@),
            Err(e) => reply_answer(server@, id, opt(*content_type), body@, opt_response(answer)) == Err::<
                ResponseView,
                HttpErrorView,
            >(e@),
        },
{
    let kind = match content_type {
        Some(t) => to_ascii_lower(t.as_str()),
        None => {
            let none = String::new();
            assert(none@ =~= Seq::<char>::empty());
            none
        },
    };
    if contains_text(kind.as_str(), "text/event-stream") {
        match parse_sse_jsonrpc(body, id) {
            Ok(w) => Ok(w),
            Err(cause) => Err(
                HttpError::BadStream { server: server.to_owned(), cause, head: prefix_of(body, 200) },
            ),
        }
    } else {
        match answer {
            Some(w) => Ok(w),
            None => Err(
                HttpError::BadBody { server: server.to_owned(), content_type: kind, head: prefix_of(body, 200) },
            ),
        }
    }
}

impl HttpClient {
    pub open spec fn wf(&self) -> bool {
        self.headers.wf()
    }

    /// The headers that the configuration gives.
    pub open spec fn own_headers(&self) -> Seq<(Seq<char>, Seq<char>)> {
        pairs(self.headers.list())
    }

    pub fn new(
        server_name: String,
        url: String,
        headers: TextMap<String>,
        auth: Option<McpHttpAuthConfig>,
        timeout_ms: Option<u64>,
    ) -> (r: HttpClient)
        requires
            headers.wf(),
        ensures
            r.wf(),
            r.server_name == server_name,
            r.url == url,
            r.headers == headers,
            r.auth == auth,
            r.timeout_ms == match timeout_ms {
                Some(t) => t,
                None => 30_000,
            },
            r.status@ == StatusView::Disconnected,
            r.next_id == 1,
            r.session_id is None,
    {
        HttpClient {
            server_name,
            url,
            headers,
            auth,
            timeout_ms: match timeout_ms {
                Some(t) => t,
                None => DEFAULT_TIMEOUT_MS,
            },
            status: ServerStatus::Disconnected,
            next_id: 1,
            session_id: None,
        }
    }

    pub fn server_name(&self) -> (r: &str)
        ensures
            r@ == self.server_name@,
    {
        self.server_name.as_str()
    }

    pub fn status(&self) -> (r: ServerStatus)
        ensures
            r@ == self.status@,
    {
        self.status.clone()
    }

    pub fn session_id(&self) -> (r: Option<String>)
        ensures
            opt(r) == opt(self.session_id),
    {
        crate::conversation::clone_opt(&self.session_id)
    }

    /// Takes in the session that a reply's header names.
    pub fn capture_session_id(&mut self, header: &Option<String>)
        ensures
            opt(final(self).session_id) == session_after(opt(old(self).session_id), opt(*header)),
            *final(self) == (HttpClient { session_id: final(self).session_id, ..*old(self) }),
    {
        if let Some(h) = header {
            if !h.as_str().is_empty() {
                self.session_id = Some(h.clone());
            }
        }
    }

    fn has_own(&self, name: &str) -> (r: bool)
        requires
            self.wf(),
        ensures
            r == has_header(self.own_headers(), name@),
    {
        let n = self.headers.len();
        let ghost own = self.own_headers();
        let ghost list = self.headers.list();
        let mut i: usize = 0;
        while i < n
            invariant
                i <= n == list.len(),
                self.wf(),
                list == self.headers.list(),
                own == pairs(list),
                forall|k: int|
                    0 <= k < i ==> ascii_lower_text((#[trigger] own[k]).0) != ascii_lower_text(name@),
            decreases n - i,
        {
            assert(own[i as int].0 == list[i as int].0@);
            if same_ignoring_ascii_case(self.headers.key_at(i).as_str(), name) {
                return true;
            }
            i = i + 1;
        }
        false
    }

    /// Whether a request carries a token, where there is one.
    pub fn wants_token(&self) -> (r: bool)
        requires
            self.wf(),
        ensures
            r == (!has_header(self.own_headers(), "authorization"@) && self.auth is Some),
    {
        self.auth.is_some() && !self.has_own("authorization")
    }

    fn full_headers(&self, token: &Option<String>) -> (r: Vec<(String, String)>)
        requires
            self.wf(),
        ensures
            pairs(r@) == request_headers(self.own_headers(), opt(self.session_id), opt(*token)),
    {
        let mut out: Vec<(String, String)> = Vec::new();
        let ghost own = self.own_headers();
        assert(pairs(out@) =~= Seq::<(Seq<char>, Seq<char>)>::empty());
        if !self.has_own("accept") {
            push_pair(&mut out, "Accept", "application/json, text/event-stream");
        }
        let ghost a = pairs(out@);
        assert(a =~= one_header(
            !has_header(own, "accept"@),
            "Accept"@,
            "application/json, text/event-stream"@,
        ));
        push_all(&mut out, &self.headers);
        let ghost b = pairs(out@);
        if !self.has_own("mcp-session-id") {
            if let Some(s) = &self.session_id {
                push_pair(&mut out, "Mcp-Session-Id", s.as_str());
            }
        }
        let ghost c = pairs(out@);
        assert(c =~= b + opt_header(
            !has_header(own, "mcp-session-id"@),
            "Mcp-Session-Id"@,
            opt(self.session_id),
        ));
        if !self.has_own("authorization") {
            if let Some(t) = token {
                let mut value: String = "Bearer ".to_owned();
                value.append(t.as_str());
                push_pair(&mut out, "Authorization", value.as_str());
            }
        }
        assert(pairs(out@) =~= c + opt_header(
            !has_header(own, "authorization"@),
            "Authorization"@,
            bearer(opt(*token)),
        ));
        out
    }

    /// The next request, with its id.
    pub fn send_request(&mut self, method: &str, params: Option<Json>, token: &Option<String>) -> (r: (
        u64,
        HttpRequest,
    ))
        requires
            old(self).wf(),
        ensures
            final(self).wf(),
            *final(self) == (HttpClient { next_id: final(self).next_id, ..*old(self) }),
            final(self).next_id == (if old(self).next_id == u64::MAX {
                0
            } else {
                old(self).next_id + 1
            }),
            r.0 == old(self).next_id,
            r.1.method == HttpMethod::Post,
            r.1.url@ == old(self).url@,
            pairs(r.1.headers@) == request_headers(
                old(self).own_headers(),
                opt(old(self).session_id),
                opt(*token),
            ),
            r.1.body is Some,
            r.1.body->0@ == request_document(old(self).next_id, method@, opt_json(params)),
    {
        let id: u64 = self.next_id;
        if id == u64::MAX {
            self.next_id = 0;
        } else {
            self.next_id = id + 1;
        }
        let mut body = Json::empty_object().with("jsonrpc", Json::of_text("2.0")).with("id", Json::of_uint(id)).with(
            "method",
            Json::of_text(method),
        );
        let ghost expected = request_document(id, method@, opt_json(params));
        match params {
            Some(p) => {
                body = body.with("params", p);
            },
            None => {},
        }
        assert(body@->Object_0 =~= expected->Object_0);
        let request = HttpRequest {
            method: HttpMethod::Post,
            url: self.url.clone(),
            headers: self.full_headers(token),
            body: Some(body),
        };
        (id, request)
    }

    /// A message that will not be answered.
    pub fn send_notification(&self, method: &str, token: &Option<String>) -> (r: HttpRequest)
        requires
            self.wf(),
        ensures
            r.method == HttpMethod::Post,
            r.url@ == self.url@,
            pairs(r.headers@) == request_headers(self.own_headers(), opt(self.session_id), opt(*token)),
            r.body is Some,
            r.body->0@ == notification_document(method@),
    {
        let body = Json::empty_object().with("jsonrpc", Json::of_text("2.0")).with("method", Json::of_text(method));
        assert(body@->Object_0 =~= notification_document(method@)->Object_0);
        HttpRequest {
            method: HttpMethod::Post,
            url: self.url.clone(),
            headers: self.full_headers(token),
            body: Some(body),
        }
    }

    /// What a reply to the request with this id comes to. The session that a reply
    /// with success names is kept.
    pub fn receive(&mut self, id: u64, reply: HttpReply) -> (r: Result<Json, HttpError>)
        requires
            old(self).wf(),
        ensures
            final(self).wf(),
            *final(self) == (HttpClient { session_id: final(self).session_id, ..*old(self) }),
            if is_success(reply.status) {
                &&& opt(final(self).session_id) == session_after(opt(old(self).session_id), opt(reply.session_id))
                &&& match reply_answer(
                    old(self).server_name@,
                    id,
                    opt(reply.content_type),
                    reply.body@,
                    opt_response(reply.answer),
                ) {
                    Ok(w) => match r {
                        Ok(j) => answer_result(w) == Ok::<JsonView, HttpErrorView>(j@),
                        Err(e) => answer_result(w) == Err::<JsonView, HttpErrorView>(e@),
                    },
                    Err(x) => r matches Err(e) && e@ == x,
                }
            } else {
                &&& final(self).session_id == old(self).session_id
                &&& r matches Err(e) && e@ == status_error(
                    old(self).server_name@,
                    reply.status,
                    reply.status_text@,
                    reply.body@,
                    old(self).auth is Some,
                )
            },
    {
        if !(200 <= reply.status && reply.status < 300) {
            if (reply.status == 401 || reply.status == 403) && self.auth.is_some() {
                return Err(HttpError::RequiresLogin { server: self.server_name.clone() });
            }
            return Err(
                HttpError::Status {
                    server: self.server_name.clone(),
                    status: reply.status_text,
                    body: reply.body,
                },
            );
        }
        self.capture_session_id(&reply.session_id);
        match read_answer(
            self.server_name.as_str(),
            id,
            &reply.content_type,
            reply.body.as_str(),
            reply.answer,
        ) {
            Ok(w) => take_result(w),
            Err(e) => Err(e),
        }
    }

    /// The introduction to the server.
    pub fn initialize(&mut self, version: &str, token: &Option<String>) -> (r: (u64, HttpRequest))
        requires
            old(self).wf(),
        ensures
            final(self).wf(),
            final(self).status@ == StatusView::Connecting,
            *final(self) == (HttpClient {
                status: final(self).status,
                next_id: final(self).next_id,
                ..*old(self)
            }),
            final(self).next_id == (if old(self).next_id == u64::MAX {
                0
            } else {
                old(self).next_id + 1
            }),
            r.0 == old(self).next_id,
            r.1.method == HttpMethod::Post,
            r.1.url@ == old(self).url@,
            pairs(r.1.headers@) == request_headers(
                old(self).own_headers(),
                opt(old(self).session_id),
                opt(*token),
            ),
            r.1.body is Some,
            r.1.body->0@ == request_document(old(self).next_id, "initialize"@, Some(introduction(version@))),
    {
        self.status = ServerStatus::Connecting;
        let tools = Json::empty_object().with("tools", Json::empty_object());
        let info = Json::empty_object().with("name", Json::of_text("atomcode")).with(
            "version",
            Json::of_text(version),
        );
        let params = Json::empty_object().with("protocolVersion", Json::of_text("2024-11-05")).with(
            "capabilities",
            tools,
        ).with("clientInfo", info);
        let ghost expected = introduction(version@);
        assert(tools@->Object_0 =~= expected->Object_0[1].1->Object_0);
        assert(info@->Object_0 =~= expected->Object_0[2].1->Object_0);
        assert(params@->Object_0 =~= expected->Object_0);
        self.send_request("initialize", Some(params), token)
    }

    /// The server has answered its introduction: what is said next.
    pub fn initialized(&mut self, token: &Option<String>) -> (r: HttpRequest)
        requires
            old(self).wf(),
        ensures
            final(self).wf(),
            final(self).status@ == StatusView::Connected,
            *final(self) == (HttpClient { status: final(self).status, ..*old(self) }),
            r.method == HttpMethod::Post,
            r.url@ == old(self).url@,
            pairs(r.headers@) == request_headers(old(self).own_headers(), opt(old(self).session_id), opt(*token)),
            r.body is Some,
            r.body->0@ == notification_document("notifications/initialized"@),
    {
        self.status = ServerStatus::Connected;
        self.send_notification("notifications/initialized", token)
    }

    /// The request for the tools of the server.
    pub fn list_tools(&mut self, token: &Option<String>) -> (r: (u64, HttpRequest))
        requires
            old(self).wf(),
        ensures
            final(self).wf(),
            *final(self) == (HttpClient { next_id: final(self).next_id, ..*old(self) }),
            final(self).next_id == (if old(self).next_id == u64::MAX {
                0
            } else {
                old(self).next_id + 1
            }),
            r.0 == old(self).next_id,
            r.1.method == HttpMethod::Post,
            r.1.url@ == old(self).url@,
            pairs(r.1.headers@) == request_headers(
                old(self).own_headers(),
                opt(old(self).session_id),
                opt(*token),
            ),
            r.1.body is Some,
            r.1.body->0@ == request_document(old(self).next_id, "tools/list"@, None),
    {
        self.send_request("tools/list", None, token)
    }

    /// The request to use a tool.
    pub fn call_tool(&mut self, tool_name: &str, arguments: Json, token: &Option<String>) -> (r: (u64, HttpRequest))
        requires
            old(self).wf(),
        ensures
            final(self).wf(),
            *final(self) == (HttpClient { next_id: final(self).next_id, ..*old(self) }),
            final(self).next_id == (if old(self).next_id == u64::MAX {
                0
            } else {
                old(self).next_id + 1
            }),
            r.0 == old(self).next_id,
            r.1.method == HttpMethod::Post,
            r.1.url@ == old(self).url@,
            pairs(r.1.headers@) == request_headers(
                old(self).own_headers(),
                opt(old(self).session_id),
                opt(*token),
            ),
            r.1.body is Some,
            r.1.body->0@ == request_document(
                old(self).next_id,
                "tools/call"@,
                Some(call_params(tool_name@, arguments@)),
            ),
    {
        let params = Json::empty_object().with("name", Json::of_text(tool_name)).with("arguments", arguments);
        assert(params@->Object_0 =~= call_params(tool_name@, arguments@)->Object_0);
        self.send_request("tools/call", Some(params), token)
    }

    /// The request that ends the session, if there is one.
    pub fn close_request(&self) -> (r: Option<HttpRequest>)
        requires
            self.wf(),
        ensures
            r is Some <==> self.session_id is Some,
            match r {
                Some(q) => {
                    &&& q.method == HttpMethod::Delete
                    &&& q.url@ == self.url@
                    &&& q.body is None
                    &&& pairs(q.headers@) == self.own_headers() + opt_header(
                        !has_header(self.own_headers(), "mcp-session-id"@),
                        "Mcp-Session-Id"@,
                        opt(self.session_id),
                    )
                },
                None => true,
            },
    {
        match &self.session_id {
            Some(session) => {
                let mut out: Vec<(String, String)> = Vec::new();
                assert(pairs(out@) =~= Seq::<(Seq<char>, Seq<char>)>::empty());
                push_all(&mut out, &self.headers);
                assert(pairs(out@) =~= self.own_headers());
                if !self.has_own("mcp-session-id") {
                    push_pair(&mut out, "Mcp-Session-Id", session.as_str());
                }
                assert(pairs(out@) =~= self.own_headers() + opt_header(
                    !has_header(self.own_headers(), "mcp-session-id"@),
                    "Mcp-Session-Id"@,
                    opt(self.session_id),
                ));
                Some(HttpRequest { method: HttpMethod::Delete, url: self.url.clone(), headers: out, body: None })
            },
            None => None,
        }
    }
}

/// Once a server has named a session, every request carries it, unless the
/// configuration pins another.
pub proof fn sessions_are_echoed(
    own: Seq<(Seq<char>, Seq<char>)>,
    session: Option<Seq<char>>,
    header: Seq<char>,
    token: Option<Seq<char>>,
)
    requires
        header.len() > 0,
        !has_header(own, "mcp-session-id"@),
    ensures
        request_headers(own, session_after(session, Some(header)), token).contains(("Mcp-Session-Id"@, header)),
{
    let now = session_after(session, Some(header));
    let first = one_header(!has_header(own, "accept"@), "Accept"@, "application/json, text/event-stream"@) + own;
    let all = request_headers(own, now, token);
    assert(all[first.len() as int] == ("Mcp-Session-Id"@, header));
}

/// What the configuration gives is sent as it is.
pub proof fn configured_headers_are_sent(
    own: Seq<(Seq<char>, Seq<char>)>,
    session: Option<Seq<char>>,
    token: Option<Seq<char>>,
    i: int,
)
    requires
        0 <= i < own.len(),
    ensures
        request_headers(own, session, token).contains(own[i]),
{
    let first = one_header(!has_header(own, "accept"@), "Accept"@, "application/json, text/event-stream"@);
    let all = request_headers(own, session, token);
    assert(all[first.len() + i] == own[i]);
}

/// The answer that is found in a stream is the answer to the request.
pub proof fn found_answers_match(frames: Seq<Seq<char>>, id: u64)
    ensures
        first_answer(frames, id) is Some ==> first_answer(frames, id)->0.id == id,
    decreases frames.len(),
{
    if frames.len() > 0 {
        found_answers_match(frames.skip(1), id);
    }
}

/// Where a line is not empty, it belongs to the frame of the lines around it; an empty
/// line ends a frame, and what follows is read on its own.
pub proof fn empty_lines_end_frames(v: Seq<Seq<char>>, w: Seq<Seq<char>>, data: Seq<char>)
    requires
        forall|i: int| 0 <= i < v.len() ==> (#[trigger] v[i]).len() > 0,
    ensures
        frames_from(v, data).len() == 1,
        frames_from(v + seq![Seq::<char>::empty()] + w, data) == frames_from(v, data) + frames_from(w, Seq::empty()),
    decreases v.len(),
{
    let all = v + seq![Seq::<char>::empty()] + w;
    if v.len() == 0 {
        assert(all[0].len() == 0);
        assert(all.skip(1) =~= w);
    } else {
        let t = v.skip(1);
        assert(v[0].len() > 0);
        assert(all[0] == v[0]);
        assert(all.skip(1) =~= t + seq![Seq::<char>::empty()] + w);
        assert forall|i: int| 0 <= i < t.len() implies (#[trigger] t[i]).len() > 0 by {
            assert(t[i] == v[i + 1]);
        }
        empty_lines_end_frames(t, w, more_data(data, without_space(v[0].skip(5))));
        empty_lines_end_frames(t, w, data);
        reveal_strlit("data:");
        assert("data:"@.len() == 5);
    }
}

/// The data of a frame is what follows `data:` on its lines, without a space at the
/// start, one below the other; other lines add nothing.
pub proof fn data_lines_make_a_frame(x: Seq<char>, y: Seq<char>, other: Seq<char>)
    requires
        other.len() > 0,
        !starts_with(other, "data:"@),
        x.len() > 0,
        x[0] != ' ',
        y.len() == 0 || y[0] != ' ',
    ensures
        frames_from(seq!["data:"@ + seq![' '] + x], Seq::empty()) == seq![x],
        frames_from(seq!["data:"@ + x], Seq::empty()) == seq![x],
        frames_from(seq!["data:"@ + seq![' '] + x, "data:"@ + y], Seq::empty()) == seq![x + "\n"@ + y],
        frames_from(seq![other, "data:"@ + x], Seq::empty()) == seq![x],
        frames_from(seq!["data:"@ + x, other], Seq::empty()) == seq![x],
{
    reveal_strlit("data:");
    reveal_strlit(" ");
    assert(" "@ =~= seq![' ']);
    lemma_data_line(x);
    lemma_data_line(y);
    let spaced = "data:"@ + seq![' '] + x;
    assert(spaced =~= "data:"@ + (seq![' '] + x));
    lemma_data_prefix(seq![' '] + x);
    assert((seq![' '] + x).subrange(0, 1) =~= seq![' ']);
    assert((seq![' '] + x).skip(1) =~= x);
    let none = Seq::<Seq<char>>::empty();
    let a = seq![spaced];
    assert(a.skip(1) =~= none);
    assert(frames_from(none, x) == seq![x]);
    let b = seq!["data:"@ + x];
    assert(b.skip(1) =~= none);
    let c = seq![spaced, "data:"@ + y];
    assert(c.skip(1) =~= seq!["data:"@ + y]);
    assert(seq!["data:"@ + y].skip(1) =~= none);
    assert(frames_from(none, x + "\n"@ + y) == seq![x + "\n"@ + y]);
    assert(frames_from(seq!["data:"@ + y], x) == seq![x + "\n"@ + y]);
    assert(frames_from(b, Seq::empty()) == seq![x]);
    lemma_other_line(other, b, Seq::empty());
    assert(seq![other] + b =~= seq![other, "data:"@ + x]);
    lemma_other_line(other, none, x);
    assert(seq![other] + none =~= seq![other]);
    let e = seq!["data:"@ + x, other];
    assert(e[0] == "data:"@ + x);
    assert(e.skip(1) =~= seq![other]);
    assert(frames_from(e, Seq::empty()) == frames_from(seq![other], x));
}

proof fn lemma_other_line(other: Seq<char>, rest: Seq<Seq<char>>, data: Seq<char>)
    requires
        other.len() > 0,
        !starts_with(other, "data:"@),
    ensures
        frames_from(seq![other] + rest, data) == frames_from(rest, data),
{
    let v = seq![other] + rest;
    assert(v[0] == other);
    assert(v.skip(1) =~= rest);
}

proof fn lemma_data_prefix(x: Seq<char>)
    ensures
        without_prefix("data:"@ + x, "data:"@) == Some(x),
        ("data:"@ + x).len() > 0,
{
    reveal_strlit("data:");
    let l = "data:"@ + x;
    assert(l.subrange(0, "data:"@.len() as int) =~= "data:"@);
    assert(l.skip("data:"@.len() as int) =~= x);
}

proof fn lemma_data_line(x: Seq<char>)
    requires
        x.len() == 0 || x[0] != ' ',
    ensures
        without_prefix("data:"@ + x, "data:"@) == Some(x),
        ("data:"@ + x).len() > 0,
        without_space(x) == x,
{
    lemma_data_prefix(x);
    reveal_strlit(" ");
    if starts_with(x, " "@) {
        assert(x.subrange(0, 1)[0] == x[0]);
    }
}

/// The answer is in the first frame that has the request's number and is an answer;
/// frames before it do not count.
pub proof fn the_first_matching_frame_answers(frames: Seq<Seq<char>>, id: u64, i: int)
    requires
        0 <= i < frames.len(),
        answer_to(frame_document(frames[i]), id) is Some,
        forall|k: int| 0 <= k < i ==> answer_to(frame_document(#[trigger] frames[k]), id) is None,
    ensures
        first_answer(frames, id) == answer_to(frame_document(frames[i]), id),
    decreases frames.len(),
{
    if i > 0 {
        let t = frames.skip(1);
        assert(answer_to(frame_document(frames[0]), id) is None);
        assert(t[i - 1] == frames[i]);
        assert forall|k: int| 0 <= k < i - 1 implies answer_to(frame_document(#[trigger] t[k]), id) is None by {
            assert(t[k] == frames[k + 1]);
        }
        the_first_matching_frame_answers(t, id, i - 1);
    }
}

/// Only the answer with the request's number counts, and an empty frame says nothing.
pub proof fn answers_have_the_number_of_the_request(doc: JsonView, id: u64)
    ensures
        doc.uint_at("id"@) != Some(id) ==> answer_to(Some(doc), id) is None,
        doc.uint_at("id"@) == Some(id) ==> answer_to(Some(doc), id) == response_of(doc),
        answer_to(None, id) is None,
        frame_document(Seq::empty()) is None,
{
}

/// An error wins over a result; an answer with neither is one without a result.
pub proof fn errors_win_over_results(w: ResponseView)
    ensures
        w.error is Some ==> answer_result(w) == Err::<JsonView, HttpErrorView>(
            HttpErrorView::Answered(w.error->0.message, w.error->0.code),
        ),
        w.error is None && w.result is Some ==> answer_result(w) == Ok::<JsonView, HttpErrorView>(w.result->0),
        w.error is None && w.result is None ==> answer_result(w) == Err::<JsonView, HttpErrorView>(
            HttpErrorView::MissingResult,
        ),
{
}

/// A request that is refused for want of a login says so where a login is configured;
/// every other reply without success is shown with its status and its body.
pub proof fn refusals_ask_for_a_login(server: Seq<char>, status: u16, text: Seq<char>, body: Seq<char>, login: bool)
    ensures
        login && (status == 401 || status == 403) ==> status_error(server, status, text, body, login)
            == HttpErrorView::RequiresLogin(server),
        !login || (status != 401 && status != 403) ==> status_error(server, status, text, body, login)
            == HttpErrorView::Status(server, text, body),
        is_success(status) <==> status / 100 == 2,
{
}

/// A reply that is a stream of events is searched for the answer; any other is the answer
/// that its body is as a whole. What cannot be read is shown with its first 200
/// characters.
pub proof fn replies_are_streams_or_documents(
    server: Seq<char>,
    id: u64,
    kind: Seq<char>,
    body: Seq<char>,
    answer: Option<ResponseView>,
)
    ensures
        contains(ascii_lower_text(kind), "text/event-stream"@) && first_answer(frames_of(body), id) is Some
            ==> reply_answer(server, id, Some(kind), body, answer) == Ok::<ResponseView, HttpErrorView>(
            first_answer(frames_of(body), id)->0,
        ),
        contains(ascii_lower_text(kind), "text/event-stream"@) && first_answer(frames_of(body), id) is None
            ==> reply_answer(server, id, Some(kind), body, answer) is Err,
        !contains(ascii_lower_text(kind), "text/event-stream"@) && answer is Some ==> reply_answer(
            server,
            id,
            Some(kind),
            body,
            answer,
        ) == Ok::<ResponseView, HttpErrorView>(answer->0),
        !contains(ascii_lower_text(kind), "text/event-stream"@) && answer is None && body.len() <= 200 ==> reply_answer(
            server,
            id,
            Some(kind),
            body,
            answer,
        ) == Err::<ResponseView, HttpErrorView>(HttpErrorView::BadBody(server, ascii_lower_text(kind), body)),
        !contains(ascii_lower_text(kind), "text/event-stream"@) && answer is None && body.len() > 200 ==> reply_answer(
            server,
            id,
            Some(kind),
            body,
            answer,
        ) == Err::<ResponseView, HttpErrorView>(
            HttpErrorView::BadBody(server, ascii_lower_text(kind), body.take(200)),
        ),
        answer is Some ==> reply_answer(server, id, None, body, answer) == Ok::<ResponseView, HttpErrorView>(answer->0),
{
    reveal_strlit("text/event-stream");
    assert(!contains(Seq::<char>::empty(), "text/event-stream"@)) by {
        assert("text/event-stream"@.len() > 0);
    }
}

/// A session stays the one that was named last; a reply that names none, or an empty one,
/// leaves it.
pub proof fn sessions_stay_until_renamed(session: Option<Seq<char>>, header: Seq<char>)
    ensures
        header.len() > 0 ==> session_after(session, Some(header)) == Some(header),
        header.len() == 0 ==> session_after(session, Some(header)) == session,
        session_after(session, None) == session,
{
}

/// A request takes both kinds of replies and carries its token, unless the configuration
/// gives these headers, in any case of their letters.
pub proof fn requests_carry_what_they_need(
    own: Seq<(Seq<char>, Seq<char>)>,
    session: Option<Seq<char>>,
    token: Seq<char>,
)
    ensures
        !has_header(own, "accept"@) ==> request_headers(own, session, Some(token)).contains(
            ("Accept"@, "application/json, text/event-stream"@),
        ),
        !has_header(own, "authorization"@) ==> request_headers(own, session, Some(token)).contains(
            ("Authorization"@, "Bearer "@ + token),
        ),
        has_header(own, "accept"@) && has_header(own, "authorization"@) && has_header(own, "mcp-session-id"@)
            ==> request_headers(own, session, Some(token)) == own,
        request_headers(own, session, None).len() <= own.len() + 2,
{
    let all = request_headers(own, session, Some(token));
    let first = one_header(!has_header(own, "accept"@), "Accept"@, "application/json, text/event-stream"@);
    let mid = opt_header(!has_header(own, "mcp-session-id"@), "Mcp-Session-Id"@, session);
    if !has_header(own, "accept"@) {
        assert(all[0] == ("Accept"@, "application/json, text/event-stream"@));
    }
    if !has_header(own, "authorization"@) {
        assert(all[(first.len() + own.len() + mid.len()) as int] == ("Authorization"@, "Bearer "@ + token));
    }
    if has_header(own, "accept"@) && has_header(own, "authorization"@) && has_header(own, "mcp-session-id"@) {
        assert(all =~= own);
    }
}

/// A request has its number and its method, and its parameters where it has any; a
/// message that is not answered has no number.
pub proof fn requests_have_numbers(id: u64, method: Seq<char>, params: JsonView)
    ensures
        ({
            let o = request_document(id, method, Some(params))->Object_0;
            let p = request_document(id, method, None)->Object_0;
            let n = notification_document(method)->Object_0;
            &&& o.contains(("jsonrpc"@, JsonView::Text("2.0"@)))
            &&& o.contains(("id"@, JsonView::Number(decimal(id as nat))))
            &&& o.contains(("method"@, JsonView::Text(method)))
            &&& o.contains(("params"@, params))
            &&& p == o.take(3) && o.len() == 4
            &&& n.len() == 2 && n.contains(("method"@, JsonView::Text(method)))
        }),
{
    let o = request_document(id, method, Some(params))->Object_0;
    let p = request_document(id, method, None)->Object_0;
    let n = notification_document(method)->Object_0;
    assert(o[0] == ("jsonrpc"@, JsonView::Text("2.0"@)));
    assert(o[1] == ("id"@, JsonView::Number(decimal(id as nat))));
    assert(o[2] == ("method"@, JsonView::Text(method)));
    assert(o[3] == ("params"@, params));
    assert(p =~= o.take(3));
    assert(n[1] == ("method"@, JsonView::Text(method)));
}

/// A call of a tool holds the tool and its arguments.
pub proof fn calls_hold_the_tool_and_its_arguments(tool: Seq<char>, arguments: JsonView)
    ensures
        call_params(tool, arguments).text_at("name"@) == Some(tool),
        call_params(tool, arguments).get("arguments"@) == Some(arguments),
{
    reveal_strlit("name");
    reveal_strlit("arguments");
    assert("name"@.len() == 4 && "arguments"@.len() == 9);
    let o = call_params(tool, arguments)->Object_0;
    members_are_found_by_their_key(o, 0);
    members_are_found_by_their_key(o, 1);
}

} // verus!
