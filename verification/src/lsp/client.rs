//! The client side of the protocol: which messages go to a language server,
//! and what its messages change. Carrying the bytes is left to the caller.

use std::collections::HashSet;

use vstd::prelude::*;
use vstd::string::*;
use vstd::utf8::encode_utf8;

use crate::json::{json_views, member, members_are_found_by_their_key, Json, JsonView};
use crate::lsp::diagnostics::{cache_view, diagnostic_views, store_diagnostics, stored};
use crate::lsp::jsonrpc::{notification, request, Notification, Request};
use crate::lsp::registry::LspServerConfig;
use crate::lsp::types::{Diagnostic, DiagnosticView};
use crate::lsp::uri::{path_key, path_to_uri, path_uri, shows_texts, text_key, uri_path, uri_to_path};
use crate::paths::{canonical, canonical_path};
use crate::text::{decimal, decimal_int, same, texts};
use crate::text_map::TextMap;

verus! {

broadcast use vstd::std_specs::hash::group_hash_axioms;

/// A document that the server has open.
#[derive(Debug)]
pub struct OpenDocumentState {
    pub uri: String,
    pub language_id: String,
    pub version: i32,
}

#[verifier::ext_equal]
pub struct DocumentView {
    pub uri: Seq<char>,
    pub language_id: Seq<char>,
    pub version: int,
}

impl View for OpenDocumentState {
    type V = DocumentView;

    open spec fn view(&self) -> DocumentView {
        DocumentView { uri: self.uri@, language_id: self.language_id@, version: self.version as int }
    }
}

pub open spec fn documents(m: Map<Seq<char>, OpenDocumentState>) -> Map<Seq<char>, DocumentView> {
    m.map_values(|d: OpenDocumentState| d@)
}

/// How a server is told about a document.
#[derive(Debug, Clone, Copy, PartialEq, Eq, Structural)]
pub enum DocumentSyncAction {
    DidOpen,
    DidChange { version: i32 },
}

/// How the server is told about a document: opened first, then changed.
pub open spec fn sync_action(docs: Map<Seq<char>, DocumentView>, path: Seq<char>) -> DocumentSyncAction {
    if docs.contains_key(canonical(path)) {
        DocumentSyncAction::DidChange { version: (docs[canonical(path)].version + 1) as i32 }
    } else {
        DocumentSyncAction::DidOpen
    }
}

/// The open documents after the server was told about one.
pub open spec fn synced(
    docs: Map<Seq<char>, DocumentView>,
    path: Seq<char>,
    language_id: Seq<char>,
) -> Map<Seq<char>, DocumentView> {
    let key = canonical(path);
    if docs.contains_key(key) {
        docs.insert(key, DocumentView { version: docs[key].version + 1, ..docs[key] })
    } else {
        docs.insert(key, DocumentView { uri: path_uri(path), language_id, version: 1 })
    }
}

/// Decides how to tell the server about a document, and counts its versions.
pub fn next_sync_action(opened: &mut TextMap<OpenDocumentState>, path: &str, language_id: &str) -> (r:
    DocumentSyncAction)
    requires
        old(opened).wf(),
        old(opened)@.contains_key(canonical(path@)) ==> old(opened)@[canonical(path@)].version < i32::MAX,
    ensures
        final(opened).wf(),
        documents(final(opened)@) == synced(documents(old(opened)@), path@, language_id@),
        r == sync_action(documents(old(opened)@), path@),
{
    let ghost was = opened@;
    let key = canonical_path(path);
    match opened.remove(key.as_str()) {
        Some(state) => {
            let version: i32 = state.version + 1;
            opened.insert(
                key,
                OpenDocumentState { uri: state.uri, language_id: state.language_id, version },
            );
            assert(documents(opened@) =~= synced(documents(was), path@, language_id@));
            DocumentSyncAction::DidChange { version }
        },
        None => {
            opened.insert(
                key,
                OpenDocumentState { uri: path_to_uri(path), language_id: language_id.to_owned(), version: 1 },
            );
            assert(documents(opened@) =~= synced(documents(was), path@, language_id@));
            DocumentSyncAction::DidOpen
        },
    }
}

pub open spec fn did_open_params(path: Seq<char>, content: Seq<char>, language_id: Seq<char>) -> JsonView {
    JsonView::Object(
        seq![
            (
                "textDocument"@,
                JsonView::Object(
                    seq![
                        ("uri"@, JsonView::Text(path_uri(path))),
                        ("languageId"@, JsonView::Text(language_id)),
                        ("version"@, JsonView::Number(decimal(1))),
                        ("text"@, JsonView::Text(content)),
                    ],
                ),
            ),
        ],
    )
}

pub open spec fn did_change_params(path: Seq<char>, content: Seq<char>, version: int) -> JsonView {
    JsonView::Object(
        seq![
            (
                "textDocument"@,
                JsonView::Object(
                    seq![
                        ("uri"@, JsonView::Text(path_uri(path))),
                        ("version"@, JsonView::Number(decimal_int(version))),
                    ],
                ),
            ),
            (
                "contentChanges"@,
                JsonView::Array(seq![JsonView::Object(seq![("text"@, JsonView::Text(content))])]),
            ),
        ],
    )
}

pub open spec fn did_close_params(path: Seq<char>) -> JsonView {
    JsonView::Object(
        seq![("textDocument"@, JsonView::Object(seq![("uri"@, JsonView::Text(path_uri(path)))]))],
    )
}

/// What a client says of itself when it introduces itself.
pub open spec fn initialize_params(process_id: nat, root_uri: Seq<char>, version: Seq<char>) -> JsonView {
    JsonView::Object(
        seq![
            ("processId"@, JsonView::Number(decimal(process_id))),
            ("rootUri"@, JsonView::Text(root_uri)),
            (
                "capabilities"@,
                JsonView::Object(
                    seq![
                        (
                            "textDocument"@,
                            JsonView::Object(
                                seq![
                                    (
                                        "publishDiagnostics"@,
                                        JsonView::Object(seq![("relatedInformation"@, JsonView::Bool(true))]),
                                    ),
                                    (
                                        "synchronization"@,
                                        JsonView::Object(
                                            seq![
                                                ("didOpen"@, JsonView::Bool(true)),
                                                ("didChange"@, JsonView::Bool(true)),
                                            ],
                                        ),
                                    ),
                                ],
                            ),
                        ),
                    ],
                ),
            ),
            (
                "clientInfo"@,
                JsonView::Object(
                    seq![("name"@, JsonView::Text("atomcode"@)), ("version"@, JsonView::Text(version))],
                ),
            ),
        ],
    )
}

fn object_1(k: &str, v: Json) -> (r: Json)
    ensures
        r@ == JsonView::Object(seq![(k@, v@)]),
{
    let r = Json::empty_object().with(k, v);
    assert(r@->Object_0 =~= seq![(k@, v@)]);
    r
}

fn object_2(k: &str, v: Json, l: &str, w: Json) -> (r: Json)
    ensures
        r@ == JsonView::Object(seq![(k@, v@), (l@, w@)]),
{
    let r = Json::empty_object().with(k, v).with(l, w);
    assert(r@->Object_0 =~= seq![(k@, v@), (l@, w@)]);
    r
}

fn write_initialize_params(process_id: u32, root_uri: &str, version: &str) -> (r: Json)
    ensures
        r@ == initialize_params(process_id as nat, root_uri@, version@),
{
    let text_document = object_2(
        "publishDiagnostics",
        object_1("relatedInformation", Json::Bool(true)),
        "synchronization",
        object_2("didOpen", Json::Bool(true), "didChange", Json::Bool(true)),
    );
    let client_info = object_2("name", Json::of_text("atomcode"), "version", Json::of_text(version));
    let r = Json::empty_object().with("processId", Json::of_uint(process_id as u64)).with(
        "rootUri",
        Json::of_text(root_uri),
    ).with("capabilities", object_1("textDocument", text_document)).with("clientInfo", client_info);
    assert(r@->Object_0 =~= initialize_params(process_id as nat, root_uri@, version@)->Object_0);
    r
}

/// What starting a server takes: the command to run, the two messages of the
/// handshake, and what to say where one of the two fails.
#[derive(Debug)]
pub struct Handshake {
    pub command: String,
    pub args: Vec<String>,
    pub initialize: Request,
    pub initialized: Notification,
    pub spawn_error: String,
    pub handshake_error: String,
}

/// The error of a server that could not be run.
fn spawn_error(command: &str) -> (r: String)
    ensures
        r@ == "Failed to spawn LSP server: "@ + command@,
{
    let mut out: String = "Failed to spawn LSP server: ".to_owned();
    out.append(command);
    out
}

/// The error of a server that did not answer its introduction.
fn handshake_error(command: &str, language_id: &str) -> (r: String)
    ensures
        r@ == "LSP initialize handshake failed for "@ + command@ + " (language: "@ + language_id@ + ")"@,
{
    let mut out: String = "LSP initialize handshake failed for ".to_owned();
    out.append(command);
    out.append(" (language: ");
    out.append(language_id);
    out.append(")");
    out
}

/// The answer to a request.
#[derive(Debug)]
pub enum Answer {
    Result(Json),
    Error(Json),
}

#[verifier::ext_equal]
pub enum AnswerView {
    Result(JsonView),
    Error(JsonView),
}

impl View for Answer {
    type V = AnswerView;

    open spec fn view(&self) -> AnswerView {
        match self {
            Answer::Result(j) => AnswerView::Result(j@),
            Answer::Error(j) => AnswerView::Error(j@),
        }
    }
}

/// What a response answers: a result wins over an error, and a response with
/// neither answers null.
pub open spec fn answer_of(msg: JsonView) -> AnswerView {
    match msg.get("result"@) {
        Some(r) => AnswerView::Result(r),
        None => match msg.get("error"@) {
            Some(e) => AnswerView::Error(e),
            None => AnswerView::Result(JsonView::Null),
        },
    }
}

fn read_answer(msg: &Json) -> (r: Answer)
    ensures
        r@ == answer_of(msg@),
{
    match msg.get("result") {
        Some(r) => Answer::Result(r.clone()),
        None => match msg.get("error") {
            Some(e) => Answer::Error(e.clone()),
            None => Answer::Result(Json::Null),
        },
    }
}

/// What a message of the server was.
#[derive(Debug)]
pub enum Incoming {
    /// The answer to a request that waits for it.
    Response { id: u64, answer: Answer },
    /// What is known of a file, taken in.
    Diagnostics,
    Ignored,
}

/// Whether a message publishes diagnostics, and what it publishes.
pub open spec fn published_params(msg: JsonView) -> Option<JsonView> {
    if msg.text_at("method"@) == Some("textDocument/publishDiagnostics"@) {
        msg.get("params"@)
    } else {
        None
    }
}

/// A client of one language server.
#[derive(Debug)]
pub struct LspClient {
    pub next_id: u64,
    /// The requests that wait for an answer.
    pub pending: HashSet<u64>,
    pub diagnostics_cache: TextMap<Vec<Diagnostic>>,
    pub root_uri: String,
    pub opened_documents: TextMap<OpenDocumentState>,
}

impl LspClient {
    pub open spec fn wf(&self) -> bool {
        self.diagnostics_cache.wf() && self.opened_documents.wf()
    }

    /// What is known of each file.
    pub open spec fn cache(&self) -> Map<Seq<char>, Seq<DiagnosticView>> {
        cache_view(self.diagnostics_cache@)
    }

    /// The documents that the server has open.
    pub open spec fn docs(&self) -> Map<Seq<char>, DocumentView> {
        documents(self.opened_documents@)
    }

    /// A client that has sent its introduction, which waits as the first request.
    pub fn start(
        config: &LspServerConfig,
        project_root: &str,
        language_id: &str,
        process_id: u32,
        version: &str,
    ) -> (r: (LspClient, Handshake))
        ensures
            r.0.wf(),
            r.0.next_id == 2,
            r.0.pending@ == set![1u64],
            r.0.cache() == Map::<Seq<char>, Seq<DiagnosticView>>::empty(),
            r.0.docs() == Map::<Seq<char>, DocumentView>::empty(),
            r.0.root_uri@ == path_uri(project_root@),
            r.1.command@ == config.command@,
            texts(r.1.args@) == texts(config.args@),
            r.1.initialize.jsonrpc@ == "2.0"@,
            r.1.initialize.id == 1,
            r.1.initialize.method@ == "initialize"@,
            r.1.initialize.params is Some,
            r.1.initialize.params->0@ == initialize_params(
                process_id as nat,
                path_uri(project_root@),
                version@,
            ),
            r.1.initialized.jsonrpc@ == "2.0"@,
            r.1.initialized.method@ == "initialized"@,
            r.1.initialized.params is Some,
            r.1.initialized.params->0@ == JsonView::Object(Seq::empty()),
            r.1.spawn_error@ == "Failed to spawn LSP server: "@ + config.command@,
            r.1.handshake_error@ == "LSP initialize handshake failed for "@ + config.command@
                + " (language: "@ + language_id@ + ")"@,
    {
        let root_uri = path_to_uri(project_root);
        let params = write_initialize_params(process_id, root_uri.as_str(), version);
        let mut client = LspClient {
            next_id: 1,
            pending: HashSet::new(),
            diagnostics_cache: TextMap::new(),
            root_uri,
            opened_documents: TextMap::new(),
        };
        assert(client.cache() =~= Map::<Seq<char>, Seq<DiagnosticView>>::empty());
        assert(client.docs() =~= Map::<Seq<char>, DocumentView>::empty());
        let initialize = client.send_request("initialize", Some(params));
        assert(client.pending@ =~= set![1u64]);
        let initialized = notification("initialized", Some(Json::empty_object()));
        let handshake = Handshake {
            command: config.command.clone(),
            args: crate::conversation::clone_texts(&config.args),
            initialize,
            initialized,
            spawn_error: spawn_error(config.command.as_str()),
            handshake_error: handshake_error(config.command.as_str(), language_id),
        };
        (client, handshake)
    }

    /// The next request; it waits for its answer.
    pub fn send_request(&mut self, method: &str, params: Option<Json>) -> (r: Request)
        requires
            old(self).wf(),
        ensures
            final(self).wf(),
            r.jsonrpc@ == "2.0"@,
            r.id == old(self).next_id,
            r.method@ == method@,
            r.params == params,
            final(self).next_id == (if old(self).next_id == u64::MAX {
                0
            } else {
                old(self).next_id + 1
            }),
            final(self).pending@ == old(self).pending@.insert(old(self).next_id),
            final(self).cache() == old(self).cache(),
            final(self).docs() == old(self).docs(),
            final(self).root_uri@ == old(self).root_uri@,
    {
        let id: u64 = self.next_id;
        if id == u64::MAX {
            self.next_id = 0;
        } else {
            self.next_id = id + 1;
        }
        self.pending.insert(id);
        request(id, method, params)
    }

    /// What is known of a file.
    pub fn diagnostics(&self, path: &str) -> (r: Vec<Diagnostic>)
        requires
            self.wf(),
        ensures
            diagnostic_views(r@) == (if self.cache().contains_key(path_key(encode_utf8(path@))) {
                self.cache()[path_key(encode_utf8(path@))]
            } else {
                Seq::empty()
            }),
    {
        let key = text_key(path);
        match self.diagnostics_cache.get(key.as_str()) {
            Some(v) => clone_diagnostics(v),
            None => {
                let r: Vec<Diagnostic> = Vec::new();
                assert(diagnostic_views(r@) =~= Seq::<DiagnosticView>::empty());
                r
            },
        }
    }

    /// What is known of all files, file by file.
    pub fn all_diagnostics(&self) -> (r: Vec<Diagnostic>)
        requires
            self.wf(),
        ensures
            diagnostic_views(r@) == all_listed(self.diagnostics_cache.list()),
    {
        let n = self.diagnostics_cache.len();
        let ghost list = self.diagnostics_cache.list();
        let mut out: Vec<Diagnostic> = Vec::new();
        let mut i: usize = 0;
        assert(list.take(0) =~= Seq::<(String, Vec<Diagnostic>)>::empty());
        assert(diagnostic_views(out@) =~= all_listed(list.take(0)));
        while i < n
            invariant
                i <= n == list.len(),
                list == self.diagnostics_cache.list(),
                diagnostic_views(out@) == all_listed(list.take(i as int)),
            decreases n - i,
        {
            let ghost was = out@;
            let more = clone_diagnostics(self.diagnostics_cache.value_at(i));
            assert(list.take(i + 1).drop_last() =~= list.take(i as int));
            assert(list.take(i + 1).last() == list[i as int]);
            push_all(&mut out, more);
            assert(diagnostic_views(out@) =~= diagnostic_views(was) + diagnostic_views(list[i as int].1@));
            i = i + 1;
        }
        assert(list.take(i as int) =~= list);
        out
    }

    /// The message that a document was opened.
    pub fn did_open(&self, path: &str, content: &str, language_id: &str) -> (r: Notification)
        ensures
            r.jsonrpc@ == "2.0"@,
            r.method@ == "textDocument/didOpen"@,
            r.params is Some,
            r.params->0@ == did_open_params(path@, content@, language_id@),
    {
        let uri = path_to_uri(path);
        let document = Json::empty_object().with("uri", Json::of_text(uri.as_str())).with(
            "languageId",
            Json::of_text(language_id),
        ).with("version", Json::of_uint(1)).with("text", Json::of_text(content));
        let ghost expected = did_open_params(path@, content@, language_id@);
        assert(document@->Object_0 =~= expected->Object_0[0].1->Object_0);
        notification("textDocument/didOpen", Some(object_1("textDocument", document)))
    }

    /// The message that a document changed.
    pub fn did_change(&self, path: &str, content: &str, version: i32) -> (r: Notification)
        ensures
            r.jsonrpc@ == "2.0"@,
            r.method@ == "textDocument/didChange"@,
            r.params is Some,
            r.params->0@ == did_change_params(path@, content@, version as int),
    {
        let uri = path_to_uri(path);
        let document = object_2("uri", Json::of_text(uri.as_str()), "version", Json::of_int(version as i64));
        let mut changes: Vec<Json> = Vec::new();
        changes.push(object_1("text", Json::of_text(content)));
        let ghost expected = did_change_params(path@, content@, version as int);
        assert(json_views(changes@) =~= expected->Object_0[1].1->Array_0);
        notification(
            "textDocument/didChange",
            Some(object_2("textDocument", document, "contentChanges", Json::list(changes))),
        )
    }

    /// The message that a document was closed.
    pub fn did_close(&self, path: &str) -> (r: Notification)
        ensures
            r.jsonrpc@ == "2.0"@,
            r.method@ == "textDocument/didClose"@,
            r.params is Some,
            r.params->0@ == did_close_params(path@),
    {
        let uri = path_to_uri(path);
        notification(
            "textDocument/didClose",
            Some(object_1("textDocument", object_1("uri", Json::of_text(uri.as_str())))),
        )
    }

    /// The message that tells the server what a document holds now.
    pub fn sync_document(&mut self, path: &str, content: &str, language_id: &str) -> (r: Notification)
        requires
            old(self).wf(),
            old(self).docs().contains_key(canonical(path@)) ==> old(self).docs()[canonical(path@)].version
                < i32::MAX,
        ensures
            final(self).wf(),
            final(self).docs() == synced(old(self).docs(), path@, language_id@),
            final(self).cache() == old(self).cache(),
            final(self).pending@ == old(self).pending@,
            final(self).next_id == old(self).next_id,
            final(self).root_uri@ == old(self).root_uri@,
            r.jsonrpc@ == "2.0"@,
            r.params is Some,
            match sync_action(old(self).docs(), path@) {
                DocumentSyncAction::DidOpen => r.method@ == "textDocument/didOpen"@ && r.params->0@
                    == did_open_params(path@, content@, language_id@),
                DocumentSyncAction::DidChange { version } => r.method@ == "textDocument/didChange"@
                    && r.params->0@ == did_change_params(path@, content@, version as int),
            },
    {
        match next_sync_action(&mut self.opened_documents, path, language_id) {
            DocumentSyncAction::DidOpen => self.did_open(path, content, language_id),
            DocumentSyncAction::DidChange { version } => self.did_change(path, content, version),
        }
    }

    /// Closes a document; the server is told only of one that it has open.
    pub fn close_document(&mut self, path: &str) -> (r: Option<Notification>)
        requires
            old(self).wf(),
        ensures
            final(self).wf(),
            final(self).docs() == old(self).docs().remove(canonical(path@)),
            final(self).cache() == old(self).cache(),
            final(self).pending@ == old(self).pending@,
            final(self).next_id == old(self).next_id,
            final(self).root_uri@ == old(self).root_uri@,
            r is Some <==> old(self).docs().contains_key(canonical(path@)),
            match r {
                Some(n) => n.jsonrpc@ == "2.0"@ && n.method@ == "textDocument/didClose"@ && n.params is Some
                    && n.params->0@ == did_close_params(path@),
                None => true,
            },
    {
        let ghost was = self.opened_documents@;
        let key = canonical_path(path);
        let gone = self.opened_documents.remove(key.as_str());
        assert(documents(self.opened_documents@) =~= documents(was).remove(key@));
        match gone {
            Some(_state) => Some(self.did_close(path)),
            None => None,
        }
    }

    /// The two messages that end a session.
    pub fn shutdown(&mut self) -> (r: (Request, Notification))
        requires
            old(self).wf(),
        ensures
            final(self).wf(),
            final(self).next_id == (if old(self).next_id == u64::MAX {
                0
            } else {
                old(self).next_id + 1
            }),
            final(self).pending@ == old(self).pending@.insert(old(self).next_id),
            final(self).cache() == old(self).cache(),
            final(self).docs() == old(self).docs(),
            final(self).root_uri@ == old(self).root_uri@,
            r.0.jsonrpc@ == "2.0"@,
            r.0.id == old(self).next_id,
            r.0.method@ == "shutdown"@,
            r.0.params is None,
            r.1.jsonrpc@ == "2.0"@,
            r.1.method@ == "exit"@,
            r.1.params is None,
    {
        let ask = self.send_request("shutdown", None);
        let leave = notification("exit", None);
        (ask, leave)
    }

    /// Takes a message of the server in.
    pub fn dispatch_message(&mut self, msg: &Json) -> (r: Incoming)
        requires
            old(self).wf(),
        ensures
            final(self).wf(),
            final(self).docs() == old(self).docs(),
            final(self).next_id == old(self).next_id,
            final(self).root_uri@ == old(self).root_uri@,
            match msg@.uint_at("id"@) {
                Some(id) => {
                    &&& final(self).pending@ == old(self).pending@.remove(id)
                    &&& final(self).cache() == old(self).cache()
                    &&& if old(self).pending@.contains(id) {
                        r matches Incoming::Response { id: to, answer } && to == id && answer@ == answer_of(msg@)
                    } else {
                        r is Ignored
                    }
                },
                None => {
                    &&& final(self).pending@ == old(self).pending@
                    &&& match published_params(msg@) {
                        Some(params) => {
                            &&& r is Diagnostics
                            &&& final(self).cache() == match params.text_at("uri"@) {
                                Some(uri) => stored(old(self).cache(), uri_path(uri), params),
                                None => old(self).cache(),
                            }
                            &&& params.text_at("uri"@) is Some ==> shows_texts(
                                uri_path(params.text_at("uri"@)->0),
                            )
                        },
                        None => r is Ignored && final(self).cache() == old(self).cache(),
                    }
                },
            },
    {
        if let Some(id) = msg.u64_at("id") {
            let waited = self.pending.remove(&id);
            assert(!waited ==> self.pending@ =~= old(self).pending@.remove(id));
            if waited {
                return Incoming::Response { id, answer: read_answer(msg) };
            }
            return Incoming::Ignored;
        }
        if let Some(method) = msg.str_at("method") {
            if same(method, "textDocument/publishDiagnostics") {
                if let Some(params) = msg.get("params") {
                    self.handle_diagnostics(params);
                    return Incoming::Diagnostics;
                }
            }
        }
        Incoming::Ignored
    }

    /// Takes in what a notification publishes.
    pub fn handle_diagnostics(&mut self, params: &Json)
        requires
            old(self).wf(),
        ensures
            final(self).wf(),
            final(self).docs() == old(self).docs(),
            final(self).pending@ == old(self).pending@,
            final(self).next_id == old(self).next_id,
            final(self).root_uri@ == old(self).root_uri@,
            final(self).cache() == match params@.text_at("uri"@) {
                Some(uri) => stored(old(self).cache(), uri_path(uri), params@),
                None => old(self).cache(),
            },
            params@.text_at("uri"@) is Some ==> shows_texts(uri_path(params@.text_at("uri"@)->0)),
    {
        if let Some(uri) = params.str_at("uri") {
            let file = uri_to_path(uri);
            store_diagnostics(&mut self.diagnostics_cache, &file, params);
        }
    }
}

/// What is known of a list of files, file by file.
pub open spec fn all_listed(list: Seq<(String, Vec<Diagnostic>)>) -> Seq<DiagnosticView>
    decreases list.len(),
{
    if list.len() == 0 {
        Seq::empty()
    } else {
        all_listed(list.drop_last()) + diagnostic_views(list.last().1@)
    }
}

fn clone_diagnostics(v: &Vec<Diagnostic>) -> (r: Vec<Diagnostic>)
    ensures
        diagnostic_views(r@) == diagnostic_views(v@),
{
    let mut out: Vec<Diagnostic> = Vec::new();
    let mut i: usize = 0;
    while i < v.len()
        invariant
            i <= v.len(),
            out@.len() == i,
            forall|k: int| 0 <= k < i ==> #[trigger] out@[k]@ == v@[k]@,
        decreases v.len() - i,
    {
        out.push(v[i].clone());
        i = i + 1;
    }
    assert(diagnostic_views(out@) =~= diagnostic_views(v@));
    out
}

fn push_all(out: &mut Vec<Diagnostic>, more: Vec<Diagnostic>)
    ensures
        diagnostic_views(final(out)@) == diagnostic_views(old(out)@) + diagnostic_views(more@),
{
    let ghost was = out@;
    let mut more = more;
    let ghost all = more@;
    out.append(&mut more);
    assert(diagnostic_views(out@) =~= diagnostic_views(was) + diagnostic_views(all));
}

/// A document is announced once, and every later message about it carries the
/// next version.
pub proof fn documents_open_once(docs: Map<Seq<char>, DocumentView>, path: Seq<char>, language_id: Seq<char>)
    requires
        docs.contains_key(canonical(path)) ==> docs[canonical(path)].version < i32::MAX - 1,
    ensures
        synced(docs, path, language_id).contains_key(canonical(path)),
        sync_action(synced(docs, path, language_id), path) == (DocumentSyncAction::DidChange {
            version: (synced(docs, path, language_id)[canonical(path)].version + 1) as i32,
        }),
        synced(docs, path, language_id)[canonical(path)].version == (if docs.contains_key(canonical(path)) {
            docs[canonical(path)].version + 1
        } else {
            1
        }),
{
}

/// What the server has open of other documents stays as it is.
pub proof fn syncing_touches_one_document(
    docs: Map<Seq<char>, DocumentView>,
    path: Seq<char>,
    language_id: Seq<char>,
    other: Seq<char>,
)
    requires
        other != canonical(path),
    ensures
        synced(docs, path, language_id).contains_key(other) <==> docs.contains_key(other),
        docs.contains_key(other) ==> synced(docs, path, language_id)[other] == docs[other],
{
}

/// A document that was closed is announced anew.
pub proof fn closed_documents_open_again(docs: Map<Seq<char>, DocumentView>, path: Seq<char>)
    ensures
        sync_action(docs.remove(canonical(path)), path) == DocumentSyncAction::DidOpen,
{
}

/// An answer with a result is that result, also where it has an error; an error is one
/// only without a result; an answer with neither is null.
pub proof fn results_win_over_errors(msg: JsonView, r: JsonView, e: JsonView)
    ensures
        msg.get("result"@) == Some(r) ==> answer_of(msg) == AnswerView::Result(r),
        msg.get("result"@) is None && msg.get("error"@) == Some(e) ==> answer_of(msg) == AnswerView::Error(e),
        msg.get("result"@) is None && msg.get("error"@) is None ==> answer_of(msg) == AnswerView::Result(
            JsonView::Null,
        ),
{
}

/// A document that is open is told of as changed, with the version after its last; one
/// that is not, as opened, and its versions count from one. Where it is and its language
/// are those it was opened with.
pub proof fn versions_count_from_one(
    docs: Map<Seq<char>, DocumentView>,
    path: Seq<char>,
    language_id: Seq<char>,
)
    ensures
        ({
            let now = synced(docs, path, language_id)[canonical(path)];
            &&& !docs.contains_key(canonical(path)) ==> now.version == 1 && now.language_id == language_id && now.uri
                == path_uri(path)
            &&& docs.contains_key(canonical(path)) ==> now.version == docs[canonical(path)].version + 1
                && now.language_id == docs[canonical(path)].language_id && now.uri == docs[canonical(path)].uri
            &&& docs.contains_key(canonical(path)) && docs[canonical(path)].version < i32::MAX
                && docs[canonical(path)].version >= 0 ==> (sync_action(docs, path) matches DocumentSyncAction::DidChange {
                version,
            } && version == now.version)
        }),
{
}

proof fn lemma_second(a: (Seq<char>, JsonView), b: (Seq<char>, JsonView))
    requires
        a.0 != b.0,
    ensures
        member(seq![a, b], a.0) == Some(a.1),
        member(seq![a, b], b.0) == Some(b.1),
        member(seq![a], a.0) == Some(a.1),
{
    let s = seq![a, b];
    assert(s.drop_last() =~= seq![a]);
    assert(s.last() == b);
    assert(seq![a].last() == a);
}

/// What is said of a document that was opened holds its text and its language; of one
/// that changed, its new text and its version; each names the document.
pub proof fn messages_hold_the_document(
    path: Seq<char>,
    content: Seq<char>,
    language_id: Seq<char>,
    version: int,
)
    ensures
        ({
            let opened = did_open_params(path, content, language_id).get("textDocument"@)->0;
            let changed = did_change_params(path, content, version);
            let closed = did_close_params(path).get("textDocument"@)->0;
            &&& opened.text_at("uri"@) == Some(path_uri(path))
            &&& opened.text_at("text"@) == Some(content)
            &&& opened.text_at("languageId"@) == Some(language_id)
            &&& changed.get("textDocument"@)->0.text_at("uri"@) == Some(path_uri(path))
            &&& changed.get("textDocument"@)->0.get("version"@) == Some(JsonView::Number(decimal_int(version)))
            &&& changed.get("contentChanges"@)->0.array()->0.len() == 1
            &&& changed.get("contentChanges"@)->0.array()->0[0].text_at("text"@) == Some(content)
            &&& closed.text_at("uri"@) == Some(path_uri(path))
        }),
{
    reveal_strlit("uri");
    reveal_strlit("languageId");
    reveal_strlit("version");
    reveal_strlit("text");
    reveal_strlit("textDocument");
    reveal_strlit("contentChanges");
    assert("uri"@.len() == 3 && "languageId"@.len() == 10 && "version"@.len() == 7 && "text"@.len() == 4
        && "textDocument"@.len() == 12 && "contentChanges"@.len() == 14);
    let u = ("uri"@, JsonView::Text(path_uri(path)));
    let l = ("languageId"@, JsonView::Text(language_id));
    let v = ("version"@, JsonView::Number(decimal(1)));
    let t = ("text"@, JsonView::Text(content));
    let all = seq![u, l, v, t];
    assert(all.drop_last() =~= seq![u, l, v]);
    assert(seq![u, l, v].drop_last() =~= seq![u, l]);
    assert(seq![u, l, v].last() == v);
    lemma_second(u, l);
    assert(all.last() == t && all.drop_last().last() == v);
    let three = seq![u, l, v];
    assert(member(three, "languageId"@) == member(three.drop_last(), "languageId"@));
    assert(member(three, "uri"@) == member(three.drop_last(), "uri"@));
    assert(member(all, "languageId"@) == member(all.drop_last(), "languageId"@));
    assert(member(all, "uri"@) == member(all.drop_last(), "uri"@));
    lemma_second(("textDocument"@, JsonView::Object(all)), t);
    let w = ("version"@, JsonView::Number(decimal_int(version)));
    lemma_second(u, w);
    let list = JsonView::Array(seq![JsonView::Object(seq![t])]);
    lemma_second(("textDocument"@, JsonView::Object(seq![u, w])), ("contentChanges"@, list));
    lemma_second(t, u);
    lemma_second(("textDocument"@, JsonView::Object(seq![u])), t);
}

/// A client introduces itself with its process, the root and its version; only a message
/// of the method for it publishes diagnostics.
pub proof fn clients_introduce_themselves(process_id: nat, root_uri: Seq<char>, version: Seq<char>, msg: JsonView)
    ensures
        ({
            let p = initialize_params(process_id, root_uri, version);
            &&& p.get("processId"@) == Some(JsonView::Number(decimal(process_id)))
            &&& p.text_at("rootUri"@) == Some(root_uri)
            &&& p.get("clientInfo"@) is Some && p.get("clientInfo"@)->0.text_at("version"@) == Some(version)
        }),
        msg.text_at("method"@) != Some("textDocument/publishDiagnostics"@) ==> published_params(msg) is None,
        msg.text_at("method"@) == Some("textDocument/publishDiagnostics"@) ==> published_params(msg) == msg.get(
            "params"@,
        ),
{
    reveal_strlit("processId");
    reveal_strlit("rootUri");
    reveal_strlit("capabilities");
    reveal_strlit("clientInfo");
    reveal_strlit("name");
    reveal_strlit("version");
    assert("processId"@.len() == 9 && "rootUri"@.len() == 7 && "capabilities"@.len() == 12 && "clientInfo"@.len() == 10
        && "name"@.len() == 4 && "version"@.len() == 7);
    let o = initialize_params(process_id, root_uri, version)->Object_0;
    assert(o.len() == 4);
    members_are_found_by_their_key(o, 0);
    members_are_found_by_their_key(o, 1);
    members_are_found_by_their_key(o, 3);
    let info = o[3].1->Object_0;
    assert(info.len() == 2);
    members_are_found_by_their_key(info, 1);
}

} // verus!
