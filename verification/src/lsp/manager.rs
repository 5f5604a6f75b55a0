//! The language servers of a project: one for each file extension, started when
//! a file first needs it.

use vstd::prelude::*;
use vstd::string::*;
use vstd::utf8::encode_utf8;

use crate::config::LspConfig;
use crate::graph::indexer::{extension, extension_of};
use crate::lsp::client::{
    all_listed, did_change_params, did_open_params, sync_action, synced, DocumentSyncAction, LspClient,
};
use crate::lsp::diagnostics::diagnostic_views;
use crate::lsp::jsonrpc::Notification;
use crate::lsp::registry::{default_server, LspServerConfig, LspServerRegistry, ServerView};
use crate::lsp::types::{Diagnostic, DiagnosticView};
use crate::lsp::uri::path_key;
use crate::paths::canonical;
use crate::text::same;
use crate::text_map::{keys_of, TextMap};
use crate::text_order::{ascending, borrowed, sorted_keys};

verus! {

/// What became of a server.
#[derive(Debug)]
pub enum LspConnectEvent {
    Started { command: String, ext: String },
    Failed { command: String, ext: String, error: String },
    Warning { ext: String, message: String },
}

/// The name that the protocol has for the language of a file extension.
pub open spec fn language_id(ext: Seq<char>) -> Seq<char> {
    if ext == "rs"@ {
        "rust"@
    } else if ext == "ts"@ {
        "typescript"@
    } else if ext == "tsx"@ {
        "typescriptreact"@
    } else if ext == "js"@ {
        "javascript"@
    } else if ext == "jsx"@ {
        "javascriptreact"@
    } else if ext == "py"@ {
        "python"@
    } else if ext == "cpp"@ || ext == "cc"@ || ext == "cxx"@ {
        "cpp"@
    } else if ext == "cs"@ {
        "csharp"@
    } else if ext == "rb"@ {
        "ruby"@
    } else if ext == "kt"@ || ext == "kts"@ {
        "kotlin"@
    } else {
        ext
    }
}

/// The protocol's name for the language of an extension; other extensions are
/// their own names.
pub fn extension_to_language_id(ext: &str) -> (r: &str)
    ensures
        r@ == language_id(ext@),
{
    if same(ext, "rs") {
        "rust"
    } else if same(ext, "ts") {
        "typescript"
    } else if same(ext, "tsx") {
        "typescriptreact"
    } else if same(ext, "js") {
        "javascript"
    } else if same(ext, "jsx") {
        "javascriptreact"
    } else if same(ext, "py") {
        "python"
    } else if same(ext, "cpp") || same(ext, "cc") || same(ext, "cxx") {
        "cpp"
    } else if same(ext, "cs") {
        "csharp"
    } else if same(ext, "rb") {
        "ruby"
    } else if same(ext, "kt") || same(ext, "kts") {
        "kotlin"
    } else {
        ext
    }
}

/// What a file needs before its server can be spoken to.
#[derive(Debug)]
pub enum ServerNeed {
    /// Its server runs.
    Running,
    /// It has no server, or servers are switched off.
    Unavailable,
    /// Its server is to be looked for by this command, and started.
    Start { ext: String, command: String },
}

/// How a server is started.
#[derive(Debug)]
pub struct StartOrder {
    pub config: LspServerConfig,
    pub project_root: String,
    pub language_id: String,
}

pub struct LspManager {
    /// The running servers by file extension.
    pub clients: TextMap<LspClient>,
    pub registry: LspServerRegistry,
    pub project_root: String,
    pub enabled: bool,
    /// Milliseconds to wait for diagnostics after a file was sent.
    pub diagnostics_settle_delay_ms: u64,
}

pub open spec fn servers_view(m: Map<Seq<char>, LspServerConfig>) -> Map<Seq<char>, ServerView> {
    m.map_values(|c: LspServerConfig| c@)
}

fn clone_server(c: &LspServerConfig) -> (r: LspServerConfig)
    ensures
        r@ == c@,
{
    LspServerConfig {
        command: c.command.clone(),
        args: crate::conversation::clone_texts(&c.args),
        root_markers: crate::conversation::clone_texts(&c.root_markers),
    }
}

fn clone_servers(m: &TextMap<LspServerConfig>) -> (r: TextMap<LspServerConfig>)
    requires
        m.wf(),
    ensures
        r.wf(),
        servers_view(r@) == servers_view(m@),
{
    let n = m.len();
    let ghost list = m.list();
    let mut out: TextMap<LspServerConfig> = TextMap::new();
    let mut i: usize = 0;
    proof {
        m.lemma_list();
    }
    while i < n
        invariant
            i <= n == list.len(),
            m.wf(),
            list == m.list(),
            out.wf(),
            forall|k: Seq<char>|
                #[trigger] out@.contains_key(k) <==> exists|j: int| 0 <= j < i && #[trigger] list[j].0@ == k,
            forall|k: Seq<char>| #[trigger] out@.contains_key(k) ==> m@.contains_key(k) && out@[k]@ == m@[k]@,
        decreases n - i,
    {
        let ghost was = out@;
        let key = m.key_at(i);
        let value = clone_server(m.value_at(i));
        out.insert(key.clone(), value);
        assert forall|k: Seq<char>| #[trigger] out@.contains_key(k) <==> exists|j: int|
            0 <= j < i + 1 && #[trigger] list[j].0@ == k by {
            if was.contains_key(k) {
                let j = choose|j: int| 0 <= j < i && #[trigger] list[j].0@ == k;
                assert(list[j].0@ == k);
            }
            if k == key@ {
                assert(list[i as int].0@ == k);
            }
            if exists|j: int| 0 <= j < i + 1 && #[trigger] list[j].0@ == k {
                let j = choose|j: int| 0 <= j < i + 1 && #[trigger] list[j].0@ == k;
                if j < i {
                    assert(was.contains_key(k));
                }
            }
        }
        i = i + 1;
    }
    assert forall|k: Seq<char>| #[trigger] m@.contains_key(k) implies out@.contains_key(k) by {
        assert(keys_of(list).contains(k));
        let j = choose|j: int| 0 <= j < keys_of(list).len() && keys_of(list)[j] == k;
        assert(list[j].0@ == k);
    }
    assert(servers_view(out@) =~= servers_view(m@));
    out
}

/// The servers where nothing is configured.
pub open spec fn default_servers() -> Map<Seq<char>, ServerView> {
    Map::new(|ext: Seq<char>| default_server(ext) is Some, |ext: Seq<char>| default_server(ext)->0)
}

/// The servers that a configuration gives: the common ones where they are wanted,
/// and the user's over them.
pub open spec fn configured(auto_detect: bool, user: Map<Seq<char>, ServerView>) -> Map<Seq<char>, ServerView> {
    let base = if auto_detect {
        default_servers()
    } else {
        Map::empty()
    };
    base.union_prefer_right(user)
}

pub fn build_registry(config: &LspConfig) -> (r: LspServerRegistry)
    requires
        config.servers.wf(),
    ensures
        r.wf(),
        servers_view(r@) == configured(config.auto_detect, servers_view(config.servers@)),
{
    let mut registry = if config.auto_detect {
        LspServerRegistry::with_defaults()
    } else {
        LspServerRegistry::empty()
    };
    let ghost base = registry@;
    assert(config.auto_detect ==> servers_view(base) =~= default_servers()) by {
        if config.auto_detect {
            assert forall|k: Seq<char>| #[trigger] base.contains_key(k) <==> default_server(k) is Some by {}
        }
    }
    let user = clone_servers(&config.servers);
    let ghost mine = user@;
    registry.merge_user_config(user);
    assert(servers_view(registry@) =~= servers_view(base).union_prefer_right(servers_view(mine)));
    assert(!config.auto_detect ==> servers_view(base) =~= Map::<Seq<char>, ServerView>::empty());
    registry
}

/// The manager that a configuration asks for, if it asks for one.
pub fn build_lsp_manager(config: &LspConfig, project_root: &str) -> (r: Option<LspManager>)
    requires
        config.servers.wf(),
    ensures
        r is Some <==> config.enabled,
        match r {
            Some(m) => {
                &&& m.wf()
                &&& m.clients@ == Map::<Seq<char>, LspClient>::empty()
                &&& servers_view(m.registry@) == configured(config.auto_detect, servers_view(config.servers@))
                &&& m.project_root@ == project_root@
                &&& m.enabled
                &&& m.diagnostics_settle_delay_ms == config.diagnostics_settle_delay_ms
            },
            None => true,
        },
{
    if !config.enabled {
        return None;
    }
    let registry = build_registry(config);
    Some(LspManager::new(project_root.to_owned(), registry, true, config.diagnostics_settle_delay_ms))
}

/// What is known of the files of a list of clients.
pub open spec fn all_clients(list: Seq<(String, LspClient)>) -> Seq<DiagnosticView>
    decreases list.len(),
{
    if list.len() == 0 {
        Seq::empty()
    } else {
        all_clients(list.drop_last()) + all_listed(list.last().1.diagnostics_cache.list())
    }
}

impl LspManager {
    pub open spec fn wf(&self) -> bool {
        &&& self.clients.wf()
        &&& self.registry.wf()
        &&& forall|ext: Seq<char>| #[trigger] self.clients@.contains_key(ext) ==> self.clients@[ext].wf()
    }

    /// Whether a file of this extension has a running server.
    pub open spec fn serves(&self, ext: Option<Seq<char>>) -> bool {
        match ext {
            Some(e) => self.clients@.contains_key(e),
            None => false,
        }
    }

    pub fn new(
        project_root: String,
        registry: LspServerRegistry,
        enabled: bool,
        diagnostics_settle_delay_ms: u64,
    ) -> (r: LspManager)
        requires
            registry.wf(),
        ensures
            r.wf(),
            r.clients@ == Map::<Seq<char>, LspClient>::empty(),
            r.registry@ == registry@,
            r.project_root@ == project_root@,
            r.enabled == enabled,
            r.diagnostics_settle_delay_ms == diagnostics_settle_delay_ms,
    {
        LspManager { clients: TextMap::new(), registry, project_root, enabled, diagnostics_settle_delay_ms }
    }

    pub fn diagnostics_settle_delay_ms(&self) -> (r: u64)
        ensures
            r == self.diagnostics_settle_delay_ms,
    {
        self.diagnostics_settle_delay_ms
    }

    /// What a file needs before its server can be spoken to.
    pub fn ensure_server(&self, file_path: &str) -> (r: ServerNeed)
        requires
            self.wf(),
        ensures
            match extension(file_path@) {
                Some(ext) if self.enabled => if self.clients@.contains_key(ext) {
                    r is Running
                } else if self.registry@.contains_key(ext) {
                    r matches ServerNeed::Start { ext: e, command } && e@ == ext && command@
                        == self.registry@[ext].command@
                } else {
                    r is Unavailable
                },
                _ => r is Unavailable,
            },
    {
        if !self.enabled {
            return ServerNeed::Unavailable;
        }
        match extension_of(file_path) {
            Some(ext) => {
                if self.clients.get(ext.as_str()).is_some() {
                    return ServerNeed::Running;
                }
                match self.registry.get(ext.as_str()) {
                    Some(config) => {
                        let command = config.command.clone();
                        ServerNeed::Start { ext, command }
                    },
                    None => ServerNeed::Unavailable,
                }
            },
            None => ServerNeed::Unavailable,
        }
    }

    /// How the server of an extension is started, once it is known whether its
    /// command can be found. A command that is not installed is no failure.
    pub fn start_order(&self, ext: &str, installed: bool) -> (r: Option<StartOrder>)
        requires
            self.wf(),
        ensures
            r is Some <==> installed && self.registry@.contains_key(ext@) && !self.clients@.contains_key(ext@),
            match r {
                Some(o) => {
                    &&& o.config@ == self.registry@[ext@]@
                    &&& o.project_root@ == self.project_root@
                    &&& o.language_id@ == language_id(ext@)
                },
                None => true,
            },
    {
        if !installed || self.clients.get(ext).is_some() {
            return None;
        }
        match self.registry.get(ext) {
            Some(config) => Some(
                StartOrder {
                    config: clone_server(config),
                    project_root: self.project_root.clone(),
                    language_id: extension_to_language_id(ext).to_owned(),
                },
            ),
            None => None,
        }
    }

    /// Takes a server in that was started.
    pub fn server_started(&mut self, ext: String, command: String, client: LspClient) -> (r: LspConnectEvent)
        requires
            old(self).wf(),
            client.wf(),
        ensures
            final(self).wf(),
            final(self).clients@ == old(self).clients@.insert(ext@, client),
            final(self).registry@ == old(self).registry@,
            final(self).project_root@ == old(self).project_root@,
            final(self).enabled == old(self).enabled,
            final(self).diagnostics_settle_delay_ms == old(self).diagnostics_settle_delay_ms,
            r matches LspConnectEvent::Started { command: c, ext: e } && c@ == command@ && e@ == ext@,
    {
        let event_ext = ext.clone();
        self.clients.insert(ext, client);
        LspConnectEvent::Started { command, ext: event_ext }
    }

    /// What to say of a server that did not start. Files do without it.
    pub fn server_failed(&self, ext: String, command: String, error: String) -> (r: LspConnectEvent)
        ensures
            r matches LspConnectEvent::Failed { command: c, ext: e, error: m } && c@ == command@ && e@ == ext@
                && m@ == error@,
    {
        LspConnectEvent::Failed { command, ext, error }
    }

    /// What is known of a file.
    pub fn diagnostics(&self, path: &str) -> (r: Vec<Diagnostic>)
        requires
            self.wf(),
        ensures
            diagnostic_views(r@) == match extension(path@) {
                Some(ext) if self.clients@.contains_key(ext) && self.clients@[ext].cache().contains_key(
                    path_key(encode_utf8(path@)),
                ) => self.clients@[ext].cache()[path_key(encode_utf8(path@))],
                _ => Seq::<DiagnosticView>::empty(),
            },
    {
        if let Some(ext) = extension_of(path) {
            if let Some(client) = self.clients.get(ext.as_str()) {
                return client.diagnostics(path);
            }
        }
        let r: Vec<Diagnostic> = Vec::new();
        assert(diagnostic_views(r@) =~= Seq::<DiagnosticView>::empty());
        r
    }

    /// What is known of all files, server by server.
    pub fn all_diagnostics(&self) -> (r: Vec<Diagnostic>)
        requires
            self.wf(),
        ensures
            diagnostic_views(r@) == all_clients(self.clients.list()),
    {
        let n = self.clients.len();
        let ghost list = self.clients.list();
        let mut out: Vec<Diagnostic> = Vec::new();
        let mut i: usize = 0;
        assert(list.take(0) =~= Seq::<(String, LspClient)>::empty());
        assert(diagnostic_views(out@) =~= all_clients(list.take(0)));
        while i < n
            invariant
                i <= n == list.len(),
                self.wf(),
                list == self.clients.list(),
                diagnostic_views(out@) == all_clients(list.take(i as int)),
            decreases n - i,
        {
            let ghost was = out@;
            let _key = self.clients.key_at(i);
            let mut more = self.clients.value_at(i).all_diagnostics();
            let ghost added = more@;
            assert(list.take(i + 1).drop_last() =~= list.take(i as int));
            assert(list.take(i + 1).last() == list[i as int]);
            out.append(&mut more);
            assert(diagnostic_views(out@) =~= diagnostic_views(was) + diagnostic_views(added));
            i = i + 1;
        }
        assert(list.take(i as int) =~= list);
        out
    }

    /// The message that tells a file's server what the file holds now, if its
    /// server runs.
    pub fn notify_file_changed(&mut self, path: &str, content: &str) -> (r: Option<Notification>)
        requires
            old(self).wf(),
            match extension(path@) {
                Some(ext) => old(self).clients@.contains_key(ext) && old(self).clients@[ext].docs().contains_key(
                    canonical(path@),
                ) ==> old(self).clients@[ext].docs()[canonical(path@)].version < i32::MAX,
                None => true,
            },
        ensures
            final(self).wf(),
            final(self).registry@ == old(self).registry@,
            final(self).project_root@ == old(self).project_root@,
            final(self).enabled == old(self).enabled,
            final(self).diagnostics_settle_delay_ms == old(self).diagnostics_settle_delay_ms,
            r is Some <==> old(self).enabled && old(self).serves(extension(path@)),
            match r {
                Some(n) => {
                    let ext = extension(path@)->0;
                    let client = old(self).clients@[ext];
                    let after = final(self).clients@[ext];
                    &&& final(self).clients@.contains_key(ext)
                    &&& final(self).clients@.remove(ext) == old(self).clients@.remove(ext)
                    &&& after.docs() == synced(client.docs(), path@, language_id(ext))
                    &&& after.cache() == client.cache()
                    &&& after.pending@ == client.pending@
                    &&& after.next_id == client.next_id
                    &&& after.root_uri@ == client.root_uri@
                    &&& n.jsonrpc@ == "2.0"@
                    &&& n.params is Some
                    &&& match sync_action(client.docs(), path@) {
                        DocumentSyncAction::DidOpen => n.method@ == "textDocument/didOpen"@ && n.params->0@
                            == did_open_params(path@, content@, language_id(ext)),
                        DocumentSyncAction::DidChange { version } => n.method@ == "textDocument/didChange"@
                            && n.params->0@ == did_change_params(path@, content@, version as int),
                    }
                },
                None => final(self).clients@ == old(self).clients@,
            },
    {
        if !self.enabled {
            return None;
        }
        match extension_of(path) {
            Some(ext) => {
                let ghost was = self.clients@;
                match self.clients.remove(ext.as_str()) {
                    Some(client) => {
                        let mut client = client;
                        let id = extension_to_language_id(ext.as_str());
                        let n = client.sync_document(path, content, id);
                        self.clients.insert(ext.clone(), client);
                        assert(self.clients@.remove(ext@) =~= was.remove(ext@));
                        Some(n)
                    },
                    None => {
                        assert(self.clients@ =~= was);
                        None
                    },
                }
            },
            None => None,
        }
    }

    /// The extensions that have a running server, in order.
    pub fn active_servers(&self) -> (r: Vec<&str>)
        requires
            self.wf(),
        ensures
            ascending(borrowed(r@)),
            forall|ext: Seq<char>| #[trigger] borrowed(r@).contains(ext) <==> self.clients@.contains_key(ext),
    {
        sorted_keys(&self.clients)
    }

    /// Gives up the servers that run, for the caller to end.
    pub fn shutdown(&mut self) -> (r: TextMap<LspClient>)
        requires
            old(self).wf(),
        ensures
            final(self).wf(),
            final(self).clients@ == Map::<Seq<char>, LspClient>::empty(),
            final(self).registry@ == old(self).registry@,
            final(self).project_root@ == old(self).project_root@,
            final(self).enabled == old(self).enabled,
            final(self).diagnostics_settle_delay_ms == old(self).diagnostics_settle_delay_ms,
            r.wf(),
            r@ == old(self).clients@,
    {
        let mut none: TextMap<LspClient> = TextMap::new();
        std::mem::swap(&mut none, &mut self.clients);
        none
    }

    /// What to say of a server that did not end well.
    pub fn shutdown_warning(&self, ext: String, error: &str) -> (r: LspConnectEvent)
        ensures
            r matches LspConnectEvent::Warning { ext: e, message } && e@ == ext@ && message@
                == "shutdown error: "@ + error@,
    {
        let mut message: String = "shutdown error: ".to_owned();
        message.append(error);
        LspConnectEvent::Warning { ext, message }
    }
}

/// Each language goes by the name that the protocol has for it; an extension without one
/// is its own name.
pub proof fn languages_go_by_their_names(ext: Seq<char>)
    ensures
        language_id("rs"@) == "rust"@,
        language_id("ts"@) == "typescript"@,
        language_id("tsx"@) == "typescriptreact"@,
        language_id("js"@) == "javascript"@,
        language_id("jsx"@) == "javascriptreact"@,
        language_id("py"@) == "python"@,
        language_id("cpp"@) == "cpp"@ && language_id("cc"@) == "cpp"@ && language_id("cxx"@) == "cpp"@,
        language_id("cs"@) == "csharp"@,
        language_id("rb"@) == "ruby"@,
        language_id("kt"@) == "kotlin"@ && language_id("kts"@) == "kotlin"@,
        language_id("go"@) == "go"@ && language_id("java"@) == "java"@,
        ext.len() > 3 ==> language_id(ext) == ext,
{
    reveal_strlit("rs");
    reveal_strlit("ts");
    reveal_strlit("tsx");
    reveal_strlit("js");
    reveal_strlit("jsx");
    reveal_strlit("py");
    reveal_strlit("cpp");
    reveal_strlit("cc");
    reveal_strlit("cxx");
    reveal_strlit("cs");
    reveal_strlit("rb");
    reveal_strlit("kt");
    reveal_strlit("kts");
    reveal_strlit("go");
    reveal_strlit("java");
    assert("rs"@[0] == 'r' && "rs"@[1] == 's' && "ts"@[0] == 't' && "js"@[0] == 'j' && "py"@[0] == 'p' && "cc"@[0] == 'c'
        && "cc"@[1] == 'c' && "cs"@[0] == 'c' && "cs"@[1] == 's' && "rb"@[0] == 'r' && "rb"@[1] == 'b' && "kt"@[0] == 'k'
        && "go"@[0] == 'g');
    assert("tsx"@[0] == 't' && "jsx"@[0] == 'j' && "cpp"@[0] == 'c' && "cpp"@[1] == 'p' && "cxx"@[0] == 'c' && "cxx"@[1]
        == 'x' && "kts"@[0] == 'k');
    assert("tsx"@.len() == 3 && "jsx"@.len() == 3 && "cpp"@.len() == 3 && "cxx"@.len() == 3 && "kts"@.len() == 3
        && "java"@.len() == 4);
    assert("rs"@.len() == 2 && "ts"@.len() == 2 && "js"@.len() == 2 && "py"@.len() == 2 && "cc"@.len() == 2 && "cs"@.len()
        == 2 && "rb"@.len() == 2 && "kt"@.len() == 2 && "go"@.len() == 2);
}

/// The user's servers always count, the common ones only where they are wanted and the
/// user has none for the extension.
pub proof fn configured_servers_win(user: Map<Seq<char>, ServerView>, ext: Seq<char>)
    ensures
        user.contains_key(ext) ==> configured(true, user)[ext] == user[ext] && configured(false, user)[ext] == user[ext]
            && configured(true, user).contains_key(ext) && configured(false, user).contains_key(ext),
        !user.contains_key(ext) ==> !configured(false, user).contains_key(ext),
        !user.contains_key(ext) && default_server(ext) is Some ==> configured(true, user).contains_key(ext) && configured(
            true,
            user,
        )[ext] == default_server(ext)->0,
        !user.contains_key(ext) && default_server(ext) is None ==> !configured(true, user).contains_key(ext),
{
}

} // verus!
