//! Which servers are configured, and how they are reached.

use vstd::prelude::*;
use vstd::string::*;

use crate::hook::string_values;
use crate::mcp::expand::{
    expand_env_vars, expand_tilde, expanded, tilde_text, values_stand_in_the_place_of_variables,
};
use crate::text::{opt, same, texts};
use crate::text_map::{keys_of, TextMap};
use crate::text_order::{ascending, borrowed, in_key_order, sorted_keys};

verus! {

/// How a server is reached.
#[derive(Debug)]
pub enum McpTransportConfig {
    Stdio { command: String, args: Vec<String>, env: TextMap<String>, timeout_ms: Option<u64> },
    Http { url: String, headers: TextMap<String>, auth: Option<McpHttpAuthConfig>, timeout_ms: Option<u64> },
}

#[derive(Debug)]
pub enum McpHttpAuthConfig {
    OAuth(McpOAuthConfig),
}

#[derive(Debug)]
pub struct McpOAuthConfig {
    pub provider: Option<String>,
    pub issuer: Option<String>,
    pub resource: Option<String>,
    pub client_id: Option<String>,
    /// The variable that holds the client's secret.
    pub client_secret_env: Option<String>,
    pub scopes: Vec<String>,
}

#[verifier::ext_equal]
pub struct OAuthView {
    pub provider: Option<Seq<char>>,
    pub issuer: Option<Seq<char>>,
    pub resource: Option<Seq<char>>,
    pub client_id: Option<Seq<char>>,
    pub client_secret_env: Option<Seq<char>>,
    pub scopes: Seq<Seq<char>>,
}

impl View for McpOAuthConfig {
    type V = OAuthView;

    open spec fn view(&self) -> OAuthView {
        OAuthView {
            provider: opt(self.provider),
            issuer: opt(self.issuer),
            resource: opt(self.resource),
            client_id: opt(self.client_id),
            client_secret_env: opt(self.client_secret_env),
            scopes: texts(self.scopes@),
        }
    }
}

impl View for McpHttpAuthConfig {
    type V = OAuthView;

    open spec fn view(&self) -> OAuthView {
        match self {
            McpHttpAuthConfig::OAuth(o) => o@,
        }
    }
}

pub open spec fn auth_view(a: Option<McpHttpAuthConfig>) -> Option<OAuthView> {
    match a {
        Some(x) => Some(x@),
        None => None,
    }
}

impl Default for McpOAuthConfig {
    fn default() -> (r: Self)
        ensures
            r@ == (OAuthView {
                provider: None,
                issuer: None,
                resource: None,
                client_id: None,
                client_secret_env: None,
                scopes: Seq::empty(),
            }),
    {
        let r = McpOAuthConfig {
            provider: None,
            issuer: None,
            resource: None,
            client_id: None,
            client_secret_env: None,
            scopes: Vec::new(),
        };
        assert(texts(r.scopes@) =~= Seq::<Seq<char>>::empty());
        r
    }
}

#[verifier::ext_equal]
pub enum TransportView {
    Stdio {
        command: Seq<char>,
        args: Seq<Seq<char>>,
        env: Map<Seq<char>, Seq<char>>,
        timeout_ms: Option<u64>,
    },
    Http {
        url: Seq<char>,
        headers: Map<Seq<char>, Seq<char>>,
        auth: Option<OAuthView>,
        timeout_ms: Option<u64>,
    },
}

impl View for McpTransportConfig {
    type V = TransportView;

    open spec fn view(&self) -> TransportView {
        match self {
            McpTransportConfig::Stdio { command, args, env, timeout_ms } => TransportView::Stdio {
                command: command@,
                args: texts(args@),
                env: string_values(env@),
                timeout_ms: *timeout_ms,
            },
            McpTransportConfig::Http { url, headers, auth, timeout_ms } => TransportView::Http {
                url: url@,
                headers: string_values(headers@),
                auth: auth_view(*auth),
                timeout_ms: *timeout_ms,
            },
        }
    }
}

impl McpTransportConfig {
    pub open spec fn wf(&self) -> bool {
        match self {
            McpTransportConfig::Stdio { env, .. } => env.wf(),
            McpTransportConfig::Http { headers, .. } => headers.wf(),
        }
    }
}

#[derive(Debug)]
pub struct McpServerConfig {
    pub name: String,
    pub disabled: bool,
    pub config: McpTransportConfig,
    pub source: McpConfigSource,
    /// Whether its tools are used without asking.
    pub trust: bool,
    /// The tools that are used without asking.
    pub auto_approve: Vec<String>,
}

#[verifier::ext_equal]
pub struct ServerConfigView {
    pub name: Seq<char>,
    pub disabled: bool,
    pub config: TransportView,
    pub source: McpConfigSource,
    pub trust: bool,
    pub auto_approve: Seq<Seq<char>>,
}

impl View for McpServerConfig {
    type V = ServerConfigView;

    open spec fn view(&self) -> ServerConfigView {
        ServerConfigView {
            name: self.name@,
            disabled: self.disabled,
            config: self.config@,
            source: self.source,
            trust: self.trust,
            auto_approve: texts(self.auto_approve@),
        }
    }
}

/// Where a server is configured.
#[derive(Debug, Clone, Copy, PartialEq, Eq, Structural)]
pub enum McpConfigSource {
    Project,
    User,
}

impl McpConfigSource {
    pub fn as_str(self) -> (r: &'static str)
        ensures
            r@ == match self {
                McpConfigSource::Project => "project"@,
                McpConfigSource::User => "global"@,
            },
    {
        match self {
            McpConfigSource::Project => "project",
            McpConfigSource::User => "global",
        }
    }
}

/// A server as it stands in a configuration file.
#[derive(Debug)]
pub struct McpServerEntry {
    pub disabled: bool,
    pub command: Option<String>,
    pub args: Option<Vec<String>>,
    pub env: Option<TextMap<String>>,
    pub url: Option<String>,
    pub headers: Option<TextMap<String>>,
    pub auth: Option<McpAuthEntry>,
    pub timeout_ms: Option<u64>,
    pub trust: bool,
    pub auto_approve: Vec<String>,
}

impl McpServerEntry {
    pub open spec fn wf(&self) -> bool {
        &&& self.env is Some ==> self.env->0.wf()
        &&& self.headers is Some ==> self.headers->0.wf()
    }
}

#[derive(Debug)]
pub struct McpAuthEntry {
    pub kind: Option<String>,
    pub provider: Option<String>,
    pub issuer: Option<String>,
    pub resource: Option<String>,
    pub client_id: Option<String>,
    pub client_secret_env: Option<String>,
    pub scopes: Vec<String>,
    pub bearer: Option<String>,
    pub header: Option<String>,
}

/// Why a configured server cannot be used.
#[derive(Debug)]
pub enum McpConfigError {
    /// It is neither a command nor a web address.
    NoTransport { name: String },
    UnsupportedAuth { name: String, kind: String },
}

#[verifier::ext_equal]
pub enum ConfigErrorView {
    NoTransport(Seq<char>),
    UnsupportedAuth(Seq<char>, Seq<char>),
}

impl View for McpConfigError {
    type V = ConfigErrorView;

    open spec fn view(&self) -> ConfigErrorView {
        match self {
            McpConfigError::NoTransport { name } => ConfigErrorView::NoTransport(name@),
            McpConfigError::UnsupportedAuth { name, kind } => ConfigErrorView::UnsupportedAuth(name@, kind@),
        }
    }
}

pub open spec fn config_error_text(e: ConfigErrorView) -> Seq<char> {
    match e {
        ConfigErrorView::NoTransport(name) => "MCP server '"@ + name
            + "' must have either 'command' (stdio) or 'url' (http)"@,
        ConfigErrorView::UnsupportedAuth(name, kind) => "MCP server '"@ + name
            + "' has unsupported auth.type '"@ + kind + "'"@,
    }
}

impl McpConfigError {
    pub fn text(&self) -> (r: String)
        ensures
            r@ == config_error_text(self@),
    {
        let mut out: String = "MCP server '".to_owned();
        match self {
            McpConfigError::NoTransport { name } => {
                out.append(name.as_str());
                out.append("' must have either 'command' (stdio) or 'url' (http)");
            },
            McpConfigError::UnsupportedAuth { name, kind } => {
                out.append(name.as_str());
                out.append("' has unsupported auth.type '");
                out.append(kind.as_str());
                out.append("'");
            },
        }
        out
    }
}

// ---- Filling in variables ----

/// The variables of the environment, and the home directory.
#[derive(Debug)]
pub struct Surroundings {
    pub env: TextMap<String>,
    pub home: Option<String>,
}

impl Surroundings {
    pub open spec fn wf(&self) -> bool {
        self.env.wf()
    }

    /// A text with variables filled in.
    pub open spec fn filled(&self, s: Seq<char>) -> Seq<char> {
        expanded(s, string_values(self.env@))
    }

    /// A text with variables and then the home directory filled in.
    pub open spec fn placed(&self, s: Seq<char>) -> Seq<char> {
        tilde_text(self.filled(s), opt(self.home))
    }

    pub open spec fn filled_opt(&self, s: Option<Seq<char>>) -> Option<Seq<char>> {
        match s {
            Some(t) => Some(self.filled(t)),
            None => None,
        }
    }

    fn fill(&self, s: &str) -> (r: String)
        requires
            self.wf(),
        ensures
            r@ == self.filled(s@),
    {
        expand_env_vars(s, &self.env)
    }

    fn fill_opt(&self, s: &Option<String>) -> (r: Option<String>)
        requires
            self.wf(),
        ensures
            opt(r) == self.filled_opt(opt(*s)),
    {
        match s {
            Some(t) => Some(self.fill(t.as_str())),
            None => None,
        }
    }

    fn place(&self, s: &str) -> (r: String)
        requires
            self.wf(),
        ensures
            r@ == self.placed(s@),
    {
        let filled = self.fill(s);
        expand_tilde(filled.as_str(), &self.home)
    }

    fn fill_all(&self, v: &Vec<String>) -> (r: Vec<String>)
        requires
            self.wf(),
        ensures
            texts(r@) == texts(v@).map_values(|s: Seq<char>| self.filled(s)),
    {
        let mut out: Vec<String> = Vec::new();
        let mut i: usize = 0;
        while i < v.len()
            invariant
                i <= v.len(),
                self.wf(),
                out@.len() == i,
                forall|k: int| 0 <= k < i ==> (#[trigger] out@[k])@ == self.filled(v@[k]@),
            decreases v.len() - i,
        {
            out.push(self.fill(v[i].as_str()));
            i = i + 1;
        }
        assert(texts(out@) =~= texts(v@).map_values(|s: Seq<char>| self.filled(s)));
        out
    }

    fn place_all(&self, v: &Vec<String>) -> (r: Vec<String>)
        requires
            self.wf(),
        ensures
            texts(r@) == texts(v@).map_values(|s: Seq<char>| self.placed(s)),
    {
        let mut out: Vec<String> = Vec::new();
        let mut i: usize = 0;
        while i < v.len()
            invariant
                i <= v.len(),
                self.wf(),
                out@.len() == i,
                forall|k: int| 0 <= k < i ==> (#[trigger] out@[k])@ == self.placed(v@[k]@),
            decreases v.len() - i,
        {
            out.push(self.place(v[i].as_str()));
            i = i + 1;
        }
        assert(texts(out@) =~= texts(v@).map_values(|s: Seq<char>| self.placed(s)));
        out
    }

    fn fill_map(&self, m: &TextMap<String>) -> (r: TextMap<String>)
        requires
            self.wf(),
            m.wf(),
        ensures
            r.wf(),
            string_values(r@) == string_values(m@).map_values(|s: Seq<char>| self.filled(s)),
    {
        let n = m.len();
        let ghost list = m.list();
        let mut out: TextMap<String> = TextMap::new();
        let mut i: usize = 0;
        proof {
            m.lemma_list();
        }
        while i < n
            invariant
                i <= n == list.len(),
                self.wf(),
                m.wf(),
                list == m.list(),
                out.wf(),
                forall|k: Seq<char>|
                    #[trigger] out@.contains_key(k) <==> exists|j: int| 0 <= j < i && #[trigger] list[j].0@ == k,
                forall|k: Seq<char>|
                    #[trigger] out@.contains_key(k) ==> m@.contains_key(k) && out@[k]@ == self.filled(m@[k]@),
            decreases n - i,
        {
            let ghost was = out@;
            let key = m.key_at(i);
            let value = self.fill(m.value_at(i).as_str());
            out.insert(key.clone(), value);
            assert forall|k: Seq<char>| #[trigger] out@.contains_key(k) <==> exists|j: int|
                0 <= j < i + 1 && #[trigger] list[j].0@ == k by {
                if was.contains_key(k) {
                    let j = choose|j: int| 0 <= j < i && #[trigger] list[j].0@ == k;
                    assert(list[j].0@ == k);
                }
                if k == key@ {
                    assert(list[i as int].0@ == k);
                }
                if exists|j: int| 0 <= j < i + 1 && #[trigger] list[j].0@ == k {
                    let j = choose|j: int| 0 <= j < i + 1 && #[trigger] list[j].0@ == k;
                    if j < i {
                        assert(was.contains_key(k));
                    }
                }
            }
            i = i + 1;
        }
        assert forall|k: Seq<char>| #[trigger] m@.contains_key(k) implies out@.contains_key(k) by {
            assert(keys_of(list).contains(k));
            let j = choose|j: int| 0 <= j < keys_of(list).len() && keys_of(list)[j] == k;
            assert(list[j].0@ == k);
        }
        assert(string_values(out@) =~= string_values(m@).map_values(|s: Seq<char>| self.filled(s)));
        out
    }
}

// ---- Reading an entry ----

/// The header that carries a token, if one is configured.
pub open spec fn token_header(auth: Option<McpAuthEntry>, w: Surroundings) -> Option<(Seq<char>, Seq<char>)> {
    match auth {
        Some(a) => match (a.header, a.bearer) {
            (Some(h), Some(b)) => Some((h@, w.filled(b@))),
            _ => None,
        },
        None => None,
    }
}

/// How a server is logged in to, or that it cannot be.
pub open spec fn login_of(name: Seq<char>, auth: Option<McpAuthEntry>, w: Surroundings) -> Result<
    Option<OAuthView>,
    ConfigErrorView,
> {
    match auth {
        None => Ok(None),
        Some(a) => match opt(a.kind) {
            None => Ok(None),
            Some(kind) => if kind == "oauth"@ {
                Ok(
                    Some(
                        OAuthView {
                            provider: Some(
                                match opt(a.provider) {
                                    Some(p) => p,
                                    None => name,
                                },
                            ),
                            issuer: w.filled_opt(opt(a.issuer)),
                            resource: w.filled_opt(opt(a.resource)),
                            client_id: w.filled_opt(opt(a.client_id)),
                            client_secret_env: opt(a.client_secret_env),
                            scopes: texts(a.scopes@).map_values(|s: Seq<char>| w.filled(s)),
                        },
                    ),
                )
            } else {
                Err(ConfigErrorView::UnsupportedAuth(name, kind))
            },
        },
    }
}

/// How a server is logged in to: by OAuth, by a header, by both or not at all.
#[derive(Debug)]
pub struct ParsedHttpAuth {
    pub oauth: Option<McpHttpAuthConfig>,
    pub header: Option<(String, String)>,
}

pub open spec fn pair_view(p: Option<(String, String)>) -> Option<(Seq<char>, Seq<char>)> {
    match p {
        Some(e) => Some((e.0@, e.1@)),
        None => None,
    }
}

pub fn parse_http_auth(name: &str, auth: &Option<McpAuthEntry>, w: &Surroundings) -> (r: Result<
    ParsedHttpAuth,
    McpConfigError,
>)
    requires
        w.wf(),
    ensures
        match r {
            Ok(p) => login_of(name@, *auth, *w) == Ok::<Option<OAuthView>, ConfigErrorView>(auth_view(p.oauth))
                && pair_view(p.header) == token_header(*auth, *w),
            Err(e) => login_of(name@, *auth, *w) == Err::<Option<OAuthView>, ConfigErrorView>(e@),
        },
{
    let a = match auth {
        Some(a) => a,
        None => return Ok(ParsedHttpAuth { oauth: None, header: None }),
    };
    let header = match (&a.header, &a.bearer) {
        (Some(h), Some(b)) => Some((h.clone(), w.fill(b.as_str()))),
        _ => None,
    };
    match &a.kind {
        None => Ok(ParsedHttpAuth { oauth: None, header }),
        Some(kind) => if same(kind.as_str(), "oauth") {
            let provider = match &a.provider {
                Some(p) => p.clone(),
                None => name.to_owned(),
            };
            let o = McpOAuthConfig {
                provider: Some(provider),
                issuer: w.fill_opt(&a.issuer),
                resource: w.fill_opt(&a.resource),
                client_id: w.fill_opt(&a.client_id),
                client_secret_env: crate::conversation::clone_opt(&a.client_secret_env),
                scopes: w.fill_all(&a.scopes),
            };
            Ok(ParsedHttpAuth { oauth: Some(McpHttpAuthConfig::OAuth(o)), header })
        } else {
            Err(McpConfigError::UnsupportedAuth { name: name.to_owned(), kind: kind.clone() })
        },
    }
}

pub open spec fn map_or_empty(m: Option<TextMap<String>>) -> Map<Seq<char>, Seq<char>> {
    match m {
        Some(t) => string_values(t@),
        None => Map::empty(),
    }
}

pub open spec fn list_or_empty(v: Option<Vec<String>>) -> Seq<Seq<char>> {
    match v {
        Some(l) => texts(l@),
        None => Seq::empty(),
    }
}

/// A map with one more entry, unless it has that key already.
pub open spec fn or_insert(m: Map<Seq<char>, Seq<char>>, e: Option<(Seq<char>, Seq<char>)>) -> Map<
    Seq<char>,
    Seq<char>,
> {
    match e {
        Some(p) => if m.contains_key(p.0) {
            m
        } else {
            m.insert(p.0, p.1)
        },
        None => m,
    }
}

/// How an entry's server is reached: by its command where it has one, else by its
/// web address.
pub open spec fn transport_of(name: Seq<char>, entry: McpServerEntry, w: Surroundings) -> Result<
    TransportView,
    ConfigErrorView,
> {
    match opt(entry.command) {
        Some(command) => Ok(
            TransportView::Stdio {
                command: w.placed(command),
                args: list_or_empty(entry.args).map_values(|s: Seq<char>| w.placed(s)),
                env: map_or_empty(entry.env).map_values(|s: Seq<char>| w.filled(s)),
                timeout_ms: entry.timeout_ms,
            },
        ),
        None => match opt(entry.url) {
            Some(url) => match login_of(name, entry.auth, w) {
                Ok(auth) => Ok(
                    TransportView::Http {
                        url: w.placed(url),
                        headers: or_insert(
                            map_or_empty(entry.headers).map_values(|s: Seq<char>| w.filled(s)),
                            token_header(entry.auth, w),
                        ),
                        auth,
                        timeout_ms: entry.timeout_ms,
                    },
                ),
                Err(e) => Err(e),
            },
            None => Err(ConfigErrorView::NoTransport(name)),
        },
    }
}

/// The server that an entry describes.
pub open spec fn server_of(name: Seq<char>, entry: McpServerEntry, source: McpConfigSource, w: Surroundings) -> Result<
    ServerConfigView,
    ConfigErrorView,
> {
    match transport_of(name, entry, w) {
        Ok(config) => Ok(
            ServerConfigView {
                name,
                disabled: entry.disabled,
                config,
                source,
                trust: entry.trust,
                auto_approve: texts(entry.auto_approve@),
            },
        ),
        Err(e) => Err(e),
    }
}

fn fill_opt_map(m: &Option<TextMap<String>>, w: &Surroundings) -> (r: TextMap<String>)
    requires
        w.wf(),
        m is Some ==> m->0.wf(),
    ensures
        r.wf(),
        string_values(r@) == map_or_empty(*m).map_values(|s: Seq<char>| w.filled(s)),
{
    match m {
        Some(t) => w.fill_map(t),
        None => {
            let r: TextMap<String> = TextMap::new();
            assert(string_values(r@) =~= map_or_empty(*m).map_values(|s: Seq<char>| w.filled(s)));
            r
        },
    }
}

fn place_opt_list(v: &Option<Vec<String>>, w: &Surroundings) -> (r: Vec<String>)
    requires
        w.wf(),
    ensures
        texts(r@) == list_or_empty(*v).map_values(|s: Seq<char>| w.placed(s)),
{
    match v {
        Some(l) => w.place_all(l),
        None => {
            let r: Vec<String> = Vec::new();
            assert(texts(r@) =~= list_or_empty(*v).map_values(|s: Seq<char>| w.placed(s)));
            r
        },
    }
}

fn read_transport(name: &str, entry: &McpServerEntry, w: &Surroundings) -> (r: Result<
    McpTransportConfig,
    McpConfigError,
>)
    requires
        w.wf(),
        entry.wf(),
    ensures
        match r {
            Ok(c) => c.wf() && transport_of(name@, *entry, *w) == Ok::<TransportView, ConfigErrorView>(c@),
            Err(e) => transport_of(name@, *entry, *w) == Err::<TransportView, ConfigErrorView>(e@),
        },
{
    if let Some(command) = &entry.command {
        return Ok(
            McpTransportConfig::Stdio {
                command: w.place(command.as_str()),
                args: place_opt_list(&entry.args, w),
                env: fill_opt_map(&entry.env, w),
                timeout_ms: entry.timeout_ms,
            },
        );
    }
    match &entry.url {
        Some(url) => {
            let parsed = match parse_http_auth(name, &entry.auth, w) {
                Ok(p) => p,
                Err(e) => return Err(e),
            };
            let mut headers = fill_opt_map(&entry.headers, w);
            let ghost own = headers@;
            if let Some((k, v)) = parsed.header {
                if headers.get(k.as_str()).is_none() {
                    headers.insert(k, v);
                    assert(string_values(headers@) =~= string_values(own).insert(k@, v@));
                }
            }
            assert(string_values(headers@) == or_insert(string_values(own), token_header(entry.auth, *w)));
            Ok(
                McpTransportConfig::Http {
                    url: w.place(url.as_str()),
                    headers,
                    auth: parsed.oauth,
                    timeout_ms: entry.timeout_ms,
                },
            )
        },
        None => Err(McpConfigError::NoTransport { name: name.to_owned() }),
    }
}

/// Reads an entry.
pub fn server_entry_to_config(name: &str, entry: &McpServerEntry, source: McpConfigSource, w: &Surroundings) -> (r:
    Result<McpServerConfig, McpConfigError>)
    requires
        w.wf(),
        entry.wf(),
    ensures
        match r {
            Ok(c) => c.config.wf() && server_of(name@, *entry, source, *w) == Ok::<
                ServerConfigView,
                ConfigErrorView,
            >(c@),
            Err(e) => server_of(name@, *entry, source, *w) == Err::<ServerConfigView, ConfigErrorView>(e@),
        },
{
    match read_transport(name, entry, w) {
        Ok(config) => Ok(
            McpServerConfig {
                name: name.to_owned(),
                disabled: entry.disabled,
                config,
                source,
                trust: entry.trust,
                auto_approve: crate::conversation::clone_texts(&entry.auto_approve),
            },
        ),
        Err(e) => Err(e),
    }
}

pub open spec fn server_views(v: Seq<McpServerConfig>) -> Seq<ServerConfigView> {
    v.map_values(|c: McpServerConfig| c@)
}

/// The servers of a file, or what is wrong with the first that cannot be used.
pub open spec fn servers_of(entries: Seq<(String, McpServerEntry)>, source: McpConfigSource, w: Surroundings) -> Result<
    Seq<ServerConfigView>,
    ConfigErrorView,
>
    decreases entries.len(),
{
    if entries.len() == 0 {
        Ok(Seq::empty())
    } else {
        match servers_of(entries.drop_last(), source, w) {
            Ok(before) => match server_of(entries.last().0@, entries.last().1, source, w) {
                Ok(c) => Ok(before.push(c)),
                Err(e) => Err(e),
            },
            Err(e) => Err(e),
        }
    }
}

proof fn lemma_error_stays(entries: Seq<(String, McpServerEntry)>, source: McpConfigSource, w: Surroundings, n: int)
    requires
        0 <= n <= entries.len(),
        servers_of(entries.take(n), source, w) is Err,
    ensures
        servers_of(entries, source, w) == servers_of(entries.take(n), source, w),
    decreases entries.len() - n,
{
    if n == entries.len() {
        assert(entries.take(n) =~= entries);
    } else {
        assert(entries.take(n + 1).drop_last() =~= entries.take(n));
        lemma_error_stays(entries, source, w, n + 1);
    }
}

/// Reads the servers of a file.
pub fn load_config_file(entries: &Vec<(String, McpServerEntry)>, source: McpConfigSource, w: &Surroundings) -> (r:
    Result<Vec<McpServerConfig>, McpConfigError>)
    requires
        w.wf(),
        forall|i: int| 0 <= i < entries@.len() ==> (#[trigger] entries@[i]).1.wf(),
    ensures
        match r {
            Ok(v) => servers_of(entries@, source, *w) == Ok::<Seq<ServerConfigView>, ConfigErrorView>(
                server_views(v@),
            ),
            Err(e) => servers_of(entries@, source, *w) == Err::<Seq<ServerConfigView>, ConfigErrorView>(e@),
        },
{
    let mut out: Vec<McpServerConfig> = Vec::new();
    let mut i: usize = 0;
    assert(entries@.take(0) =~= Seq::<(String, McpServerEntry)>::empty());
    assert(server_views(out@) =~= Seq::<ServerConfigView>::empty());
    while i < entries.len()
        invariant
            i <= entries.len(),
            w.wf(),
            forall|i: int| 0 <= i < entries@.len() ==> (#[trigger] entries@[i]).1.wf(),
            servers_of(entries@.take(i as int), source, *w) == Ok::<Seq<ServerConfigView>, ConfigErrorView>(
                server_views(out@),
            ),
        decreases entries.len() - i,
    {
        assert(entries@.take(i + 1).drop_last() =~= entries@.take(i as int));
        assert(entries@[i as int].1.wf());
        let ghost was = out@;
        match server_entry_to_config(entries[i].0.as_str(), &entries[i].1, source, w) {
            Ok(c) => {
                out.push(c);
                assert(server_views(out@) =~= server_views(was).push(c@));
            },
            Err(e) => {
                proof {
                    lemma_error_stays(entries@, source, *w, i + 1);
                }
                return Err(e);
            },
        }
        i = i + 1;
    }
    assert(entries@.take(i as int) =~= entries@);
    Ok(out)
}

/// Servers by name, with more of them; a later one of the same name wins.
pub open spec fn by_name(m: Map<Seq<char>, ServerConfigView>, servers: Seq<ServerConfigView>) -> Map<
    Seq<char>,
    ServerConfigView,
>
    decreases servers.len(),
{
    if servers.len() == 0 {
        m
    } else {
        by_name(m, servers.drop_last()).insert(servers.last().name, servers.last())
    }
}

/// The servers that are switched on.
pub open spec fn switched_on(m: Map<Seq<char>, ServerConfigView>) -> Map<Seq<char>, ServerConfigView> {
    Map::new(|k: Seq<char>| m.contains_key(k) && !m[k].disabled, |k: Seq<char>| m[k])
}

/// The servers of the user and of the project by name; the project's win.
pub open spec fn merged_servers(user: Seq<ServerConfigView>, project: Seq<ServerConfigView>) -> Map<
    Seq<char>,
    ServerConfigView,
> {
    by_name(by_name(Map::empty(), user), project)
}

pub open spec fn server_map(m: Map<Seq<char>, McpServerConfig>) -> Map<Seq<char>, ServerConfigView> {
    m.map_values(|c: McpServerConfig| c@)
}

fn put_servers(m: &mut TextMap<McpServerConfig>, servers: Vec<McpServerConfig>)
    requires
        old(m).wf(),
    ensures
        final(m).wf(),
        server_map(final(m)@) == by_name(server_map(old(m)@), server_views(servers@)),
{
    let ghost start = server_map(m@);
    let ghost views = server_views(servers@);
    let ghost all = servers@;
    let mut servers = servers;
    let ghost mut done: int = 0;
    assert(views.take(0) =~= Seq::<ServerConfigView>::empty());
    assert(all.skip(0) =~= all);
    while servers.len() > 0
        invariant
            0 <= done <= all.len(),
            views == server_views(all),
            servers@ == all.skip(done),
            m.wf(),
            server_map(m@) == by_name(start, views.take(done)),
        decreases servers.len(),
    {
        let ghost was = m@;
        let c = servers.remove(0);
        assert(c == all[done]);
        assert(views.take(done + 1).drop_last() =~= views.take(done));
        assert(views.take(done + 1).last() == c@);
        m.insert(c.name.clone(), c);
        assert(server_map(m@) =~= server_map(was).insert(c@.name, c@));
        proof {
            done = done + 1;
        }
        assert(servers@ =~= all.skip(done));
    }
    assert(views.take(done) =~= views);
}

/// The servers that are configured and switched on, in the order of their names.
/// The project's win over the user's of the same name, also where they are
/// switched off.
pub fn load_mcp_config(user: Vec<McpServerConfig>, project: Vec<McpServerConfig>) -> (r: Vec<McpServerConfig>)
    ensures
        in_key_order(
            server_views(r@),
            switched_on(merged_servers(server_views(user@), server_views(project@))),
        ),
{
    let mut all: TextMap<McpServerConfig> = TextMap::new();
    assert(server_map(all@) =~= Map::<Seq<char>, ServerConfigView>::empty());
    put_servers(&mut all, user);
    put_servers(&mut all, project);
    let ghost m = server_map(all@);
    let order = owned(&sorted_keys(&all));
    let ghost keys = texts(order@);
    let ghost mut kept: Seq<Seq<char>> = Seq::empty();
    let mut out: Vec<McpServerConfig> = Vec::new();
    let mut i: usize = 0;
    assert forall|k: int| 0 <= k < keys.len() implies all@.contains_key(#[trigger] keys[k]) && all@[keys[k]]@
        == m[keys[k]] by {
        assert(keys.contains(keys[k]));
    }
    while i < order.len()
        invariant
            i <= order.len(),
            keys == texts(order@),
            ascending(keys),
            all.wf(),
            forall|k: int| i <= k < keys.len() ==> all@.contains_key(#[trigger] keys[k]) && all@[keys[k]]@
                == m[keys[k]],
            forall|t: Seq<char>| #[trigger] keys.contains(t) <==> m.contains_key(t),
            kept.len() == out@.len(),
            ascending(kept),
            forall|t: Seq<char>| #[trigger]
                kept.contains(t) <==> exists|j: int| 0 <= j < i && #[trigger] keys[j] == t && !m[t].disabled,
            forall|k: int| 0 <= k < kept.len() ==> (#[trigger] out@[k])@ == m[kept[k]],
        decreases order.len() - i,
    {
        assert(keys[i as int] == order@[i as int]@);
        let ghost before = all@;
        let ghost kept_before = kept;
        let ghost key = keys[i as int];
        if let Some(c) = all.remove(order[i].as_str()) {
            if !c.disabled {
                out.push(c);
                proof {
                    kept = kept.push(key);
                }
            }
        }
        assert forall|k: int| i + 1 <= k < keys.len() implies all@.contains_key(#[trigger] keys[k]) && all@[keys[k]]@
            == m[keys[k]] by {
            crate::text_order::lemma_precedes_total(keys[i as int], keys[k]);
        }
        proof {
            lemma_kept_step(keys, kept_before, kept, m, i as int);
        }
        i = i + 1;
    }
    proof {
        let on = switched_on(m);
        assert forall|t: Seq<char>| #[trigger] kept.contains(t) <==> on.contains_key(t) by {
            if on.contains_key(t) {
                assert(keys.contains(t));
                let j = choose|j: int| 0 <= j < keys.len() && keys[j] == t;
                assert(keys[j] == t);
            }
            if kept.contains(t) {
                let j = choose|j: int| 0 <= j < i && #[trigger] keys[j] == t && !m[t].disabled;
                assert(keys.contains(keys[j]));
            }
        }
        let list = server_views(out@);
        assert forall|k: int| 0 <= k < list.len() implies #[trigger] list[k] == on[kept[k]] by {
            assert(out@[k]@ == m[kept[k]]);
            assert(kept.contains(kept[k]));
        }
        assert(ascending(kept) && kept.len() == list.len());
        assert(in_key_order(list, on));
    }
    out
}

proof fn lemma_kept_step(
    keys: Seq<Seq<char>>,
    before: Seq<Seq<char>>,
    after: Seq<Seq<char>>,
    m: Map<Seq<char>, ServerConfigView>,
    i: int,
)
    requires
        0 <= i < keys.len(),
        ascending(keys),
        ascending(before),
        forall|t: Seq<char>| #[trigger]
            before.contains(t) <==> exists|j: int| 0 <= j < i && #[trigger] keys[j] == t && !m[t].disabled,
        after == (if m[keys[i]].disabled {
            before
        } else {
            before.push(keys[i])
        }),
    ensures
        ascending(after),
        forall|t: Seq<char>| #[trigger]
            after.contains(t) <==> exists|j: int| 0 <= j < i + 1 && #[trigger] keys[j] == t && !m[t].disabled,
{
    assert forall|a: int, b: int| 0 <= a < b < after.len() implies crate::text_order::precedes(
        #[trigger] after[a],
        #[trigger] after[b],
    ) by {
        if b < before.len() {
            assert(after[a] == before[a] && after[b] == before[b]);
        } else {
            assert(after[a] == before[a]);
            assert(before.contains(before[a]));
            let j = choose|j: int| 0 <= j < i && #[trigger] keys[j] == before[a] && !m[before[a]].disabled;
            assert(crate::text_order::precedes(keys[j], keys[i]));
        }
    }
    assert forall|t: Seq<char>| #[trigger] after.contains(t) <==> exists|j: int|
        0 <= j < i + 1 && #[trigger] keys[j] == t && !m[t].disabled by {
        if after.contains(t) {
            let k = choose|k: int| 0 <= k < after.len() && after[k] == t;
            if k < before.len() {
                assert(before[k] == t);
                assert(before.contains(t));
                let j = choose|j: int| 0 <= j < i && #[trigger] keys[j] == t && !m[t].disabled;
                assert(keys[j] == t);
            } else {
                assert(keys[i] == t);
            }
        }
        if exists|j: int| 0 <= j < i + 1 && #[trigger] keys[j] == t && !m[t].disabled {
            let j = choose|j: int| 0 <= j < i + 1 && #[trigger] keys[j] == t && !m[t].disabled;
            if j < i {
                assert(before.contains(t));
                let k = choose|k: int| 0 <= k < before.len() && before[k] == t;
                assert(after[k] == t);
            } else {
                assert(after[after.len() - 1] == t);
            }
        }
    }
}

fn owned(v: &Vec<&str>) -> (r: Vec<String>)
    ensures
        texts(r@) == borrowed(v@),
{
    let mut out: Vec<String> = Vec::new();
    let mut i: usize = 0;
    while i < v.len()
        invariant
            i <= v.len(),
            out@.len() == i,
            forall|k: int| 0 <= k < i ==> (#[trigger] out@[k])@ == v@[k]@,
        decreases v.len() - i,
    {
        out.push(v[i].to_owned());
        i = i + 1;
    }
    assert(texts(out@) =~= borrowed(v@));
    out
}

proof fn lemma_by_name(m: Map<Seq<char>, ServerConfigView>, servers: Seq<ServerConfigView>, name: Seq<char>)
    requires
        forall|i: int| 0 <= i < servers.len() ==> (#[trigger] servers[i]).name != name,
    ensures
        by_name(m, servers).contains_key(name) <==> m.contains_key(name),
        m.contains_key(name) ==> by_name(m, servers)[name] == m[name],
    decreases servers.len(),
{
    if servers.len() > 0 {
        assert(servers[servers.len() - 1].name != name);
        assert forall|i: int| 0 <= i < servers.drop_last().len() implies (#[trigger] servers.drop_last()[i]).name
            != name by {
            assert(servers.drop_last()[i] == servers[i]);
        }
        lemma_by_name(m, servers.drop_last(), name);
    }
}

/// A server that the project does not configure is taken from the user.
pub proof fn the_user_fills_in(user: Seq<ServerConfigView>, project: Seq<ServerConfigView>, name: Seq<char>)
    requires
        forall|i: int| 0 <= i < project.len() ==> (#[trigger] project[i]).name != name,
    ensures
        merged_servers(user, project).contains_key(name) <==> by_name(Map::empty(), user).contains_key(name),
        by_name(Map::empty(), user).contains_key(name) ==> merged_servers(user, project)[name] == by_name(
            Map::empty(),
            user,
        )[name],
{
    lemma_by_name(by_name(Map::empty(), user), project, name);
}

/// A server that the project configures is taken from the project.
pub proof fn the_project_overrides(user: Seq<ServerConfigView>, project: Seq<ServerConfigView>, i: int)
    requires
        0 <= i < project.len(),
        forall|j: int| i < j < project.len() ==> (#[trigger] project[j]).name != project[i].name,
    ensures
        merged_servers(user, project).contains_key(project[i].name),
        merged_servers(user, project)[project[i].name] == project[i],
{
    lemma_by_name_last(by_name(Map::empty(), user), project, i);
}

proof fn lemma_by_name_last(m: Map<Seq<char>, ServerConfigView>, servers: Seq<ServerConfigView>, i: int)
    requires
        0 <= i < servers.len(),
        forall|j: int| i < j < servers.len() ==> (#[trigger] servers[j]).name != servers[i].name,
    ensures
        by_name(m, servers).contains_key(servers[i].name),
        by_name(m, servers)[servers[i].name] == servers[i],
    decreases servers.len(),
{
    if i < servers.len() - 1 {
        assert(servers[servers.len() - 1].name != servers[i].name);
        assert(servers.drop_last()[i] == servers[i]);
        assert forall|j: int| i < j < servers.drop_last().len() implies (#[trigger] servers.drop_last()[j]).name
            != servers.drop_last()[i].name by {
            assert(servers.drop_last()[j] == servers[j]);
        }
        lemma_by_name_last(m, servers.drop_last(), i);
    }
}

// ---- What becomes of an entry ----

/// A configured header and bearer give the header its value: the bearer with the
/// variables of the environment filled in, so `${NAME}` becomes the value of `NAME`.
/// A header of the same name that the entry sets itself wins; all others are as the
/// entry has them, filled in likewise.
pub proof fn bearers_fill_their_header(
    name: Seq<char>,
    entry: McpServerEntry,
    w: Surroundings,
    header: Seq<char>,
    bearer: Seq<char>,
    variable: Seq<char>,
    other: Seq<char>,
)
    requires
        entry.command is None,
        transport_of(name, entry, w) is Ok,
        entry.auth is Some,
        opt(entry.auth->0.header) == Some(header),
        opt(entry.auth->0.bearer) == Some(bearer),
        forall|i: int| 0 <= i < variable.len() ==> #[trigger] variable[i] != ':' && variable[i] != '}',
        string_values(w.env@).contains_key(variable),
        other != header,
    ensures
        ({
            let env = string_values(w.env@);
            let own = match entry.headers {
                Some(t) => string_values(t@),
                None => Map::<Seq<char>, Seq<char>>::empty(),
            };
            let sent = transport_of(name, entry, w)->Ok_0->headers;
            &&& transport_of(name, entry, w)->Ok_0 is Http
            &&& sent.contains_key(header)
            &&& !own.contains_key(header) ==> sent[header] == expanded(bearer, env)
            &&& !own.contains_key(header) && bearer == seq!['$', '{'] + variable + seq!['}'] ==> sent[header]
                == env[variable]
            &&& own.contains_key(header) ==> sent[header] == expanded(own[header], env)
            &&& sent.contains_key(other) <==> own.contains_key(other)
            &&& own.contains_key(other) ==> sent[other] == expanded(own[other], env)
        }),
{
    let env = string_values(w.env@);
    let none = Seq::<char>::empty();
    values_stand_in_the_place_of_variables(none, variable, none, none, env);
    assert(none + seq!['$', '{'] + variable + seq!['}'] + none =~= seq!['$', '{'] + variable + seq!['}']);
    assert(none + env[variable] + expanded(none, env) =~= env[variable]);
    assert(entry.url is Some);
}

/// An entry with a command is a command, whatever else it has; one without is a web
/// address; one with neither is refused by its name. Commands and arguments have
/// variables and then a leading `~` filled in, one by one in their order, the values of
/// variables for the server only variables.
pub proof fn entries_are_commands_or_addresses(name: Seq<char>, entry: McpServerEntry, w: Surroundings, i: int, key: Seq<char>)
    ensures
        ({
            let env = string_values(w.env@);
            let t = transport_of(name, entry, w);
            &&& entry.command is Some ==> {
                &&& t is Ok && t->Ok_0 is Stdio
                &&& t->Ok_0->command == tilde_text(expanded(entry.command->0@, env), opt(w.home))
                &&& t->Ok_0->args.len() == (match entry.args {
                    Some(l) => l@.len(),
                    None => 0,
                })
                &&& entry.args is Some && 0 <= i < entry.args->0@.len() ==> t->Ok_0->args[i] == tilde_text(
                    expanded(entry.args->0@[i]@, env),
                    opt(w.home),
                )
                &&& t->Ok_0->env.contains_key(key) <==> entry.env is Some && entry.env->0@.contains_key(key)
                &&& entry.env is Some && entry.env->0@.contains_key(key) ==> t->Ok_0->env[key] == expanded(
                    entry.env->0@[key]@,
                    env,
                )
            }
            &&& entry.command is None && entry.url is Some && t is Ok ==> t->Ok_0 is Http && t->Ok_0->url == tilde_text(
                expanded(entry.url->0@, env),
                opt(w.home),
            )
            &&& entry.command is None && entry.url is None ==> t == Err::<TransportView, ConfigErrorView>(
                ConfigErrorView::NoTransport(name),
            )
            &&& t matches Ok(TransportView::Stdio { timeout_ms, .. }) ==> timeout_ms == entry.timeout_ms
            &&& t matches Ok(TransportView::Http { timeout_ms, .. }) ==> timeout_ms == entry.timeout_ms
        }),
{
}

/// A web address is refused for its login exactly where that is of a kind other than
/// `oauth`. A login by `oauth` is with the provider that is named, or else with that
/// of the server's own name; without a kind there is none.
pub proof fn logins_are_by_oauth(name: Seq<char>, entry: McpServerEntry, w: Surroundings)
    requires
        entry.command is None,
        entry.url is Some,
    ensures
        ({
            let t = transport_of(name, entry, w);
            let kind = match entry.auth {
                Some(a) => opt(a.kind),
                None => None,
            };
            &&& t is Err <==> kind is Some && kind->0 != "oauth"@
            &&& t is Err ==> t->Err_0 == ConfigErrorView::UnsupportedAuth(name, kind->0)
            &&& kind is None ==> t->Ok_0->auth is None
            &&& kind == Some("oauth"@) ==> {
                let o = t->Ok_0->auth->0;
                let a = entry.auth->0;
                &&& t->Ok_0->auth is Some
                &&& o.provider == Some(match opt(a.provider) {
                    Some(p) => p,
                    None => name,
                })
                &&& o.client_secret_env == opt(a.client_secret_env)
                &&& o.scopes.len() == a.scopes@.len()
                &&& forall|i: int|
                    0 <= i < a.scopes@.len() ==> #[trigger] o.scopes[i] == expanded(
                        a.scopes@[i]@,
                        string_values(w.env@),
                    )
                &&& a.client_id is Some ==> o.client_id == Some(
                    expanded(a.client_id->0@, string_values(w.env@)),
                )
                &&& a.issuer is Some ==> o.issuer == Some(expanded(a.issuer->0@, string_values(w.env@)))
                &&& a.resource is Some ==> o.resource == Some(expanded(a.resource->0@, string_values(w.env@)))
            }
        }),
{
}

/// The servers of a file keep their order, names and switches; one that cannot be used
/// makes the file unusable.
pub proof fn every_entry_becomes_a_server(
    entries: Seq<(String, McpServerEntry)>,
    source: McpConfigSource,
    w: Surroundings,
    i: int,
)
    requires
        0 <= i < entries.len(),
    ensures
        transport_of(entries[i].0@, entries[i].1, w) is Err ==> servers_of(entries, source, w) is Err,
        servers_of(entries, source, w) is Ok ==> {
            let c = servers_of(entries, source, w)->Ok_0[i];
            &&& servers_of(entries, source, w)->Ok_0.len() == entries.len()
            &&& c.name == entries[i].0@
            &&& c.disabled == entries[i].1.disabled
            &&& c.trust == entries[i].1.trust
            &&& c.auto_approve == texts(entries[i].1.auto_approve@)
            &&& c.source == source
            &&& transport_of(entries[i].0@, entries[i].1, w) == Ok::<TransportView, ConfigErrorView>(c.config)
        },
    decreases entries.len(),
{
    let t = entries.drop_last();
    if i < entries.len() - 1 {
        assert(t[i] == entries[i]);
        every_entry_becomes_a_server(t, source, w, i);
    } else if t.len() > 0 {
        every_entry_becomes_a_server(t, source, w, t.len() - 1);
    } else {
        assert(servers_of(t, source, w) == Ok::<Seq<ServerConfigView>, ConfigErrorView>(Seq::empty()));
    }
}

/// A server is used exactly where the configuration that counts for its name, the
/// project's before the user's, does not switch it off: one that the project switches
/// off is off, also where the user has it on.
pub proof fn switched_off_servers_are_not_used(
    user: Seq<ServerConfigView>,
    project: Seq<ServerConfigView>,
    i: int,
)
    requires
        0 <= i < project.len(),
        forall|j: int| i < j < project.len() ==> (#[trigger] project[j]).name != project[i].name,
    ensures
        switched_on(merged_servers(user, project)).contains_key(project[i].name) <==> !project[i].disabled,
        !project[i].disabled ==> switched_on(merged_servers(user, project))[project[i].name] == project[i],
{
    the_project_overrides(user, project, i);
}

/// The user's servers that the project does not name are used where they are not
/// switched off.
pub proof fn the_users_other_servers_are_used(
    user: Seq<ServerConfigView>,
    project: Seq<ServerConfigView>,
    i: int,
)
    requires
        0 <= i < user.len(),
        forall|j: int| i < j < user.len() ==> (#[trigger] user[j]).name != user[i].name,
        forall|j: int| 0 <= j < project.len() ==> (#[trigger] project[j]).name != user[i].name,
    ensures
        switched_on(merged_servers(user, project)).contains_key(user[i].name) <==> !user[i].disabled,
        !user[i].disabled ==> switched_on(merged_servers(user, project))[user[i].name] == user[i],
{
    lemma_by_name_last(Map::empty(), user, i);
    the_user_fills_in(user, project, user[i].name);
}

/// No server is made up: each that is used was configured.
pub proof fn used_servers_are_configured(
    user: Seq<ServerConfigView>,
    project: Seq<ServerConfigView>,
    name: Seq<char>,
)
    requires
        switched_on(merged_servers(user, project)).contains_key(name),
    ensures
        ({
            let c = switched_on(merged_servers(user, project))[name];
            c.name == name && (user.contains(c) || project.contains(c))
        }),
{
    lemma_by_name_from(by_name(Map::empty(), user), project, name);
    if by_name(Map::empty(), user).contains_key(name) {
        lemma_by_name_from(Map::empty(), user, name);
    }
}

proof fn lemma_by_name_from(m: Map<Seq<char>, ServerConfigView>, servers: Seq<ServerConfigView>, name: Seq<char>)
    requires
        by_name(m, servers).contains_key(name),
    ensures
        ({
            let c = by_name(m, servers)[name];
            (m.contains_key(name) && c == m[name]) || (c.name == name && servers.contains(c))
        }),
    decreases servers.len(),
{
    if servers.len() > 0 {
        if servers.last().name == name {
            assert(servers[servers.len() - 1] == servers.last());
        } else {
            let t = servers.drop_last();
            lemma_by_name_from(m, t, name);
            let c = by_name(m, servers)[name];
            if t.contains(c) {
                let k = choose|k: int| 0 <= k < t.len() && t[k] == c;
                assert(servers[k] == c);
            }
        }
    }
}

} // verus!
