//! Which language server speaks for which file extension.

use vstd::prelude::*;
use vstd::string::*;

use crate::text::{lemma_split_on_nonempty, split_on, split_text, texts};
use crate::text_map::TextMap;
use crate::text_order::{ascending, borrowed, sorted_keys};

verus! {

#[derive(Debug)]
pub struct LspServerConfig {
    pub command: String,
    pub args: Vec<String>,
    pub root_markers: Vec<String>,
}

#[verifier::ext_equal]
pub struct ServerView {
    pub command: Seq<char>,
    pub args: Seq<Seq<char>>,
    pub root_markers: Seq<Seq<char>>,
}

impl View for LspServerConfig {
    type V = ServerView;

    open spec fn view(&self) -> ServerView {
        ServerView { command: self.command@, args: texts(self.args@), root_markers: texts(self.root_markers@) }
    }
}

/// The servers by the file extension that they speak for.
#[derive(Debug)]
pub struct LspServerRegistry {
    pub servers: TextMap<LspServerConfig>,
}

/// The server that an extension has where nothing else is configured.
pub open spec fn default_server(ext: Seq<char>) -> Option<ServerView> {
    if ext == "java"@ {
        Some(ServerView { command: "jdtls"@, args: seq![], root_markers: seq!["pom.xml"@, "build.gradle"@] })
    } else if ext == "go"@ {
        Some(ServerView { command: "gopls"@, args: seq!["serve"@], root_markers: seq!["go.mod"@] })
    } else if ext == "py"@ {
        Some(ServerView { command: "pylsp"@, args: seq![], root_markers: seq!["pyproject.toml"@, "setup.py"@] })
    } else if ext == "js"@ {
        Some(
            ServerView {
                command: "typescript-language-server"@,
                args: seq!["--stdio"@],
                root_markers: seq!["package.json"@],
            },
        )
    } else if ext == "tsx"@ {
        Some(
            ServerView {
                command: "typescript-language-server"@,
                args: seq!["--stdio"@],
                root_markers: seq!["tsconfig.json"@],
            },
        )
    } else if ext == "ts"@ {
        Some(
            ServerView {
                command: "typescript-language-server"@,
                args: seq!["--stdio"@],
                root_markers: seq!["tsconfig.json"@, "package.json"@],
            },
        )
    } else if ext == "rs"@ {
        Some(ServerView { command: "rust-analyzer"@, args: seq![], root_markers: seq!["Cargo.toml"@] })
    } else {
        None
    }
}

/// The extension of a file: what follows the last dot, or the whole name where
/// there is none.
pub open spec fn last_part(file_path: Seq<char>) -> Seq<char> {
    split_on(file_path, '.').last()
}

fn none() -> (r: Vec<String>)
    ensures
        texts(r@) == Seq::<Seq<char>>::empty(),
{
    let r: Vec<String> = Vec::new();
    assert(texts(r@) =~= Seq::<Seq<char>>::empty());
    r
}

fn one(a: &str) -> (r: Vec<String>)
    ensures
        texts(r@) == seq![a@],
{
    let mut r: Vec<String> = Vec::new();
    r.push(a.to_owned());
    assert(texts(r@) =~= seq![a@]);
    r
}

fn two(a: &str, b: &str) -> (r: Vec<String>)
    ensures
        texts(r@) == seq![a@, b@],
{
    let mut r: Vec<String> = Vec::new();
    r.push(a.to_owned());
    r.push(b.to_owned());
    assert(texts(r@) =~= seq![a@, b@]);
    r
}

impl View for LspServerRegistry {
    type V = Map<Seq<char>, LspServerConfig>;

    open spec fn view(&self) -> Map<Seq<char>, LspServerConfig> {
        self.servers@
    }
}

impl LspServerRegistry {
    pub open spec fn wf(&self) -> bool {
        self.servers.wf()
    }

    pub fn empty() -> (r: LspServerRegistry)
        ensures
            r.wf(),
            r@ == Map::<Seq<char>, LspServerConfig>::empty(),
    {
        LspServerRegistry { servers: TextMap::new() }
    }

    fn set(&mut self, ext: &str, command: &str, args: Vec<String>, root_markers: Vec<String>)
        requires
            old(self).wf(),
        ensures
            final(self).wf(),
            final(self)@.contains_key(ext@),
            final(self)@[ext@]@ == (ServerView {
                command: command@,
                args: texts(args@),
                root_markers: texts(root_markers@),
            }),
            final(self)@ == old(self)@.insert(ext@, final(self)@[ext@]),
    {
        let config = LspServerConfig { command: command.to_owned(), args, root_markers };
        self.servers.insert(ext.to_owned(), config);
    }

    /// The servers of the common languages.
    pub fn with_defaults() -> (r: LspServerRegistry)
        ensures
            r.wf(),
            forall|ext: Seq<char>|
                match default_server(ext) {
                    Some(s) => #[trigger] r@.contains_key(ext) && r@[ext]@ == s,
                    None => !r@.contains_key(ext),
                },
    {
        let mut r = LspServerRegistry::empty();
        r.set("rs", "rust-analyzer", none(), one("Cargo.toml"));
        r.set("ts", "typescript-language-server", one("--stdio"), two("tsconfig.json", "package.json"));
        r.set("tsx", "typescript-language-server", one("--stdio"), one("tsconfig.json"));
        r.set("js", "typescript-language-server", one("--stdio"), one("package.json"));
        r.set("py", "pylsp", none(), two("pyproject.toml", "setup.py"));
        r.set("go", "gopls", one("serve"), one("go.mod"));
        r.set("java", "jdtls", none(), two("pom.xml", "build.gradle"));
        r
    }

    pub fn get(&self, extension: &str) -> (r: Option<&LspServerConfig>)
        requires
            self.wf(),
        ensures
            match r {
                Some(c) => self@.contains_key(extension@) && *c == self@[extension@],
                None => !self@.contains_key(extension@),
            },
    {
        self.servers.get(extension)
    }

    /// The server for a file, by its extension.
    pub fn server_for_file(&self, file_path: &str) -> (r: Option<&LspServerConfig>)
        requires
            self.wf(),
        ensures
            match r {
                Some(c) => self@.contains_key(last_part(file_path@)) && *c == self@[last_part(file_path@)],
                None => !self@.contains_key(last_part(file_path@)),
            },
    {
        let parts = split_text(file_path, '.');
        proof {
            lemma_split_on_nonempty(file_path@, '.');
            assert(texts(parts@).len() == parts@.len());
            assert(texts(parts@).last() == parts@.last()@);
        }
        self.servers.get(parts[parts.len() - 1].as_str())
    }

    /// Takes the user's servers in: they win over those that are there.
    pub fn merge_user_config(&mut self, user: TextMap<LspServerConfig>)
        requires
            old(self).wf(),
            user.wf(),
        ensures
            final(self).wf(),
            final(self)@ == old(self)@.union_prefer_right(user@),
    {
        self.servers.extend(user);
    }

    /// The extensions that have a server, in order.
    pub fn available_languages(&self) -> (r: Vec<&str>)
        requires
            self.wf(),
        ensures
            ascending(borrowed(r@)),
            forall|ext: Seq<char>| #[trigger] borrowed(r@).contains(ext) <==> self@.contains_key(ext),
    {
        sorted_keys(&self.servers)
    }
}

/// A user's server is the one that counts, and the user's servers touch no other
/// extension.
pub proof fn user_servers_win(base: Map<Seq<char>, LspServerConfig>, user: Map<Seq<char>, LspServerConfig>, ext: Seq<char>)
    ensures
        user.contains_key(ext) ==> base.union_prefer_right(user).contains_key(ext)
            && base.union_prefer_right(user)[ext] == user[ext],
        !user.contains_key(ext) ==> (base.union_prefer_right(user).contains_key(ext) <==> base.contains_key(ext)),
        !user.contains_key(ext) && base.contains_key(ext) ==> base.union_prefer_right(user)[ext] == base[ext],
{
}

/// The extension of a file is what follows its last dot.
pub proof fn files_go_by_what_follows_the_last_dot(stem: Seq<char>, ext: Seq<char>)
    requires
        forall|i: int| 0 <= i < ext.len() ==> #[trigger] ext[i] != '.',
    ensures
        last_part(stem + seq!['.'] + ext) == ext,
        last_part(ext) == ext,
{
    let head = stem + seq!['.'];
    assert(head.drop_last() =~= stem);
    lemma_split_tail(head, ext);
    lemma_split_tail(Seq::empty(), ext);
    assert(split_on(head, '.').last() =~= Seq::<char>::empty());
    assert(Seq::<char>::empty() + ext =~= ext);
    assert(split_on(Seq::<char>::empty(), '.').last() =~= Seq::<char>::empty());
}

proof fn lemma_split_tail(s: Seq<char>, t: Seq<char>)
    requires
        forall|i: int| 0 <= i < t.len() ==> #[trigger] t[i] != '.',
    ensures
        split_on(s + t, '.').last() == split_on(s, '.').last() + t,
    decreases t.len(),
{
    lemma_split_on_nonempty(s, '.');
    if t.len() == 0 {
        assert(s + t =~= s);
        assert(split_on(s, '.').last() + t =~= split_on(s, '.').last());
    } else {
        let u = t.drop_last();
        assert(t[t.len() - 1] != '.');
        assert forall|i: int| 0 <= i < u.len() implies #[trigger] u[i] != '.' by {
            assert(u[i] == t[i]);
        }
        lemma_split_tail(s, u);
        lemma_split_on_nonempty(s + u, '.');
        assert((s + t).drop_last() =~= s + u);
        assert((split_on(s, '.').last() + u).push(t.last()) =~= split_on(s, '.').last() + t);
    }
}

/// The common languages have the servers that are common for them.
pub proof fn common_languages_have_servers()
    ensures
        default_server("rs"@) is Some && default_server("rs"@)->0.command == "rust-analyzer"@,
        default_server("ts"@) is Some && default_server("ts"@)->0.command == "typescript-language-server"@,
        default_server("tsx"@) is Some && default_server("tsx"@)->0.command == "typescript-language-server"@,
        default_server("js"@) is Some && default_server("js"@)->0.command == "typescript-language-server"@,
        default_server("py"@) is Some && default_server("py"@)->0.command == "pylsp"@,
        default_server("go"@) is Some && default_server("go"@)->0.command == "gopls"@ && default_server("go"@)->0.args
            == seq!["serve"@],
        default_server("java"@) is Some && default_server("java"@)->0.command == "jdtls"@,
        default_server("ts"@)->0.args == seq!["--stdio"@],
        default_server("rs"@)->0.root_markers == seq!["Cargo.toml"@],
        default_server("go"@)->0.root_markers == seq!["go.mod"@],
        default_server("zig"@) is None,
{
    reveal_strlit("rs");
    reveal_strlit("ts");
    reveal_strlit("tsx");
    reveal_strlit("js");
    reveal_strlit("py");
    reveal_strlit("go");
    reveal_strlit("java");
    reveal_strlit("zig");
    assert("rs"@[0] == 'r' && "ts"@[0] == 't' && "js"@[0] == 'j' && "py"@[0] == 'p' && "go"@[0] == 'g' && "tsx"@.len()
        == 3 && "java"@.len() == 4 && "zig"@[0] == 'z' && "rs"@.len() == 2 && "ts"@.len() == 2 && "tsx"@[0] == 't');
}

} // verus!
