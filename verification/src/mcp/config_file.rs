//! Changing a configuration file of servers: from the text of the file to its new
//! text.

use vstd::prelude::*;
use vstd::string::*;

use crate::json::{
    has_steady_numbers, is_ordered, json_text, json_to_pretty, json_views, keys_ascend, lemma_put, lemma_put_all,
    lemma_put_ascends, lemma_put_from, lemma_put_twice, member, nests_within, parse_json, put,
    put_all, settled, value_pretty, Json, JsonView, Members,
};
use crate::text::{same, texts};
use crate::text_order::{lemma_precedes_total, precedes, text_precedes};

verus! {

/// The members without one.
pub open spec fn without(o: Members, key: Seq<char>) -> Members {
    o.filter(|e: (Seq<char>, JsonView)| e.0 != key)
}

pub proof fn lemma_without(o: Members, key: Seq<char>, k: Seq<char>)
    ensures
        member(without(o, key), k) == (if k == key {
            None
        } else {
            member(o, k)
        }),
    decreases o.len(),
{
    let keep = |e: (Seq<char>, JsonView)| e.0 != key;
    reveal(Seq::filter);
    if o.len() > 0 {
        lemma_without(o.drop_last(), key, k);
        if o.last().0 != key {
            assert(without(o, key) =~= without(o.drop_last(), key).push(o.last()));
            assert(without(o, key).drop_last() =~= without(o.drop_last(), key));
        }
    }
}

// ---- The same on values ----

/// The view of the members of an object.
pub open spec fn member_views(v: Seq<(String, Json)>) -> Members {
    v.map_values(|e: (String, Json)| (e.0@, e.1@))
}

proof fn lemma_put_before(o: Members, key: Seq<char>, v: JsonView, n: int)
    requires
        0 <= n <= o.len(),
        forall|i: int| n <= i < o.len() ==> precedes(key, (#[trigger] o[i]).0),
    ensures
        put(o, key, v) == put(o.take(n), key, v) + o.skip(n),
    decreases o.len(),
{
    if n < o.len() {
        let t = o.drop_last();
        assert forall|i: int| n <= i < t.len() implies precedes(key, (#[trigger] t[i]).0) by {
            assert(t[i] == o[i]);
        }
        assert(precedes(key, o[o.len() - 1].0));
        lemma_precedes_total(key, key);
        lemma_put_before(t, key, v, n);
        assert(t.take(n) =~= o.take(n));
        assert((put(o.take(n), key, v) + t.skip(n)).push(o.last()) =~= put(o.take(n), key, v) + o.skip(n));
    } else {
        assert(o.take(n) =~= o);
        assert(put(o, key, v) + o.skip(n) =~= put(o, key, v));
    }
}

fn put_member(o: &mut Vec<(String, Json)>, key: &str, v: Json)
    ensures
        member_views(final(o)@) == put(member_views(old(o)@), key@, v@),
{
    let ghost was = o@;
    let ghost all = member_views(o@);
    let mut n: usize = o.len();
    while n > 0 && text_precedes(key, o[n - 1].0.as_str())
        invariant
            n <= o.len(),
            o@ == was,
            all == member_views(was),
            forall|i: int| n <= i < was.len() ==> precedes(key@, (#[trigger] all[i]).0),
        decreases n,
    {
        n = n - 1;
        assert(all[n as int].0 == was[n as int].0@);
    }
    proof {
        lemma_put_before(all, key@, v@, n as int);
    }
    let ghost front = all.take(n as int);
    if n > 0 && same(o[n - 1].0.as_str(), key) {
        assert(front.last() == (was[n - 1].0@, was[n - 1].1@));
        o.set(n - 1, (key.to_owned(), v));
        assert(member_views(o@) =~= front.drop_last().push((key@, v@)) + all.skip(n as int));
    } else {
        o.insert(n, (key.to_owned(), v));
        assert(put(front, key@, v@) =~= front.push((key@, v@)));
        assert(member_views(o@) =~= front.push((key@, v@)) + all.skip(n as int));
    }
}

fn put_members(o: &mut Vec<(String, Json)>, more: &Vec<(String, Json)>)
    ensures
        member_views(final(o)@) == put_all(member_views(old(o)@), member_views(more@)),
{
    let ghost start = member_views(o@);
    let ghost all = member_views(more@);
    let mut i: usize = 0;
    assert(all.take(0) =~= Seq::<(Seq<char>, JsonView)>::empty());
    while i < more.len()
        invariant
            i <= more.len(),
            all == member_views(more@),
            member_views(o@) == put_all(start, all.take(i as int)),
        decreases more.len() - i,
    {
        assert(all.take(i + 1).drop_last() =~= all.take(i as int));
        assert(all.take(i + 1).last() == (more@[i as int].0@, more@[i as int].1@));
        put_member(o, more[i].0.as_str(), more[i].1.clone());
        i = i + 1;
    }
    assert(all.take(i as int) =~= all);
}

fn remove_member(o: Vec<(String, Json)>, key: &str) -> (r: Vec<(String, Json)>)
    ensures
        member_views(r@) == without(member_views(o@), key@),
{
    let ghost all = member_views(o@);
    let ghost keep = |e: (Seq<char>, JsonView)| e.0 != key@;
    let mut out: Vec<(String, Json)> = Vec::new();
    let mut i: usize = 0;
    proof {
        reveal(Seq::filter);
    }
    assert(all.take(0) =~= Seq::<(Seq<char>, JsonView)>::empty());
    assert(member_views(out@) =~= all.take(0).filter(keep));
    while i < o.len()
        invariant
            i <= o.len(),
            all == member_views(o@),
            keep == (|e: (Seq<char>, JsonView)| e.0 != key@),
            member_views(out@) == all.take(i as int).filter(keep),
        decreases o.len() - i,
    {
        let ghost was = out@;
        proof {
            reveal(Seq::filter);
            assert(all.take(i + 1).drop_last() =~= all.take(i as int));
            assert(all.take(i + 1).last() == (o@[i as int].0@, o@[i as int].1@));
        }
        if !same(o[i].0.as_str(), key) {
            let copy = o[i].1.clone();
            out.push((o[i].0.clone(), copy));
            assert(member_views(out@) =~= member_views(was).push((o@[i as int].0@, copy@)));
        }
        i = i + 1;
    }
    assert(all.take(i as int) =~= all);
    out
}

fn object(o: Vec<(String, Json)>) -> (r: Json)
    ensures
        r@ == JsonView::Object(member_views(o@)),
{
    let r = Json::Object(o);
    assert(r@->Object_0 =~= member_views(o@));
    r
}

proof fn lemma_member_from(o: Members, key: Seq<char>)
    requires
        member(o, key) is Some,
    ensures
        o.contains((key, member(o, key)->0)),
    decreases o.len(),
{
    let t = o.drop_last();
    if o.last().0 == key {
        assert(o[o.len() - 1] == (key, member(o, key)->0));
    } else {
        lemma_member_from(t, key);
        let i = choose|i: int| 0 <= i < t.len() && t[i] == (key, member(o, key)->0);
        assert(o[i] == (key, member(o, key)->0));
    }
}

/// Whether the members of every object of a value stand in the order of their keys, and
/// the value nests within a limit. So it is of all that is read.
pub open spec fn is_plain(j: JsonView, depth: nat) -> bool {
    is_ordered(j) && nests_within(j, depth)
}

proof fn lemma_member_is_plain(o: Members, key: Seq<char>, depth: nat)
    requires
        depth > 0,
        is_plain(JsonView::Object(o), depth),
        member(o, key) is Some,
    ensures
        is_plain(member(o, key)->0, (depth - 1) as nat),
{
    lemma_member_from(o, key);
    let i = choose|i: int| 0 <= i < o.len() && o[i] == (key, member(o, key)->0);
    assert(is_ordered(o[i].1) && nests_within(o[i].1, (depth - 1) as nat));
}

proof fn lemma_put_is_plain(o: Members, key: Seq<char>, v: JsonView, depth: nat)
    requires
        depth > 0,
        is_plain(JsonView::Object(o), depth),
        is_plain(v, (depth - 1) as nat),
    ensures
        is_plain(JsonView::Object(put(o, key, v)), depth),
{
    let now = put(o, key, v);
    lemma_put_ascends(o, key, v);
    assert forall|i: int| 0 <= i < now.len() implies is_ordered((#[trigger] now[i]).1) && nests_within(
        now[i].1,
        (depth - 1) as nat,
    ) by {
        lemma_put_from(o, key, v, i);
        if o.contains(now[i]) {
            let k = choose|k: int| 0 <= k < o.len() && o[k] == now[i];
            assert(is_ordered(o[k].1) && nests_within(o[k].1, (depth - 1) as nat));
        }
    }
}

proof fn lemma_put_all_is_plain(o: Members, more: Members, depth: nat)
    requires
        depth > 0,
        is_plain(JsonView::Object(o), depth),
        is_plain(JsonView::Object(more), depth),
    ensures
        is_plain(JsonView::Object(put_all(o, more)), depth),
    decreases more.len(),
{
    if more.len() > 0 {
        let t = more.drop_last();
        assert forall|i: int, k: int| 0 <= i < k < t.len() implies precedes((#[trigger] t[i]).0, (#[trigger] t[k]).0) by {
            assert(t[i] == more[i] && t[k] == more[k]);
        }
        assert forall|i: int| 0 <= i < t.len() implies is_ordered((#[trigger] t[i]).1) && nests_within(
            t[i].1,
            (depth - 1) as nat,
        ) by {
            assert(t[i] == more[i]);
        }
        lemma_put_all_is_plain(o, t, depth);
        let last = more[more.len() - 1];
        assert(is_ordered(last.1) && nests_within(last.1, (depth - 1) as nat));
        lemma_put_is_plain(put_all(o, t), last.0, last.1, depth);
    }
}

proof fn lemma_without_from(o: Members, key: Seq<char>, i: int)
    requires
        0 <= i < without(o, key).len(),
    ensures
        o.contains(without(o, key)[i]),
    decreases o.len(),
{
    reveal(Seq::filter);
    let t = o.drop_last();
    let x = without(o, key)[i];
    if o.last().0 != key && i == without(t, key).len() {
        assert(o[o.len() - 1] == x);
    } else {
        assert(without(t, key)[i] == x);
        lemma_without_from(t, key, i);
        let k = choose|k: int| 0 <= k < t.len() && t[k] == x;
        assert(o[k] == x);
    }
}

proof fn lemma_without_ascends(o: Members, key: Seq<char>)
    requires
        keys_ascend(o),
    ensures
        keys_ascend(without(o, key)),
    decreases o.len(),
{
    reveal(Seq::filter);
    if o.len() > 0 {
        let t = o.drop_last();
        assert forall|i: int, k: int| 0 <= i < k < t.len() implies precedes((#[trigger] t[i]).0, (#[trigger] t[k]).0) by {
            assert(t[i] == o[i] && t[k] == o[k]);
        }
        lemma_without_ascends(t, key);
        if o.last().0 != key {
            let inner = without(t, key);
            let now = without(o, key);
            assert(now =~= inner.push(o.last()));
            assert forall|i: int, k: int| 0 <= i < k < now.len() implies precedes((#[trigger] now[i]).0, (#[trigger] now[k]).0) by {
                if k < inner.len() {
                    assert(inner[i] == now[i] && inner[k] == now[k]);
                } else {
                    lemma_without_from(t, key, i);
                    let m = choose|m: int| 0 <= m < t.len() && t[m] == inner[i];
                    assert(precedes(o[m].0, o[o.len() - 1].0));
                }
            }
        }
    }
}

proof fn lemma_plain_grows(j: JsonView, d: nat, e: nat)
    requires
        is_plain(j, d),
        d <= e,
    ensures
        is_plain(j, e),
    decreases j,
{
    match j {
        JsonView::Array(a) => {
            assert forall|i: int| 0 <= i < a.len() implies nests_within(#[trigger] a[i], (e - 1) as nat) by {
                lemma_plain_grows(a[i], (d - 1) as nat, (e - 1) as nat);
            }
        },
        JsonView::Object(o) => {
            assert forall|i: int| 0 <= i < o.len() implies nests_within((#[trigger] o[i]).1, (e - 1) as nat) by {
                lemma_plain_grows(o[i].1, (d - 1) as nat, (e - 1) as nat);
            }
        },
        _ => {},
    }
}

proof fn lemma_steady_members(o: Members)
    requires
        has_steady_numbers(JsonView::Object(o)),
    ensures
        forall|i: int| 0 <= i < o.len() ==> has_steady_numbers((#[trigger] o[i]).1),
{
    let j = JsonView::Object(o);
    assert(j->Object_0 == o);
}

proof fn lemma_put_is_steady(o: Members, key: Seq<char>, v: JsonView)
    requires
        has_steady_numbers(JsonView::Object(o)),
        has_steady_numbers(v),
    ensures
        has_steady_numbers(JsonView::Object(put(o, key, v))),
{
    let now = put(o, key, v);
    lemma_steady_members(o);
    assert forall|i: int| 0 <= i < now.len() implies has_steady_numbers((#[trigger] now[i]).1) by {
        lemma_put_from(o, key, v, i);
        if o.contains(now[i]) {
            let k = choose|k: int| 0 <= k < o.len() && o[k] == now[i];
            assert(has_steady_numbers(o[k].1));
        }
    }
}

proof fn lemma_put_all_is_steady(o: Members, more: Members)
    requires
        has_steady_numbers(JsonView::Object(o)),
        has_steady_numbers(JsonView::Object(more)),
    ensures
        has_steady_numbers(JsonView::Object(put_all(o, more))),
    decreases more.len(),
{
    if more.len() > 0 {
        let t = more.drop_last();
        lemma_steady_members(more);
        assert forall|i: int| 0 <= i < t.len() implies has_steady_numbers((#[trigger] t[i]).1) by {
            assert(t[i] == more[i]);
        }
        lemma_put_all_is_steady(o, t);
        assert(has_steady_numbers(more[more.len() - 1].1));
        lemma_put_is_steady(put_all(o, t), more.last().0, more.last().1);
    }
}

proof fn lemma_without_is_steady(o: Members, key: Seq<char>)
    requires
        has_steady_numbers(JsonView::Object(o)),
    ensures
        has_steady_numbers(JsonView::Object(without(o, key))),
{
    let now = without(o, key);
    lemma_steady_members(o);
    assert forall|i: int| 0 <= i < now.len() implies has_steady_numbers((#[trigger] now[i]).1) by {
        lemma_without_from(o, key, i);
        let k = choose|k: int| 0 <= k < o.len() && o[k] == now[i];
        assert(has_steady_numbers(o[k].1));
    }
}

proof fn lemma_member_is_steady(o: Members, key: Seq<char>)
    requires
        has_steady_numbers(JsonView::Object(o)),
    ensures
        member(o, key) is Some ==> has_steady_numbers(member(o, key)->0),
{
    if member(o, key) is Some {
        lemma_member_from(o, key);
        lemma_steady_members(o);
        let i = choose|i: int| 0 <= i < o.len() && o[i] == (key, member(o, key)->0);
        assert(has_steady_numbers(o[i].1));
    }
}

proof fn lemma_without_is_plain(o: Members, key: Seq<char>, depth: nat)
    requires
        depth > 0,
        is_plain(JsonView::Object(o), depth),
    ensures
        is_plain(JsonView::Object(without(o, key)), depth),
{
    let now = without(o, key);
    lemma_without_ascends(o, key);
    assert forall|i: int| 0 <= i < now.len() implies is_ordered((#[trigger] now[i]).1) && nests_within(
        now[i].1,
        (depth - 1) as nat,
    ) by {
        lemma_without_from(o, key, i);
        let k = choose|k: int| 0 <= k < o.len() && o[k] == now[i];
        assert(is_ordered(o[k].1) && nests_within(o[k].1, (depth - 1) as nat));
    }
}

// ---- Adding a server ----

/// Why a configuration file cannot be changed.
#[derive(Debug)]
pub enum ConfigFileError {
    EmptyName,
    EmptyCommand,
    EmptyUrl,
    EmptyProvider,
    /// The file is no JSON document.
    NotJson,
    /// The document is no object.
    NotAnObject,
    /// The entry of this server is no object.
    EntryNotAnObject { server: String },
    /// The list of tools that are used without asking is no list.
    NotAnArray,
}

#[verifier::ext_equal]
pub enum FileErrorView {
    EmptyName,
    EmptyCommand,
    EmptyUrl,
    EmptyProvider,
    NotJson,
    NotAnObject,
    EntryNotAnObject(Seq<char>),
    NotAnArray,
}

impl View for ConfigFileError {
    type V = FileErrorView;

    open spec fn view(&self) -> FileErrorView {
        match self {
            ConfigFileError::EmptyName => FileErrorView::EmptyName,
            ConfigFileError::EmptyCommand => FileErrorView::EmptyCommand,
            ConfigFileError::EmptyUrl => FileErrorView::EmptyUrl,
            ConfigFileError::EmptyProvider => FileErrorView::EmptyProvider,
            ConfigFileError::NotJson => FileErrorView::NotJson,
            ConfigFileError::NotAnObject => FileErrorView::NotAnObject,
            ConfigFileError::EntryNotAnObject { server } => FileErrorView::EntryNotAnObject(server@),
            ConfigFileError::NotAnArray => FileErrorView::NotAnArray,
        }
    }
}

pub open spec fn file_error_text(e: FileErrorView) -> Seq<char> {
    match e {
        FileErrorView::EmptyName => "MCP server name must not be empty"@,
        FileErrorView::EmptyCommand => "command must not be empty"@,
        FileErrorView::EmptyUrl => "url must not be empty"@,
        FileErrorView::EmptyProvider => "provider must not be empty"@,
        FileErrorView::NotJson => "Failed to parse MCP config JSON"@,
        FileErrorView::NotAnObject => "MCP config root must be a JSON object"@,
        FileErrorView::EntryNotAnObject(server) => "server '"@ + server + "' entry is not an object"@,
        FileErrorView::NotAnArray => "autoApprove is not an array"@,
    }
}

impl ConfigFileError {
    pub fn text(&self) -> (r: String)
        ensures
            r@ == file_error_text(self@),
    {
        match self {
            ConfigFileError::EmptyName => "MCP server name must not be empty".to_owned(),
            ConfigFileError::EmptyCommand => "command must not be empty".to_owned(),
            ConfigFileError::EmptyUrl => "url must not be empty".to_owned(),
            ConfigFileError::EmptyProvider => "provider must not be empty".to_owned(),
            ConfigFileError::NotJson => "Failed to parse MCP config JSON".to_owned(),
            ConfigFileError::NotAnObject => "MCP config root must be a JSON object".to_owned(),
            ConfigFileError::EntryNotAnObject { server } => {
                let mut out: String = "server '".to_owned();
                out.append(server.as_str());
                out.append("' entry is not an object");
                out
            },
            ConfigFileError::NotAnArray => "autoApprove is not an array".to_owned(),
        }
    }
}

/// The members of a member that is an object.
pub open spec fn members_of(o: Members, key: Seq<char>) -> Members {
    match member(o, key) {
        Some(JsonView::Object(m)) => m,
        _ => Seq::empty(),
    }
}

/// The servers of a document: those under `servers` and, over them, those under
/// `mcpServers`.
pub open spec fn all_servers(root: Members) -> Members {
    put_all(put_all(Seq::empty(), members_of(root, "servers"@)), members_of(root, "mcpServers"@))
}

/// A document with a server set: all servers stand under `mcpServers`, and
/// `servers` is gone.
pub open spec fn with_server(root: Members, key: Seq<char>, entry: JsonView) -> Members {
    without(
        put(root, "mcpServers"@, JsonView::Object(put(all_servers(root), key, entry))),
        "servers"@,
    )
}

/// The servers of a document.
pub fn collect_merged_mcp_server_maps(root: &Json) -> (r: Vec<(String, Json)>)
    requires
        root@ is Object,
    ensures
        member_views(r@) == all_servers(root@->Object_0),
{
    let mut out: Vec<(String, Json)> = Vec::new();
    assert(member_views(out@) =~= Seq::<(Seq<char>, JsonView)>::empty());
    assert(put_all(Seq::empty(), Seq::empty()) == Seq::<(Seq<char>, JsonView)>::empty());
    let ghost o = root@->Object_0;
    match root.get("servers") {
        Some(Json::Object(m)) => {
            assert(Json::Object(*m)@->Object_0 =~= member_views(m@));
            put_members(&mut out, m);
        },
        _ => {},
    }
    assert(member_views(out@) == put_all(Seq::empty(), members_of(o, "servers"@)));
    let ghost first = member_views(out@);
    match root.get("mcpServers") {
        Some(Json::Object(m)) => {
            assert(Json::Object(*m)@->Object_0 =~= member_views(m@));
            put_members(&mut out, m);
        },
        _ => {},
    }
    assert(member_views(out@) == put_all(first, members_of(o, "mcpServers"@)));
    out
}

/// A document with a server set.
pub fn set_server(root: Json, key: &str, entry: Json) -> (r: Json)
    requires
        root@ is Object,
    ensures
        r@ == JsonView::Object(with_server(root@->Object_0, key@, entry@)),
{
    let mut servers = collect_merged_mcp_server_maps(&root);
    put_member(&mut servers, key, entry);
    match root {
        Json::Object(o) => {
            let mut o = o;
            assert(Json::Object(o)@->Object_0 =~= member_views(o@));
            put_member(&mut o, "mcpServers", object(servers));
            object(remove_member(o, "servers"))
        },
        other => other,
    }
}

/// The entry of a server that is a command.
pub open spec fn stdio_entry(program: Seq<char>, args: Seq<Seq<char>>) -> JsonView {
    JsonView::Object(
        seq![
            ("args"@, JsonView::Array(args.map_values(|a: Seq<char>| JsonView::Text(a)))),
            ("command"@, JsonView::Text(program)),
        ],
    )
}

/// The entry of a server at a web address with a login.
pub open spec fn oauth_entry(url: Seq<char>, provider: Seq<char>) -> JsonView {
    JsonView::Object(
        seq![
            (
                "auth"@,
                JsonView::Object(
                    seq![("provider"@, JsonView::Text(provider)), ("type"@, JsonView::Text("oauth"@))],
                ),
            ),
            ("url"@, JsonView::Text(url)),
        ],
    )
}

fn write_stdio_entry(program: &str, args: &[String]) -> (r: Json)
    ensures
        r@ == stdio_entry(program@, texts(args@)),
{
    let mut items: Vec<Json> = Vec::new();
    let mut i: usize = 0;
    while i < args.len()
        invariant
            i <= args.len(),
            items@.len() == i,
            forall|k: int| 0 <= k < i ==> (#[trigger] items@[k])@ == JsonView::Text(args@[k]@),
        decreases args.len() - i,
    {
        items.push(Json::of_text(args[i].as_str()));
        i = i + 1;
    }
    assert(json_views(items@) =~= texts(args@).map_values(|a: Seq<char>| JsonView::Text(a)));
    let r = Json::empty_object().with("args", Json::list(items)).with("command", Json::of_text(program));
    assert(r@->Object_0 =~= stdio_entry(program@, texts(args@))->Object_0);
    r
}

fn write_oauth_entry(url: &str, provider: &str) -> (r: Json)
    ensures
        r@ == oauth_entry(url@, provider@),
{
    let auth = Json::empty_object().with("provider", Json::of_text(provider)).with("type", Json::of_text("oauth"));
    assert(auth@->Object_0 =~= seq![
        ("provider"@, JsonView::Text(provider@)),
        ("type"@, JsonView::Text("oauth"@)),
    ]);
    let r = Json::empty_object().with("auth", auth).with("url", Json::of_text(url));
    assert(r@->Object_0 =~= oauth_entry(url@, provider@)->Object_0);
    r
}

/// The document of a file: empty where there is no file.
pub open spec fn document(text: Option<Seq<char>>) -> Result<JsonView, FileErrorView> {
    match text {
        None => Ok(JsonView::Object(Seq::empty())),
        Some(t) => match json_text(t) {
            Some(j) => Ok(j),
            None => Err(FileErrorView::NotJson),
        },
    }
}

/// A document with a server set, if it can be.
pub open spec fn changed(doc: JsonView, key: Seq<char>, entry: JsonView) -> Result<JsonView, FileErrorView> {
    match doc {
        JsonView::Object(root) => Ok(JsonView::Object(with_server(root, key, entry))),
        _ => Err(FileErrorView::NotAnObject),
    }
}

/// The text of a changed document.
pub open spec fn file_text(doc: JsonView) -> Seq<char> {
    value_pretty(settled(doc)) + "\n"@
}

/// The text of a file with a server set.
pub open spec fn changed_text(text: Option<Seq<char>>, key: Seq<char>, entry: JsonView) -> Result<
    Seq<char>,
    FileErrorView,
> {
    match document(text) {
        Ok(doc) => match changed(doc, key, entry) {
            Ok(now) => Ok(file_text(now)),
            Err(e) => Err(e),
        },
        Err(e) => Err(e),
    }
}

pub open spec fn result_view(r: Result<String, ConfigFileError>) -> Result<Seq<char>, FileErrorView> {
    match r {
        Ok(t) => Ok(t@),
        Err(e) => Err(e@),
    }
}

fn read_document(text: Option<&str>) -> (r: Result<Json, ConfigFileError>)
    ensures
        match r {
            Ok(j) => document(crate::hook::config::opt_str(text)) == Ok::<JsonView, FileErrorView>(j@)
                && is_plain(j@, 127),
            Err(e) => document(crate::hook::config::opt_str(text)) == Err::<JsonView, FileErrorView>(e@),
        },
{
    match text {
        None => Ok(Json::empty_object()),
        Some(t) => match parse_json(t) {
            Some(j) => Ok(j),
            None => Err(ConfigFileError::NotJson),
        },
    }
}

/// Whether a text says a document, unless the document has numbers that reading
/// rounds.
pub open spec fn reads_back(text: Seq<char>, doc: JsonView) -> bool {
    has_steady_numbers(doc) ==> json_text(text) == Some(doc)
}

/// The document of a file with a server set.
pub open spec fn changed_document(text: Option<Seq<char>>, key: Seq<char>, entry: JsonView) -> JsonView {
    changed(document(text)->Ok_0, key, entry)->Ok_0
}

fn change_file(text: Option<&str>, key: &str, entry: Json) -> (r: Result<String, ConfigFileError>)
    ensures
        result_view(r) == changed_text(crate::hook::config::opt_str(text), key@, entry@),
        r is Ok && is_plain(entry@, 125) ==> reads_back(
            r->Ok_0@,
            changed_document(crate::hook::config::opt_str(text), key@, entry@),
        ),
{
    let doc = match read_document(text) {
        Ok(d) => d,
        Err(e) => return Err(e),
    };
    let ghost before = doc@;
    match change_document(doc, key, entry) {
        Ok(now) => {
            let mut out = json_to_pretty(&now);
            out.append("\n");
            proof {
                if is_plain(entry@, 125) {
                    setting_a_server_keeps_documents_plain(before->Object_0, key@, entry@, 127);
                }
            }
            Ok(out)
        },
        Err(e) => Err(e),
    }
}

/// Sets a server in a document.
pub fn change_document(doc: Json, key: &str, entry: Json) -> (r: Result<Json, ConfigFileError>)
    ensures
        match r {
            Ok(j) => changed(doc@, key@, entry@) == Ok::<JsonView, FileErrorView>(j@),
            Err(e) => changed(doc@, key@, entry@) == Err::<JsonView, FileErrorView>(e@),
        },
{
    match &doc {
        Json::Object(_) => {},
        _ => return Err(ConfigFileError::NotAnObject),
    }
    Ok(set_server(doc, key, entry))
}

/// The text of a file, where there is one, with a server that is a command added
/// or replaced. It reads back as the document.
pub fn merge_stdio_mcp_server_into_json_file(
    text: Option<&str>,
    server_key: &str,
    program: &str,
    args: &[String],
) -> (r: Result<String, ConfigFileError>)
    ensures
        result_view(r) == (if server_key@.len() == 0 {
            Err(FileErrorView::EmptyName)
        } else if program@.len() == 0 {
            Err(FileErrorView::EmptyCommand)
        } else {
            changed_text(
                crate::hook::config::opt_str(text),
                server_key@,
                stdio_entry(program@, texts(args@)),
            )
        }),
        r is Ok ==> reads_back(
            r->Ok_0@,
            changed_document(
                crate::hook::config::opt_str(text),
                server_key@,
                stdio_entry(program@, texts(args@)),
            ),
        ),
{
    if server_key.is_empty() {
        return Err(ConfigFileError::EmptyName);
    }
    if program.is_empty() {
        return Err(ConfigFileError::EmptyCommand);
    }
    proof {
        entries_are_plain(program@, texts(args@), Seq::empty(), Seq::empty());
        lemma_plain_grows(stdio_entry(program@, texts(args@)), 2, 125);
    }
    change_file(text, server_key, write_stdio_entry(program, args))
}

/// The text of a file, where there is one, with a server at a web address with a
/// login added or replaced. It reads back as the document.
pub fn merge_http_oauth_mcp_server_into_json_file(
    text: Option<&str>,
    server_key: &str,
    url: &str,
    provider: &str,
) -> (r: Result<String, ConfigFileError>)
    ensures
        result_view(r) == (if server_key@.len() == 0 {
            Err(FileErrorView::EmptyName)
        } else if url@.len() == 0 {
            Err(FileErrorView::EmptyUrl)
        } else if provider@.len() == 0 {
            Err(FileErrorView::EmptyProvider)
        } else {
            changed_text(crate::hook::config::opt_str(text), server_key@, oauth_entry(url@, provider@))
        }),
        r is Ok ==> reads_back(
            r->Ok_0@,
            changed_document(crate::hook::config::opt_str(text), server_key@, oauth_entry(url@, provider@)),
        ),
{
    if server_key.is_empty() {
        return Err(ConfigFileError::EmptyName);
    }
    if url.is_empty() {
        return Err(ConfigFileError::EmptyUrl);
    }
    if provider.is_empty() {
        return Err(ConfigFileError::EmptyProvider);
    }
    proof {
        entries_are_plain(Seq::empty(), Seq::empty(), url@, provider@);
        lemma_plain_grows(oauth_entry(url@, provider@), 2, 125);
    }
    change_file(text, server_key, write_oauth_entry(url, provider))
}

/// After a server was set, the document gives it back, and gives every other
/// server as it did: that under `mcpServers`, or else that under `servers`.
pub proof fn a_set_server_is_read_back(root: Members, key: Seq<char>, entry: JsonView, other: Seq<char>)
    ensures
        member(members_of(with_server(root, key, entry), "mcpServers"@), key) == Some(entry),
        other != key ==> member(members_of(with_server(root, key, entry), "mcpServers"@), other) == (match member(
            members_of(root, "mcpServers"@),
            other,
        ) {
            Some(v) => Some(v),
            None => member(members_of(root, "servers"@), other),
        }),
{
    reveal_strlit("mcpServers");
    reveal_strlit("servers");
    assert("mcpServers"@ != "servers"@) by {
        assert("mcpServers"@.len() != "servers"@.len());
    }
    let inside = put(root, "mcpServers"@, JsonView::Object(put(all_servers(root), key, entry)));
    lemma_without(inside, "servers"@, "mcpServers"@);
    lemma_put(root, "mcpServers"@, JsonView::Object(put(all_servers(root), key, entry)), "mcpServers"@);
    lemma_put(all_servers(root), key, entry, key);
    lemma_put(all_servers(root), key, entry, other);
    lemma_put_all(put_all(Seq::empty(), members_of(root, "servers"@)), members_of(root, "mcpServers"@), other);
    lemma_put_all(Seq::empty(), members_of(root, "servers"@), other);
}

/// Setting a server keeps everything else of the document; `servers` is gone.
pub proof fn setting_a_server_keeps_the_rest(root: Members, key: Seq<char>, entry: JsonView, top: Seq<char>)
    requires
        top != "mcpServers"@,
    ensures
        member(with_server(root, key, entry), top) == (if top == "servers"@ {
            None
        } else {
            member(root, top)
        }),
{
    let inside = put(root, "mcpServers"@, JsonView::Object(put(all_servers(root), key, entry)));
    lemma_without(inside, "servers"@, top);
    lemma_put(root, "mcpServers"@, JsonView::Object(put(all_servers(root), key, entry)), top);
}

proof fn lemma_members_are_plain(o: Members, key: Seq<char>, depth: nat)
    requires
        depth > 1,
        is_plain(JsonView::Object(o), depth),
    ensures
        is_plain(JsonView::Object(members_of(o, key)), (depth - 1) as nat),
{
    if member(o, key) is Some {
        lemma_member_is_plain(o, key, depth);
    }
}

/// Setting a server keeps the members of a document in the order of their keys, and
/// does not nest it deeper than the document or the entry did.
pub proof fn setting_a_server_keeps_documents_plain(root: Members, key: Seq<char>, entry: JsonView, depth: nat)
    requires
        depth >= 2,
        is_plain(JsonView::Object(root), depth),
        is_plain(entry, (depth - 2) as nat),
    ensures
        is_plain(JsonView::Object(with_server(root, key, entry)), depth),
{
    let d = (depth - 1) as nat;
    let none: Members = Seq::empty();
    let first = put_all(none, members_of(root, "servers"@));
    lemma_members_are_plain(root, "servers"@, depth);
    lemma_members_are_plain(root, "mcpServers"@, depth);
    lemma_put_all_is_plain(none, members_of(root, "servers"@), d);
    lemma_put_all_is_plain(first, members_of(root, "mcpServers"@), d);
    lemma_put_is_plain(all_servers(root), key, entry, d);
    let servers = JsonView::Object(put(all_servers(root), key, entry));
    lemma_put_is_plain(root, "mcpServers"@, servers, depth);
    lemma_without_is_plain(put(root, "mcpServers"@, servers), "servers"@, depth);
}

/// Setting a server brings no number into a document that reading rounds, unless the
/// entry has one.
pub proof fn setting_a_server_keeps_numbers_steady(root: Members, key: Seq<char>, entry: JsonView)
    requires
        has_steady_numbers(JsonView::Object(root)),
        has_steady_numbers(entry),
    ensures
        has_steady_numbers(JsonView::Object(with_server(root, key, entry))),
{
    let none: Members = Seq::empty();
    let first = put_all(none, members_of(root, "servers"@));
    lemma_member_is_steady(root, "servers"@);
    lemma_member_is_steady(root, "mcpServers"@);
    lemma_put_all_is_steady(none, members_of(root, "servers"@));
    lemma_put_all_is_steady(first, members_of(root, "mcpServers"@));
    lemma_put_is_steady(all_servers(root), key, entry);
    let servers = JsonView::Object(put(all_servers(root), key, entry));
    lemma_put_is_steady(root, "mcpServers"@, servers);
    lemma_without_is_steady(put(root, "mcpServers"@, servers), "servers"@);
}

/// The entries that are set have their members in order.
pub proof fn entries_are_plain(program: Seq<char>, args: Seq<Seq<char>>, url: Seq<char>, provider: Seq<char>)
    ensures
        is_plain(stdio_entry(program, args), 2),
        is_plain(oauth_entry(url, provider), 2),
{
    reveal_strlit("args");
    reveal_strlit("command");
    reveal_strlit("auth");
    reveal_strlit("url");
    reveal_strlit("provider");
    reveal_strlit("type");
    assert(precedes("args"@, "command"@));
    assert(precedes("auth"@, "url"@));
    assert(precedes("provider"@, "type"@));
    let stdio = stdio_entry(program, args)->Object_0;
    let list = stdio[0].1->Array_0;
    assert forall|i: int| 0 <= i < list.len() implies is_ordered(#[trigger] list[i]) && nests_within(list[i], 0) by {
        assert(list[i] == JsonView::Text(args[i]));
    }
    assert(is_plain(stdio[0].1, 1) && is_plain(stdio[1].1, 1));
    assert(keys_ascend(stdio));
    let oauth = oauth_entry(url, provider)->Object_0;
    let auth = oauth[0].1->Object_0;
    assert(keys_ascend(auth));
    assert(is_plain(auth[0].1, 0) && is_plain(auth[1].1, 0));
    assert(is_plain(oauth[0].1, 1) && is_plain(oauth[1].1, 1));
    assert(keys_ascend(oauth));
}

// ---- Tools that are used without asking ----

/// Whether a document has a server of this name.
pub open spec fn defines(doc: JsonView, server: Seq<char>) -> bool {
    match (match doc.get("mcpServers"@) {
        Some(v) => Some(v),
        None => doc.get("servers"@),
    }) {
        Some(JsonView::Object(m)) => member(m, server) is Some,
        _ => false,
    }
}

pub fn document_defines(doc: &Json, server: &str) -> (r: bool)
    ensures
        r == defines(doc@, server@),
{
    let servers = match doc.get("mcpServers") {
        Some(v) => Some(v),
        None => doc.get("servers"),
    };
    match servers {
        Some(v) => match v {
            Json::Object(_) => v.get(server).is_some(),
            _ => false,
        },
        None => false,
    }
}

/// The member under which a document keeps its servers.
pub open spec fn servers_key(root: Members) -> Seq<char> {
    if member(root, "servers"@) is Some && member(root, "mcpServers"@) is None {
        "servers"@
    } else {
        "mcpServers"@
    }
}

/// The entry of a server: an empty object where it has none.
pub open spec fn entry_of(servers: Members, server: Seq<char>) -> JsonView {
    match member(servers, server) {
        Some(e) => e,
        None => JsonView::Object(Seq::empty()),
    }
}

/// The list of tools of an entry: an empty list where it has none.
pub open spec fn approved_list(entry: Members) -> JsonView {
    match member(entry, "autoApprove"@) {
        Some(l) => l,
        None => JsonView::Array(Seq::empty()),
    }
}

/// A list with a tool in it: as it is where it holds the tool.
pub open spec fn with_tool(list: Seq<JsonView>, tool: Seq<char>) -> Seq<JsonView> {
    if list.contains(JsonView::Text(tool)) {
        list
    } else {
        list.push(JsonView::Text(tool))
    }
}

/// A document in which a server's tool is used without asking.
pub open spec fn approved(doc: JsonView, server: Seq<char>, tool: Seq<char>) -> Result<JsonView, FileErrorView> {
    match (match doc {
        JsonView::Object(o) => Some(o),
        JsonView::Null => Some(Seq::empty()),
        _ => None,
    }) {
        None => Err(FileErrorView::NotAnObject),
        Some(root) => {
            let key = servers_key(root);
            let servers = members_of(root, key);
            match entry_of(servers, server) {
                JsonView::Object(entry) => match approved_list(entry) {
                    JsonView::Array(list) => Ok(
                        JsonView::Object(
                            put(
                                root,
                                key,
                                JsonView::Object(
                                    put(
                                        servers,
                                        server,
                                        JsonView::Object(
                                            put(
                                                entry,
                                                "autoApprove"@,
                                                JsonView::Array(with_tool(list, tool)),
                                            ),
                                        ),
                                    ),
                                ),
                            ),
                        ),
                    ),
                    _ => Err(FileErrorView::NotAnArray),
                },
                _ => Err(FileErrorView::EntryNotAnObject(server)),
            }
        },
    }
}

fn copy_members(j: Option<&Json>) -> (r: Vec<(String, Json)>)
    ensures
        member_views(r@) == (match j {
            Some(v) => match v@ {
                JsonView::Object(m) => m,
                _ => Seq::empty(),
            },
            None => Seq::empty(),
        }),
{
    if let Some(v) = j {
        if let Json::Object(_) = v {
            let copy = v.clone();
            if let Json::Object(o) = copy {
                assert(Json::Object(o)@->Object_0 =~= member_views(o@));
                return o;
            }
        }
    }
    let none: Vec<(String, Json)> = Vec::new();
    assert(member_views(none@) =~= Seq::<(Seq<char>, JsonView)>::empty());
    none
}

fn list_with_tool(list: &Vec<Json>, tool: &str) -> (r: Json)
    ensures
        r@ == JsonView::Array(with_tool(json_views(list@), tool@)),
{
    let ghost all = json_views(list@);
    let mut found: bool = false;
    let mut out: Vec<Json> = Vec::new();
    let mut i: usize = 0;
    while i < list.len()
        invariant
            i <= list.len(),
            all == json_views(list@),
            out@.len() == i,
            forall|k: int| 0 <= k < i ==> (#[trigger] out@[k])@ == list@[k]@,
            found == exists|k: int| 0 <= k < i && #[trigger] all[k] == JsonView::Text(tool@),
        decreases list.len() - i,
    {
        assert(all[i as int] == list@[i as int]@);
        if let Some(t) = list[i].as_str() {
            if same(t, tool) {
                found = true;
            }
        }
        out.push(list[i].clone());
        i = i + 1;
    }
    assert(json_views(out@) =~= all);
    if !found {
        let ghost was = out@;
        out.push(Json::of_text(tool));
        assert(json_views(out@) =~= all.push(JsonView::Text(tool@)));
        assert(!all.contains(JsonView::Text(tool@)));
    } else {
        assert(all.contains(JsonView::Text(tool@)));
    }
    Json::list(out)
}

/// Notes in a document that a server's tool is used without asking.
pub fn approve_tool(doc: Json, server: &str, tool: &str) -> (r: Result<Json, ConfigFileError>)
    ensures
        match r {
            Ok(j) => approved(doc@, server@, tool@) == Ok::<JsonView, FileErrorView>(j@),
            Err(e) => approved(doc@, server@, tool@) == Err::<JsonView, FileErrorView>(e@),
        },
{
    let root_doc = match doc {
        Json::Object(_) => doc,
        Json::Null => Json::empty_object(),
        _ => return Err(ConfigFileError::NotAnObject),
    };
    let key: &str = if root_doc.get("servers").is_some() && root_doc.get("mcpServers").is_none() {
        "servers"
    } else {
        "mcpServers"
    };
    let ghost root = root_doc@->Object_0;
    let mut servers = copy_members(root_doc.get(key));
    assert(member_views(servers@) == members_of(root, key@));
    let ghost before = member_views(servers@);
    let mut entry: Vec<(String, Json)> = Vec::new();
    assert(member_views(entry@) =~= Seq::<(Seq<char>, JsonView)>::empty());
    let old_servers = object(servers);
    match old_servers.get(server) {
        Some(e) => match e {
            Json::Object(_) => {
                entry = copy_members(Some(e));
            },
            _ => return Err(ConfigFileError::EntryNotAnObject { server: server.to_owned() }),
        },
        None => {},
    }
    assert(entry_of(before, server@) == JsonView::Object(member_views(entry@)));
    let entry_doc = object(entry);
    let list = match entry_doc.get("autoApprove") {
        Some(l) => match l.as_array() {
            Some(a) => list_with_tool(a, tool),
            None => return Err(ConfigFileError::NotAnArray),
        },
        None => {
            let none: Vec<Json> = Vec::new();
            assert(json_views(none@) =~= Seq::<JsonView>::empty());
            list_with_tool(&none, tool)
        },
    };
    let mut entry = copy_members(Some(&entry_doc));
    put_member(&mut entry, "autoApprove", list);
    let mut servers = copy_members(Some(&old_servers));
    put_member(&mut servers, server, object(entry));
    let mut all = copy_members(Some(&root_doc));
    put_member(&mut all, key, object(servers));
    Ok(object(all))
}

/// Which file of configured servers is changed.
#[derive(Debug, Clone, Copy, PartialEq, Eq, Structural)]
pub enum ConfigTarget {
    Project,
    User,
}

/// The file that a server's tool is noted in: the project's where it has the
/// server, else the user's.
pub open spec fn target_of(project: Option<Seq<char>>, server: Seq<char>) -> ConfigTarget {
    match project {
        Some(t) => match json_text(t) {
            Some(doc) => if defines(doc, server) {
                ConfigTarget::Project
            } else {
                ConfigTarget::User
            },
            None => ConfigTarget::User,
        },
        None => ConfigTarget::User,
    }
}

/// The document of the file that is changed; where there is none, one without
/// servers.
pub open spec fn target_document(text: Option<Seq<char>>) -> Result<JsonView, FileErrorView> {
    match text {
        Some(t) => match json_text(t) {
            Some(doc) => Ok(doc),
            None => Err(FileErrorView::NotJson),
        },
        None => Ok(JsonView::Object(seq![("mcpServers"@, JsonView::Object(Seq::empty()))])),
    }
}

/// The new text of the file that is changed.
pub open spec fn approved_text(text: Option<Seq<char>>, server: Seq<char>, tool: Seq<char>) -> Result<
    Seq<char>,
    FileErrorView,
> {
    match target_document(text) {
        Ok(doc) => match approved(doc, server, tool) {
            Ok(now) => Ok(value_pretty(settled(now))),
            Err(e) => Err(e),
        },
        Err(e) => Err(e),
    }
}

/// The text of one of the two files.
pub open spec fn text_of(
    target: ConfigTarget,
    project: Option<Seq<char>>,
    user: Option<Seq<char>>,
) -> Option<Seq<char>> {
    match target {
        ConfigTarget::Project => project,
        ConfigTarget::User => user,
    }
}

/// The text of the project's file after one of the two files was written.
pub open spec fn project_after(
    target: ConfigTarget,
    project: Option<Seq<char>>,
    written: Seq<char>,
) -> Option<Seq<char>> {
    match target {
        ConfigTarget::Project => Some(written),
        ConfigTarget::User => project,
    }
}

/// The document of the file that is changed, after the change.
pub open spec fn approved_document(text: Option<Seq<char>>, server: Seq<char>, tool: Seq<char>) -> JsonView {
    approved(target_document(text)->Ok_0, server, tool)->Ok_0
}

/// Notes that a server's tool is used without asking, in the file that has the
/// server. Gives the file to change and its new text, from the texts of the two
/// files where they are there. The text reads back as the document, and noting the
/// tool again gives the same text for the same file.
pub fn add_auto_approved_tool(project: Option<&str>, user: Option<&str>, server: &str, tool: &str) -> (r: (
    ConfigTarget,
    Result<String, ConfigFileError>,
))
    ensures
        r.0 == target_of(crate::hook::config::opt_str(project), server@),
        result_view(r.1) == approved_text(
            text_of(r.0, crate::hook::config::opt_str(project), crate::hook::config::opt_str(user)),
            server@,
            tool@,
        ),
        r.1 is Ok ==> reads_back(
            r.1->Ok_0@,
            approved_document(
                text_of(r.0, crate::hook::config::opt_str(project), crate::hook::config::opt_str(user)),
                server@,
                tool@,
            ),
        ),
        r.1 is Ok && has_steady_numbers(
            approved_document(
                text_of(r.0, crate::hook::config::opt_str(project), crate::hook::config::opt_str(user)),
                server@,
                tool@,
            ),
        ) ==> target_of(project_after(r.0, crate::hook::config::opt_str(project), r.1->Ok_0@), server@) == r.0
            && approved_text(Some(r.1->Ok_0@), server@, tool@) == Ok::<Seq<char>, FileErrorView>(r.1->Ok_0@),
{
    let mut target = ConfigTarget::User;
    if let Some(t) = project {
        if let Some(doc) = parse_json(t) {
            if document_defines(&doc, server) {
                target = ConfigTarget::Project;
            }
        }
    }
    let text = match target {
        ConfigTarget::Project => project,
        ConfigTarget::User => user,
    };
    let doc = match text {
        Some(t) => match parse_json(t) {
            Some(doc) => doc,
            None => return (target, Err(ConfigFileError::NotJson)),
        },
        None => {
            let doc = Json::empty_object().with("mcpServers", Json::empty_object());
            assert(doc@->Object_0 =~= seq![("mcpServers"@, JsonView::Object(Seq::empty()))]);
            assert(is_plain(JsonView::Object(Seq::empty()), 126));
            assert(is_plain(doc@, 127));
            doc
        },
    };
    let ghost before = doc@;
    match approve_tool(doc, server, tool) {
        Ok(now) => {
            let written = json_to_pretty(&now);
            proof {
                approving_keeps_documents_plain(before, server@, tool@, 127);
                if has_steady_numbers(now@) {
                    a_second_approval_writes_the_same(
                        crate::hook::config::opt_str(project),
                        crate::hook::config::opt_str(user),
                        server@,
                        tool@,
                        written@,
                    );
                }
            }
            (target, Ok(written))
        },
        Err(e) => (target, Err(e)),
    }
}

/// Noting a tool a second time changes nothing.
pub proof fn approving_is_idempotent(doc: JsonView, server: Seq<char>, tool: Seq<char>)
    requires
        approved(doc, server, tool) is Ok,
    ensures
        approved(approved(doc, server, tool)->Ok_0, server, tool) == approved(doc, server, tool),
{
    let root = match doc {
        JsonView::Object(o) => o,
        _ => Seq::empty(),
    };
    let key = servers_key(root);
    let servers = members_of(root, key);
    let entry = entry_of(servers, server)->Object_0;
    let list = approved_list(entry)->Array_0;
    let new_list = with_tool(list, tool);
    let new_entry = put(entry, "autoApprove"@, JsonView::Array(new_list));
    let new_servers = put(servers, server, JsonView::Object(new_entry));
    let new_root = put(root, key, JsonView::Object(new_servers));
    assert(approved(doc, server, tool) == Ok::<JsonView, FileErrorView>(JsonView::Object(new_root)));
    lemma_put(root, key, JsonView::Object(new_servers), "servers"@);
    lemma_put(root, key, JsonView::Object(new_servers), "mcpServers"@);
    lemma_put(root, key, JsonView::Object(new_servers), key);
    assert(servers_key(new_root) == key);
    assert(members_of(new_root, key) == new_servers);
    lemma_put(servers, server, JsonView::Object(new_entry), server);
    assert(entry_of(new_servers, server) == JsonView::Object(new_entry));
    lemma_put(entry, "autoApprove"@, JsonView::Array(new_list), "autoApprove"@);
    assert(approved_list(new_entry) == JsonView::Array(new_list));
    assert(new_list.contains(JsonView::Text(tool))) by {
        if !list.contains(JsonView::Text(tool)) {
            assert(new_list[new_list.len() - 1] == JsonView::Text(tool));
        }
    }
    assert(with_tool(new_list, tool) == new_list);
    lemma_put_twice(entry, "autoApprove"@, JsonView::Array(new_list));
    lemma_put_twice(servers, server, JsonView::Object(new_entry));
    lemma_put_twice(root, key, JsonView::Object(new_servers));
}

/// Noting a tool a second time, after the text of the first time was written, picks
/// the same file and gives the same text.
pub proof fn a_second_approval_writes_the_same(
    project: Option<Seq<char>>,
    user: Option<Seq<char>>,
    server: Seq<char>,
    tool: Seq<char>,
    written: Seq<char>,
)
    requires
        approved_text(text_of(target_of(project, server), project, user), server, tool) == Ok::<
            Seq<char>,
            FileErrorView,
        >(written),
        json_text(written) == Some(
            approved_document(text_of(target_of(project, server), project, user), server, tool),
        ),
    ensures
        target_of(project_after(target_of(project, server), project, written), server) == target_of(
            project,
            server,
        ),
        approved_document(Some(written), server, tool) == approved_document(
            text_of(target_of(project, server), project, user),
            server,
            tool,
        ),
        approved_text(Some(written), server, tool) == Ok::<Seq<char>, FileErrorView>(written),
{
    let target = target_of(project, server);
    let doc = target_document(text_of(target, project, user))->Ok_0;
    approving_is_idempotent(doc, server, tool);
    if target == ConfigTarget::Project {
        let root = doc->Object_0;
        let now = approved(doc, server, tool)->Ok_0->Object_0;
        let key = servers_key(root);
        let servers = members_of(root, key);
        let entry = entry_of(servers, server)->Object_0;
        let list = approved_list(entry)->Array_0;
        let new_entry = JsonView::Object(put(entry, "autoApprove"@, JsonView::Array(with_tool(list, tool))));
        lemma_put(root, key, JsonView::Object(put(servers, server, new_entry)), "servers"@);
        lemma_put(root, key, JsonView::Object(put(servers, server, new_entry)), "mcpServers"@);
        lemma_put(servers, server, new_entry, server);
    }
}

/// Noting a tool leaves every other part of the document, every other server and every
/// other member of the server's entry as it is; the list of tools is as it was, with
/// the tool at its end where it was not in it.
pub proof fn approving_keeps_the_rest(
    root: Members,
    server: Seq<char>,
    tool: Seq<char>,
    top: Seq<char>,
    other: Seq<char>,
    field: Seq<char>,
)
    requires
        approved(JsonView::Object(root), server, tool) is Ok,
    ensures
        ({
            let now = approved(JsonView::Object(root), server, tool)->Ok_0->Object_0;
            let before = members_of(root, servers_key(root));
            let after = members_of(now, servers_key(root));
            &&& top != servers_key(root) ==> member(now, top) == member(root, top)
            &&& other != server ==> member(after, other) == member(before, other)
            &&& field != "autoApprove"@ ==> member(members_of(after, server), field) == member(
                members_of(before, server),
                field,
            )
            &&& member(members_of(after, server), "autoApprove"@) == Some(
                JsonView::Array(with_tool(approved_list(members_of(before, server))->Array_0, tool)),
            )
        }),
{
    let key = servers_key(root);
    let servers = members_of(root, key);
    let entry = entry_of(servers, server)->Object_0;
    let list = JsonView::Array(with_tool(approved_list(entry)->Array_0, tool));
    let new_entry = put(entry, "autoApprove"@, list);
    let new_servers = put(servers, server, JsonView::Object(new_entry));
    lemma_put(root, key, JsonView::Object(new_servers), top);
    lemma_put(root, key, JsonView::Object(new_servers), key);
    lemma_put(servers, server, JsonView::Object(new_entry), other);
    lemma_put(servers, server, JsonView::Object(new_entry), server);
    lemma_put(entry, "autoApprove"@, list, field);
    lemma_put(entry, "autoApprove"@, list, "autoApprove"@);
}

/// Noting a tool keeps the members of a document in the order of their keys, and does
/// not nest it deeper than it was, beyond the four levels of the list itself.
pub proof fn approving_keeps_documents_plain(doc: JsonView, server: Seq<char>, tool: Seq<char>, depth: nat)
    requires
        depth >= 4,
        is_plain(doc, depth),
        approved(doc, server, tool) is Ok,
    ensures
        is_plain(approved(doc, server, tool)->Ok_0, depth),
{
    let root = match doc {
        JsonView::Object(o) => o,
        _ => Seq::empty(),
    };
    let key = servers_key(root);
    let servers = members_of(root, key);
    let entry = entry_of(servers, server)->Object_0;
    let list = approved_list(entry)->Array_0;
    lemma_members_are_plain(root, key, depth);
    if member(servers, server) is Some {
        lemma_member_is_plain(servers, server, (depth - 1) as nat);
    }
    if member(entry, "autoApprove"@) is Some {
        lemma_member_is_plain(entry, "autoApprove"@, (depth - 2) as nat);
    }
    let new_list = with_tool(list, tool);
    assert forall|i: int| 0 <= i < new_list.len() implies is_ordered(#[trigger] new_list[i]) && nests_within(
        new_list[i],
        (depth - 4) as nat,
    ) by {
        if i < list.len() {
            assert(new_list[i] == list[i]);
        }
    }
    let tools = JsonView::Array(new_list);
    assert(is_plain(tools, (depth - 3) as nat));
    lemma_put_is_plain(entry, "autoApprove"@, tools, (depth - 2) as nat);
    let new_entry = JsonView::Object(put(entry, "autoApprove"@, tools));
    lemma_put_is_plain(servers, server, new_entry, (depth - 1) as nat);
    lemma_put_is_plain(root, key, JsonView::Object(put(servers, server, new_entry)), depth);
}

/// Noting a tool brings no number into a document that reading rounds.
pub proof fn approving_keeps_numbers_steady(doc: JsonView, server: Seq<char>, tool: Seq<char>)
    requires
        has_steady_numbers(doc),
        approved(doc, server, tool) is Ok,
    ensures
        has_steady_numbers(approved(doc, server, tool)->Ok_0),
{
    let root = match doc {
        JsonView::Object(o) => o,
        _ => Seq::empty(),
    };
    let key = servers_key(root);
    let servers = members_of(root, key);
    let entry = entry_of(servers, server)->Object_0;
    let list = approved_list(entry)->Array_0;
    lemma_member_is_steady(root, key);
    lemma_member_is_steady(servers, server);
    lemma_member_is_steady(entry, "autoApprove"@);
    let new_list = with_tool(list, tool);
    assert forall|i: int| 0 <= i < new_list.len() implies has_steady_numbers(#[trigger] new_list[i]) by {
        if i < list.len() {
            assert(new_list[i] == list[i]);
        }
    }
    let tools = JsonView::Array(new_list);
    lemma_put_is_steady(entry, "autoApprove"@, tools);
    let new_entry = JsonView::Object(put(entry, "autoApprove"@, tools));
    lemma_put_is_steady(servers, server, new_entry);
    lemma_put_is_steady(root, key, JsonView::Object(put(servers, server, new_entry)));
}

/// A tool is noted in the project's file exactly where that is a document with the
/// server, under `mcpServers`, or under `servers` where there is no `mcpServers`; else in
/// the user's.
pub proof fn tools_are_noted_where_their_server_is(project: Seq<char>, root: Members, server: Seq<char>)
    ensures
        json_text(project) == Some(JsonView::Object(root)) && member(root, "mcpServers"@) is Some && member(
            members_of(root, "mcpServers"@),
            server,
        ) is Some ==> target_of(Some(project), server) == ConfigTarget::Project,
        json_text(project) == Some(JsonView::Object(root)) && member(root, "mcpServers"@) is None && member(
            members_of(root, "servers"@),
            server,
        ) is Some ==> target_of(Some(project), server) == ConfigTarget::Project,
        json_text(project) == Some(JsonView::Object(root)) && member(members_of(root, "mcpServers"@), server) is None
            && member(members_of(root, "servers"@), server) is None ==> target_of(Some(project), server)
            == ConfigTarget::User,
        json_text(project) is None ==> target_of(Some(project), server) == ConfigTarget::User,
        target_of(None, server) == ConfigTarget::User,
{
}

/// A document that is none, an entry that is no object and a list that is none are
/// refused; where nothing is there yet, all is made.
pub proof fn approvals_fail_on_other_shapes(doc: JsonView, server: Seq<char>, tool: Seq<char>)
    ensures
        doc is Text || doc is Array || doc is Number || doc is Bool ==> approved(doc, server, tool) == Err::<
            JsonView,
            FileErrorView,
        >(FileErrorView::NotAnObject),
        approved(JsonView::Null, server, tool) is Ok,
        approved(JsonView::Object(Seq::empty()), server, tool) is Ok,
        doc is Object ==> ({
            let root = doc->Object_0;
            let entry = entry_of(members_of(root, servers_key(root)), server);
            &&& !(entry is Object) ==> approved(doc, server, tool) == Err::<JsonView, FileErrorView>(
                FileErrorView::EntryNotAnObject(server),
            )
            &&& entry is Object && member(entry->Object_0, "autoApprove"@) is None ==> approved(doc, server, tool) is Ok
            &&& entry is Object && member(entry->Object_0, "autoApprove"@) is Some && !(member(
                entry->Object_0,
                "autoApprove"@,
            )->0 is Array) ==> approved(doc, server, tool) == Err::<JsonView, FileErrorView>(FileErrorView::NotAnArray)
        }),
{
    let none = Seq::<(Seq<char>, JsonView)>::empty();
    assert(member(none, "servers"@) is None && member(none, "mcpServers"@) is None);
    assert(members_of(none, "mcpServers"@) == none);
    assert(entry_of(none, server) == JsonView::Object(none));
    assert(approved_list(none) == JsonView::Array(Seq::empty()));
}

/// The entry of a command has its program and its arguments, in their order; that of a
/// web address its address and its login.
pub proof fn entries_hold_what_was_given(program: Seq<char>, args: Seq<Seq<char>>, url: Seq<char>, provider: Seq<char>, i: int)
    ensures
        ({
            let s = stdio_entry(program, args);
            let o = oauth_entry(url, provider);
            &&& s.text_at("command"@) == Some(program)
            &&& s.get("args"@) is Some && s.get("args"@)->0 is Array && s.get("args"@)->0->Array_0.len() == args.len()
            &&& 0 <= i < args.len() ==> s.get("args"@)->0->Array_0[i] == JsonView::Text(args[i])
            &&& o.text_at("url"@) == Some(url)
            &&& o.get("auth"@) is Some && o.get("auth"@)->0.text_at("type"@) == Some("oauth"@)
            &&& o.get("auth"@)->0.text_at("provider"@) == Some(provider)
        }),
{
    reveal_strlit("command");
    reveal_strlit("args");
    reveal_strlit("url");
    reveal_strlit("auth");
    reveal_strlit("type");
    reveal_strlit("provider");
    assert("command"@.len() == 7 && "args"@.len() == 4 && "url"@.len() == 3 && "auth"@.len() == 4 && "type"@.len() == 4
        && "provider"@.len() == 8);
    lemma_pair_members(stdio_entry(program, args)->Object_0);
    lemma_pair_members(oauth_entry(url, provider)->Object_0);
    lemma_pair_members(oauth_entry(url, provider)->Object_0[0].1->Object_0);
}

proof fn lemma_pair_members(o: Members)
    requires
        o.len() == 2,
        o[0].0 != o[1].0,
    ensures
        member(o, o[0].0) == Some(o[0].1),
        member(o, o[1].0) == Some(o[1].1),
{
    let t = o.drop_last();
    assert(t.last() == o[0]);
    assert(o.last() == o[1]);
    assert(member(t, o[0].0) == Some(o[0].1));
}

} // verus!
