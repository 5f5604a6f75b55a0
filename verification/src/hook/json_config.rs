//! Commands as hooks, from the configuration of the user, of plugins and of the
//! project.

use vstd::prelude::*;
use vstd::string::*;

use crate::hook::{event_name, HookConfig, HookConfigView, HookEvent};
use crate::text::{decimal, opt, push_decimal, same, starts_with};
use crate::text_map::TextMap;
use crate::text_order::{ascending, borrowed, in_key_order, sorted_keys};

verus! {

/// A command in a file of hooks.
#[derive(Debug)]
pub struct HookEntry {
    pub event: String,
    pub matcher: Option<String>,
    pub command: String,
    pub timeout_ms: u64,
    pub disabled: bool,
}

/// The event of a name in camel case.
pub open spec fn camel_event(name: Seq<char>) -> Option<HookEvent> {
    if name == "PreToolUse"@ {
        Some(HookEvent::PreToolUse)
    } else if name == "PostToolUse"@ {
        Some(HookEvent::PostToolUse)
    } else if name == "SessionStart"@ {
        Some(HookEvent::SessionStart)
    } else if name == "SessionEnd"@ {
        Some(HookEvent::SessionEnd)
    } else if name == "Notification"@ {
        Some(HookEvent::Notification)
    } else if name == "UserPromptSubmit"@ {
        Some(HookEvent::UserPromptSubmit)
    } else {
        None
    }
}

/// The event of a name in snake case.
pub open spec fn snake_event(name: Seq<char>) -> Option<HookEvent> {
    if name == "pre_tool_use"@ {
        Some(HookEvent::PreToolUse)
    } else if name == "post_tool_use"@ {
        Some(HookEvent::PostToolUse)
    } else if name == "session_start"@ {
        Some(HookEvent::SessionStart)
    } else if name == "session_end"@ {
        Some(HookEvent::SessionEnd)
    } else if name == "notification"@ {
        Some(HookEvent::Notification)
    } else if name == "user_prompt_submit"@ {
        Some(HookEvent::UserPromptSubmit)
    } else {
        None
    }
}

/// The event that a name stands for, in snake case or camel case.
pub open spec fn event_of(name: Seq<char>) -> Option<HookEvent> {
    match snake_event(name) {
        Some(e) => Some(e),
        None => camel_event(name),
    }
}

pub fn cc_event_name_to_event(name: &str) -> (r: Option<HookEvent>)
    ensures
        r == camel_event(name@),
{
    if same(name, "PreToolUse") {
        Some(HookEvent::PreToolUse)
    } else if same(name, "PostToolUse") {
        Some(HookEvent::PostToolUse)
    } else if same(name, "SessionStart") {
        Some(HookEvent::SessionStart)
    } else if same(name, "SessionEnd") {
        Some(HookEvent::SessionEnd)
    } else if same(name, "Notification") {
        Some(HookEvent::Notification)
    } else if same(name, "UserPromptSubmit") {
        Some(HookEvent::UserPromptSubmit)
    } else {
        None
    }
}

pub fn parse_hook_event(name: &str) -> (r: Option<HookEvent>)
    ensures
        r == event_of(name@),
{
    if same(name, "pre_tool_use") {
        Some(HookEvent::PreToolUse)
    } else if same(name, "post_tool_use") {
        Some(HookEvent::PostToolUse)
    } else if same(name, "session_start") {
        Some(HookEvent::SessionStart)
    } else if same(name, "session_end") {
        Some(HookEvent::SessionEnd)
    } else if same(name, "notification") {
        Some(HookEvent::Notification)
    } else if same(name, "user_prompt_submit") {
        Some(HookEvent::UserPromptSubmit)
    } else {
        cc_event_name_to_event(name)
    }
}

/// A configured command with its name.
pub type NamedView = (Seq<char>, HookConfigView);

pub open spec fn named_views(v: Seq<(String, HookConfig)>) -> Seq<NamedView> {
    v.map_values(|e: (String, HookConfig)| (e.0@, e.1@))
}

fn push_named(out: &mut Vec<(String, HookConfig)>, name: String, config: HookConfig)
    ensures
        named_views(final(out)@) == named_views(old(out)@).push((name@, config@)),
{
    let ghost was = out@;
    out.push((name, config));
    assert(named_views(out@) =~= named_views(was).push((name@, config@)));
}

/// The command of an entry, if the entry names an event.
pub open spec fn entry_config(e: HookEntry) -> Option<HookConfigView> {
    match event_of(e.event@) {
        Some(event) => Some(
            HookConfigView {
                event,
                matcher: opt(e.matcher),
                command: e.command@,
                timeout_ms: e.timeout_ms,
                plugin_root: None,
            },
        ),
        None => None,
    }
}

/// The commands of a file: those that are switched on and name an event.
pub open spec fn loaded(entries: Seq<(String, HookEntry)>) -> Seq<NamedView>
    decreases entries.len(),
{
    if entries.len() == 0 {
        Seq::empty()
    } else {
        let before = loaded(entries.drop_last());
        let (name, e) = entries.last();
        match entry_config(e) {
            Some(c) => if e.disabled {
                before
            } else {
                before.push((name@, c))
            },
            None => before,
        }
    }
}

fn read_entry(entry: &HookEntry) -> (r: Option<HookConfig>)
    ensures
        match r {
            Some(c) => entry_config(*entry) == Some(c@),
            None => entry_config(*entry) is None,
        },
{
    match parse_hook_event(entry.event.as_str()) {
        Some(event) => Some(
            HookConfig {
                event,
                matcher: crate::conversation::clone_opt(&entry.matcher),
                command: entry.command.clone(),
                timeout_ms: entry.timeout_ms,
                plugin_root: None,
            },
        ),
        None => None,
    }
}

/// Takes the commands of a file in.
pub fn load_hooks_file(entries: &Vec<(String, HookEntry)>) -> (r: Vec<(String, HookConfig)>)
    ensures
        named_views(r@) == loaded(entries@),
{
    let mut out: Vec<(String, HookConfig)> = Vec::new();
    let mut i: usize = 0;
    assert(entries@.take(0) =~= Seq::<(String, HookEntry)>::empty());
    assert(named_views(out@) =~= loaded(entries@.take(0)));
    while i < entries.len()
        invariant
            i <= entries.len(),
            named_views(out@) == loaded(entries@.take(i as int)),
        decreases entries.len() - i,
    {
        let entry = &entries[i].1;
        assert(entries@.take(i + 1).drop_last() =~= entries@.take(i as int));
        if !entry.disabled {
            if let Some(config) = read_entry(entry) {
                push_named(&mut out, entries[i].0.clone(), config);
            }
        }
        i = i + 1;
    }
    assert(entries@.take(i as int) =~= entries@);
    out
}

// ---- Hooks of plugins ----

/// A command in the manifest of a plugin.
#[derive(Debug)]
pub struct CCHookSpec {
    pub kind: String,
    pub command: String,
    /// In seconds.
    pub timeout: Option<u64>,
}

/// Commands in the manifest of a plugin that are called for the same tools.
#[derive(Debug)]
pub struct CCHookGroup {
    pub matcher: Option<String>,
    pub hooks: Vec<CCHookSpec>,
}

/// How long a command of a plugin may run, in milliseconds.
pub open spec fn plugin_timeout(seconds: Option<u64>) -> u64 {
    match seconds {
        Some(s) => if s * 1000 > u64::MAX {
            u64::MAX
        } else {
            (s * 1000) as u64
        },
        None => 10_000,
    }
}

fn timeout_of(seconds: Option<u64>) -> (r: u64)
    ensures
        r == plugin_timeout(seconds),
{
    match seconds {
        Some(s) => if s > u64::MAX / 1000 {
            u64::MAX
        } else {
            s * 1000
        },
        None => 10_000,
    }
}

/// The name that a command of a plugin gets: its event and where it stands.
pub open spec fn plugin_hook_name(event: Seq<char>, group: nat, index: nat) -> Seq<char> {
    event + "-"@ + decimal(group) + "-"@ + decimal(index)
}

/// The commands of a group.
pub open spec fn group_hooks(
    name: Seq<char>,
    event: HookEvent,
    group: nat,
    matcher: Option<Seq<char>>,
    specs: Seq<CCHookSpec>,
    root: Seq<char>,
) -> Seq<NamedView>
    decreases specs.len(),
{
    if specs.len() == 0 {
        Seq::empty()
    } else {
        let before = group_hooks(name, event, group, matcher, specs.drop_last(), root);
        let s = specs.last();
        if s.kind@ == "command"@ {
            before.push(
                (
                    plugin_hook_name(name, group, (specs.len() - 1) as nat),
                    HookConfigView {
                        event,
                        matcher,
                        command: s.command@,
                        timeout_ms: plugin_timeout(s.timeout),
                        plugin_root: Some(root),
                    },
                ),
            )
        } else {
            before
        }
    }
}

/// The commands of the groups of an event.
pub open spec fn event_hooks(name: Seq<char>, event: HookEvent, groups: Seq<CCHookGroup>, root: Seq<char>) -> Seq<
    NamedView,
>
    decreases groups.len(),
{
    if groups.len() == 0 {
        Seq::empty()
    } else {
        event_hooks(name, event, groups.drop_last(), root) + group_hooks(
            name,
            event,
            (groups.len() - 1) as nat,
            opt(groups.last().matcher),
            groups.last().hooks@,
            root,
        )
    }
}

/// The commands of a manifest; those of events that have no name here are passed
/// over.
pub open spec fn manifest_hooks(cc: Seq<(String, Vec<CCHookGroup>)>, root: Seq<char>) -> Seq<NamedView>
    decreases cc.len(),
{
    if cc.len() == 0 {
        Seq::empty()
    } else {
        let before = manifest_hooks(cc.drop_last(), root);
        match camel_event(cc.last().0@) {
            Some(event) => before + event_hooks(cc.last().0@, event, cc.last().1@, root),
            None => before,
        }
    }
}

fn push_group(
    out: &mut Vec<(String, HookConfig)>,
    name: &str,
    event: HookEvent,
    group: usize,
    g: &CCHookGroup,
    root: &str,
)
    ensures
        named_views(final(out)@) == named_views(old(out)@) + group_hooks(
            name@,
            event,
            group as nat,
            opt(g.matcher),
            g.hooks@,
            root@,
        ),
{
    let ghost start = named_views(out@);
    let ghost m = opt(g.matcher);
    let mut i: usize = 0;
    assert(g.hooks@.take(0) =~= Seq::<CCHookSpec>::empty());
    assert(start + Seq::<NamedView>::empty() =~= start);
    while i < g.hooks.len()
        invariant
            i <= g.hooks.len(),
            m == opt(g.matcher),
            named_views(out@) == start + group_hooks(
                name@,
                event,
                group as nat,
                m,
                g.hooks@.take(i as int),
                root@,
            ),
        decreases g.hooks.len() - i,
    {
        let spec_i = &g.hooks[i];
        assert(g.hooks@.take(i + 1).drop_last() =~= g.hooks@.take(i as int));
        if same(spec_i.kind.as_str(), "command") {
            let mut full: String = name.to_owned();
            full.append("-");
            push_decimal(&mut full, group as u64);
            full.append("-");
            push_decimal(&mut full, i as u64);
            let config = HookConfig {
                event,
                matcher: crate::conversation::clone_opt(&g.matcher),
                command: spec_i.command.clone(),
                timeout_ms: timeout_of(spec_i.timeout),
                plugin_root: Some(root.to_owned()),
            };
            let ghost so_far = group_hooks(name@, event, group as nat, m, g.hooks@.take(i as int), root@);
            push_named(out, full, config);
            assert(named_views(out@) =~= start + so_far.push((full@, config@)));
        }
        i = i + 1;
    }
    assert(g.hooks@.take(i as int) =~= g.hooks@);
}

fn push_event(out: &mut Vec<(String, HookConfig)>, name: &str, event: HookEvent, groups: &Vec<CCHookGroup>, root: &str)
    ensures
        named_views(final(out)@) == named_views(old(out)@) + event_hooks(name@, event, groups@, root@),
{
    let ghost start = named_views(out@);
    let mut i: usize = 0;
    assert(groups@.take(0) =~= Seq::<CCHookGroup>::empty());
    assert(start + Seq::<NamedView>::empty() =~= start);
    while i < groups.len()
        invariant
            i <= groups.len(),
            named_views(out@) == start + event_hooks(name@, event, groups@.take(i as int), root@),
        decreases groups.len() - i,
    {
        let ghost before = event_hooks(name@, event, groups@.take(i as int), root@);
        let ghost more = group_hooks(name@, event, i as nat, opt(groups@[i as int].matcher), groups@[i as int].hooks@, root@);
        assert(groups@.take(i + 1).drop_last() =~= groups@.take(i as int));
        push_group(out, name, event, i, &groups[i], root);
        assert(start + before + more =~= start + (before + more));
        i = i + 1;
    }
    assert(groups@.take(i as int) =~= groups@);
}

/// The commands that a plugin's manifest declares. Where the plugin lives is kept
/// beside each command; the command itself is left as it is.
pub fn cc_hooks_to_atomcode(cc: &Vec<(String, Vec<CCHookGroup>)>, plugin_root: &str) -> (r: Vec<(String, HookConfig)>)
    ensures
        named_views(r@) == manifest_hooks(cc@, plugin_root@),
{
    let mut out: Vec<(String, HookConfig)> = Vec::new();
    let mut i: usize = 0;
    assert(cc@.take(0) =~= Seq::<(String, Vec<CCHookGroup>)>::empty());
    assert(named_views(out@) =~= manifest_hooks(cc@.take(0), plugin_root@));
    while i < cc.len()
        invariant
            i <= cc.len(),
            named_views(out@) == manifest_hooks(cc@.take(i as int), plugin_root@),
        decreases cc.len() - i,
    {
        assert(cc@.take(i + 1).drop_last() =~= cc@.take(i as int));
        if let Some(event) = cc_event_name_to_event(cc[i].0.as_str()) {
            push_event(&mut out, cc[i].0.as_str(), event, &cc[i].1, plugin_root);
        }
        i = i + 1;
    }
    assert(cc@.take(i as int) =~= cc@);
    out
}

/// The hooks of a plugin: those of its manifest, or else those of its own file.
#[derive(Debug)]
pub struct PluginHooks {
    pub plugin: String,
    pub plugin_dir: String,
    pub manifest: Option<Vec<(String, Vec<CCHookGroup>)>>,
    pub file: Vec<(String, HookEntry)>,
}

// ---- All together ----

/// The hooks by name, with those of a manifest; a later one of the same name wins.
/// The names get a prefix.
pub open spec fn put_all(m: Map<Seq<char>, HookConfigView>, prefix: Seq<char>, hooks: Seq<NamedView>) -> Map<
    Seq<char>,
    HookConfigView,
>
    decreases hooks.len(),
{
    if hooks.len() == 0 {
        m
    } else {
        put_all(m, prefix, hooks.drop_last()).insert(prefix + hooks.last().0, hooks.last().1)
    }
}

/// The hooks by name, with an entry of a file: it takes the place of whatever has its
/// name, and where it is switched off, nothing is left under that name. An entry that
/// names no event and is not switched off counts for nothing.
pub open spec fn put_entry(m: Map<Seq<char>, HookConfigView>, name: Seq<char>, e: HookEntry) -> Map<
    Seq<char>,
    HookConfigView,
> {
    if e.disabled {
        m.remove(name)
    } else {
        match entry_config(e) {
            Some(c) => m.insert(name, c),
            None => m,
        }
    }
}

/// The hooks by name, with the entries of a file. The names get a prefix.
pub open spec fn put_file(
    m: Map<Seq<char>, HookConfigView>,
    prefix: Seq<char>,
    entries: Seq<(String, HookEntry)>,
) -> Map<Seq<char>, HookConfigView>
    decreases entries.len(),
{
    if entries.len() == 0 {
        m
    } else {
        put_entry(put_file(m, prefix, entries.drop_last()), prefix + entries.last().0@, entries.last().1)
    }
}

/// The hooks by name, with those of a plugin: those of its manifest, or else those of
/// its own file.
pub open spec fn put_plugin(m: Map<Seq<char>, HookConfigView>, p: PluginHooks) -> Map<Seq<char>, HookConfigView> {
    match p.manifest {
        Some(cc) => put_all(m, p.plugin@ + ":"@, manifest_hooks(cc@, p.plugin_dir@)),
        None => put_file(m, p.plugin@ + ":"@, p.file@),
    }
}

/// The hooks by name, with those of plugins, each under the name of its plugin.
pub open spec fn put_plugins(m: Map<Seq<char>, HookConfigView>, plugins: Seq<PluginHooks>) -> Map<
    Seq<char>,
    HookConfigView,
>
    decreases plugins.len(),
{
    if plugins.len() == 0 {
        m
    } else {
        put_plugin(put_plugins(m, plugins.drop_last()), plugins.last())
    }
}

/// The hooks by name: the user's, then those of plugins, then the project's.
pub open spec fn merged(
    global: Seq<(String, HookEntry)>,
    plugins: Seq<PluginHooks>,
    project: Seq<(String, HookEntry)>,
) -> Map<Seq<char>, HookConfigView> {
    put_file(put_plugins(put_file(Map::empty(), Seq::empty(), global), plugins), Seq::empty(), project)
}

pub open spec fn hook_map(m: Map<Seq<char>, HookConfig>) -> Map<Seq<char>, HookConfigView> {
    m.map_values(|c: HookConfig| c@)
}

fn insert_all(m: &mut TextMap<HookConfig>, prefix: &str, hooks: &Vec<(String, HookConfig)>)
    requires
        old(m).wf(),
    ensures
        final(m).wf(),
        hook_map(final(m)@) == put_all(hook_map(old(m)@), prefix@, named_views(hooks@)),
{
    let ghost start = hook_map(m@);
    let ghost views = named_views(hooks@);
    let mut i: usize = 0;
    assert(views.take(0) =~= Seq::<NamedView>::empty());
    while i < hooks.len()
        invariant
            i <= hooks.len(),
            m.wf(),
            views == named_views(hooks@),
            hook_map(m@) == put_all(start, prefix@, views.take(i as int)),
        decreases hooks.len() - i,
    {
        assert(views.take(i + 1).drop_last() =~= views.take(i as int));
        assert(views.take(i + 1).last() == (hooks@[i as int].0@, hooks@[i as int].1@));
        let ghost was = m@;
        let mut name: String = prefix.to_owned();
        name.append(hooks[i].0.as_str());
        let config = hooks[i].1.clone();
        m.insert(name, config);
        assert(hook_map(m@) =~= hook_map(was).insert(name@, config@));
        i = i + 1;
    }
    assert(views.take(i as int) =~= views);
}

fn insert_file(m: &mut TextMap<HookConfig>, prefix: &str, entries: &Vec<(String, HookEntry)>)
    requires
        old(m).wf(),
    ensures
        final(m).wf(),
        hook_map(final(m)@) == put_file(hook_map(old(m)@), prefix@, entries@),
{
    let ghost start = hook_map(m@);
    let mut i: usize = 0;
    assert(entries@.take(0) =~= Seq::<(String, HookEntry)>::empty());
    while i < entries.len()
        invariant
            i <= entries.len(),
            m.wf(),
            hook_map(m@) == put_file(start, prefix@, entries@.take(i as int)),
        decreases entries.len() - i,
    {
        assert(entries@.take(i + 1).drop_last() =~= entries@.take(i as int));
        let ghost was = m@;
        let mut name: String = prefix.to_owned();
        name.append(entries[i].0.as_str());
        let entry = &entries[i].1;
        if entry.disabled {
            let _hidden = m.remove(name.as_str());
            assert(hook_map(m@) =~= hook_map(was).remove(name@));
        } else if let Some(config) = read_entry(entry) {
            m.insert(name, config);
            assert(hook_map(m@) =~= hook_map(was).insert(name@, config@));
        }
        i = i + 1;
    }
    assert(entries@.take(i as int) =~= entries@);
}

/// All configured commands that are switched on, in the order of their names. The
/// project's win over the user's of the same name, also where they are switched off.
pub fn load_hooks_config(
    global: &Vec<(String, HookEntry)>,
    plugins: &Vec<PluginHooks>,
    project: &Vec<(String, HookEntry)>,
) -> (r: Vec<HookConfig>)
    ensures
        in_key_order(r@.map_values(|c: HookConfig| c@), merged(global@, plugins@, project@)),
{
    let mut all: TextMap<HookConfig> = TextMap::new();
    proof {
        reveal_strlit("");
        assert(""@ =~= Seq::<char>::empty());
        assert(hook_map(all@) =~= Map::<Seq<char>, HookConfigView>::empty());
    }
    insert_file(&mut all, "", global);
    let ghost start = hook_map(all@);
    let mut i: usize = 0;
    assert(plugins@.take(0) =~= Seq::<PluginHooks>::empty());
    while i < plugins.len()
        invariant
            i <= plugins.len(),
            all.wf(),
            hook_map(all@) == put_plugins(start, plugins@.take(i as int)),
        decreases plugins.len() - i,
    {
        let p = &plugins[i];
        assert(plugins@.take(i + 1).drop_last() =~= plugins@.take(i as int));
        let mut prefix: String = p.plugin.clone();
        prefix.append(":");
        match &p.manifest {
            Some(cc) => {
                let hooks = cc_hooks_to_atomcode(cc, p.plugin_dir.as_str());
                insert_all(&mut all, prefix.as_str(), &hooks);
            },
            None => {
                insert_file(&mut all, prefix.as_str(), &p.file);
            },
        }
        i = i + 1;
    }
    assert(plugins@.take(i as int) =~= plugins@);
    insert_file(&mut all, "", project);
    let keys = sorted_keys(&all);
    let ghost order = borrowed(keys@);
    let mut out: Vec<HookConfig> = Vec::new();
    let mut k: usize = 0;
    while k < keys.len()
        invariant
            k <= keys.len(),
            all.wf(),
            order == borrowed(keys@),
            forall|t: Seq<char>| #[trigger] order.contains(t) <==> all@.contains_key(t),
            out@.len() == k,
            forall|j: int| 0 <= j < k ==> #[trigger] out@[j]@ == hook_map(all@)[order[j]],
        decreases keys.len() - k,
    {
        assert(order[k as int] == keys@[k as int]@);
        assert(order.contains(order[k as int]));
        if let Some(c) = all.get(keys[k]) {
            out.push(c.clone());
        }
        k = k + 1;
    }
    let ghost list = out@.map_values(|c: HookConfig| c@);
    assert(ascending(order) && order.len() == list.len());
    assert forall|j: int| 0 <= j < list.len() implies #[trigger] list[j] == hook_map(all@)[order[j]] by {
        assert(out@[j]@ == hook_map(all@)[order[j]]);
    }
    assert forall|t: Seq<char>| #[trigger] order.contains(t) <==> hook_map(all@).contains_key(t) by {}
    assert(in_key_order(list, hook_map(all@)));
    out
}

proof fn lemma_put_file_last(m: Map<Seq<char>, HookConfigView>, entries: Seq<(String, HookEntry)>, i: int)
    requires
        0 <= i < entries.len(),
        forall|j: int| i < j < entries.len() ==> (#[trigger] entries[j]).0@ != entries[i].0@,
    ensures
        entries[i].1.disabled ==> !put_file(m, Seq::empty(), entries).contains_key(entries[i].0@),
        !entries[i].1.disabled && entry_config(entries[i].1) is Some ==> put_file(
            m,
            Seq::empty(),
            entries,
        ).contains_key(entries[i].0@) && put_file(m, Seq::empty(), entries)[entries[i].0@] == entry_config(
            entries[i].1,
        )->0,
    decreases entries.len(),
{
    assert(Seq::<char>::empty() + entries.last().0@ =~= entries.last().0@);
    if i < entries.len() - 1 {
        assert(entries[entries.len() - 1].0@ != entries[i].0@);
        assert(entries.drop_last()[i] == entries[i]);
        assert forall|j: int| i < j < entries.drop_last().len() implies (#[trigger] entries.drop_last()[j]).0@
            != entries.drop_last()[i].0@ by {
            assert(entries.drop_last()[j] == entries[j]);
        }
        lemma_put_file_last(m, entries.drop_last(), i);
    }
}

proof fn lemma_put_file_rest(m: Map<Seq<char>, HookConfigView>, entries: Seq<(String, HookEntry)>, name: Seq<char>)
    requires
        forall|i: int| 0 <= i < entries.len() ==> (#[trigger] entries[i]).0@ != name,
    ensures
        put_file(m, Seq::empty(), entries).contains_key(name) <==> m.contains_key(name),
        m.contains_key(name) ==> put_file(m, Seq::empty(), entries)[name] == m[name],
    decreases entries.len(),
{
    if entries.len() > 0 {
        assert(Seq::<char>::empty() + entries.last().0@ =~= entries.last().0@);
        assert(entries[entries.len() - 1].0@ != name);
        assert forall|i: int| 0 <= i < entries.drop_last().len() implies (#[trigger] entries.drop_last()[i]).0@
            != name by {
            assert(entries.drop_last()[i] == entries[i]);
        }
        lemma_put_file_rest(m, entries.drop_last(), name);
    }
}

/// The project's entry of a name is the one that counts, whatever the user or a
/// plugin has under that name: its command is called, or, where it is switched off,
/// none is.
pub proof fn the_project_wins(
    global: Seq<(String, HookEntry)>,
    plugins: Seq<PluginHooks>,
    project: Seq<(String, HookEntry)>,
    i: int,
)
    requires
        0 <= i < project.len(),
        forall|j: int| i < j < project.len() ==> (#[trigger] project[j]).0@ != project[i].0@,
    ensures
        project[i].1.disabled ==> !merged(global, plugins, project).contains_key(project[i].0@),
        !project[i].1.disabled && entry_config(project[i].1) is Some ==> merged(
            global,
            plugins,
            project,
        ).contains_key(project[i].0@) && merged(global, plugins, project)[project[i].0@] == entry_config(
            project[i].1,
        )->0,
{
    lemma_put_file_last(put_plugins(put_file(Map::empty(), Seq::empty(), global), plugins), project, i);
}

/// A hook that the project has no entry of the same name for is kept.
pub proof fn the_project_hides_only_its_names(
    global: Seq<(String, HookEntry)>,
    plugins: Seq<PluginHooks>,
    project: Seq<(String, HookEntry)>,
    name: Seq<char>,
)
    requires
        forall|i: int| 0 <= i < project.len() ==> (#[trigger] project[i]).0@ != name,
    ensures
        merged(global, plugins, project).contains_key(name) <==> merged(
            global,
            plugins,
            Seq::empty(),
        ).contains_key(name),
        merged(global, plugins, Seq::empty()).contains_key(name) ==> merged(global, plugins, project)[name] == merged(
            global,
            plugins,
            Seq::empty(),
        )[name],
{
    let base = put_plugins(put_file(Map::empty(), Seq::empty(), global), plugins);
    assert(merged(global, plugins, Seq::empty()) == base);
    lemma_put_file_rest(base, project, name);
}

/// A command that is switched off counts for nothing: what is loaded is what the
/// others give.
pub proof fn disabled_commands_are_not_loaded(entries: Seq<(String, HookEntry)>)
    ensures
        loaded(entries) == loaded(entries.filter(|e: (String, HookEntry)| !e.1.disabled)),
    decreases entries.len(),
{
    let on = |e: (String, HookEntry)| !e.1.disabled;
    reveal(Seq::filter);
    if entries.len() > 0 {
        disabled_commands_are_not_loaded(entries.drop_last());
        let rest = entries.drop_last().filter(on);
        if on(entries.last()) {
            assert(rest.push(entries.last()).drop_last() =~= rest);
        }
    }
}

/// Events go by their names in snake case and in camel case alike.
pub proof fn events_go_by_two_names()
    ensures
        event_of("pre_tool_use"@) == Some(HookEvent::PreToolUse) && event_of("PreToolUse"@) == Some(HookEvent::PreToolUse),
        event_of("post_tool_use"@) == Some(HookEvent::PostToolUse) && event_of("PostToolUse"@) == Some(
            HookEvent::PostToolUse,
        ),
        event_of("session_start"@) == Some(HookEvent::SessionStart) && event_of("SessionStart"@) == Some(
            HookEvent::SessionStart,
        ),
        event_of("session_end"@) == Some(HookEvent::SessionEnd) && event_of("SessionEnd"@) == Some(
            HookEvent::SessionEnd,
        ),
        event_of("notification"@) == Some(HookEvent::Notification) && event_of("Notification"@) == Some(
            HookEvent::Notification,
        ),
        event_of("user_prompt_submit"@) == Some(HookEvent::UserPromptSubmit) && event_of("UserPromptSubmit"@) == Some(
            HookEvent::UserPromptSubmit,
        ),
        event_of(Seq::empty()) is None,
        forall|e: HookEvent| event_of(#[trigger] event_name(e)) == Some(e),
{
    reveal_strlit("pre_tool_use");
    reveal_strlit("post_tool_use");
    reveal_strlit("session_start");
    reveal_strlit("session_end");
    reveal_strlit("notification");
    reveal_strlit("user_prompt_submit");
    reveal_strlit("PreToolUse");
    reveal_strlit("PostToolUse");
    reveal_strlit("SessionStart");
    reveal_strlit("SessionEnd");
    reveal_strlit("Notification");
    reveal_strlit("UserPromptSubmit");
    assert("pre_tool_use"@.len() == 12 && "post_tool_use"@.len() == 13 && "session_start"@.len() == 13
        && "session_end"@.len() == 11 && "notification"@.len() == 12 && "user_prompt_submit"@.len() == 18);
    assert("PreToolUse"@.len() == 10 && "PostToolUse"@.len() == 11 && "SessionStart"@.len() == 12 && "SessionEnd"@.len()
        == 10 && "Notification"@.len() == 12 && "UserPromptSubmit"@.len() == 16);
    assert("pre_tool_use"@[0] == 'p' && "notification"@[0] == 'n' && "post_tool_use"@[0] == 'p' && "session_start"@[0]
        == 's' && "session_end"@[0] == 's');
    assert("PreToolUse"@[0] == 'P' && "PostToolUse"@[0] == 'P' && "SessionStart"@[0] == 'S' && "SessionEnd"@[0] == 'S'
        && "Notification"@[0] == 'N');
}

/// An entry that names an event is a command at that event, with its pattern, its command
/// line and its time; one that names none counts for nothing.
pub proof fn entries_are_commands(e: HookEntry)
    ensures
        event_of(e.event@) is None ==> entry_config(e) is None,
        event_of(e.event@) is Some ==> {
            let c = entry_config(e)->0;
            &&& entry_config(e) is Some
            &&& c.event == event_of(e.event@)->0
            &&& c.command == e.command@
            &&& c.matcher == opt(e.matcher)
            &&& c.timeout_ms == e.timeout_ms
            &&& c.plugin_root is None
        },
{
}

/// A plugin's time is in seconds, ten where it gives none.
pub proof fn plugin_times_are_seconds(s: u64)
    ensures
        s <= 1_000_000 ==> plugin_timeout(Some(s)) == 1000 * s,
        plugin_timeout(None) == 10_000,
{
}

/// Every command of a plugin's group is a hook of its event, with the pattern of the
/// group, and knows where its plugin lives; what is no command is none.
pub proof fn plugin_commands_are_hooks(
    name: Seq<char>,
    event: HookEvent,
    group: nat,
    matcher: Option<Seq<char>>,
    specs: Seq<CCHookSpec>,
    root: Seq<char>,
    i: int,
)
    requires
        0 <= i < specs.len(),
        specs[i].kind@ == "command"@,
    ensures
        group_hooks(name, event, group, matcher, specs, root).contains(
            (
                name + "-"@ + decimal(group) + "-"@ + decimal(i as nat),
                HookConfigView {
                    event,
                    matcher,
                    command: specs[i].command@,
                    timeout_ms: plugin_timeout(specs[i].timeout),
                    plugin_root: Some(root),
                },
            ),
        ),
    decreases specs.len(),
{
    let t = specs.drop_last();
    let now = group_hooks(name, event, group, matcher, specs, root);
    let before = group_hooks(name, event, group, matcher, t, root);
    if i < specs.len() - 1 {
        assert(t[i] == specs[i]);
        plugin_commands_are_hooks(name, event, group, matcher, t, root, i);
        let x = (
            name + "-"@ + decimal(group) + "-"@ + decimal(i as nat),
            HookConfigView {
                event,
                matcher,
                command: specs[i].command@,
                timeout_ms: plugin_timeout(specs[i].timeout),
                plugin_root: Some(root),
            },
        );
        let k = choose|k: int| 0 <= k < before.len() && before[k] == x;
        assert(now[k] == x);
    } else {
        assert(now[now.len() - 1] == now.last());
    }
}

/// What is no command makes no hook.
pub proof fn only_commands_are_hooks(
    name: Seq<char>,
    event: HookEvent,
    group: nat,
    matcher: Option<Seq<char>>,
    specs: Seq<CCHookSpec>,
    root: Seq<char>,
)
    requires
        forall|i: int| 0 <= i < specs.len() ==> (#[trigger] specs[i]).kind@ != "command"@,
    ensures
        group_hooks(name, event, group, matcher, specs, root).len() == 0,
    decreases specs.len(),
{
    if specs.len() > 0 {
        let t = specs.drop_last();
        assert forall|i: int| 0 <= i < t.len() implies (#[trigger] t[i]).kind@ != "command"@ by {
            assert(t[i] == specs[i]);
        }
        only_commands_are_hooks(name, event, group, matcher, t, root);
        assert(specs[specs.len() - 1].kind@ != "command"@);
    }
}

/// The user's hooks are called where nothing else has their name: a plugin's go by the
/// plugin's name, a colon and their own.
pub proof fn plugin_hooks_go_by_their_plugin(m: Map<Seq<char>, HookConfigView>, p: PluginHooks, name: Seq<char>)
    requires
        !starts_with(name, p.plugin@ + ":"@),
    ensures
        put_plugin(m, p).contains_key(name) <==> m.contains_key(name),
        m.contains_key(name) ==> put_plugin(m, p)[name] == m[name],
{
    let prefix = p.plugin@ + ":"@;
    match p.manifest {
        Some(cc) => {
            lemma_put_all_prefix(m, prefix, manifest_hooks(cc@, p.plugin_dir@), name);
        },
        None => {
            lemma_put_file_prefix(m, prefix, p.file@, name);
        },
    }
}

proof fn lemma_put_all_prefix(m: Map<Seq<char>, HookConfigView>, prefix: Seq<char>, hooks: Seq<NamedView>, name: Seq<char>)
    requires
        !starts_with(name, prefix),
    ensures
        put_all(m, prefix, hooks).contains_key(name) <==> m.contains_key(name),
        m.contains_key(name) ==> put_all(m, prefix, hooks)[name] == m[name],
    decreases hooks.len(),
{
    if hooks.len() > 0 {
        lemma_put_all_prefix(m, prefix, hooks.drop_last(), name);
        let key = prefix + hooks.last().0;
        assert(key.subrange(0, prefix.len() as int) =~= prefix);
    }
}

proof fn lemma_put_file_prefix(
    m: Map<Seq<char>, HookConfigView>,
    prefix: Seq<char>,
    entries: Seq<(String, HookEntry)>,
    name: Seq<char>,
)
    requires
        !starts_with(name, prefix),
    ensures
        put_file(m, prefix, entries).contains_key(name) <==> m.contains_key(name),
        m.contains_key(name) ==> put_file(m, prefix, entries)[name] == m[name],
    decreases entries.len(),
{
    if entries.len() > 0 {
        lemma_put_file_prefix(m, prefix, entries.drop_last(), name);
        let key = prefix + entries.last().0@;
        assert(key.subrange(0, prefix.len() as int) =~= prefix);
    }
}

/// A hook of a plugin's manifest is called under the plugin's name, unless a later one
/// has the same.
pub proof fn manifest_hooks_are_called(m: Map<Seq<char>, HookConfigView>, prefix: Seq<char>, hooks: Seq<NamedView>, i: int)
    requires
        0 <= i < hooks.len(),
        forall|j: int| i < j < hooks.len() ==> (#[trigger] hooks[j]).0 != hooks[i].0,
    ensures
        put_all(m, prefix, hooks).contains_key(prefix + hooks[i].0),
        put_all(m, prefix, hooks)[prefix + hooks[i].0] == hooks[i].1,
    decreases hooks.len(),
{
    if i < hooks.len() - 1 {
        let t = hooks.drop_last();
        assert(t[i] == hooks[i]);
        assert forall|j: int| i < j < t.len() implies (#[trigger] t[j]).0 != t[i].0 by {
            assert(t[j] == hooks[j]);
        }
        manifest_hooks_are_called(m, prefix, t, i);
        assert(hooks[hooks.len() - 1].0 != hooks[i].0);
        let a = prefix + hooks[i].0;
        let b = prefix + hooks.last().0;
        if a == b {
            assert(a.skip(prefix.len() as int) =~= hooks[i].0);
            assert(b.skip(prefix.len() as int) =~= hooks.last().0);
        }
    }
}

/// A hook of the user is called where neither a plugin nor the project says otherwise.
pub proof fn the_users_hooks_are_called(global: Seq<(String, HookEntry)>, i: int)
    requires
        0 <= i < global.len(),
        forall|j: int| i < j < global.len() ==> (#[trigger] global[j]).0@ != global[i].0@,
    ensures
        global[i].1.disabled ==> !merged(global, Seq::empty(), Seq::empty()).contains_key(global[i].0@),
        !global[i].1.disabled && entry_config(global[i].1) is Some ==> merged(
            global,
            Seq::empty(),
            Seq::empty(),
        ).contains_key(global[i].0@) && merged(global, Seq::empty(), Seq::empty())[global[i].0@] == entry_config(
            global[i].1,
        )->0,
{
    lemma_put_file_last(Map::empty(), global, i);
    let m = put_file(Map::empty(), Seq::empty(), global);
    assert(put_plugins(m, Seq::empty()) == m);
    assert(put_file(m, Seq::empty(), Seq::empty()) == m);
}

} // verus!
