//! Scripts and web services as hooks.

use vstd::prelude::*;
use vstd::string::*;

use crate::hook::engine::{
    lemma_registered, lemma_registered_at, registered, registered_at, with_script_dirs, with_webhook_dirs, HookDir,
    HookEngine, HookView, RegisteredHook, Slot,
};
use crate::hook::webhook::{names_point, trigger_names, WebhookConfig, WebhookConfigView, WebhookHook, WebhookPoint, WebhookView};
use crate::paths::{join_path, joined};
use crate::text::{list_has, lowercase, same, texts};

verus! {

/// A script that is called at a point.
#[derive(Debug)]
pub struct ScriptHookConfig {
    pub name: String,
    pub trigger: String,
    pub script: String,
    pub script_type: String,
    pub enabled: bool,
    pub timeout_secs: u64,
    pub description: String,
}

#[verifier::ext_equal]
pub struct ScriptView {
    pub name: Seq<char>,
    pub trigger: Seq<char>,
    pub script: Seq<char>,
    pub script_type: Seq<char>,
    pub enabled: bool,
    pub timeout_secs: u64,
    pub description: Seq<char>,
}

impl View for ScriptHookConfig {
    type V = ScriptView;

    open spec fn view(&self) -> ScriptView {
        ScriptView {
            name: self.name@,
            trigger: self.trigger@,
            script: self.script@,
            script_type: self.script_type@,
            enabled: self.enabled,
            timeout_secs: self.timeout_secs,
            description: self.description@,
        }
    }
}

/// A web service whose calls are queued and sent together.
#[derive(Debug)]
pub struct AsyncWebhookConfig {
    pub name: String,
    pub enabled: bool,
    pub batch_size: usize,
}

/// The hooks of a configuration.
#[derive(Debug)]
pub struct HooksConfig {
    pub hooks: Vec<ScriptHookConfig>,
    pub webhooks: Vec<WebhookConfig>,
    pub async_webhooks: Vec<AsyncWebhookConfig>,
}

pub open spec fn script_views(v: Seq<ScriptHookConfig>) -> Seq<ScriptView> {
    v.map_values(|c: ScriptHookConfig| c@)
}

pub open spec fn webhook_views(v: Seq<WebhookConfig>) -> Seq<WebhookConfigView> {
    v.map_values(|c: WebhookConfig| c@)
}

/// The point that the trigger of a script names.
pub open spec fn script_slot(trigger: Seq<char>) -> Option<Slot> {
    if trigger == "pre_tool"@ || trigger == "pre_tool_execution"@ {
        Some(Slot::PreTool)
    } else if trigger == "post_tool"@ || trigger == "post_tool_execution"@ {
        Some(Slot::PostTool)
    } else if trigger == "post_turn"@ {
        Some(Slot::PostTurn)
    } else if trigger == "system_prompt"@ {
        Some(Slot::SystemPrompt)
    } else {
        None
    }
}

/// The point that the trigger of a script names.
pub fn script_point(trigger: &str) -> (r: Option<Slot>)
    ensures
        r == script_slot(trigger@),
{
    if same(trigger, "pre_tool") || same(trigger, "pre_tool_execution") {
        Some(Slot::PreTool)
    } else if same(trigger, "post_tool") || same(trigger, "post_tool_execution") {
        Some(Slot::PostTool)
    } else if same(trigger, "post_turn") {
        Some(Slot::PostTurn)
    } else if same(trigger, "system_prompt") {
        Some(Slot::SystemPrompt)
    } else {
        None
    }
}

/// The hooks of all points with scripts added: those that are switched on, whose
/// file is there, and whose trigger names a point.
pub open spec fn with_scripts(
    e: Map<Slot, Seq<HookView>>,
    scripts: Seq<ScriptView>,
    base_dir: Seq<char>,
    present: Seq<Seq<char>>,
) -> Map<Slot, Seq<HookView>>
    decreases scripts.len(),
{
    if scripts.len() == 0 {
        e
    } else {
        let before = with_scripts(e, scripts.drop_last(), base_dir, present);
        let last = scripts.last();
        let path = joined(base_dir, last.script);
        match script_slot(last.trigger) {
            Some(s) => if last.enabled && present.contains(path) {
                registered(before, s, HookView::Script(ScriptView { script: path, ..last }))
            } else {
                before
            },
            None => before,
        }
    }
}

/// The points that a trigger in lower case names, in the order in which a web
/// service is added to them.
pub open spec fn webhook_slots(t: Seq<char>) -> Seq<Slot> {
    one_if(trigger_names(t, WebhookPoint::PreTool), Slot::PreTool) + one_if(
        trigger_names(t, WebhookPoint::PostTool),
        Slot::PostTool,
    ) + one_if(trigger_names(t, WebhookPoint::PostTurn), Slot::PostTurn) + one_if(
        trigger_names(t, WebhookPoint::SystemPrompt),
        Slot::SystemPrompt,
    ) + one_if(trigger_names(t, WebhookPoint::SessionStart), Slot::SessionStart) + one_if(
        trigger_names(t, WebhookPoint::SessionEnd),
        Slot::SessionEnd,
    ) + one_if(trigger_names(t, WebhookPoint::Error), Slot::Error) + one_if(
        trigger_names(t, WebhookPoint::TurnStart),
        Slot::TurnStart,
    ) + one_if(trigger_names(t, WebhookPoint::TurnComplete), Slot::TurnComplete) + one_if(
        trigger_names(t, WebhookPoint::ToolCallStart),
        Slot::ToolCallStart,
    ) + one_if(trigger_names(t, WebhookPoint::ModelResponse), Slot::ModelResponse)
}

pub open spec fn one_if(b: bool, s: Slot) -> Seq<Slot> {
    if b {
        seq![s]
    } else {
        Seq::empty()
    }
}

fn push_if(out: &mut Vec<Slot>, b: bool, s: Slot)
    ensures
        final(out)@ == old(out)@ + one_if(b, s),
{
    let ghost was = out@;
    if b {
        out.push(s);
    }
    assert(out@ =~= was + one_if(b, s));
}

/// The points that a trigger in lower case names.
pub fn webhook_points(t: &str) -> (r: Vec<Slot>)
    ensures
        r@ == webhook_slots(t@),
{
    let mut out: Vec<Slot> = Vec::new();
    push_if(&mut out, names_point(t, WebhookPoint::PreTool), Slot::PreTool);
    push_if(&mut out, names_point(t, WebhookPoint::PostTool), Slot::PostTool);
    push_if(&mut out, names_point(t, WebhookPoint::PostTurn), Slot::PostTurn);
    push_if(&mut out, names_point(t, WebhookPoint::SystemPrompt), Slot::SystemPrompt);
    push_if(&mut out, names_point(t, WebhookPoint::SessionStart), Slot::SessionStart);
    push_if(&mut out, names_point(t, WebhookPoint::SessionEnd), Slot::SessionEnd);
    push_if(&mut out, names_point(t, WebhookPoint::Error), Slot::Error);
    push_if(&mut out, names_point(t, WebhookPoint::TurnStart), Slot::TurnStart);
    push_if(&mut out, names_point(t, WebhookPoint::TurnComplete), Slot::TurnComplete);
    push_if(&mut out, names_point(t, WebhookPoint::ToolCallStart), Slot::ToolCallStart);
    push_if(&mut out, names_point(t, WebhookPoint::ModelResponse), Slot::ModelResponse);
    assert(out@ =~= webhook_slots(t@));
    out
}

/// Whether the calls of a web service of this name are queued.
pub open spec fn is_batched(queues: Seq<AsyncWebhookConfig>, name: Seq<char>) -> bool {
    exists|i: int| 0 <= i < queues.len() && (#[trigger] queues[i]).enabled && queues[i].name@ == name
}

/// The hooks of all points with web services added at the points that their
/// triggers name.
pub open spec fn with_webhooks(
    e: Map<Slot, Seq<HookView>>,
    webhooks: Seq<WebhookConfigView>,
    queues: Seq<AsyncWebhookConfig>,
) -> Map<Slot, Seq<HookView>>
    decreases webhooks.len(),
{
    if webhooks.len() == 0 {
        e
    } else {
        let before = with_webhooks(e, webhooks.drop_last(), queues);
        let last = webhooks.last();
        if last.enabled {
            registered_at(
                before,
                webhook_slots(lowercase(last.trigger)),
                HookView::Webhook(WebhookView { config: last, batched: is_batched(queues, last.name) }),
            )
        } else {
            before
        }
    }
}

impl HookEngine {
    /// Adds a hook at a point.
    pub fn register(&mut self, slot: Slot, hook: RegisteredHook)
        ensures
            final(self)@ == registered(old(self)@, slot, hook@),
    {
        match slot {
            Slot::PreTool => self.register_pre_tool_hook(hook),
            Slot::PostTool => self.register_post_tool_hook(hook),
            Slot::PostTurn => self.register_post_turn_hook(hook),
            Slot::SystemPrompt => self.register_system_prompt_hook(hook),
            Slot::SessionStart => self.register_on_session_start_hook(hook),
            Slot::SessionEnd => self.register_on_session_end_hook(hook),
            Slot::Error => self.register_on_error_hook(hook),
            Slot::UserPromptSubmit => self.register_on_user_prompt_submit_hook(hook),
            Slot::TurnStart => self.register_on_turn_start_hook(hook),
            Slot::TurnComplete => self.register_on_turn_complete_hook(hook),
            Slot::ToolCallStart => self.register_on_tool_call_start_hook(hook),
            Slot::ModelResponse => self.register_on_model_response_hook(hook),
        }
    }
}

fn script_at(config: &ScriptHookConfig, path: String) -> (r: ScriptHookConfig)
    ensures
        r@ == (ScriptView { script: path@, ..config@ }),
{
    ScriptHookConfig {
        name: config.name.clone(),
        trigger: config.trigger.clone(),
        script: path,
        script_type: config.script_type.clone(),
        enabled: config.enabled,
        timeout_secs: config.timeout_secs,
        description: config.description.clone(),
    }
}

/// The files whose presence a configuration depends on.
pub open spec fn wanted_scripts(scripts: Seq<ScriptView>, base_dir: Seq<char>) -> Seq<Seq<char>>
    decreases scripts.len(),
{
    if scripts.len() == 0 {
        Seq::empty()
    } else if scripts.last().enabled {
        wanted_scripts(scripts.drop_last(), base_dir).push(joined(base_dir, scripts.last().script))
    } else {
        wanted_scripts(scripts.drop_last(), base_dir)
    }
}

impl HooksConfig {
    pub open spec fn wf(&self) -> bool {
        forall|i: int| 0 <= i < self.webhooks@.len() ==> (#[trigger] self.webhooks@[i]).wf()
    }

    /// A configuration without hooks.
    pub fn empty() -> (r: HooksConfig)
        ensures
            r.wf(),
            r.hooks@.len() == 0,
            r.webhooks@.len() == 0,
            r.async_webhooks@.len() == 0,
    {
        HooksConfig { hooks: Vec::new(), webhooks: Vec::new(), async_webhooks: Vec::new() }
    }

    /// The files of the scripts that are switched on.
    pub fn script_paths(&self, base_dir: &str) -> (r: Vec<String>)
        ensures
            texts(r@) == wanted_scripts(script_views(self.hooks@), base_dir@),
    {
        let ghost views = script_views(self.hooks@);
        let mut out: Vec<String> = Vec::new();
        let mut i: usize = 0;
        assert(views.take(0) =~= Seq::<ScriptView>::empty());
        assert(texts(out@) =~= wanted_scripts(views.take(0), base_dir@));
        while i < self.hooks.len()
            invariant
                i <= self.hooks.len(),
                views == script_views(self.hooks@),
                texts(out@) == wanted_scripts(views.take(i as int), base_dir@),
            decreases self.hooks.len() - i,
        {
            assert(views.take(i + 1).drop_last() =~= views.take(i as int));
            assert(views.take(i + 1).last() == self.hooks@[i as int]@);
            let ghost was = out@;
            if self.hooks[i].enabled {
                let path = join_path(base_dir, self.hooks[i].script.as_str());
                out.push(path);
                assert(texts(out@) =~= texts(was).push(path@));
            }
            i = i + 1;
        }
        assert(views.take(i as int) =~= views);
        out
    }

    /// Adds the scripts. `present` are the files that are there, of those that the
    /// scripts are in.
    pub fn register_hooks_to_engine(&self, engine: &mut HookEngine, base_dir: &str, present: &Vec<String>)
        ensures
            final(engine)@ == with_scripts(
                old(engine)@,
                script_views(self.hooks@),
                base_dir@,
                texts(present@),
            ),
    {
        let ghost start = engine@;
        let ghost views = script_views(self.hooks@);
        let mut i: usize = 0;
        assert(views.take(0) =~= Seq::<ScriptView>::empty());
        while i < self.hooks.len()
            invariant
                i <= self.hooks.len(),
                views == script_views(self.hooks@),
                engine@ == with_scripts(start, views.take(i as int), base_dir@, texts(present@)),
            decreases self.hooks.len() - i,
        {
            let config = &self.hooks[i];
            assert(views.take(i + 1).drop_last() =~= views.take(i as int));
            assert(views.take(i + 1).last() == config@);
            if config.enabled {
                let path = join_path(base_dir, config.script.as_str());
                if list_has(present, path.as_str()) {
                    if let Some(slot) = script_point(config.trigger.as_str()) {
                        engine.register(slot, RegisteredHook::Script(script_at(config, path)));
                    }
                }
            }
            i = i + 1;
        }
        assert(views.take(i as int) =~= views);
    }

    fn batched(&self, name: &str) -> (r: bool)
        ensures
            r == is_batched(self.async_webhooks@, name@),
    {
        let mut i: usize = 0;
        while i < self.async_webhooks.len()
            invariant
                i <= self.async_webhooks.len(),
                forall|k: int|
                    0 <= k < i ==> !((#[trigger] self.async_webhooks@[k]).enabled
                        && self.async_webhooks@[k].name@ == name@),
            decreases self.async_webhooks.len() - i,
        {
            if self.async_webhooks[i].enabled && same(self.async_webhooks[i].name.as_str(), name) {
                return true;
            }
            i = i + 1;
        }
        false
    }

    /// Adds the web services, each at the points that its trigger names.
    pub fn register_webhooks_to_engine(&self, engine: &mut HookEngine)
        requires
            self.wf(),
        ensures
            final(engine)@ == with_webhooks(
                old(engine)@,
                webhook_views(self.webhooks@),
                self.async_webhooks@,
            ),
    {
        let ghost start = engine@;
        let ghost views = webhook_views(self.webhooks@);
        let mut i: usize = 0;
        assert(views.take(0) =~= Seq::<WebhookConfigView>::empty());
        while i < self.webhooks.len()
            invariant
                i <= self.webhooks.len(),
                self.wf(),
                views == webhook_views(self.webhooks@),
                engine@ == with_webhooks(start, views.take(i as int), self.async_webhooks@),
            decreases self.webhooks.len() - i,
        {
            let config = &self.webhooks[i];
            assert(views.take(i + 1).drop_last() =~= views.take(i as int));
            assert(views.take(i + 1).last() == config@);
            assert(self.webhooks@[i as int].wf());
            if config.enabled {
                let hook = if self.batched(config.name.as_str()) {
                    WebhookHook::new_with_async(config.copy())
                } else {
                    WebhookHook::new(config.copy())
                };
                Self::register_webhook_by_trigger(engine, &hook, config.trigger.as_str());
            }
            i = i + 1;
        }
        assert(views.take(i as int) =~= views);
    }

    /// Adds a web service at every point that a trigger names.
    pub fn register_webhook_by_trigger(engine: &mut HookEngine, webhook: &WebhookHook, trigger: &str)
        requires
            webhook.wf(),
        ensures
            final(engine)@ == registered_at(
                old(engine)@,
                webhook_slots(lowercase(trigger@)),
                HookView::Webhook(webhook@),
            ),
    {
        let t = trigger.to_lowercase();
        let slots = webhook_points(t.as_str());
        Self::register_webhook_at(engine, webhook, &slots);
    }

    /// Adds a web service at some points.
    pub fn register_webhook_at(engine: &mut HookEngine, webhook: &WebhookHook, slots: &Vec<Slot>)
        requires
            webhook.wf(),
        ensures
            final(engine)@ == registered_at(old(engine)@, slots@, HookView::Webhook(webhook@)),
    {
        let ghost start = engine@;
        let mut i: usize = 0;
        assert(slots@.take(0) =~= Seq::<Slot>::empty());
        while i < slots.len()
            invariant
                i <= slots.len(),
                webhook.wf(),
                engine@ == registered_at(start, slots@.take(i as int), HookView::Webhook(webhook@)),
            decreases slots.len() - i,
        {
            assert(slots@.take(i + 1).drop_last() =~= slots@.take(i as int));
            engine.register(slots[i], RegisteredHook::Webhook(webhook.copy()));
            i = i + 1;
        }
        assert(slots@.take(i as int) =~= slots@);
    }
}

/// The trigger of a script names the point at which it waits.
pub proof fn scripts_wait_where_they_say()
    ensures
        script_slot("pre_tool"@) == Some(Slot::PreTool),
        script_slot("pre_tool_execution"@) == Some(Slot::PreTool),
        script_slot("post_tool"@) == Some(Slot::PostTool),
        script_slot("post_tool_execution"@) == Some(Slot::PostTool),
        script_slot("post_turn"@) == Some(Slot::PostTurn),
        script_slot("system_prompt"@) == Some(Slot::SystemPrompt),
        script_slot(Seq::empty()) is None,
{
    reveal_strlit("pre_tool");
    reveal_strlit("pre_tool_execution");
    reveal_strlit("post_tool");
    reveal_strlit("post_tool_execution");
    reveal_strlit("post_turn");
    reveal_strlit("system_prompt");
    assert("pre_tool"@.len() == 8 && "pre_tool_execution"@.len() == 18 && "post_tool"@.len() == 9
        && "post_tool_execution"@.len() == 19 && "post_turn"@.len() == 9 && "system_prompt"@.len() == 13);
    assert("post_tool"@[6] == 'o' && "post_turn"@[6] == 'u');
}

/// A script that is switched on, whose file is there and whose trigger names a point
/// waits at that point, and is run where its file is.
pub proof fn present_scripts_wait(
    e: Map<Slot, Seq<HookView>>,
    scripts: Seq<ScriptView>,
    base_dir: Seq<char>,
    present: Seq<Seq<char>>,
    i: int,
)
    requires
        forall|k: Slot| #[trigger] e.contains_key(k),
        0 <= i < scripts.len(),
        scripts[i].enabled,
        present.contains(joined(base_dir, scripts[i].script)),
        script_slot(scripts[i].trigger) is Some,
    ensures
        with_scripts(e, scripts, base_dir, present)[script_slot(scripts[i].trigger)->0].contains(
            HookView::Script(ScriptView { script: joined(base_dir, scripts[i].script), ..scripts[i] }),
        ),
        forall|k: Slot| #[trigger] with_scripts(e, scripts, base_dir, present).contains_key(k),
    decreases scripts.len(),
{
    let t = scripts.drop_last();
    let before = with_scripts(e, t, base_dir, present);
    let last = scripts.last();
    let s = script_slot(scripts[i].trigger)->0;
    let h = HookView::Script(ScriptView { script: joined(base_dir, scripts[i].script), ..scripts[i] });
    let x = HookView::Script(ScriptView { script: joined(base_dir, last.script), ..last });
    lemma_script_slots(e, t, base_dir, present);
    if i < scripts.len() - 1 {
        assert(t[i] == scripts[i]);
        present_scripts_wait(e, t, base_dir, present, i);
    }
    if script_slot(last.trigger) is Some {
        lemma_registered(before, script_slot(last.trigger)->0, x, s, h);
    }
    lemma_script_slots(e, scripts, base_dir, present);
}

proof fn lemma_script_slots(
    e: Map<Slot, Seq<HookView>>,
    scripts: Seq<ScriptView>,
    base_dir: Seq<char>,
    present: Seq<Seq<char>>,
)
    requires
        forall|k: Slot| #[trigger] e.contains_key(k),
    ensures
        forall|k: Slot| #[trigger] with_scripts(e, scripts, base_dir, present).contains_key(k),
    decreases scripts.len(),
{
    if scripts.len() > 0 {
        lemma_script_slots(e, scripts.drop_last(), base_dir, present);
        let before = with_scripts(e, scripts.drop_last(), base_dir, present);
        let last = scripts.last();
        let x = HookView::Script(ScriptView { script: joined(base_dir, last.script), ..last });
        if script_slot(last.trigger) is Some {
            lemma_registered(before, script_slot(last.trigger)->0, x, Slot::PreTool, x);
        }
    }
}

/// Scripts that are switched off, or whose file is not there, wait nowhere: without
/// others nothing changes.
pub proof fn absent_scripts_do_not_wait(
    e: Map<Slot, Seq<HookView>>,
    scripts: Seq<ScriptView>,
    base_dir: Seq<char>,
    present: Seq<Seq<char>>,
)
    requires
        forall|i: int|
            0 <= i < scripts.len() ==> !(#[trigger] scripts[i]).enabled || !present.contains(
                joined(base_dir, scripts[i].script),
            ),
    ensures
        with_scripts(e, scripts, base_dir, present) == e,
    decreases scripts.len(),
{
    if scripts.len() > 0 {
        let t = scripts.drop_last();
        assert forall|i: int| 0 <= i < t.len() implies !(#[trigger] t[i]).enabled || !present.contains(
            joined(base_dir, t[i].script),
        ) by {
            assert(t[i] == scripts[i]);
        }
        absent_scripts_do_not_wait(e, t, base_dir, present);
        assert(scripts[scripts.len() - 1] == scripts.last());
    }
}

/// The points at which a web service waits are those that its trigger names.
pub proof fn webhooks_wait_where_they_are_named(t: Seq<char>)
    ensures
        webhook_slots(t).contains(Slot::PreTool) <==> trigger_names(t, WebhookPoint::PreTool),
        webhook_slots(t).contains(Slot::PostTool) <==> trigger_names(t, WebhookPoint::PostTool),
        webhook_slots(t).contains(Slot::PostTurn) <==> trigger_names(t, WebhookPoint::PostTurn),
        webhook_slots(t).contains(Slot::SystemPrompt) <==> trigger_names(t, WebhookPoint::SystemPrompt),
        webhook_slots(t).contains(Slot::SessionStart) <==> trigger_names(t, WebhookPoint::SessionStart),
        webhook_slots(t).contains(Slot::SessionEnd) <==> trigger_names(t, WebhookPoint::SessionEnd),
        webhook_slots(t).contains(Slot::Error) <==> trigger_names(t, WebhookPoint::Error),
        webhook_slots(t).contains(Slot::TurnStart) <==> trigger_names(t, WebhookPoint::TurnStart),
        webhook_slots(t).contains(Slot::TurnComplete) <==> trigger_names(t, WebhookPoint::TurnComplete),
        webhook_slots(t).contains(Slot::ToolCallStart) <==> trigger_names(t, WebhookPoint::ToolCallStart),
        webhook_slots(t).contains(Slot::ModelResponse) <==> trigger_names(t, WebhookPoint::ModelResponse),
        !webhook_slots(t).contains(Slot::UserPromptSubmit),
{
    lemma_slot_named(t, Slot::PreTool);
    lemma_slot_named(t, Slot::PostTool);
    lemma_slot_named(t, Slot::PostTurn);
    lemma_slot_named(t, Slot::SystemPrompt);
    lemma_slot_named(t, Slot::SessionStart);
    lemma_slot_named(t, Slot::SessionEnd);
    lemma_slot_named(t, Slot::Error);
    lemma_slot_named(t, Slot::TurnStart);
    lemma_slot_named(t, Slot::TurnComplete);
    lemma_slot_named(t, Slot::ToolCallStart);
    lemma_slot_named(t, Slot::ModelResponse);
    lemma_slot_named(t, Slot::UserPromptSubmit);
}

proof fn lemma_slot_step(before: Seq<Slot>, b: bool, s: Slot, x: Slot)
    ensures
        (before + one_if(b, s)).contains(x) <==> before.contains(x) || (b && s == x),
{
    let all = before + one_if(b, s);
    if before.contains(x) {
        let i = choose|i: int| 0 <= i < before.len() && before[i] == x;
        assert(all[i] == x);
    }
    if b && s == x {
        assert(all[before.len() as int] == x);
    }
    if all.contains(x) && !before.contains(x) {
        let i = choose|i: int| 0 <= i < all.len() && all[i] == x;
        if i < before.len() {
            assert(before[i] == x);
        }
    }
}

proof fn lemma_slot_named(t: Seq<char>, x: Slot)
    ensures
        webhook_slots(t).contains(x) <==> (x == Slot::PreTool && trigger_names(t, WebhookPoint::PreTool)) || (x
            == Slot::PostTool && trigger_names(t, WebhookPoint::PostTool)) || (x == Slot::PostTurn && trigger_names(
            t,
            WebhookPoint::PostTurn,
        )) || (x == Slot::SystemPrompt && trigger_names(t, WebhookPoint::SystemPrompt)) || (x == Slot::SessionStart
            && trigger_names(t, WebhookPoint::SessionStart)) || (x == Slot::SessionEnd && trigger_names(
            t,
            WebhookPoint::SessionEnd,
        )) || (x == Slot::Error && trigger_names(t, WebhookPoint::Error)) || (x == Slot::TurnStart && trigger_names(
            t,
            WebhookPoint::TurnStart,
        )) || (x == Slot::TurnComplete && trigger_names(t, WebhookPoint::TurnComplete)) || (x == Slot::ToolCallStart
            && trigger_names(t, WebhookPoint::ToolCallStart)) || (x == Slot::ModelResponse && trigger_names(
            t,
            WebhookPoint::ModelResponse,
        )),
{
    let none = Seq::<Slot>::empty();
    let a = one_if(trigger_names(t, WebhookPoint::PreTool), Slot::PreTool);
    lemma_slot_step(none, trigger_names(t, WebhookPoint::PreTool), Slot::PreTool, x);
    assert(none + a =~= a);
    let b = a + one_if(trigger_names(t, WebhookPoint::PostTool), Slot::PostTool);
    lemma_slot_step(a, trigger_names(t, WebhookPoint::PostTool), Slot::PostTool, x);
    let c = b + one_if(trigger_names(t, WebhookPoint::PostTurn), Slot::PostTurn);
    lemma_slot_step(b, trigger_names(t, WebhookPoint::PostTurn), Slot::PostTurn, x);
    let d = c + one_if(trigger_names(t, WebhookPoint::SystemPrompt), Slot::SystemPrompt);
    lemma_slot_step(c, trigger_names(t, WebhookPoint::SystemPrompt), Slot::SystemPrompt, x);
    let e = d + one_if(trigger_names(t, WebhookPoint::SessionStart), Slot::SessionStart);
    lemma_slot_step(d, trigger_names(t, WebhookPoint::SessionStart), Slot::SessionStart, x);
    let f = e + one_if(trigger_names(t, WebhookPoint::SessionEnd), Slot::SessionEnd);
    lemma_slot_step(e, trigger_names(t, WebhookPoint::SessionEnd), Slot::SessionEnd, x);
    let g = f + one_if(trigger_names(t, WebhookPoint::Error), Slot::Error);
    lemma_slot_step(f, trigger_names(t, WebhookPoint::Error), Slot::Error, x);
    let h = g + one_if(trigger_names(t, WebhookPoint::TurnStart), Slot::TurnStart);
    lemma_slot_step(g, trigger_names(t, WebhookPoint::TurnStart), Slot::TurnStart, x);
    let i = h + one_if(trigger_names(t, WebhookPoint::TurnComplete), Slot::TurnComplete);
    lemma_slot_step(h, trigger_names(t, WebhookPoint::TurnComplete), Slot::TurnComplete, x);
    let j = i + one_if(trigger_names(t, WebhookPoint::ToolCallStart), Slot::ToolCallStart);
    lemma_slot_step(i, trigger_names(t, WebhookPoint::ToolCallStart), Slot::ToolCallStart, x);
    lemma_slot_step(j, trigger_names(t, WebhookPoint::ModelResponse), Slot::ModelResponse, x);
}

/// A web service that is switched on waits at every point that its trigger names, and is
/// queued where a queue of its name is switched on.
pub proof fn enabled_webhooks_wait(
    e: Map<Slot, Seq<HookView>>,
    webhooks: Seq<WebhookConfigView>,
    queues: Seq<AsyncWebhookConfig>,
    i: int,
    s: Slot,
)
    requires
        forall|k: Slot| #[trigger] e.contains_key(k),
        0 <= i < webhooks.len(),
        webhooks[i].enabled,
        webhook_slots(lowercase(webhooks[i].trigger)).contains(s),
    ensures
        with_webhooks(e, webhooks, queues)[s].contains(
            HookView::Webhook(
                WebhookView {
                    config: webhooks[i],
                    batched: exists|q: int|
                        0 <= q < queues.len() && (#[trigger] queues[q]).enabled && queues[q].name@ == webhooks[i].name,
                },
            ),
        ),
        forall|k: Slot| #[trigger] with_webhooks(e, webhooks, queues).contains_key(k),
    decreases webhooks.len(),
{
    let t = webhooks.drop_last();
    let before = with_webhooks(e, t, queues);
    let last = webhooks.last();
    let h = HookView::Webhook(WebhookView { config: webhooks[i], batched: is_batched(queues, webhooks[i].name) });
    let x = HookView::Webhook(WebhookView { config: last, batched: is_batched(queues, last.name) });
    lemma_webhook_slots_kept(e, t, queues);
    if i < webhooks.len() - 1 {
        assert(t[i] == webhooks[i]);
        enabled_webhooks_wait(e, t, queues, i, s);
    }
    lemma_registered_at(before, webhook_slots(lowercase(last.trigger)), x, s, h);
    lemma_webhook_slots_kept(e, webhooks, queues);
}

proof fn lemma_webhook_slots_kept(
    e: Map<Slot, Seq<HookView>>,
    webhooks: Seq<WebhookConfigView>,
    queues: Seq<AsyncWebhookConfig>,
)
    requires
        forall|k: Slot| #[trigger] e.contains_key(k),
    ensures
        forall|k: Slot| #[trigger] with_webhooks(e, webhooks, queues).contains_key(k),
    decreases webhooks.len(),
{
    if webhooks.len() > 0 {
        lemma_webhook_slots_kept(e, webhooks.drop_last(), queues);
        let before = with_webhooks(e, webhooks.drop_last(), queues);
        let last = webhooks.last();
        let x = HookView::Webhook(WebhookView { config: last, batched: is_batched(queues, last.name) });
        lemma_registered_at(before, webhook_slots(lowercase(last.trigger)), x, Slot::PreTool, x);
    }
}

/// Exactly the files of the scripts that are switched on are looked for.
pub proof fn files_of_enabled_scripts_are_looked_for(scripts: Seq<ScriptView>, base_dir: Seq<char>, path: Seq<char>)
    ensures
        wanted_scripts(scripts, base_dir).contains(path) <==> exists|i: int|
            0 <= i < scripts.len() && (#[trigger] scripts[i]).enabled && joined(base_dir, scripts[i].script) == path,
    decreases scripts.len(),
{
    if scripts.len() > 0 {
        let t = scripts.drop_last();
        files_of_enabled_scripts_are_looked_for(t, base_dir, path);
        let before = wanted_scripts(t, base_dir);
        let now = wanted_scripts(scripts, base_dir);
        assert(scripts[scripts.len() - 1] == scripts.last());
        if before.contains(path) {
            let k = choose|k: int| 0 <= k < before.len() && before[k] == path;
            assert(now[k] == path);
            let i = choose|i: int|
                0 <= i < t.len() && (#[trigger] t[i]).enabled && joined(base_dir, t[i].script) == path;
            assert(scripts[i] == t[i]);
        }
        if scripts.last().enabled {
            assert(now[before.len() as int] == joined(base_dir, scripts.last().script));
        }
        if now.contains(path) && !before.contains(path) {
            let k = choose|k: int| 0 <= k < now.len() && now[k] == path;
            if k < before.len() {
                assert(before[k] == path);
            }
        }
        if exists|i: int|
            0 <= i < scripts.len() && (#[trigger] scripts[i]).enabled && joined(base_dir, scripts[i].script) == path {
            let i = choose|i: int|
                0 <= i < scripts.len() && (#[trigger] scripts[i]).enabled && joined(base_dir, scripts[i].script)
                    == path;
            if i < t.len() {
                assert(t[i] == scripts[i]);
            }
        }
    }
}

proof fn lemma_scripts_stay(
    e: Map<Slot, Seq<HookView>>,
    scripts: Seq<ScriptView>,
    base_dir: Seq<char>,
    present: Seq<Seq<char>>,
    s: Slot,
    x: HookView,
)
    requires
        forall|k: Slot| #[trigger] e.contains_key(k),
    ensures
        forall|k: Slot| #[trigger] with_scripts(e, scripts, base_dir, present).contains_key(k),
        e[s].contains(x) ==> with_scripts(e, scripts, base_dir, present)[s].contains(x),
    decreases scripts.len(),
{
    if scripts.len() > 0 {
        let t = scripts.drop_last();
        lemma_scripts_stay(e, t, base_dir, present, s, x);
        let before = with_scripts(e, t, base_dir, present);
        let last = scripts.last();
        let path = joined(base_dir, last.script);
        if script_slot(last.trigger) is Some {
            lemma_registered(
                before,
                script_slot(last.trigger)->0,
                HookView::Script(ScriptView { script: path, ..last }),
                s,
                x,
            );
        }
    }
}

proof fn lemma_webhooks_stay(
    e: Map<Slot, Seq<HookView>>,
    webhooks: Seq<WebhookConfigView>,
    queues: Seq<AsyncWebhookConfig>,
    s: Slot,
    x: HookView,
)
    requires
        forall|k: Slot| #[trigger] e.contains_key(k),
    ensures
        forall|k: Slot| #[trigger] with_webhooks(e, webhooks, queues).contains_key(k),
        e[s].contains(x) ==> with_webhooks(e, webhooks, queues)[s].contains(x),
    decreases webhooks.len(),
{
    if webhooks.len() > 0 {
        let t = webhooks.drop_last();
        lemma_webhooks_stay(e, t, queues, s, x);
        let last = webhooks.last();
        lemma_registered_at(
            with_webhooks(e, t, queues),
            webhook_slots(lowercase(last.trigger)),
            HookView::Webhook(WebhookView { config: last, batched: is_batched(queues, last.name) }),
            s,
            x,
        );
    }
}

/// The scripts of every directory wait, not those of one alone, and what waited before
/// still does.
pub proof fn scripts_of_every_directory_wait(e: Map<Slot, Seq<HookView>>, dirs: Seq<HookDir>, d: int, i: int, s: Slot, x: HookView)
    requires
        forall|k: Slot| #[trigger] e.contains_key(k),
    ensures
        forall|k: Slot| #[trigger] with_script_dirs(e, dirs).contains_key(k),
        e[s].contains(x) ==> with_script_dirs(e, dirs)[s].contains(x),
        0 <= d < dirs.len() && 0 <= i < dirs[d].config.hooks@.len() ==> ({
            let h = dirs[d].config.hooks@[i]@;
            let path = joined(dirs[d].base_dir@, h.script);
            h.enabled && texts(dirs[d].present@).contains(path) && script_slot(h.trigger) is Some ==> with_script_dirs(
                e,
                dirs,
            )[script_slot(h.trigger)->0].contains(HookView::Script(ScriptView { script: path, ..h }))
        }),
    decreases dirs.len(),
{
    if dirs.len() > 0 {
        let t = dirs.drop_last();
        let last = dirs.last();
        scripts_of_every_directory_wait(e, t, d, i, s, x);
        let before = with_script_dirs(e, t);
        let views = script_views(last.config.hooks@);
        lemma_scripts_stay(before, views, last.base_dir@, texts(last.present@), s, x);
        if 0 <= d < dirs.len() && 0 <= i < dirs[d].config.hooks@.len() {
            let h = dirs[d].config.hooks@[i]@;
            let path = joined(dirs[d].base_dir@, h.script);
            if h.enabled && texts(dirs[d].present@).contains(path) && script_slot(h.trigger) is Some {
                if d < t.len() {
                    assert(t[d] == dirs[d]);
                    lemma_scripts_stay(
                        before,
                        views,
                        last.base_dir@,
                        texts(last.present@),
                        script_slot(h.trigger)->0,
                        HookView::Script(ScriptView { script: path, ..h }),
                    );
                } else {
                    assert(views[i] == h);
                    present_scripts_wait(before, views, last.base_dir@, texts(last.present@), i);
                }
            }
        }
    }
}

/// The web services of every directory wait, not those of one alone, and what waited
/// before still does.
pub proof fn webhooks_of_every_directory_wait(e: Map<Slot, Seq<HookView>>, dirs: Seq<HookDir>, d: int, i: int, s: Slot, x: HookView)
    requires
        forall|k: Slot| #[trigger] e.contains_key(k),
    ensures
        forall|k: Slot| #[trigger] with_webhook_dirs(e, dirs).contains_key(k),
        e[s].contains(x) ==> with_webhook_dirs(e, dirs)[s].contains(x),
        0 <= d < dirs.len() && 0 <= i < dirs[d].config.webhooks@.len() ==> ({
            let w = dirs[d].config.webhooks@[i]@;
            let queues = dirs[d].config.async_webhooks@;
            w.enabled && webhook_slots(lowercase(w.trigger)).contains(s) ==> with_webhook_dirs(e, dirs)[s].contains(
                HookView::Webhook(
                    WebhookView {
                        config: w,
                        batched: exists|q: int|
                            0 <= q < queues.len() && (#[trigger] queues[q]).enabled && queues[q].name@ == w.name,
                    },
                ),
            )
        }),
    decreases dirs.len(),
{
    if dirs.len() > 0 {
        let t = dirs.drop_last();
        let last = dirs.last();
        webhooks_of_every_directory_wait(e, t, d, i, s, x);
        let before = with_webhook_dirs(e, t);
        let views = webhook_views(last.config.webhooks@);
        lemma_webhooks_stay(before, views, last.config.async_webhooks@, s, x);
        if 0 <= d < dirs.len() && 0 <= i < dirs[d].config.webhooks@.len() {
            let w = dirs[d].config.webhooks@[i]@;
            let queues = dirs[d].config.async_webhooks@;
            if w.enabled && webhook_slots(lowercase(w.trigger)).contains(s) {
                let h = HookView::Webhook(
                    WebhookView {
                        config: w,
                        batched: exists|q: int|
                            0 <= q < queues.len() && (#[trigger] queues[q]).enabled && queues[q].name@ == w.name,
                    },
                );
                if d < t.len() {
                    assert(t[d] == dirs[d]);
                    lemma_webhooks_stay(before, views, last.config.async_webhooks@, s, h);
                } else {
                    assert(views[i] == w);
                    enabled_webhooks_wait(before, views, queues, i, s);
                }
            }
        }
    }
}

} // verus!
