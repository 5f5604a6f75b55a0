//! Telling a user who looks elsewhere that a turn is over or that an approval is
//! needed. Writing to terminals and running commands is left to the caller.

use vstd::prelude::*;
use vstd::string::*;

use crate::config::NotificationConfig;
use crate::paths::{file_name, file_name_of};
use crate::text::{
    ascii_lower_text, char_is_space, chars_of, contains, contains_text, decimal, is_space, join, join_texts,
    lemma_holds, push_decimal, same, same_ignoring_ascii_case, starts_with, texts, trim, trim_text,
};

verus! {

/// Why a turn ended.
#[derive(Debug, Clone, Copy, PartialEq, Eq, Structural)]
pub enum TurnStopReason {
    Natural,
    Cancelled,
    Error,
    TurnLimit,
    StepLimit,
}

/// How long something took. `seconds` is the time in seconds with one decimal.
#[derive(Debug)]
pub struct Elapsed {
    pub secs: u64,
    pub nanos: u32,
    pub seconds: String,
}

impl Elapsed {
    /// The time in whole milliseconds.
    pub open spec fn millis(&self) -> nat {
        (self.secs * 1000 + self.nanos / 1_000_000) as nat
    }
}

#[derive(Debug)]
pub struct TurnNotification<'a> {
    pub duration: Elapsed,
    pub turn_count: usize,
    pub tool_call_count: usize,
    pub total_tokens: Option<usize>,
    pub stop_reason: TurnStopReason,
    pub working_dir: Option<&'a str>,
}

#[derive(Debug)]
pub struct ApprovalNotification<'a> {
    pub tool_name: &'a str,
    pub detail: Option<&'a str>,
    pub working_dir: Option<&'a str>,
}

#[derive(Debug)]
pub enum NotificationEvent<'a> {
    ApprovalNeeded(ApprovalNotification<'a>),
    TurnFinished(TurnNotification<'a>),
}

#[derive(Debug, Clone, Copy, PartialEq, Eq, Structural)]
pub enum TerminalApp {
    Kitty,
    WezTerm,
    Ghostty,
    ITerm2,
    AppleTerminal,
    WindowsTerminal,
}

#[derive(Debug, Clone, Copy, PartialEq, Eq, Structural)]
pub enum VisibilityPolicy {
    BackgroundOnlyBestEffort,
}

#[derive(Debug, Clone, Copy, PartialEq, Eq, Structural)]
pub enum Platform {
    MacOs,
    Linux,
    Windows,
    Other,
}

/// What is shown, and how.
#[derive(Debug)]
pub struct NotificationPlan {
    pub title: String,
    pub body: String,
    pub terminal_id: String,
    pub visibility: VisibilityPolicy,
    pub emit_terminal: bool,
    pub emit_system: bool,
    pub emit_bell: bool,
}

#[verifier::ext_equal]
pub struct PlanView {
    pub title: Seq<char>,
    pub body: Seq<char>,
    pub terminal_id: Seq<char>,
    pub visibility: VisibilityPolicy,
    pub emit_terminal: bool,
    pub emit_system: bool,
    pub emit_bell: bool,
}

impl View for NotificationPlan {
    type V = PlanView;

    open spec fn view(&self) -> PlanView {
        PlanView {
            title: self.title@,
            body: self.body@,
            terminal_id: self.terminal_id@,
            visibility: self.visibility,
            emit_terminal: self.emit_terminal,
            emit_system: self.emit_system,
            emit_bell: self.emit_bell,
        }
    }
}

#[derive(Debug, Clone, Copy, PartialEq, Eq, Structural)]
pub enum DeliveryResult {
    Delivered,
    Unsupported,
    Failed,
}

/// Whether the terminal has the focus, as far as it is known.
#[derive(Debug, Clone, Copy, PartialEq, Eq, Structural)]
pub struct FocusState {
    pub focused: Option<bool>,
}

impl FocusState {
    /// Nothing is known of the focus.
    pub fn unknown() -> (r: FocusState)
        ensures
            r.focused is None,
    {
        FocusState { focused: None }
    }
}

pub fn set_terminal_focus_state(state: &mut FocusState, focused: Option<bool>)
    ensures
        final(state).focused == focused,
{
    state.focused = focused;
}

// ---- Texts ----

/// The time as it is shown.
pub open spec fn duration_text(e: Elapsed) -> Seq<char> {
    if e.millis() < 1000 {
        decimal(e.millis()) + "ms"@
    } else {
        e.seconds@ + "s"@
    }
}

pub fn fmt_duration(e: &Elapsed) -> (r: String)
    ensures
        r@ == duration_text(*e),
{
    if e.secs == 0 && e.nanos < 1_000_000_000 {
        let mut out = String::new();
        push_decimal(&mut out, (e.nanos / 1_000_000) as u64);
        assert(out@ =~= decimal((e.nanos / 1_000_000) as nat));
        out.append("ms");
        out
    } else {
        let mut out: String = e.seconds.clone();
        out.append("s");
        out
    }
}

pub open spec fn stop_title(s: TurnStopReason) -> Seq<char> {
    match s {
        TurnStopReason::Natural => "AtomCode done"@,
        TurnStopReason::Cancelled => "AtomCode cancelled"@,
        TurnStopReason::Error => "AtomCode failed"@,
        TurnStopReason::TurnLimit => "AtomCode stopped"@,
        TurnStopReason::StepLimit => "AtomCode stopped"@,
    }
}

pub open spec fn stop_status(s: TurnStopReason) -> Seq<char> {
    match s {
        TurnStopReason::Natural => "Done"@,
        TurnStopReason::Cancelled => "Cancelled"@,
        TurnStopReason::Error => "Failed"@,
        TurnStopReason::TurnLimit => "Stopped"@,
        TurnStopReason::StepLimit => "Stopped"@,
    }
}

/// A count and what is counted, where anything was.
pub open spec fn counted(n: usize, what: Seq<char>) -> Seq<char> {
    if n > 0 {
        " · "@ + decimal(n as nat) + what
    } else {
        Seq::empty()
    }
}

pub open spec fn turn_body(t: TurnNotification) -> Seq<char> {
    stop_status(t.stop_reason) + " · "@ + duration_text(t.duration) + counted(t.turn_count, " rounds"@) + counted(
        t.tool_call_count,
        " tools"@,
    )
}

fn push_count(out: &mut String, n: usize, what: &str)
    ensures
        final(out)@ == old(out)@ + counted(n, what@),
{
    let ghost was = out@;
    if n > 0 {
        out.append(" · ");
        push_decimal(out, n as u64);
        out.append(what);
    }
    assert(out@ =~= was + counted(n, what@));
}

/// Title and text for the end of a turn.
pub fn build_system_notification_text(turn: &TurnNotification) -> (r: (String, String))
    ensures
        r.0@ == stop_title(turn.stop_reason),
        r.1@ == turn_body(*turn),
{
    let (title, status) = match turn.stop_reason {
        TurnStopReason::Natural => ("AtomCode done", "Done"),
        TurnStopReason::Cancelled => ("AtomCode cancelled", "Cancelled"),
        TurnStopReason::Error => ("AtomCode failed", "Failed"),
        TurnStopReason::TurnLimit => ("AtomCode stopped", "Stopped"),
        TurnStopReason::StepLimit => ("AtomCode stopped", "Stopped"),
    };
    let mut body: String = status.to_owned();
    body.append(" · ");
    let took = fmt_duration(&turn.duration);
    body.append(took.as_str());
    push_count(&mut body, turn.turn_count, " rounds");
    push_count(&mut body, turn.tool_call_count, " tools");
    (title.to_owned(), body)
}

/// The last part of the directory that is worked in.
pub open spec fn scope_of(working_dir: Option<&str>) -> Option<Seq<char>> {
    match working_dir {
        Some(p) => file_name(p@),
        None => None,
    }
}

fn read_scope(working_dir: Option<&str>) -> (r: Option<String>)
    ensures
        crate::text::opt(r) == scope_of(working_dir),
{
    match working_dir {
        Some(p) => file_name_of(p),
        None => None,
    }
}

/// Whether a terminal shows title and text apart, so that the text can name where
/// it comes from.
pub open spec fn shows_scope(app: TerminalApp) -> bool {
    app == TerminalApp::Kitty || app == TerminalApp::WezTerm || app == TerminalApp::Ghostty
}

/// Title and text for the end of a turn, in a terminal.
pub fn build_turn_terminal_notification_text(app: TerminalApp, turn: &TurnNotification) -> (r: (String, String))
    ensures
        r.0@ == stop_title(turn.stop_reason),
        r.1@ == (match scope_of(turn.working_dir) {
            Some(scope) => if shows_scope(app) && scope.len() > 0 {
                scope + " · "@ + turn_body(*turn)
            } else {
                turn_body(*turn)
            },
            None => turn_body(*turn),
        }),
{
    let (title, body) = build_system_notification_text(turn);
    if app == TerminalApp::Kitty || app == TerminalApp::WezTerm || app == TerminalApp::Ghostty {
        if let Some(scope) = read_scope(turn.working_dir) {
            if !scope.as_str().is_empty() {
                let mut out = scope;
                out.append(" · ");
                out.append(body.as_str());
                return (title, out);
            }
        }
    }
    (title, body)
}

pub open spec fn approval_body(a: ApprovalNotification) -> Seq<char> {
    a.tool_name@ + " is waiting for Y/A/N"@ + (match scope_of(a.working_dir) {
        Some(scope) => if scope.len() > 0 {
            " · "@ + scope
        } else {
            Seq::empty()
        },
        None => Seq::empty(),
    }) + (match a.detail {
        Some(d) => if trim(d@).len() > 0 {
            " · "@ + trim(d@)
        } else {
            Seq::empty()
        },
        None => Seq::empty(),
    })
}

/// Title and text for an approval that is needed.
pub fn build_approval_notification_text(approval: &ApprovalNotification) -> (r: (String, String))
    ensures
        r.0@ == "AtomCode approval needed"@,
        r.1@ == approval_body(*approval),
{
    let mut body: String = approval.tool_name.to_owned();
    body.append(" is waiting for Y/A/N");
    let ghost a = body@;
    if let Some(scope) = read_scope(approval.working_dir) {
        if !scope.as_str().is_empty() {
            body.append(" · ");
            body.append(scope.as_str());
        }
    }
    let ghost b = body@;
    assert(b =~= a + (match scope_of(approval.working_dir) {
        Some(scope) => if scope.len() > 0 {
            " · "@ + scope
        } else {
            Seq::empty()
        },
        None => Seq::empty(),
    }));
    if let Some(detail) = approval.detail {
        let d = trim_text(detail);
        if !d.as_str().is_empty() {
            body.append(" · ");
            body.append(d.as_str());
        }
    }
    assert(body@ =~= b + (match approval.detail {
        Some(d) => if trim(d@).len() > 0 {
            " · "@ + trim(d@)
        } else {
            Seq::empty()
        },
        None => Seq::empty(),
    }));
    ("AtomCode approval needed".to_owned(), body)
}

// ---- Whether and how ----

/// Whether anything is shown at all.
pub open spec fn is_shown(cfg: NotificationConfig, focus: FocusState, event: NotificationEvent) -> bool {
    &&& cfg.enabled
    &&& !(cfg.background_only && focus.focused == Some(true))
    &&& match event {
        NotificationEvent::ApprovalNeeded(_) => true,
        NotificationEvent::TurnFinished(t) => t.duration.secs >= cfg.min_duration_secs,
    }
}

/// Whether the desktop is used: not on Windows, and, where only the background is
/// to be told, only while the terminal is known to be there.
pub open spec fn uses_system(cfg: NotificationConfig, focus: FocusState, platform: Platform) -> bool {
    cfg.system && platform != Platform::Windows && (!cfg.background_only || focus.focused == Some(false))
}

/// What is shown of an event.
pub open spec fn plan_of(cfg: NotificationConfig, focus: FocusState, platform: Platform, event: NotificationEvent) -> Option<
    PlanView,
> {
    if is_shown(cfg, focus, event) {
        Some(
            PlanView {
                title: match event {
                    NotificationEvent::ApprovalNeeded(_) => "AtomCode approval needed"@,
                    NotificationEvent::TurnFinished(t) => stop_title(t.stop_reason),
                },
                body: match event {
                    NotificationEvent::ApprovalNeeded(a) => approval_body(a),
                    NotificationEvent::TurnFinished(t) => turn_body(t),
                },
                terminal_id: match event {
                    NotificationEvent::ApprovalNeeded(_) => "atomcode-approval"@,
                    NotificationEvent::TurnFinished(_) => "atomcode-task"@,
                },
                visibility: VisibilityPolicy::BackgroundOnlyBestEffort,
                emit_terminal: cfg.terminal,
                emit_system: uses_system(cfg, focus, platform),
                emit_bell: cfg.bell,
            },
        )
    } else {
        None
    }
}

/// Decides whether and how an event is shown.
pub fn build_notification_plan(
    cfg: &NotificationConfig,
    focus: FocusState,
    platform: Platform,
    event: &NotificationEvent,
) -> (r: Option<NotificationPlan>)
    ensures
        match r {
            Some(p) => plan_of(*cfg, focus, platform, *event) == Some(p@),
            None => plan_of(*cfg, focus, platform, *event) is None,
        },
{
    if !cfg.enabled {
        return None;
    }
    let has_focus = match focus.focused {
        Some(f) => f,
        None => false,
    };
    if cfg.background_only && has_focus {
        return None;
    }
    let lost_focus = match focus.focused {
        Some(f) => !f,
        None => false,
    };
    let emit_system = cfg.system && platform != Platform::Windows && (!cfg.background_only || lost_focus);
    match event {
        NotificationEvent::ApprovalNeeded(approval) => {
            let (title, body) = build_approval_notification_text(approval);
            Some(
                NotificationPlan {
                    title,
                    body,
                    terminal_id: "atomcode-approval".to_owned(),
                    visibility: VisibilityPolicy::BackgroundOnlyBestEffort,
                    emit_terminal: cfg.terminal,
                    emit_system,
                    emit_bell: cfg.bell,
                },
            )
        },
        NotificationEvent::TurnFinished(turn) => {
            if turn.duration.secs < cfg.min_duration_secs {
                return None;
            }
            let (title, body) = build_system_notification_text(turn);
            Some(
                NotificationPlan {
                    title,
                    body,
                    terminal_id: "atomcode-task".to_owned(),
                    visibility: VisibilityPolicy::BackgroundOnlyBestEffort,
                    emit_terminal: cfg.terminal,
                    emit_system,
                    emit_bell: cfg.bell,
                },
            )
        },
    }
}

/// What is written to the terminal for an event, and what may follow.
#[derive(Debug)]
pub struct Delivery {
    pub plan: NotificationPlan,
    /// What the terminal is sent, where it understands anything.
    pub sequence: Option<String>,
}

/// Decides what is written to the terminal for an event.
pub fn notify(
    cfg: &NotificationConfig,
    focus: FocusState,
    platform: Platform,
    app: Option<TerminalApp>,
    event: &NotificationEvent,
) -> (r: Option<Delivery>)
    ensures
        match r {
            Some(d) => {
                &&& plan_of(*cfg, focus, platform, *event) == Some(d.plan@)
                &&& crate::text::opt(d.sequence) == (if cfg.terminal {
                    sequence_for(app, d.plan@)
                } else {
                    None
                })
            },
            None => plan_of(*cfg, focus, platform, *event) is None,
        },
{
    match build_notification_plan(cfg, focus, platform, event) {
        Some(plan) => {
            let sequence = if plan.emit_terminal {
                match app {
                    Some(a) => terminal_sequence(a, &plan),
                    None => None,
                }
            } else {
                None
            };
            Some(Delivery { plan, sequence })
        },
        None => None,
    }
}

/// Decides what is written to the terminal for the end of a turn.
pub fn notify_turn_finished<'a>(
    cfg: &NotificationConfig,
    focus: FocusState,
    platform: Platform,
    app: Option<TerminalApp>,
    turn: TurnNotification<'a>,
) -> (r: Option<Delivery>)
    ensures
        match r {
            Some(d) => {
                &&& plan_of(*cfg, focus, platform, NotificationEvent::TurnFinished(turn)) == Some(d.plan@)
                &&& crate::text::opt(d.sequence) == (if cfg.terminal {
                    sequence_for(app, d.plan@)
                } else {
                    None
                })
            },
            None => plan_of(*cfg, focus, platform, NotificationEvent::TurnFinished(turn)) is None,
        },
{
    let event = NotificationEvent::TurnFinished(turn);
    notify(cfg, focus, platform, app, &event)
}

/// Whether the desktop is told, after the terminal was tried.
pub fn falls_back_to_system(plan: &NotificationPlan, terminal: DeliveryResult) -> (r: bool)
    ensures
        r == (plan.emit_system && terminal != DeliveryResult::Delivered),
{
    plan.emit_system && terminal != DeliveryResult::Delivered
}

// ---- What terminals understand ----

/// The control characters.
pub open spec fn is_control(c: char) -> bool {
    c < '\u{20}' || ('\u{7f}' <= c && c <= '\u{9f}')
}

pub open spec fn blanked(s: Seq<char>) -> Seq<char> {
    s.map_values(
        |c: char|
            if is_control(c) {
                ' '
            } else {
                c
            },
    )
}

/// The words of a text: what stands between white space. `word` is what the
/// current word holds so far.
pub open spec fn words_from(s: Seq<char>, word: Seq<char>) -> Seq<Seq<char>>
    decreases s.len(),
{
    if s.len() == 0 {
        if word.len() > 0 {
            seq![word]
        } else {
            Seq::empty()
        }
    } else if is_space(s[0]) {
        if word.len() > 0 {
            seq![word] + words_from(s.skip(1), Seq::empty())
        } else {
            words_from(s.skip(1), Seq::empty())
        }
    } else {
        words_from(s.skip(1), word.push(s[0]))
    }
}

/// A text on one line without control characters, its words one space apart.
pub open spec fn plain_text(s: Seq<char>) -> Seq<char> {
    join(words_from(blanked(s), Seq::empty()), " "@)
}

fn split_words(v: &Vec<char>) -> (r: Vec<String>)
    ensures
        texts(r@) == words_from(v@, Seq::empty()),
{
    let mut out: Vec<String> = Vec::new();
    let mut word = String::new();
    let mut i: usize = 0;
    assert(v@.skip(0) =~= v@);
    assert(word@ =~= Seq::<char>::empty());
    assert(texts(out@) + words_from(v@, word@) =~= words_from(v@, Seq::empty()));
    while i < v.len()
        invariant
            i <= v.len(),
            texts(out@) + words_from(v@.skip(i as int), word@) == words_from(v@, Seq::empty()),
        decreases v.len() - i,
    {
        let ghost rest = v@.skip(i as int);
        assert(rest[0] == v@[i as int]);
        assert(rest.skip(1) =~= v@.skip(i + 1));
        if char_is_space(v[i]) {
            if !word.as_str().is_empty() {
                let ghost was = out@;
                let ghost done = word@;
                out.push(word);
                word = String::new();
                assert(word@ =~= Seq::<char>::empty());
                assert(texts(out@) =~= texts(was).push(done));
                assert(texts(out@) + words_from(v@.skip(i + 1), word@) =~= texts(was) + (seq![done] + words_from(
                    v@.skip(i + 1),
                    word@,
                )));
            } else {
                assert(word@ =~= Seq::<char>::empty());
            }
        } else {
            word.push(v[i]);
        }
        i = i + 1;
    }
    assert(v@.skip(i as int) =~= Seq::<char>::empty());
    let ghost was = out@;
    if !word.as_str().is_empty() {
        out.push(word);
        assert(texts(out@) =~= texts(was) + seq![word@]);
    } else {
        assert(texts(out@) =~= texts(was) + Seq::<Seq<char>>::empty());
    }
    out
}

/// A text on one line without control characters.
pub fn sanitize_plain_text(s: &str) -> (r: String)
    ensures
        r@ == plain_text(s@),
{
    let v = chars_of(s);
    let mut clean: Vec<char> = Vec::new();
    let mut i: usize = 0;
    while i < v.len()
        invariant
            i <= v.len(),
            clean@ =~= blanked(v@).take(i as int),
        decreases v.len() - i,
    {
        let c = v[i];
        if c < '\u{20}' || ('\u{7f}' <= c && c <= '\u{9f}') {
            clean.push(' ');
        } else {
            clean.push(c);
        }
        i = i + 1;
    }
    assert(clean@ =~= blanked(v@));
    let words = split_words(&clean);
    join_texts(&words, " ")
}

/// A text with one character put for another.
pub open spec fn exchanged(s: Seq<char>, from: char, to: char) -> Seq<char> {
    s.map_values(
        |c: char|
            if c == from {
                to
            } else {
                c
            },
    )
}

fn exchange(s: &str, from: char, to: char) -> (r: String)
    ensures
        r@ == exchanged(s@, from, to),
{
    let v = chars_of(s);
    let mut out = String::new();
    let mut i: usize = 0;
    assert(out@ =~= Seq::<char>::empty());
    while i < v.len()
        invariant
            i <= v.len(),
            out@ =~= exchanged(v@, from, to).take(i as int),
        decreases v.len() - i,
    {
        if v[i] == from {
            out.push(to);
        } else {
            out.push(v[i]);
        }
        i = i + 1;
    }
    assert(out@ =~= exchanged(v@, from, to));
    out
}

pub open spec fn kitty_sequence(id: Seq<char>, title: Seq<char>, body: Seq<char>) -> Seq<char> {
    "\x1b]99;i="@ + id + ":o=unfocused:d=0;"@ + plain_text(title) + "\x1b\\"@ + "\x1b]99;i="@ + id
        + ":p=body;"@ + plain_text(body) + "\x1b\\"@
}

pub open spec fn osc777_sequence(title: Seq<char>, body: Seq<char>) -> Seq<char> {
    "\x1b]777;notify;"@ + exchanged(plain_text(title), ';', ':') + ";"@ + exchanged(plain_text(body), ';', ':')
        + "\x1b\\"@
}

/// What iTerm2 shows: title and text in one.
pub open spec fn iterm2_payload(title: Seq<char>, body: Seq<char>) -> Seq<char> {
    if trim(title).len() > 0 && trim(body).len() > 0 {
        plain_text(title + ": "@ + body)
    } else if trim(title).len() > 0 {
        plain_text(title)
    } else if trim(body).len() > 0 {
        plain_text(body)
    } else {
        "AtomCode"@
    }
}

pub open spec fn iterm2_sequence(title: Seq<char>, body: Seq<char>) -> Seq<char> {
    "\x1b]9;"@ + iterm2_payload(title, body) + "\x1b\\"@
}

/// What a terminal is sent for a plan, where it understands anything.
pub open spec fn sequence_of(app: TerminalApp, plan: PlanView) -> Option<Seq<char>> {
    match app {
        TerminalApp::Kitty => Some(kitty_sequence(plan.terminal_id, plan.title, plan.body)),
        TerminalApp::WezTerm => Some(osc777_sequence(plan.title, plan.body)),
        TerminalApp::Ghostty => Some(osc777_sequence(plan.title, plan.body)),
        TerminalApp::ITerm2 => Some(iterm2_sequence(plan.title, plan.body)),
        TerminalApp::AppleTerminal => None,
        TerminalApp::WindowsTerminal => None,
    }
}

pub open spec fn sequence_for(app: Option<TerminalApp>, plan: PlanView) -> Option<Seq<char>> {
    match app {
        Some(a) => sequence_of(a, plan),
        None => None,
    }
}

pub fn write_kitty_notification(id: &str, title: &str, body: &str) -> (r: String)
    ensures
        r@ == kitty_sequence(id@, title@, body@),
{
    let title = sanitize_plain_text(title);
    let body = sanitize_plain_text(body);
    let mut out: String = "\x1b]99;i=".to_owned();
    out.append(id);
    out.append(":o=unfocused:d=0;");
    out.append(title.as_str());
    out.append("\x1b\\");
    out.append("\x1b]99;i=");
    out.append(id);
    out.append(":p=body;");
    out.append(body.as_str());
    out.append("\x1b\\");
    out
}

pub fn write_osc777_notification(title: &str, body: &str) -> (r: String)
    ensures
        r@ == osc777_sequence(title@, body@),
{
    let title = exchange(sanitize_plain_text(title).as_str(), ';', ':');
    let body = exchange(sanitize_plain_text(body).as_str(), ';', ':');
    let mut out: String = "\x1b]777;notify;".to_owned();
    out.append(title.as_str());
    out.append(";");
    out.append(body.as_str());
    out.append("\x1b\\");
    out
}

pub fn write_iterm2_notification(title: &str, body: &str) -> (r: String)
    ensures
        r@ == iterm2_sequence(title@, body@),
{
    let no_title = trim_text(title).as_str().is_empty();
    let no_body = trim_text(body).as_str().is_empty();
    let payload = if !no_title && !no_body {
        let mut both: String = title.to_owned();
        both.append(": ");
        both.append(body);
        sanitize_plain_text(both.as_str())
    } else if !no_title {
        sanitize_plain_text(title)
    } else if !no_body {
        sanitize_plain_text(body)
    } else {
        "AtomCode".to_owned()
    };
    let mut out: String = "\x1b]9;".to_owned();
    out.append(payload.as_str());
    out.append("\x1b\\");
    out
}

/// What a terminal is sent for a plan.
pub fn terminal_sequence(app: TerminalApp, plan: &NotificationPlan) -> (r: Option<String>)
    ensures
        crate::text::opt(r) == sequence_of(app, plan@),
{
    match app {
        TerminalApp::Kitty => Some(
            write_kitty_notification(plan.terminal_id.as_str(), plan.title.as_str(), plan.body.as_str()),
        ),
        TerminalApp::WezTerm => Some(write_osc777_notification(plan.title.as_str(), plan.body.as_str())),
        TerminalApp::Ghostty => Some(write_osc777_notification(plan.title.as_str(), plan.body.as_str())),
        TerminalApp::ITerm2 => Some(write_iterm2_notification(plan.title.as_str(), plan.body.as_str())),
        TerminalApp::AppleTerminal => None,
        TerminalApp::WindowsTerminal => None,
    }
}

/// What the environment says of the terminal. A variable that is not there is
/// empty.
#[derive(Debug)]
pub struct TerminalEnv {
    pub has_kitty_window_id: bool,
    pub has_wezterm_pane: bool,
    pub has_wt_session: bool,
    pub term_program: String,
    pub lc_terminal: String,
    pub term: String,
}

/// Whether a text is a name, in any case.
pub open spec fn is_named(s: Seq<char>, name: Seq<char>) -> bool {
    ascii_lower_text(s) == ascii_lower_text(name)
}

/// The terminal that the environment speaks of.
pub open spec fn terminal_of(e: TerminalEnv) -> Option<TerminalApp> {
    let program = e.term_program@;
    let lc = e.lc_terminal@;
    if e.has_kitty_window_id {
        Some(TerminalApp::Kitty)
    } else if e.has_wezterm_pane {
        Some(TerminalApp::WezTerm)
    } else if e.has_wt_session {
        Some(TerminalApp::WindowsTerminal)
    } else if is_named(program, "wezterm"@) {
        Some(TerminalApp::WezTerm)
    } else if is_named(program, "ghostty"@) {
        Some(TerminalApp::Ghostty)
    } else if program == "iTerm.app"@ || is_named(program, "iTerm2"@) {
        Some(TerminalApp::ITerm2)
    } else if is_named(program, "apple_terminal"@) || is_named(program, "terminal.app"@) || is_named(
        program,
        "terminal"@,
    ) {
        Some(TerminalApp::AppleTerminal)
    } else if is_named(program, "windows_terminal"@) {
        Some(TerminalApp::WindowsTerminal)
    } else if is_named(lc, "iTerm2"@) {
        Some(TerminalApp::ITerm2)
    } else if is_named(lc, "Terminal"@) {
        Some(TerminalApp::AppleTerminal)
    } else if contains(e.term@, "kitty"@) {
        Some(TerminalApp::Kitty)
    } else {
        None
    }
}

pub fn detect_terminal_app(e: &TerminalEnv) -> (r: Option<TerminalApp>)
    ensures
        r == terminal_of(*e),
{
    if e.has_kitty_window_id {
        return Some(TerminalApp::Kitty);
    }
    if e.has_wezterm_pane {
        return Some(TerminalApp::WezTerm);
    }
    if e.has_wt_session {
        return Some(TerminalApp::WindowsTerminal);
    }
    let program = e.term_program.as_str();
    if same_ignoring_ascii_case(program, "wezterm") {
        return Some(TerminalApp::WezTerm);
    }
    if same_ignoring_ascii_case(program, "ghostty") {
        return Some(TerminalApp::Ghostty);
    }
    if same(program, "iTerm.app") || same_ignoring_ascii_case(program, "iTerm2") {
        return Some(TerminalApp::ITerm2);
    }
    if same_ignoring_ascii_case(program, "apple_terminal") || same_ignoring_ascii_case(program, "terminal.app")
        || same_ignoring_ascii_case(program, "terminal") {
        return Some(TerminalApp::AppleTerminal);
    }
    if same_ignoring_ascii_case(program, "windows_terminal") {
        return Some(TerminalApp::WindowsTerminal);
    }
    if same_ignoring_ascii_case(e.lc_terminal.as_str(), "iTerm2") {
        return Some(TerminalApp::ITerm2);
    }
    if same_ignoring_ascii_case(e.lc_terminal.as_str(), "Terminal") {
        return Some(TerminalApp::AppleTerminal);
    }
    if contains_text(e.term.as_str(), "kitty") {
        return Some(TerminalApp::Kitty);
    }
    None
}

// ---- What the desktop understands ----

/// A program to run.
#[derive(Debug)]
pub struct SystemCommand {
    pub program: String,
    pub args: Vec<String>,
}

#[verifier::ext_equal]
pub struct CommandView {
    pub program: Seq<char>,
    pub args: Seq<Seq<char>>,
}

impl View for SystemCommand {
    type V = CommandView;

    open spec fn view(&self) -> CommandView {
        CommandView { program: self.program@, args: texts(self.args@) }
    }
}

/// The name by which the desktop knows a terminal.
pub open spec fn bundle_id(app: Option<TerminalApp>) -> Option<Seq<char>> {
    match app {
        Some(TerminalApp::AppleTerminal) => Some("com.apple.Terminal"@),
        Some(TerminalApp::ITerm2) => Some("com.googlecode.iterm2"@),
        Some(TerminalApp::WezTerm) => Some("com.github.wez.wezterm"@),
        Some(TerminalApp::Ghostty) => Some("com.mitchellh.ghostty"@),
        Some(TerminalApp::Kitty) => Some("net.kovidgoyal.kitty"@),
        _ => None,
    }
}

pub fn macos_terminal_bundle_id(app: Option<TerminalApp>) -> (r: Option<&'static str>)
    ensures
        match r {
            Some(s) => bundle_id(app) == Some(s@),
            None => bundle_id(app) is None,
        },
{
    match app {
        Some(TerminalApp::AppleTerminal) => Some("com.apple.Terminal"),
        Some(TerminalApp::ITerm2) => Some("com.googlecode.iterm2"),
        Some(TerminalApp::WezTerm) => Some("com.github.wez.wezterm"),
        Some(TerminalApp::Ghostty) => Some("com.mitchellh.ghostty"),
        Some(TerminalApp::Kitty) => Some("net.kovidgoyal.kitty"),
        _ => None,
    }
}

/// A text with a backslash before each backslash and double quote.
pub open spec fn backslashed(s: Seq<char>) -> Seq<char>
    decreases s.len(),
{
    if s.len() == 0 {
        Seq::empty()
    } else if s.last() == '\\' || s.last() == '"' {
        backslashed(s.drop_last()).push('\\').push(s.last())
    } else {
        backslashed(s.drop_last()).push(s.last())
    }
}

/// A text as a string of AppleScript.
pub fn apple_script_string(s: &str) -> (r: String)
    ensures
        r@ == "\""@ + backslashed(s@) + "\""@,
{
    let v = chars_of(s);
    let mut out: String = "\"".to_owned();
    let mut i: usize = 0;
    assert(v@.take(0) =~= Seq::<char>::empty());
    assert(out@ =~= "\""@ + backslashed(v@.take(0)));
    while i < v.len()
        invariant
            i <= v.len(),
            out@ == "\""@ + backslashed(v@.take(i as int)),
        decreases v.len() - i,
    {
        let ghost before = backslashed(v@.take(i as int));
        assert(v@.take(i + 1).drop_last() =~= v@.take(i as int));
        if v[i] == '\\' || v[i] == '"' {
            out.push('\\');
        }
        out.push(v[i]);
        assert(out@ =~= "\""@ + backslashed(v@.take(i + 1)));
        i = i + 1;
    }
    assert(v@.take(i as int) =~= v@);
    out.append("\"");
    out
}

/// A text with each single quote doubled.
pub open spec fn quotes_doubled(s: Seq<char>) -> Seq<char>
    decreases s.len(),
{
    if s.len() == 0 {
        Seq::empty()
    } else if s.last() == '\'' {
        quotes_doubled(s.drop_last()).push('\'').push('\'')
    } else {
        quotes_doubled(s.drop_last()).push(s.last())
    }
}

/// A text as the inside of a string of PowerShell.
pub fn powershell_string_literal(s: &str) -> (r: String)
    ensures
        r@ == quotes_doubled(s@),
{
    let v = chars_of(s);
    let mut out = String::new();
    let mut i: usize = 0;
    assert(v@.take(0) =~= Seq::<char>::empty());
    assert(out@ =~= quotes_doubled(v@.take(0)));
    while i < v.len()
        invariant
            i <= v.len(),
            out@ == quotes_doubled(v@.take(i as int)),
        decreases v.len() - i,
    {
        assert(v@.take(i + 1).drop_last() =~= v@.take(i as int));
        if v[i] == '\'' {
            out.push('\'');
        }
        out.push(v[i]);
        i = i + 1;
    }
    assert(v@.take(i as int) =~= v@);
    out
}

pub open spec fn notifier_command(program: Seq<char>, app: Option<TerminalApp>, title: Seq<char>, body: Seq<char>) -> CommandView {
    CommandView {
        program,
        args: seq!["-title"@, title, "-message"@, body] + (match bundle_id(app) {
            Some(id) => seq!["-activate"@, id],
            None => Seq::empty(),
        }),
    }
}

pub open spec fn osascript_command(title: Seq<char>, body: Seq<char>) -> CommandView {
    CommandView {
        program: "osascript"@,
        args: seq![
            "-e"@,
            "display notification "@ + ("\""@ + backslashed(body) + "\""@) + " with title "@ + ("\""@ + backslashed(
                title,
            ) + "\""@),
        ],
    }
}

pub open spec fn notify_send_command(title: Seq<char>, body: Seq<char>) -> CommandView {
    CommandView { program: "notify-send"@, args: seq![title, body] }
}

pub open spec fn powershell_command(title: Seq<char>, body: Seq<char>) -> CommandView {
    CommandView {
        program: "powershell.exe"@,
        args: seq![
            "-NoProfile"@,
            "-NonInteractive"@,
            "-WindowStyle"@,
            "Hidden"@,
            "-Command"@,
            "Add-Type -AssemblyName System.Windows.Forms; Add-Type -AssemblyName System.Drawing; $n = New-Object System.Windows.Forms.NotifyIcon; $n.Icon = [System.Drawing.SystemIcons]::Information; $n.BalloonTipTitle = '"@
                + quotes_doubled(title) + "'; $n.BalloonTipText = '"@ + quotes_doubled(body)
                + "'; $n.Visible = $true; $n.ShowBalloonTip(5000); Start-Sleep -Milliseconds 5500; $n.Dispose();"@,
        ],
    }
}

/// The programs that tell the desktop, in the order in which they are tried until
/// one runs.
pub open spec fn system_commands_of(
    platform: Platform,
    notifier: Option<Seq<char>>,
    app: Option<TerminalApp>,
    title: Seq<char>,
    body: Seq<char>,
) -> Seq<CommandView> {
    match platform {
        Platform::MacOs => match notifier {
            Some(p) => seq![notifier_command(p, app, title, body), osascript_command(title, body)],
            None => seq![osascript_command(title, body)],
        },
        Platform::Linux => seq![notify_send_command(title, body)],
        Platform::Windows => seq![powershell_command(title, body)],
        Platform::Other => Seq::empty(),
    }
}

pub open spec fn command_views(v: Seq<SystemCommand>) -> Seq<CommandView> {
    v.map_values(|c: SystemCommand| c@)
}

fn push_arg(args: &mut Vec<String>, a: &str)
    ensures
        texts(final(args)@) == texts(old(args)@).push(a@),
{
    let ghost was = args@;
    args.push(a.to_owned());
    assert(texts(args@) =~= texts(was).push(a@));
}

/// The programs that tell the desktop. `notifier` is where `terminal-notifier` is,
/// if it is anywhere.
pub fn system_commands(
    platform: Platform,
    notifier: &Option<String>,
    app: Option<TerminalApp>,
    title: &str,
    body: &str,
) -> (r: Vec<SystemCommand>)
    ensures
        command_views(r@) == system_commands_of(platform, crate::text::opt(*notifier), app, title@, body@),
{
    let mut out: Vec<SystemCommand> = Vec::new();
    let mut args: Vec<String> = Vec::new();
    assert(texts(args@) =~= Seq::<Seq<char>>::empty());
    match platform {
        Platform::MacOs => {
            if let Some(program) = notifier {
                push_arg(&mut args, "-title");
                push_arg(&mut args, title);
                push_arg(&mut args, "-message");
                push_arg(&mut args, body);
                let ghost first = texts(args@);
                assert(first =~= seq!["-title"@, title@, "-message"@, body@]);
                if let Some(id) = macos_terminal_bundle_id(app) {
                    push_arg(&mut args, "-activate");
                    push_arg(&mut args, id);
                }
                assert(texts(args@) =~= notifier_command(program@, app, title@, body@).args);
                out.push(SystemCommand { program: program.clone(), args });
                assert(out@[0]@ =~= notifier_command(program@, app, title@, body@));
            }
            let mut script: String = "display notification ".to_owned();
            script.append(apple_script_string(body).as_str());
            script.append(" with title ");
            script.append(apple_script_string(title).as_str());
            let mut args: Vec<String> = Vec::new();
            assert(texts(args@) =~= Seq::<Seq<char>>::empty());
            push_arg(&mut args, "-e");
            push_arg(&mut args, script.as_str());
            assert(texts(args@) =~= osascript_command(title@, body@).args);
            out.push(SystemCommand { program: "osascript".to_owned(), args });
        },
        Platform::Linux => {
            push_arg(&mut args, title);
            push_arg(&mut args, body);
            assert(texts(args@) =~= notify_send_command(title@, body@).args);
            out.push(SystemCommand { program: "notify-send".to_owned(), args });
        },
        Platform::Windows => {
            let mut script: String =
                "Add-Type -AssemblyName System.Windows.Forms; Add-Type -AssemblyName System.Drawing; $n = New-Object System.Windows.Forms.NotifyIcon; $n.Icon = [System.Drawing.SystemIcons]::Information; $n.BalloonTipTitle = '".to_owned();
            script.append(powershell_string_literal(title).as_str());
            script.append("'; $n.BalloonTipText = '");
            script.append(powershell_string_literal(body).as_str());
            script.append("'; $n.Visible = $true; $n.ShowBalloonTip(5000); Start-Sleep -Milliseconds 5500; $n.Dispose();");
            push_arg(&mut args, "-NoProfile");
            push_arg(&mut args, "-NonInteractive");
            push_arg(&mut args, "-WindowStyle");
            push_arg(&mut args, "Hidden");
            push_arg(&mut args, "-Command");
            push_arg(&mut args, script.as_str());
            assert(texts(args@) =~= powershell_command(title@, body@).args);
            out.push(SystemCommand { program: "powershell.exe".to_owned(), args });
        },
        Platform::Other => {},
    }
    assert(command_views(out@) =~= system_commands_of(platform, crate::text::opt(*notifier), app, title@, body@));
    out
}

// ---- What holds of all notifications ----

/// Whether a text holds no control characters.
pub open spec fn is_clean(s: Seq<char>) -> bool {
    forall|i: int| 0 <= i < s.len() ==> !is_control(#[trigger] s[i])
}

proof fn lemma_words_clean(s: Seq<char>, word: Seq<char>)
    requires
        is_clean(s),
        is_clean(word),
    ensures
        forall|i: int| 0 <= i < words_from(s, word).len() ==> is_clean(#[trigger] words_from(s, word)[i]),
    decreases s.len(),
{
    let all = words_from(s, word);
    if s.len() == 0 {
        assert forall|i: int| 0 <= i < all.len() implies is_clean(#[trigger] all[i]) by {
            assert(all[i] == word);
        }
    } else {
        assert(is_clean(s.skip(1))) by {
            assert forall|i: int| 0 <= i < s.skip(1).len() implies !is_control(#[trigger] s.skip(1)[i]) by {
                assert(s.skip(1)[i] == s[i + 1]);
            }
        }
        let next = if is_space(s[0]) {
            Seq::empty()
        } else {
            word.push(s[0])
        };
        assert(is_clean(next)) by {
            assert(!is_control(s[0]));
        }
        let rest = words_from(s.skip(1), next);
        lemma_words_clean(s.skip(1), next);
        assert forall|i: int| 0 <= i < all.len() implies is_clean(#[trigger] all[i]) by {
            if is_space(s[0]) && word.len() > 0 {
                if i > 0 {
                    assert(all[i] == rest[i - 1]);
                } else {
                    assert(all[i] == word);
                }
            } else {
                assert(all[i] == rest[i]);
            }
        }
    }
}

proof fn lemma_join_clean(parts: Seq<Seq<char>>, sep: Seq<char>)
    requires
        forall|i: int| 0 <= i < parts.len() ==> is_clean(#[trigger] parts[i]),
        is_clean(sep),
    ensures
        is_clean(join(parts, sep)),
    decreases parts.len(),
{
    if parts.len() > 1 {
        assert forall|i: int| 0 <= i < parts.drop_last().len() implies is_clean(#[trigger] parts.drop_last()[i]) by {
            assert(parts.drop_last()[i] == parts[i]);
        }
        lemma_join_clean(parts.drop_last(), sep);
        assert(is_clean(parts[parts.len() - 1]));
    } else if parts.len() == 1 {
        assert(is_clean(parts[0]));
    }
}

/// What is sent to a terminal inside a sequence holds no control characters, so
/// that no title or text can end the sequence or start another.
pub proof fn payloads_are_clean(s: Seq<char>)
    ensures
        is_clean(plain_text(s)),
{
    reveal_strlit(" ");
    assert(is_clean(blanked(s)));
    lemma_words_clean(blanked(s), Seq::empty());
    lemma_join_clean(words_from(blanked(s), Seq::empty()), " "@);
}

/// Nothing is shown while the terminal is known to have the focus, where only the
/// background is to be told.
pub proof fn the_focused_are_not_disturbed(cfg: NotificationConfig, platform: Platform, event: NotificationEvent)
    requires
        cfg.background_only,
    ensures
        plan_of(cfg, FocusState { focused: Some(true) }, platform, event) is None,
{
}

/// An approval is shown however short the turn was.
pub proof fn approvals_have_no_threshold(
    cfg: NotificationConfig,
    focus: FocusState,
    platform: Platform,
    a: ApprovalNotification,
)
    requires
        cfg.enabled,
        !(cfg.background_only && focus.focused == Some(true)),
    ensures
        plan_of(cfg, focus, platform, NotificationEvent::ApprovalNeeded(a)) is Some,
{
}

/// While nothing is known of the focus, the desktop is told only where the
/// foreground may be told as well.
pub proof fn the_desktop_needs_lost_focus(cfg: NotificationConfig, platform: Platform)
    ensures
        uses_system(cfg, FocusState { focused: None }, platform) ==> !cfg.background_only,
{
}

/// A turn is told of where notifications are on and it took at least as long as is
/// configured, unless the terminal has the focus and only the background is to be told;
/// otherwise it is not.
pub proof fn long_turns_are_told_of(cfg: NotificationConfig, focus: FocusState, platform: Platform, t: TurnNotification)
    ensures
        ({
            let plan = plan_of(cfg, focus, platform, NotificationEvent::TurnFinished(t));
            &&& !cfg.enabled ==> plan is None
            &&& t.duration.secs < cfg.min_duration_secs ==> plan is None
            &&& cfg.enabled && t.duration.secs >= cfg.min_duration_secs && !cfg.background_only ==> plan is Some
            &&& cfg.enabled && t.duration.secs >= cfg.min_duration_secs && focus.focused != Some(true) ==> plan is Some
            &&& plan is Some ==> plan->0.emit_terminal == cfg.terminal && plan->0.emit_bell == cfg.bell
            &&& plan is Some ==> (plan->0.emit_system <==> cfg.system && platform != Platform::Windows && (
            !cfg.background_only || focus.focused == Some(false)))
        }),
{
}

/// What is told of a turn says how it ended, how long it took and how much it did: in
/// milliseconds below a second, in seconds from there on.
pub proof fn turns_are_summed_up(t: TurnNotification)
    ensures
        t.stop_reason == TurnStopReason::Natural ==> stop_title(t.stop_reason) == "AtomCode done"@ && starts_with(
            turn_body(t),
            "Done · "@,
        ),
        t.stop_reason == TurnStopReason::Cancelled ==> stop_title(t.stop_reason) == "AtomCode cancelled"@ && starts_with(
            turn_body(t),
            "Cancelled · "@,
        ),
        t.stop_reason == TurnStopReason::Error ==> stop_title(t.stop_reason) == "AtomCode failed"@ && starts_with(
            turn_body(t),
            "Failed · "@,
        ),
        t.stop_reason == TurnStopReason::TurnLimit || t.stop_reason == TurnStopReason::StepLimit ==> stop_title(
            t.stop_reason,
        ) == "AtomCode stopped"@ && starts_with(turn_body(t), "Stopped · "@),
        t.duration.secs == 0 && t.duration.nanos < 1_000_000_000 ==> contains(
            turn_body(t),
            decimal((t.duration.nanos / 1_000_000) as nat) + "ms"@,
        ),
        t.duration.secs >= 1 ==> contains(turn_body(t), t.duration.seconds@ + "s"@),
        t.turn_count > 0 ==> contains(turn_body(t), decimal(t.turn_count as nat) + " rounds"@),
        t.tool_call_count > 0 ==> contains(turn_body(t), decimal(t.tool_call_count as nat) + " tools"@),
{
    reveal_strlit("Done");
    reveal_strlit("Cancelled");
    reveal_strlit("Failed");
    reveal_strlit("Stopped");
    reveal_strlit("Done · ");
    reveal_strlit("Cancelled · ");
    reveal_strlit("Failed · ");
    reveal_strlit("Stopped · ");
    reveal_strlit(" · ");
    let dot = " · "@;
    assert("Done"@ + dot =~= "Done · "@);
    assert("Cancelled"@ + dot =~= "Cancelled · "@);
    assert("Failed"@ + dot =~= "Failed · "@);
    assert("Stopped"@ + dot =~= "Stopped · "@);
    let status = stop_status(t.stop_reason) + dot;
    let time = duration_text(t.duration);
    let rounds = counted(t.turn_count, " rounds"@);
    let tools = counted(t.tool_call_count, " tools"@);
    let body = turn_body(t);
    lemma_body_parts(body, status, time, rounds, tools);
    if t.turn_count > 0 {
        lemma_counted(body, status + time, decimal(t.turn_count as nat) + " rounds"@, tools);
        assert(rounds =~= dot + (decimal(t.turn_count as nat) + " rounds"@));
    }
    if t.tool_call_count > 0 {
        lemma_counted(body, status + time + rounds, decimal(t.tool_call_count as nat) + " tools"@, Seq::empty());
        assert(tools =~= dot + (decimal(t.tool_call_count as nat) + " tools"@));
        assert(body =~= status + time + rounds + tools + Seq::<char>::empty());
    }
}

proof fn lemma_body_parts(body: Seq<char>, status: Seq<char>, time: Seq<char>, rounds: Seq<char>, tools: Seq<char>)
    requires
        body == status + time + rounds + tools,
    ensures
        starts_with(body, status),
        contains(body, time),
{
    assert(body.subrange(0, status.len() as int) =~= status);
    assert(body =~= status + time + (rounds + tools));
    lemma_holds(body, status, time, rounds + tools);
}

proof fn lemma_counted(body: Seq<char>, before: Seq<char>, what: Seq<char>, after: Seq<char>)
    ensures
        body == before + (" · "@ + what) + after ==> contains(body, what),
{
    if body == before + (" · "@ + what) + after {
        assert(body =~= (before + " · "@) + what + after);
        lemma_holds(body, before + " · "@, what, after);
    }
}

/// What is told of an approval names the tool, and where it is asked for and the detail
/// where these are known.
pub proof fn approvals_name_the_tool(a: ApprovalNotification)
    ensures
        starts_with(approval_body(a), a.tool_name@ + " is waiting for Y/A/N"@),
        a.detail is Some ==> contains(approval_body(a), trim(a.detail->0@)),
        a.working_dir is Some && file_name(a.working_dir->0@) is Some ==> contains(
            approval_body(a),
            file_name(a.working_dir->0@)->0,
        ),
{
    let head = a.tool_name@ + " is waiting for Y/A/N"@;
    let scope = match scope_of(a.working_dir) {
        Some(s) => if s.len() > 0 {
            " · "@ + s
        } else {
            Seq::empty()
        },
        None => Seq::empty(),
    };
    let detail = match a.detail {
        Some(d) => if trim(d@).len() > 0 {
            " · "@ + trim(d@)
        } else {
            Seq::empty()
        },
        None => Seq::empty(),
    };
    let all = approval_body(a);
    assert(all.subrange(0, head.len() as int) =~= head);
    if a.detail is Some {
        let d = trim(a.detail->0@);
        if d.len() > 0 {
            assert(all =~= (head + scope + " · "@) + d + Seq::<char>::empty());
            lemma_holds(all, head + scope + " · "@, d, Seq::empty());
        } else {
            assert(all =~= Seq::<char>::empty() + d + all);
            lemma_holds(all, Seq::empty(), d, all);
        }
    }
    if a.working_dir is Some && file_name(a.working_dir->0@) is Some {
        let s = file_name(a.working_dir->0@)->0;
        if s.len() > 0 {
            assert(all =~= (head + " · "@) + s + detail);
            lemma_holds(all, head + " · "@, s, detail);
        } else {
            assert(all =~= Seq::<char>::empty() + s + all);
            lemma_holds(all, Seq::empty(), s, all);
        }
    }
}

/// What a terminal sets in the environment for itself tells it, before any name of a
/// program; the name of the program counts before that of the session, and in any case
/// of its letters.
pub proof fn terminals_are_told_by_their_own_signs(e: TerminalEnv)
    ensures
        e.has_kitty_window_id ==> terminal_of(e) == Some(TerminalApp::Kitty),
        !e.has_kitty_window_id && e.has_wezterm_pane ==> terminal_of(e) == Some(TerminalApp::WezTerm),
        !e.has_kitty_window_id && !e.has_wezterm_pane && e.has_wt_session ==> terminal_of(e) == Some(
            TerminalApp::WindowsTerminal,
        ),
        !e.has_kitty_window_id && !e.has_wezterm_pane && !e.has_wt_session && ascii_lower_text(e.term_program@)
            == ascii_lower_text("wezterm"@) ==> terminal_of(e) == Some(TerminalApp::WezTerm),
{
}

/// Each terminal is sent what it understands: an identifier, the title and the text apart
/// where it takes them so, or both in one; where it takes nothing, nothing is sent.
pub proof fn terminals_are_sent_title_and_text(plan: PlanView)
    ensures
        sequence_of(TerminalApp::AppleTerminal, plan) is None,
        sequence_of(TerminalApp::WindowsTerminal, plan) is None,
        sequence_of(TerminalApp::WezTerm, plan) == sequence_of(TerminalApp::Ghostty, plan),
        sequence_of(TerminalApp::Kitty, plan) is Some && contains(
            sequence_of(TerminalApp::Kitty, plan)->0,
            "i="@ + plan.terminal_id + ":o=unfocused:d=0;"@ + plain_text(plan.title),
        ),
        contains(
            sequence_of(TerminalApp::Kitty, plan)->0,
            "i="@ + plan.terminal_id + ":p=body;"@ + plain_text(plan.body),
        ),
        sequence_of(TerminalApp::WezTerm, plan) is Some && contains(
            sequence_of(TerminalApp::WezTerm, plan)->0,
            "notify;"@ + exchanged(plain_text(plan.title), ';', ':') + ";"@ + exchanged(plain_text(plan.body), ';', ':'),
        ),
        sequence_for(None, plan) is None,
{
    reveal_strlit("\x1b]99;i=");
    reveal_strlit("i=");
    reveal_strlit("\x1b]777;notify;");
    reveal_strlit("notify;");
    let st = "\x1b\\"@;
    let head = "\x1b]99;i="@.take(5);
    assert("\x1b]99;i="@ =~= head + "i="@);
    let id = plan.terminal_id;
    let title = "i="@ + id + ":o=unfocused:d=0;"@ + plain_text(plan.title);
    let body = "i="@ + id + ":p=body;"@ + plain_text(plan.body);
    let k = kitty_sequence(id, plan.title, plan.body);
    lemma_kitty(k, head, title, st, body);
    assert(k =~= head + title + st + head + body + st);
    let o = osc777_sequence(plan.title, plan.body);
    let lead = "\x1b]777;notify;"@.take(6);
    assert("\x1b]777;notify;"@ =~= lead + "notify;"@);
    let inner = "notify;"@ + exchanged(plain_text(plan.title), ';', ':') + ";"@ + exchanged(
        plain_text(plan.body),
        ';',
        ':',
    );
    assert(o =~= lead + inner + st);
    lemma_holds(o, lead, inner, st);
}

proof fn lemma_kitty(k: Seq<char>, head: Seq<char>, title: Seq<char>, st: Seq<char>, body: Seq<char>)
    ensures
        k == head + title + st + head + body + st ==> contains(k, title) && contains(k, body),
{
    if k == head + title + st + head + body + st {
        assert(k =~= head + title + (st + head + body + st));
        lemma_holds(k, head, title, st + head + body + st);
        lemma_holds(k, head + title + st + head, body, st);
    }
}

/// A word without white space and control characters is kept as it is, and two of them
/// stand one space apart, however far apart they were.
pub proof fn plain_words_are_kept(a: Seq<char>, b: Seq<char>, gap: Seq<char>)
    requires
        a.len() > 0,
        b.len() > 0,
        gap.len() > 0,
        forall|i: int| 0 <= i < a.len() ==> !is_space(#[trigger] a[i]) && !is_control(a[i]),
        forall|i: int| 0 <= i < b.len() ==> !is_space(#[trigger] b[i]) && !is_control(b[i]),
        forall|i: int| 0 <= i < gap.len() ==> is_space(#[trigger] gap[i]) || is_control(gap[i]),
    ensures
        plain_text(a) == a,
        plain_text(a + gap + b) == a + " "@ + b,
{
    let none = Seq::<char>::empty();
    assert(blanked(a) =~= a);
    lemma_word_taken(a, none, none);
    assert(a + none =~= a);
    assert(none + a =~= a);
    assert(words_from(none, a) =~= seq![a]);
    assert(join(seq![a], " "@) == a);
    let g = blanked(gap);
    assert forall|i: int| 0 <= i < g.len() implies is_space(#[trigger] g[i]) by {
        assert(is_space(gap[i]) || is_control(gap[i]));
    }
    assert(blanked(a + gap + b) =~= a + (g + b)) by {
        assert(blanked(b) =~= b);
    }
    lemma_word_taken(a, g + b, none);
    assert((g + b)[0] == g[0]);
    assert((g + b).skip(1) =~= g.skip(1) + b);
    assert forall|i: int| 0 <= i < g.skip(1).len() implies is_space(#[trigger] g.skip(1)[i]) by {
        assert(g.skip(1)[i] == g[i + 1]);
    }
    lemma_gap(g.skip(1), b);
    lemma_word_taken(b, none, none);
    assert(b + none =~= b);
    assert(none + b =~= b);
    assert(words_from(none, b) =~= seq![b]);
    assert(words_from(b, none) == seq![b]);
    let two = seq![a] + seq![b];
    assert(words_from(a + (g + b), none) == two);
    assert(two.drop_last() =~= seq![a]);
    assert(two.last() == b);
    assert(join(two, " "@) == join(seq![a], " "@) + " "@ + b);
}

proof fn lemma_word_taken(a: Seq<char>, rest: Seq<char>, word: Seq<char>)
    requires
        forall|i: int| 0 <= i < a.len() ==> !is_space(#[trigger] a[i]),
    ensures
        words_from(a + rest, word) == words_from(rest, word + a),
    decreases a.len(),
{
    if a.len() == 0 {
        assert(a + rest =~= rest);
        assert(word + a =~= word);
    } else {
        let t = a.skip(1);
        let all = a + rest;
        assert(all[0] == a[0] && !is_space(a[0]));
        assert(all.skip(1) =~= t + rest);
        assert forall|i: int| 0 <= i < t.len() implies !is_space(#[trigger] t[i]) by {
            assert(t[i] == a[i + 1]);
        }
        lemma_word_taken(t, rest, word.push(a[0]));
        assert(word.push(a[0]) + t =~= word + a);
    }
}

proof fn lemma_gap(g: Seq<char>, b: Seq<char>)
    requires
        forall|i: int| 0 <= i < g.len() ==> is_space(#[trigger] g[i]),
    ensures
        words_from(g + b, Seq::empty()) == words_from(b, Seq::empty()),
    decreases g.len(),
{
    if g.len() == 0 {
        assert(g + b =~= b);
    } else {
        let t = g.skip(1);
        assert((g + b)[0] == g[0] && is_space(g[0]));
        assert((g + b).skip(1) =~= t + b);
        assert forall|i: int| 0 <= i < t.len() implies is_space(#[trigger] t[i]) by {
            assert(t[i] == g[i + 1]);
        }
        lemma_gap(t, b);
    }
}

/// What a string of AppleScript stands for: a backslash takes the next character as it
/// is.
pub open spec fn unescaped(s: Seq<char>) -> Seq<char>
    decreases s.len(),
{
    if s.len() == 0 {
        Seq::empty()
    } else if s[0] == '\\' && s.len() > 1 {
        seq![s[1]] + unescaped(s.skip(2))
    } else {
        seq![s[0]] + unescaped(s.skip(1))
    }
}

/// A text is read back from its string, and no quote in it ends the string: each has a
/// backslash before it.
pub proof fn escaped_texts_are_read_back(s: Seq<char>)
    ensures
        unescaped(backslashed(s)) == s,
        forall|i: int| 0 <= i < backslashed(s).len() && #[trigger] backslashed(s)[i] == '"' ==> i > 0 && backslashed(s)[i - 1]
            == '\\',
    decreases s.len(),
{
    if s.len() > 0 {
        lemma_backslashed_first(s);
        let t = s.drop_first();
        escaped_texts_are_read_back(t);
        let all = backslashed(s);
        let rest = backslashed(t);
        if s[0] == '\\' || s[0] == '"' {
            assert(all =~= seq!['\\', s[0]] + rest);
            assert(all.skip(2) =~= rest);
            assert(unescaped(all) == seq![s[0]] + unescaped(rest));
            assert forall|i: int| 0 <= i < all.len() && #[trigger] all[i] == '"' implies i > 0 && all[i - 1] == '\\' by {
                if i >= 2 {
                    assert(all[i] == rest[i - 2]);
                }
            }
        } else {
            assert(all =~= seq![s[0]] + rest);
            assert(all.skip(1) =~= rest);
            assert(unescaped(all) == seq![s[0]] + unescaped(rest));
            assert forall|i: int| 0 <= i < all.len() && #[trigger] all[i] == '"' implies i > 0 && all[i - 1] == '\\' by {
                if i >= 1 {
                    assert(all[i] == rest[i - 1]);
                }
            }
        }
        assert(seq![s[0]] + t =~= s);
    } else {
        assert(unescaped(backslashed(s)) =~= s);
    }
}

proof fn lemma_backslashed_first(s: Seq<char>)
    requires
        s.len() > 0,
    ensures
        backslashed(s) == (if s[0] == '\\' || s[0] == '"' {
            seq!['\\', s[0]]
        } else {
            seq![s[0]]
        }) + backslashed(s.drop_first()),
    decreases s.len(),
{
    if s.len() == 1 {
        assert(s.drop_last().len() == 0);
        assert(s.drop_first().len() == 0);
        assert(backslashed(s.drop_last()) =~= Seq::<char>::empty());
        assert(backslashed(s.drop_first()) =~= Seq::<char>::empty());
        assert(s.last() == s[0]);
        assert(backslashed(s) =~= (if s[0] == '\\' || s[0] == '"' {
            seq!['\\', s[0]]
        } else {
            seq![s[0]]
        }) + backslashed(s.drop_first()));
    } else {
        lemma_backslashed_first(s.drop_last());
        assert(s.drop_last().drop_first() =~= s.drop_first().drop_last());
        assert(backslashed(s) =~= (if s[0] == '\\' || s[0] == '"' {
            seq!['\\', s[0]]
        } else {
            seq![s[0]]
        }) + backslashed(s.drop_first()));
    }
}

/// What the inside of a string of PowerShell stands for: two quotes are one.
pub open spec fn quotes_halved(s: Seq<char>) -> Seq<char>
    decreases s.len(),
{
    if s.len() == 0 {
        Seq::empty()
    } else if s.len() > 1 && s.last() == '\'' && s[s.len() - 2] == '\'' {
        quotes_halved(s.take(s.len() - 2)).push('\'')
    } else {
        quotes_halved(s.drop_last()).push(s.last())
    }
}

/// A text is read back from the inside of its string.
pub proof fn doubled_quotes_are_read_back(s: Seq<char>)
    ensures
        quotes_halved(quotes_doubled(s)) == s,
    decreases s.len(),
{
    if s.len() > 0 {
        let t = s.drop_last();
        doubled_quotes_are_read_back(t);
        let all = quotes_doubled(s);
        let rest = quotes_doubled(t);
        if s.last() == '\'' {
            assert(all.take(all.len() - 2) =~= rest);
        } else {
            assert(all.drop_last() =~= rest);
        }
        assert(t.push(s.last()) =~= s);
    } else {
        assert(quotes_halved(quotes_doubled(s)) =~= s);
    }
}

/// The desktop is told by the program of its platform, with the title and the text in
/// their places.
pub proof fn desktops_are_told_title_and_text(
    notifier: Seq<char>,
    app: Option<TerminalApp>,
    title: Seq<char>,
    body: Seq<char>,
)
    ensures
        ({
            let linux = system_commands_of(Platform::Linux, Some(notifier), app, title, body);
            let mac = system_commands_of(Platform::MacOs, None, app, title, body);
            let both = system_commands_of(Platform::MacOs, Some(notifier), app, title, body);
            let windows = system_commands_of(Platform::Windows, None, app, title, body);
            &&& linux.len() == 1 && linux[0].program == "notify-send"@ && linux[0].args == seq![title, body]
            &&& mac.len() == 1 && mac[0].program == "osascript"@ && mac[0].args[1] == "display notification \""@
                + backslashed(body) + "\" with title \""@ + backslashed(title) + "\""@
            &&& both.len() == 2 && both[0].program == notifier && both[1] == mac[0]
            &&& both[0].args.take(4) == seq!["-title"@, title, "-message"@, body]
            &&& windows.len() == 1 && contains(windows[0].args.last(), "BalloonTipTitle = '"@ + quotes_doubled(title) + "'"@)
            &&& contains(windows[0].args.last(), "BalloonTipText = '"@ + quotes_doubled(body) + "'"@)
            &&& system_commands_of(Platform::Other, Some(notifier), app, title, body).len() == 0
        }),
{
    let both = system_commands_of(Platform::MacOs, Some(notifier), app, title, body);
    let mac = system_commands_of(Platform::MacOs, None, app, title, body);
    reveal_strlit("display notification ");
    reveal_strlit("display notification \"");
    reveal_strlit("\" with title \"");
    reveal_strlit(" with title ");
    reveal_strlit("\"");
    assert("display notification "@ + "\""@ =~= "display notification \""@);
    assert("\""@ + " with title "@ + "\""@ =~= "\" with title \""@);
    assert(mac[0].args[1] =~= "display notification \""@ + backslashed(body) + "\" with title \""@ + backslashed(title)
        + "\""@);
    assert(both[0].args.take(4) =~= seq!["-title"@, title, "-message"@, body]);
    lemma_powershell(title, body);
}

proof fn lemma_powershell(title: Seq<char>, body: Seq<char>)
    ensures
        contains(powershell_command(title, body).args.last(), "BalloonTipTitle = '"@ + quotes_doubled(title) + "'"@),
        contains(powershell_command(title, body).args.last(), "BalloonTipText = '"@ + quotes_doubled(body) + "'"@),
{
    let first = "Add-Type -AssemblyName System.Windows.Forms; Add-Type -AssemblyName System.Drawing; $n = New-Object System.Windows.Forms.NotifyIcon; $n.Icon = [System.Drawing.SystemIcons]::Information; $n.BalloonTipTitle = '"@;
    let mid = "'; $n.BalloonTipText = '"@;
    let end = "'; $n.Visible = $true; $n.ShowBalloonTip(5000); Start-Sleep -Milliseconds 5500; $n.Dispose();"@;
    let all = powershell_command(title, body).args.last();
    let t = quotes_doubled(title);
    let b = quotes_doubled(body);
    assert(all =~= first + t + mid + b + end);
    reveal_strlit("Add-Type -AssemblyName System.Windows.Forms; Add-Type -AssemblyName System.Drawing; $n = New-Object System.Windows.Forms.NotifyIcon; $n.Icon = [System.Drawing.SystemIcons]::Information; $n.BalloonTipTitle = '");
    reveal_strlit("'; $n.BalloonTipText = '");
    reveal_strlit("'; $n.Visible = $true; $n.ShowBalloonTip(5000); Start-Sleep -Milliseconds 5500; $n.Dispose();");
    reveal_strlit("BalloonTipTitle = '");
    reveal_strlit("BalloonTipText = '");
    reveal_strlit("'");
    let a = "BalloonTipTitle = '"@;
    let c = "BalloonTipText = '"@;
    let q = "'"@;
    let n = first.len() - a.len();
    assert(first =~= first.take(n) + a);
    assert(mid =~= q + mid.skip(1));
    let m = mid.len() - c.len();
    assert(mid =~= mid.take(m) + c);
    assert(end =~= q + end.skip(1));
    assert(all =~= first.take(n) + (a + t + q) + (mid.skip(1) + b + end));
    lemma_holds(all, first.take(n), a + t + q, mid.skip(1) + b + end);
    assert(all =~= (first + t + mid.take(m)) + (c + b + q) + end.skip(1));
    lemma_holds(all, first + t + mid.take(m), c + b + q, end.skip(1));
}

/// iTerm2 shows title and text with a colon between them; where one of them is blank, the
/// other alone, without the colon; where both are, the name of the program.
pub proof fn blank_parts_are_not_shown(title: Seq<char>, body: Seq<char>)
    ensures
        trim(title).len() > 0 && trim(body).len() > 0 ==> iterm2_payload(title, body) == plain_text(
            title + ": "@ + body,
        ),
        trim(title).len() > 0 && trim(body).len() == 0 ==> iterm2_payload(title, body) == plain_text(title),
        trim(title).len() == 0 && trim(body).len() > 0 ==> iterm2_payload(title, body) == plain_text(body),
        trim(title).len() == 0 && trim(body).len() == 0 ==> iterm2_payload(title, body) == "AtomCode"@,
        contains(iterm2_sequence(title, body), iterm2_payload(title, body)),
{
    lemma_holds(iterm2_sequence(title, body), "\x1b]9;"@, iterm2_payload(title, body), "\x1b\\"@);
}

} // verus!
