//! What hooks make of a prompt that was submitted.

use vstd::prelude::*;
use vstd::string::*;

use crate::hook::{
    PromptOutputView, PromptView, UserPromptHookResult, UserPromptSubmitOutput, UserPromptSubmitPayload,
    UserPromptSubmitResult,
};
use crate::text::{
    contains, join, join_texts, joined_parts_are_kept, lemma_contains_itself, lemma_contains_within, lines, lines_of,
    opt, same, texts, trim, trim_text,
};

verus! {

/// The last text of a list that holds more than white space, without the white
/// space around it.
pub open spec fn last_nonblank(v: Seq<Seq<char>>) -> Option<Seq<char>>
    decreases v.len(),
{
    if v.len() == 0 {
        None
    } else if trim(v.last()).len() > 0 {
        Some(trim(v.last()))
    } else {
        last_nonblank(v.drop_last())
    }
}

/// The line of a command's output that holds its decision, if it gave one: the
/// last line that is not blank. The lines before it may be anything.
pub fn decision_line(stdout: &str) -> (r: Option<String>)
    ensures
        opt(r) == last_nonblank(lines(stdout@)),
{
    let all = lines_of(stdout);
    let ghost views = texts(all@);
    let mut n: usize = all.len();
    assert(views.take(n as int) =~= views);
    while n > 0
        invariant
            n <= all.len(),
            views == texts(all@),
            views == lines(stdout@),
            last_nonblank(views) == last_nonblank(views.take(n as int)),
        decreases n,
    {
        assert(views.take(n as int).last() == all@[n - 1]@);
        assert(views.take(n as int).drop_last() =~= views.take(n - 1));
        let t = trim_text(all[n - 1].as_str());
        if !t.as_str().is_empty() {
            return Some(t);
        }
        n = n - 1;
    }
    None
}

pub open spec fn blocks(p: Option<PromptOutputView>) -> bool {
    p is Some && p->0.decision == Some("block"@)
}

/// Why a command that failed is warned of.
pub open spec fn failure_reason(stdout: Seq<char>, stderr: Seq<char>) -> Seq<char> {
    if trim(stderr).len() > 0 {
        trim(stderr)
    } else if trim(stdout).len() > 0 {
        trim(stdout)
    } else {
        "hook exited with error"@
    }
}

/// What a command that ran to its end makes of a prompt. `parsed` is its decision
/// line, where that is a decision.
pub open spec fn command_says(
    exit_ok: bool,
    stdout: Seq<char>,
    stderr: Seq<char>,
    parsed: Option<PromptOutputView>,
) -> PromptView {
    if blocks(parsed) {
        PromptView::Block(
            match parsed->0.reason {
                Some(r) => r,
                None => "user prompt blocked by hook"@,
            },
        )
    } else if !exit_ok {
        PromptView::Warning(failure_reason(stdout, stderr))
    } else {
        match parsed {
            Some(p) => match p.additional_context {
                Some(c) => PromptView::Inject(c),
                None => PromptView::Continue,
            },
            None => if trim(stdout).len() > 0 {
                PromptView::Inject(trim(stdout))
            } else {
                PromptView::Continue
            },
        }
    }
}

/// How a command ended.
#[derive(Debug)]
pub struct CommandOutput {
    pub exit_ok: bool,
    pub stdout: String,
    pub stderr: String,
}

/// What one command makes of a prompt. A command that could not be run, or that
/// did not end in time, has no say.
pub fn prompt_reply(output: Option<CommandOutput>, parsed: Option<UserPromptSubmitOutput>) -> (r:
    UserPromptSubmitResult)
    ensures
        r@ == match output {
            Some(o) => command_says(
                o.exit_ok,
                o.stdout@,
                o.stderr@,
                match parsed {
                    Some(p) => Some(p@),
                    None => None,
                },
            ),
            None => PromptView::Continue,
        },
{
    let output = match output {
        Some(o) => o,
        None => return UserPromptSubmitResult::Continue,
    };
    if let Some(p) = &parsed {
        if let Some(d) = &p.decision {
            if same(d.as_str(), "block") {
                return match &p.reason {
                    Some(reason) => UserPromptSubmitResult::Block(reason.clone()),
                    None => UserPromptSubmitResult::Block("user prompt blocked by hook".to_owned()),
                };
            }
        }
    }
    if !output.exit_ok {
        let err = trim_text(output.stderr.as_str());
        if !err.as_str().is_empty() {
            return UserPromptSubmitResult::Warning(err);
        }
        let said = trim_text(output.stdout.as_str());
        if !said.as_str().is_empty() {
            return UserPromptSubmitResult::Warning(said);
        }
        return UserPromptSubmitResult::Warning("hook exited with error".to_owned());
    }
    match parsed {
        Some(p) => match p.hook_specific_output {
            Some(o) => match o.additional_context {
                Some(c) => UserPromptSubmitResult::Inject(c),
                None => UserPromptSubmitResult::Continue,
            },
            None => UserPromptSubmitResult::Continue,
        },
        None => {
            let said = trim_text(output.stdout.as_str());
            if said.as_str().is_empty() {
                UserPromptSubmitResult::Continue
            } else {
                UserPromptSubmitResult::Inject(said)
            }
        },
    }
}

/// What a command is told of a prompt.
pub fn prompt_payload(prompt: &str, session_id: &str, cwd: &str) -> (r: UserPromptSubmitPayload)
    ensures
        r.session_id@ == session_id@,
        r.hook_event_name@ == "UserPromptSubmit"@,
        r.prompt@ == prompt@,
        r.cwd@ == cwd@,
{
    UserPromptSubmitPayload {
        session_id: session_id.to_owned(),
        hook_event_name: "UserPromptSubmit".to_owned(),
        prompt: prompt.to_owned(),
        cwd: cwd.to_owned(),
    }
}

// ---- All hooks together ----

pub open spec fn prompt_views(v: Seq<UserPromptSubmitResult>) -> Seq<PromptView> {
    v.map_values(|r: UserPromptSubmitResult| r@)
}

/// The reason of the first hook that blocks.
pub open spec fn first_block(v: Seq<PromptView>) -> Option<Seq<char>>
    decreases v.len(),
{
    if v.len() == 0 {
        None
    } else {
        match first_block(v.drop_last()) {
            Some(r) => Some(r),
            None => match v.last() {
                PromptView::Block(r) => Some(r),
                _ => None,
            },
        }
    }
}

/// The warnings, in order.
pub open spec fn warnings_of(v: Seq<PromptView>) -> Seq<Seq<char>>
    decreases v.len(),
{
    if v.len() == 0 {
        Seq::empty()
    } else {
        match v.last() {
            PromptView::Warning(w) => warnings_of(v.drop_last()).push(w),
            _ => warnings_of(v.drop_last()),
        }
    }
}

/// A text behind another, with an empty line between them.
pub open spec fn with_context(acc: Seq<char>, extra: Seq<char>) -> Seq<char> {
    if acc.len() > 0 {
        acc + "\n\n"@ + extra
    } else {
        extra
    }
}

/// What the hooks add to a prompt, in order. Where `dense`, an addition without
/// text leaves no trace.
pub open spec fn injected_of(v: Seq<PromptView>, dense: bool) -> Seq<char>
    decreases v.len(),
{
    if v.len() == 0 {
        Seq::empty()
    } else {
        let before = injected_of(v.drop_last(), dense);
        match v.last() {
            PromptView::Inject(s) => if dense && s.len() == 0 {
                before
            } else {
                with_context(before, s)
            },
            _ => before,
        }
    }
}

/// What becomes of a prompt: the first block decides; without one a warning is
/// shown where there is any; else the additions go along.
pub open spec fn prompt_outcome(v: Seq<PromptView>, dense: bool) -> PromptView {
    match first_block(v) {
        Some(reason) => PromptView::Block(reason),
        None => if warnings_of(v).len() > 0 {
            PromptView::Warning(join(warnings_of(v), "; "@))
        } else if injected_of(v, dense).len() > 0 {
            PromptView::Inject(injected_of(v, dense))
        } else {
            PromptView::Continue
        },
    }
}

/// Puts a text behind another, with an empty line between them. A text without
/// characters adds nothing.
pub fn push_context(acc: &mut String, extra: &str)
    ensures
        final(acc)@ == (if extra@.len() == 0 {
            old(acc)@
        } else {
            with_context(old(acc)@, extra@)
        }),
{
    if extra.is_empty() {
        return;
    }
    join_context(acc, extra);
}

fn join_context(acc: &mut String, extra: &str)
    ensures
        final(acc)@ == with_context(old(acc)@, extra@),
{
    let ghost was = acc@;
    if !acc.as_str().is_empty() {
        acc.append("\n\n");
        acc.append(extra);
    } else {
        acc.append(extra);
        assert(acc@ =~= extra@);
    }
}

/// Whether a hook blocks, and why.
pub fn blocked(replies: &Vec<UserPromptSubmitResult>) -> (r: Option<String>)
    ensures
        opt(r) == first_block(prompt_views(replies@)),
{
    let ghost views = prompt_views(replies@);
    let mut i: usize = 0;
    assert(views.take(0) =~= Seq::<PromptView>::empty());
    while i < replies.len()
        invariant
            i <= replies.len(),
            views == prompt_views(replies@),
            first_block(views.take(i as int)) is None,
        decreases replies.len() - i,
    {
        assert(views.take(i + 1).drop_last() =~= views.take(i as int));
        assert(views.take(i + 1).last() == replies@[i as int]@);
        if let UserPromptSubmitResult::Block(reason) = &replies[i] {
            let found = reason.clone();
            proof {
                lemma_block_stays(views, i + 1);
            }
            return Some(found);
        }
        i = i + 1;
    }
    assert(views.take(i as int) =~= views);
    None
}

pub proof fn lemma_block_stays(v: Seq<PromptView>, n: int)
    requires
        0 <= n <= v.len(),
        first_block(v.take(n)) is Some,
    ensures
        first_block(v) == first_block(v.take(n)),
    decreases v.len() - n,
{
    if n == v.len() {
        assert(v.take(n) =~= v);
    } else {
        assert(v.take(n + 1).drop_last() =~= v.take(n));
        lemma_block_stays(v, n + 1);
    }
}

/// What becomes of a prompt, once every hook has had its say or one has blocked.
pub fn conclude(replies: &Vec<UserPromptSubmitResult>, dense: bool) -> (r: UserPromptHookResult)
    ensures
        r@ == prompt_outcome(prompt_views(replies@), dense),
{
    if let Some(reason) = blocked(replies) {
        return UserPromptHookResult::Block(reason);
    }
    let ghost views = prompt_views(replies@);
    let mut injected = String::new();
    let mut warnings: Vec<String> = Vec::new();
    let mut i: usize = 0;
    assert(views.take(0) =~= Seq::<PromptView>::empty());
    assert(injected@ =~= Seq::<char>::empty());
    assert(texts(warnings@) =~= Seq::<Seq<char>>::empty());
    while i < replies.len()
        invariant
            i <= replies.len(),
            views == prompt_views(replies@),
            injected@ == injected_of(views.take(i as int), dense),
            texts(warnings@) == warnings_of(views.take(i as int)),
        decreases replies.len() - i,
    {
        assert(views.take(i + 1).drop_last() =~= views.take(i as int));
        assert(views.take(i + 1).last() == replies@[i as int]@);
        let ghost was = warnings@;
        match &replies[i] {
            UserPromptSubmitResult::Inject(s) => {
                if dense {
                    push_context(&mut injected, s.as_str());
                } else {
                    join_context(&mut injected, s.as_str());
                }
            },
            UserPromptSubmitResult::Warning(w) => {
                warnings.push(w.clone());
                assert(texts(warnings@) =~= texts(was).push(w@));
            },
            _ => {},
        }
        i = i + 1;
    }
    assert(views.take(i as int) =~= views);
    assert(texts(warnings@).len() == warnings@.len());
    if warnings.len() > 0 {
        return UserPromptHookResult::Warning(join_texts(&warnings, "; "));
    }
    if injected.as_str().is_empty() {
        UserPromptHookResult::Continue
    } else {
        UserPromptHookResult::Inject(injected)
    }
}

/// Once a hook has blocked, nothing that a later hook says changes what becomes of
/// the prompt.
pub proof fn the_first_block_decides(v: Seq<PromptView>, later: Seq<PromptView>, dense: bool)
    requires
        first_block(v) is Some,
    ensures
        prompt_outcome(v + later, dense) == prompt_outcome(v, dense),
        prompt_outcome(v, dense) == PromptView::Block(first_block(v)->0),
{
    assert((v + later).take(v.len() as int) =~= v);
    lemma_block_stays(v + later, v.len() as int);
}

/// A prompt is blocked only where a hook says so.
pub proof fn only_hooks_block(v: Seq<PromptView>, dense: bool)
    requires
        forall|i: int| 0 <= i < v.len() ==> !(#[trigger] v[i] is Block),
    ensures
        !(prompt_outcome(v, dense) is Block),
    decreases v.len(),
{
    if v.len() > 0 {
        assert forall|i: int| 0 <= i < v.drop_last().len() implies !(#[trigger] v.drop_last()[i] is Block) by {
            assert(v.drop_last()[i] == v[i]);
        }
        only_hooks_block(v.drop_last(), dense);
        assert(!(v.last() is Block));
    }
}

/// Where all hooks pass, the prompt goes on as it is.
pub proof fn silent_hooks_change_nothing(v: Seq<PromptView>, dense: bool)
    requires
        forall|i: int| 0 <= i < v.len() ==> #[trigger] v[i] is Continue,
    ensures
        prompt_outcome(v, dense) is Continue,
    decreases v.len(),
{
    if v.len() > 0 {
        assert forall|i: int| 0 <= i < v.drop_last().len() implies #[trigger] v.drop_last()[i] is Continue by {
            assert(v.drop_last()[i] == v[i]);
        }
        silent_hooks_change_nothing(v.drop_last(), dense);
        assert(v.last() is Continue);
    }
}

/// A command that was not asked to block does not block, however it ended.
pub proof fn failing_commands_only_warn(stdout: Seq<char>, stderr: Seq<char>, parsed: Option<PromptOutputView>)
    requires
        !blocks(parsed),
    ensures
        command_says(false, stdout, stderr, parsed) is Warning,
        !(command_says(true, stdout, stderr, parsed) is Block),
{
}

/// The line that decides is the last that is not blank, without the white space around
/// it, whatever stands before it.
pub proof fn the_last_line_decides(v: Seq<Seq<char>>, i: int)
    requires
        0 <= i < v.len(),
        trim(v[i]).len() > 0,
        forall|k: int| i < k < v.len() ==> trim(#[trigger] v[k]).len() == 0,
    ensures
        last_nonblank(v) == Some(trim(v[i])),
    decreases v.len(),
{
    if i < v.len() - 1 {
        let t = v.drop_last();
        assert(trim(v[v.len() - 1]).len() == 0);
        assert(t[i] == v[i]);
        assert forall|k: int| i < k < t.len() implies trim(#[trigger] t[k]).len() == 0 by {
            assert(t[k] == v[k]);
        }
        the_last_line_decides(t, i);
    }
}

/// A decision to block blocks, also where the command failed; the reason is the one that
/// is given. Without such a decision a command that failed is warned of, with what it
/// wrote to its error output, else with what it printed. One that succeeded adds the
/// context of its decision, or what it printed where that is no decision.
pub proof fn commands_block_warn_or_add(
    exit_ok: bool,
    stdout: Seq<char>,
    stderr: Seq<char>,
    p: PromptOutputView,
    reason: Seq<char>,
)
    ensures
        p.decision == Some("block"@) && p.reason == Some(reason) ==> command_says(exit_ok, stdout, stderr, Some(p))
            == PromptView::Block(reason),
        p.decision == Some("block"@) ==> command_says(exit_ok, stdout, stderr, Some(p)) is Block,
        p.decision != Some("block"@) ==> !(command_says(exit_ok, stdout, stderr, Some(p)) is Block),
        trim(stderr).len() > 0 ==> command_says(false, stdout, stderr, None) == PromptView::Warning(trim(stderr)),
        trim(stderr).len() == 0 && trim(stdout).len() > 0 ==> command_says(false, stdout, stderr, None)
            == PromptView::Warning(trim(stdout)),
        trim(stdout).len() > 0 ==> command_says(true, stdout, stderr, None) == PromptView::Inject(trim(stdout)),
        trim(stdout).len() == 0 ==> command_says(true, stdout, stderr, None) == PromptView::Continue,
        p.decision != Some("block"@) && p.additional_context is Some ==> command_says(true, stdout, stderr, Some(p))
            == PromptView::Inject(p.additional_context->0),
        p.decision != Some("block"@) && p.additional_context is None ==> command_says(true, stdout, stderr, Some(p))
            == PromptView::Continue,
{
}

/// The reason of a block is that of the first hook that blocks.
pub proof fn a_block_has_the_first_reason(v: Seq<PromptView>, i: int, dense: bool)
    requires
        0 <= i < v.len(),
        v[i] is Block,
        forall|k: int| 0 <= k < i ==> !(#[trigger] v[k] is Block),
    ensures
        prompt_outcome(v, dense) == v[i],
{
    let t = v.take(i + 1);
    let before = v.take(i);
    assert(t.drop_last() =~= before);
    assert(t.last() == v[i]);
    only_hooks_block(before, dense);
    assert(first_block(before) is None);
    lemma_block_stays(v, i + 1);
}

/// Without a block, every warning is shown, before any addition; without either, every
/// addition goes along, each behind the ones before it with an empty line between them.
pub proof fn warnings_and_additions_are_kept(v: Seq<PromptView>, i: int, dense: bool)
    requires
        0 <= i < v.len(),
        forall|k: int| 0 <= k < v.len() ==> !(#[trigger] v[k] is Block),
    ensures
        v[i] matches PromptView::Warning(w) ==> prompt_outcome(v, dense) is Warning && contains(
            prompt_outcome(v, dense)->Warning_0,
            w,
        ),
        v[i] matches PromptView::Inject(s) ==> s.len() > 0 && (forall|k: int|
            0 <= k < v.len() ==> !(#[trigger] v[k] is Warning)) ==> prompt_outcome(v, dense) is Inject && contains(
            prompt_outcome(v, dense)->Inject_0,
            s,
        ),
{
    only_hooks_block(v, dense);
    if let PromptView::Warning(w) = v[i] {
        lemma_warnings(v, i);
        let ws = warnings_of(v);
        let k = choose|k: int| 0 <= k < ws.len() && ws[k] == w;
        joined_parts_are_kept(ws, "; "@, k);
    }
    if let PromptView::Inject(s) = v[i] {
        if s.len() > 0 {
            lemma_injected(v, i, dense);
        }
        if forall|k: int| 0 <= k < v.len() ==> !(#[trigger] v[k] is Warning) {
            lemma_no_warnings(v);
        }
    }
}

proof fn lemma_warnings(v: Seq<PromptView>, i: int)
    requires
        0 <= i < v.len(),
        v[i] is Warning,
    ensures
        warnings_of(v).contains(v[i]->Warning_0),
    decreases v.len(),
{
    let t = v.drop_last();
    let now = warnings_of(v);
    if i < v.len() - 1 {
        assert(t[i] == v[i]);
        lemma_warnings(t, i);
        let k = choose|k: int| 0 <= k < warnings_of(t).len() && warnings_of(t)[k] == v[i]->Warning_0;
        assert(now[k] == v[i]->Warning_0);
    } else {
        assert(now[now.len() - 1] == v[i]->Warning_0);
    }
}

proof fn lemma_no_warnings(v: Seq<PromptView>)
    requires
        forall|k: int| 0 <= k < v.len() ==> !(#[trigger] v[k] is Warning),
    ensures
        warnings_of(v).len() == 0,
    decreases v.len(),
{
    if v.len() > 0 {
        let t = v.drop_last();
        assert forall|k: int| 0 <= k < t.len() implies !(#[trigger] t[k] is Warning) by {
            assert(t[k] == v[k]);
        }
        lemma_no_warnings(t);
        assert(!(v[v.len() - 1] is Warning));
    }
}

proof fn lemma_injected(v: Seq<PromptView>, i: int, dense: bool)
    requires
        0 <= i < v.len(),
        v[i] is Inject,
        v[i]->Inject_0.len() > 0,
    ensures
        contains(injected_of(v, dense), v[i]->Inject_0),
        injected_of(v, dense).len() > 0,
    decreases v.len(),
{
    let s = v[i]->Inject_0;
    let t = v.drop_last();
    let before = injected_of(t, dense);
    let now = injected_of(v, dense);
    if i < v.len() - 1 {
        assert(t[i] == v[i]);
        lemma_injected(t, i, dense);
        if let PromptView::Inject(x) = v.last() {
            lemma_contains_within(Seq::empty(), before, "\n\n"@ + x, s);
            assert(Seq::<char>::empty() + before + ("\n\n"@ + x) =~= before + "\n\n"@ + x);
        }
    } else {
        lemma_contains_itself(s);
        lemma_contains_within(before + "\n\n"@, s, Seq::empty(), s);
        assert(before + "\n\n"@ + s + Seq::<char>::empty() =~= before + "\n\n"@ + s);
    }
}

/// Two additions go along in their order, with an empty line between them; an addition
/// without text, where those leave no trace, changes nothing.
pub proof fn additions_are_separated(a: Seq<char>, b: Seq<char>, v: Seq<PromptView>)
    requires
        a.len() > 0,
        b.len() > 0,
    ensures
        prompt_outcome(seq![PromptView::Inject(a), PromptView::Inject(b)], true) == PromptView::Inject(
            a + "\n\n"@ + b,
        ),
        prompt_outcome(seq![PromptView::Inject(a), PromptView::Inject(b)], false) == PromptView::Inject(
            a + "\n\n"@ + b,
        ),
        prompt_outcome(v.push(PromptView::Inject(Seq::empty())), true) == prompt_outcome(v, true),
        prompt_outcome(v.push(PromptView::Continue), true) == prompt_outcome(v, true),
        prompt_outcome(v.push(PromptView::Continue), false) == prompt_outcome(v, false),
{
    let x = seq![PromptView::Inject(a), PromptView::Inject(b)];
    let y = x.drop_last();
    assert(y =~= seq![PromptView::Inject(a)]);
    let z = y.drop_last();
    assert(z.len() == 0);
    assert(y.last() == PromptView::Inject(a));
    assert(x.last() == PromptView::Inject(b));
    assert(first_block(z) is None && first_block(y) is None && first_block(x) is None);
    assert(warnings_of(z).len() == 0);
    assert(warnings_of(y).len() == 0);
    assert(warnings_of(x).len() == 0);
    assert(injected_of(z, true).len() == 0 && injected_of(z, false).len() == 0);
    assert(injected_of(y, true) == a && injected_of(y, false) == a);
    assert(v.push(PromptView::Inject(Seq::empty())).drop_last() =~= v);
    assert(v.push(PromptView::Continue).drop_last() =~= v);
}

} // verus!
