//! Which hooks an event calls.

use vstd::prelude::*;
use vstd::string::*;

use crate::hook::{HookConfig, HookEvent};
use crate::seqs::{lemma_filter_all, lemma_filter_keeps};
use crate::text::{chars_of, opt, same, starts_with, starts_with_text, string_of};

verus! {

/// Whether a pattern stands for a tool: no pattern and `*` stand for all tools,
/// a pattern that ends in `*` for those that start like it, any other for the
/// tool of that name.
pub open spec fn pattern_matches(matcher: Option<Seq<char>>, tool_name: Seq<char>) -> bool {
    match matcher {
        None => true,
        Some(p) => if p.len() > 0 && p.last() == '*' {
            starts_with(tool_name, p.drop_last())
        } else {
            p == tool_name
        },
    }
}

pub fn matches_tool(matcher: &Option<String>, tool_name: &str) -> (r: bool)
    ensures
        r == pattern_matches(opt(*matcher), tool_name@),
{
    match matcher {
        None => true,
        Some(pattern) => {
            let v = chars_of(pattern.as_str());
            if v.len() > 0 && v[v.len() - 1] == '*' {
                let stem = string_of(&v, 0, v.len() - 1);
                assert(stem@ =~= pattern@.drop_last());
                starts_with_text(tool_name, stem.as_str())
            } else {
                same(pattern.as_str(), tool_name)
            }
        },
    }
}

/// Whether an event about a tool, or about none, calls a hook.
pub open spec fn called(h: HookConfig, event: HookEvent, tool_name: Option<Seq<char>>) -> bool {
    h.event == event && match tool_name {
        Some(t) => pattern_matches(opt(h.matcher), t),
        None => true,
    }
}

/// The hooks that an event calls, in their order.
pub open spec fn matched(hooks: Seq<HookConfig>, event: HookEvent, tool_name: Option<Seq<char>>) -> Seq<HookConfig> {
    hooks.filter(|h: HookConfig| called(h, event, tool_name))
}

pub open spec fn opt_str(s: Option<&str>) -> Option<Seq<char>> {
    match s {
        Some(t) => Some(t@),
        None => None,
    }
}

/// The hooks of a list of references.
pub open spec fn pointed(v: Seq<&HookConfig>) -> Seq<HookConfig> {
    v.map_values(|h: &HookConfig| *h)
}

/// The hooks that an event calls. For an event that is not about a tool, the
/// patterns do not count.
pub fn matching_hooks<'a>(hooks: &'a [HookConfig], event: HookEvent, tool_name: Option<&str>) -> (r: Vec<
    &'a HookConfig,
>)
    ensures
        pointed(r@) == matched(hooks@, event, opt_str(tool_name)),
{
    let ghost keep = |h: HookConfig| called(h, event, opt_str(tool_name));
    let mut out: Vec<&'a HookConfig> = Vec::new();
    let mut i: usize = 0;
    assert(hooks@.take(0) =~= Seq::<HookConfig>::empty());
    proof {
        reveal(Seq::filter);
    }
    assert(pointed(out@) =~= hooks@.take(0).filter(keep));
    while i < hooks.len()
        invariant
            i <= hooks.len(),
            keep == (|h: HookConfig| called(h, event, opt_str(tool_name))),
            pointed(out@) == hooks@.take(i as int).filter(keep),
        decreases hooks.len() - i,
    {
        let h = &hooks[i];
        let ghost was = out@;
        proof {
            reveal(Seq::filter);
            assert(hooks@.take(i + 1).drop_last() =~= hooks@.take(i as int));
            assert(hooks@.take(i + 1).last() == *h);
        }
        let wanted = match tool_name {
            Some(name) => matches_tool(&h.matcher, name),
            None => true,
        };
        if h.event == event && wanted {
            out.push(h);
            assert(pointed(out@) =~= pointed(was).push(*h));
        }
        i = i + 1;
    }
    assert(hooks@.take(i as int) =~= hooks@);
    out
}

/// `*` and no pattern at all stand for the same tools: all of them.
pub proof fn star_matches_everything(tool_name: Seq<char>)
    ensures
        pattern_matches(None, tool_name),
        pattern_matches(Some("*"@), tool_name),
{
    reveal_strlit("*");
    assert("*"@.drop_last() =~= Seq::<char>::empty());
    assert(tool_name.subrange(0, 0) =~= Seq::<char>::empty());
}

/// A pattern without a star stands for the tool of that name alone.
pub proof fn plain_patterns_are_exact(p: Seq<char>, tool_name: Seq<char>)
    requires
        p.len() == 0 || p.last() != '*',
    ensures
        pattern_matches(Some(p), tool_name) <==> p == tool_name,
{
}

/// A prefix pattern stands for the prefix followed by anything.
pub proof fn prefix_patterns_take_any_rest(stem: Seq<char>, rest: Seq<char>)
    ensures
        pattern_matches(Some(stem.push('*')), stem + rest),
{
    assert(stem.push('*').drop_last() =~= stem);
    assert((stem + rest).subrange(0, stem.len() as int) =~= stem);
}

/// A prefix pattern stands for no tool that does not start with the prefix.
pub proof fn prefix_patterns_need_the_prefix(stem: Seq<char>, tool_name: Seq<char>)
    ensures
        pattern_matches(Some(stem.push('*')), tool_name) ==> stem.is_prefix_of(tool_name),
{
    assert(stem.push('*').drop_last() =~= stem);
}

/// An event calls exactly the hooks that wait for it, in their order; for a tool, those
/// whose pattern stands for the tool. Where an event is about no tool, patterns do not
/// count.
pub proof fn events_call_their_hooks(hooks: Seq<HookConfig>, event: HookEvent, tool: Seq<char>, h: HookConfig)
    ensures
        matched(hooks, event, None).contains(h) <==> hooks.contains(h) && h.event == event,
        matched(hooks, event, Some(tool)).contains(h) <==> hooks.contains(h) && h.event == event && pattern_matches(
            opt(h.matcher),
            tool,
        ),
{
    let any = |x: HookConfig| called(x, event, None);
    let of_tool = |x: HookConfig| called(x, event, Some(tool));
    lemma_filter_all(hooks, any);
    lemma_filter_all(hooks, of_tool);
    if hooks.contains(h) && any(h) {
        lemma_filter_keeps(hooks, any, h);
    }
    if hooks.contains(h) && of_tool(h) {
        lemma_filter_keeps(hooks, of_tool, h);
    }
    if matched(hooks, event, None).contains(h) {
        let f = hooks.filter(any);
        let i = choose|i: int| 0 <= i < f.len() && f[i] == h;
        assert(any(f[i]));
        assert(hooks.contains(f[i]));
    }
    if matched(hooks, event, Some(tool)).contains(h) {
        let f = hooks.filter(of_tool);
        let i = choose|i: int| 0 <= i < f.len() && f[i] == h;
        assert(of_tool(f[i]));
        assert(hooks.contains(f[i]));
    }
}

} // verus!
