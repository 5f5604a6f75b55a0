//! Variables and home directories in configured texts.

use vstd::prelude::*;
use vstd::string::*;

use crate::hook::string_values;
use crate::paths::{join_path, joined};
use crate::text::{chars_of, same, starts_with, string_of, strip_prefix_text, without_prefix};
use crate::text_map::TextMap;

verus! {

/// Where a text first holds a closing brace, or its length.
pub open spec fn brace_at(v: Seq<char>) -> int
    decreases v.len(),
{
    if v.len() == 0 || v[0] == '}' {
        0
    } else {
        1 + brace_at(v.skip(1))
    }
}

/// Where a text first holds `:-`, or its length.
pub open spec fn default_at(v: Seq<char>) -> int
    decreases v.len(),
{
    if v.len() == 0 || (v.len() > 1 && v[0] == ':' && v[1] == '-') {
        0
    } else {
        1 + default_at(v.skip(1))
    }
}

/// What stands for the inside of `${..}`: the variable's value, or else what
/// follows `:-`.
pub open spec fn variable_value(inside: Seq<char>, env: Map<Seq<char>, Seq<char>>) -> Seq<char> {
    let k = default_at(inside);
    let name = inside.take(k);
    if env.contains_key(name) {
        env[name]
    } else if k < inside.len() {
        inside.skip(k + 2)
    } else {
        Seq::empty()
    }
}

/// A text with the value of each variable in place of `${name}` and
/// `${name:-default}`. A brace that is missing at the end is taken as there.
pub open spec fn expanded(v: Seq<char>, env: Map<Seq<char>, Seq<char>>) -> Seq<char>
    decreases v.len(),
{
    if v.len() == 0 {
        Seq::empty()
    } else if v.len() > 1 && v[0] == '$' && v[1] == '{' {
        let body = v.skip(2);
        let end = brace_at(body);
        if 0 <= end < body.len() {
            variable_value(body.take(end), env) + expanded(body.skip(end + 1), env)
        } else {
            variable_value(body, env)
        }
    } else {
        seq![v[0]] + expanded(v.skip(1), env)
    }
}

proof fn lemma_brace(v: Seq<char>)
    ensures
        0 <= brace_at(v) <= v.len(),
        forall|i: int| 0 <= i < brace_at(v) ==> #[trigger] v[i] != '}',
        brace_at(v) < v.len() ==> v[brace_at(v)] == '}',
    decreases v.len(),
{
    if v.len() > 0 && v[0] != '}' {
        lemma_brace(v.skip(1));
        assert forall|i: int| 0 <= i < brace_at(v) implies #[trigger] v[i] != '}' by {
            if i > 0 {
                assert(v.skip(1)[i - 1] == v[i]);
            }
        }
    }
}

proof fn lemma_brace_found(v: Seq<char>, k: int)
    requires
        0 <= k <= v.len(),
        forall|i: int| 0 <= i < k ==> #[trigger] v[i] != '}',
        k < v.len() ==> v[k] == '}',
    ensures
        brace_at(v) == k,
{
    lemma_brace(v);
    let b = brace_at(v);
    if b < k {
        assert(v[b] != '}');
    }
    if k < b {
        assert(v[k] != '}');
    }
}

fn find_default(v: &Vec<char>) -> (r: usize)
    ensures
        r == default_at(v@),
        r <= v.len(),
        r < v.len() ==> r + 2 <= v.len(),
{
    let mut i: usize = 0;
    assert(v@.skip(0) =~= v@);
    while i < v.len()
        invariant
            i <= v.len(),
            default_at(v@) == i + default_at(v@.skip(i as int)),
        decreases v.len() - i,
    {
        assert(v@.skip(i as int).skip(1) =~= v@.skip(i + 1));
        if i + 1 < v.len() && v[i] == ':' && v[i + 1] == '-' {
            return i;
        }
        i = i + 1;
    }
    i
}

fn value_inside(v: &Vec<char>, env: &TextMap<String>) -> (r: String)
    requires
        env.wf(),
    ensures
        r@ == variable_value(v@, string_values(env@)),
{
    let k = find_default(v);
    let name = string_of(v, 0, k);
    assert(name@ =~= v@.take(k as int));
    match env.get(name.as_str()) {
        Some(value) => value.clone(),
        None => if k < v.len() {
            let r = string_of(v, k + 2, v.len());
            assert(r@ =~= v@.skip(k + 2));
            r
        } else {
            let r = String::new();
            assert(r@ =~= Seq::<char>::empty());
            r
        },
    }
}

fn part(v: &Vec<char>, from: usize, to: usize) -> (r: Vec<char>)
    requires
        from <= to <= v.len(),
    ensures
        r@ == v@.subrange(from as int, to as int),
{
    let mut out: Vec<char> = Vec::new();
    let mut i: usize = from;
    while i < to
        invariant
            from <= i <= to <= v.len(),
            out@ =~= v@.subrange(from as int, i as int),
        decreases to - i,
    {
        out.push(v[i]);
        i = i + 1;
    }
    out
}

/// Fills in the variables of a configured text. `env` holds the variables of the
/// environment.
pub fn expand_env_vars(s: &str, env: &TextMap<String>) -> (r: String)
    requires
        env.wf(),
    ensures
        r@ == expanded(s@, string_values(env@)),
{
    let v = chars_of(s);
    let ghost vars = string_values(env@);
    let mut out = String::new();
    let mut i: usize = 0;
    assert(v@.skip(0) =~= v@);
    assert(out@ + expanded(v@, vars) =~= expanded(v@, vars));
    while i < v.len()
        invariant
            i <= v.len(),
            env.wf(),
            vars == string_values(env@),
            out@ + expanded(v@.skip(i as int), vars) == expanded(v@, vars),
        decreases v.len() - i,
    {
        let ghost rest = v@.skip(i as int);
        let ghost was = out@;
        if v[i] == '$' && i + 1 < v.len() && v[i + 1] == '{' {
            let start: usize = i + 2;
            let ghost body = rest.skip(2);
            let mut end: usize = start;
            while end < v.len() && v[end] != '}'
                invariant
                    start <= end <= v.len(),
                    body == v@.skip(start as int),
                    forall|k: int| 0 <= k < end - start ==> #[trigger] body[k] != '}',
                decreases v.len() - end,
            {
                assert(body[end - start] == v@[end as int]);
                end = end + 1;
            }
            proof {
                if end < v.len() {
                    assert(body[end - start] == v@[end as int]);
                }
                lemma_brace_found(body, end - start);
            }
            let inside = part(&v, start, end);
            let value = value_inside(&inside, env);
            out.append(value.as_str());
            if end < v.len() {
                assert(inside@ =~= body.take(end - start));
                assert(body.skip(end - start + 1) =~= v@.skip(end + 1));
                i = end + 1;
                assert(out@ + expanded(v@.skip(i as int), vars) =~= was + (value@ + expanded(
                    v@.skip(i as int),
                    vars,
                )));
            } else {
                assert(inside@ =~= body);
                i = end;
                assert(v@.skip(i as int) =~= Seq::<char>::empty());
                assert(out@ + Seq::<char>::empty() =~= was + value@);
            }
        } else {
            out.push(v[i]);
            assert(rest.skip(1) =~= v@.skip(i + 1));
            i = i + 1;
            assert(out@ + expanded(v@.skip(i as int), vars) =~= was + (seq![rest[0]] + expanded(
                v@.skip(i as int),
                vars,
            )));
        }
    }
    assert(v@.skip(i as int) =~= Seq::<char>::empty());
    assert(out@ + Seq::<char>::empty() =~= out@);
    out
}

/// A path with the home directory in place of a leading `~`, where there is one.
pub open spec fn tilde_text(s: Seq<char>, home: Option<Seq<char>>) -> Seq<char> {
    match home {
        Some(h) => if s == "~"@ {
            h
        } else {
            match without_prefix(s, "~/"@) {
                Some(rest) => joined(h, rest),
                None => s,
            }
        },
        None => s,
    }
}

/// Puts the home directory in place of a leading `~`. Other uses of `~` are left
/// as they are.
pub fn expand_tilde(s: &str, home: &Option<String>) -> (r: String)
    ensures
        r@ == tilde_text(s@, crate::text::opt(*home)),
{
    match home {
        Some(h) => {
            if same(s, "~") {
                return h.clone();
            }
            match strip_prefix_text(s, "~/") {
                Some(rest) => join_path(h.as_str(), rest.as_str()),
                None => s.to_owned(),
            }
        },
        None => s.to_owned(),
    }
}

/// Text without a dollar sign is left as it is.
pub proof fn plain_text_is_kept(v: Seq<char>, env: Map<Seq<char>, Seq<char>>)
    requires
        forall|i: int| 0 <= i < v.len() ==> #[trigger] v[i] != '$',
    ensures
        expanded(v, env) == v,
    decreases v.len(),
{
    if v.len() > 0 {
        assert(v[0] != '$');
        assert forall|i: int| 0 <= i < v.skip(1).len() implies #[trigger] v.skip(1)[i] != '$' by {
            assert(v.skip(1)[i] == v[i + 1]);
        }
        plain_text_is_kept(v.skip(1), env);
        assert(seq![v[0]] + v.skip(1) =~= v);
    } else {
        assert(v =~= Seq::<char>::empty());
    }
}

/// A variable stands for its value wherever its text holds one, and for its default
/// only where the environment has no such variable.
pub proof fn variables_win_over_defaults(name: Seq<char>, default: Seq<char>, env: Map<Seq<char>, Seq<char>>)
    requires
        forall|i: int| 0 <= i < name.len() ==> #[trigger] name[i] != ':',
    ensures
        variable_value(name + seq![':', '-'] + default, env) == (if env.contains_key(name) {
            env[name]
        } else {
            default
        }),
        variable_value(name, env) == (if env.contains_key(name) {
            env[name]
        } else {
            Seq::empty()
        }),
{
    let inside = name + seq![':', '-'] + default;
    lemma_default_at(inside, name.len() as int);
    assert(inside.take(name.len() as int) =~= name);
    assert(inside.skip(name.len() as int + 2) =~= default);
    lemma_no_default(name);
    assert(name.take(name.len() as int) =~= name);
}

proof fn lemma_default_at(v: Seq<char>, k: int)
    requires
        0 <= k,
        k + 1 < v.len(),
        v[k] == ':' && v[k + 1] == '-',
        forall|i: int| 0 <= i < k ==> #[trigger] v[i] != ':',
    ensures
        default_at(v) == k,
    decreases k,
{
    if k > 0 {
        assert(v[0] != ':');
        assert forall|i: int| 0 <= i < k - 1 implies #[trigger] v.skip(1)[i] != ':' by {
            assert(v.skip(1)[i] == v[i + 1]);
        }
        lemma_default_at(v.skip(1), k - 1);
    }
}

proof fn lemma_no_default(v: Seq<char>)
    requires
        forall|i: int| 0 <= i < v.len() ==> #[trigger] v[i] != ':',
    ensures
        default_at(v) == v.len(),
    decreases v.len(),
{
    if v.len() > 0 {
        assert(v[0] != ':');
        assert forall|i: int| 0 <= i < v.skip(1).len() implies #[trigger] v.skip(1)[i] != ':' by {
            assert(v.skip(1)[i] == v[i + 1]);
        }
        lemma_no_default(v.skip(1));
    }
}

/// What stands before the first variable of a text is kept.
proof fn lemma_expanded_front(front: Seq<char>, rest: Seq<char>, env: Map<Seq<char>, Seq<char>>)
    requires
        forall|i: int| 0 <= i < front.len() ==> #[trigger] front[i] != '$',
    ensures
        expanded(front + rest, env) == front + expanded(rest, env),
    decreases front.len(),
{
    let all = front + rest;
    if front.len() > 0 {
        let t = front.skip(1);
        assert(all[0] == front[0]);
        assert forall|i: int| 0 <= i < t.len() implies #[trigger] t[i] != '$' by {
            assert(t[i] == front[i + 1]);
        }
        lemma_expanded_front(t, rest, env);
        assert(all.skip(1) =~= t + rest);
        assert(seq![all[0]] + (t + expanded(rest, env)) =~= front + expanded(rest, env));
    } else {
        assert(all =~= rest);
        assert(front + expanded(rest, env) =~= expanded(rest, env));
    }
}

/// The value of a variable stands in the place of `${name}`, and of
/// `${name:-default}`, wherever in a text it is; where the environment lacks the
/// variable, its default does. What stands before is kept, and what follows is filled
/// in likewise.
pub proof fn values_stand_in_the_place_of_variables(
    front: Seq<char>,
    name: Seq<char>,
    default: Seq<char>,
    rest: Seq<char>,
    env: Map<Seq<char>, Seq<char>>,
)
    requires
        forall|i: int| 0 <= i < front.len() ==> #[trigger] front[i] != '$',
        forall|i: int| 0 <= i < name.len() ==> #[trigger] name[i] != ':' && name[i] != '}',
        forall|i: int| 0 <= i < default.len() ==> #[trigger] default[i] != '}',
    ensures
        expanded(front + seq!['$', '{'] + name + seq!['}'] + rest, env) == front + (if env.contains_key(name) {
            env[name]
        } else {
            Seq::empty()
        }) + expanded(rest, env),
        expanded(front + seq!['$', '{'] + name + seq![':', '-'] + default + seq!['}'] + rest, env) == front + (
        if env.contains_key(name) {
            env[name]
        } else {
            default
        }) + expanded(rest, env),
{
    variables_win_over_defaults(name, default, env);
    lemma_reference(front, name, rest, env);
    let inside = name + seq![':', '-'] + default;
    assert forall|i: int| 0 <= i < inside.len() implies #[trigger] inside[i] != '}' by {
        if i < name.len() {
            assert(inside[i] == name[i]);
        } else if i >= name.len() + 2 {
            assert(inside[i] == default[i - name.len() - 2]);
        }
    }
    lemma_reference(front, inside, rest, env);
    assert(front + seq!['$', '{'] + inside + seq!['}'] + rest =~= front + seq!['$', '{'] + name + seq![':', '-']
        + default + seq!['}'] + rest);
}

proof fn lemma_reference(front: Seq<char>, inside: Seq<char>, rest: Seq<char>, env: Map<Seq<char>, Seq<char>>)
    requires
        forall|i: int| 0 <= i < front.len() ==> #[trigger] front[i] != '$',
        forall|i: int| 0 <= i < inside.len() ==> #[trigger] inside[i] != '}',
    ensures
        expanded(front + seq!['$', '{'] + inside + seq!['}'] + rest, env) == front + variable_value(inside, env)
            + expanded(rest, env),
{
    let tail = seq!['$', '{'] + inside + seq!['}'] + rest;
    assert(front + seq!['$', '{'] + inside + seq!['}'] + rest =~= front + tail);
    lemma_expanded_front(front, tail, env);
    let body = tail.skip(2);
    assert(body =~= inside + seq!['}'] + rest);
    assert forall|i: int| 0 <= i < inside.len() implies #[trigger] body[i] != '}' by {
        assert(body[i] == inside[i]);
    }
    lemma_brace_found(body, inside.len() as int);
    assert(body.take(inside.len() as int) =~= inside);
    assert(body.skip(inside.len() as int + 1) =~= rest);
    assert(front + (variable_value(inside, env) + expanded(rest, env)) =~= front + variable_value(inside, env)
        + expanded(rest, env));
}

/// A leading `~` stands for the home directory, alone or before a separator; any other
/// text, and every text where no home is known, is kept.
pub proof fn a_leading_tilde_is_the_home(home: Seq<char>, rest: Seq<char>, s: Seq<char>)
    ensures
        tilde_text(seq!['~'], Some(home)) == home,
        rest.len() > 0 && rest[0] != '/' && home.len() > 0 && home.last() != '/' ==> tilde_text(
            seq!['~', '/'] + rest,
            Some(home),
        ) == home + seq!['/'] + rest,
        s.len() > 0 && s[0] != '~' ==> tilde_text(s, Some(home)) == s,
        s.len() > 1 && s[1] != '/' ==> tilde_text(s, Some(home)) == s,
        tilde_text(s, None) == s,
{
    reveal_strlit("~");
    reveal_strlit("~/");
    reveal_strlit("/");
    assert("~"@ =~= seq!['~']);
    assert("~/"@ =~= seq!['~', '/']);
    assert("/"@ =~= seq!['/']);
    let t = seq!['~', '/'] + rest;
    assert(t.subrange(0, 2) =~= seq!['~', '/']);
    assert(t.skip(2) =~= rest);
    if starts_with(s, "~/"@) {
        assert(s.subrange(0, 2)[0] == s[0]);
        assert(s.subrange(0, 2)[1] == s[1]);
    }
}

} // verus!
