//! A snapshot of the environment at the start of a session.

use vstd::prelude::*;
use vstd::string::*;

use crate::text::{
    contains, decimal, is_space, join, join_texts, lemma_contains_itself, lemma_contains_within, lines, lines_of, opt,
    push_decimal, same, split_on, texts, trim, trim_text, trimming_takes_white_space_alone,
};

verus! {

/// The state of a git repository when it was captured.
#[derive(Debug)]
pub struct GitSnapshot {
    /// The current branch; `None` where HEAD is detached.
    pub branch: Option<String>,
    /// The abbreviated hash and the subject of HEAD.
    pub head_oneline: Option<String>,
    /// The short status, cut to its first lines.
    pub status_short: String,
    /// Whether anything is modified or untracked.
    pub is_dirty: bool,
}

/// The most status lines that are shown.
pub const STATUS_MAX_LINES: usize = 20;

#[derive(Debug)]
pub struct EnvSnapshot {
    pub git: Option<GitSnapshot>,
}

#[verifier::ext_equal]
pub struct GitView {
    pub branch: Option<Seq<char>>,
    pub head_oneline: Option<Seq<char>>,
    pub status_short: Seq<char>,
    pub is_dirty: bool,
}

impl View for GitSnapshot {
    type V = GitView;

    open spec fn view(&self) -> GitView {
        GitView {
            branch: opt(self.branch),
            head_oneline: opt(self.head_oneline),
            status_short: self.status_short@,
            is_dirty: self.is_dirty,
        }
    }
}

impl View for EnvSnapshot {
    type V = Option<GitView>;

    open spec fn view(&self) -> Option<GitView> {
        match self.git {
            Some(g) => Some(g@),
            None => None,
        }
    }
}

/// What a git command printed, trimmed, unless it printed nothing.
pub open spec fn said(out: Option<Seq<char>>) -> Option<Seq<char>> {
    match out {
        Some(s) => if trim(s).len() > 0 {
            Some(trim(s))
        } else {
            None
        },
        None => None,
    }
}

/// The first `max` lines of a status, with a note on how many more there are.
pub open spec fn short_status(raw: Seq<char>, max: nat) -> Seq<char> {
    let ls = lines(raw);
    if ls.len() <= max {
        raw
    } else {
        join(ls.take(max as int), "\n"@) + "\n... and "@ + decimal((ls.len() - max) as nat)
            + " more line(s)\n"@
    }
}

pub fn truncate_status(raw: &str, max_lines: usize) -> (r: String)
    ensures
        r@ == short_status(raw@, max_lines as nat),
{
    let ls = lines_of(raw);
    let ghost all = lines(raw@);
    assert(texts(ls@).len() == ls@.len());
    if ls.len() <= max_lines {
        return raw.to_owned();
    }
    let mut kept: Vec<String> = Vec::new();
    let mut i: usize = 0;
    while i < max_lines
        invariant
            i <= max_lines < ls.len(),
            kept@.len() == i,
            forall|k: int| 0 <= k < i ==> #[trigger] kept@[k]@ == ls@[k]@,
        decreases max_lines - i,
    {
        kept.push(ls[i].clone());
        i = i + 1;
    }
    assert(texts(kept@) =~= all.take(max_lines as int));
    let mut out = join_texts(&kept, "\n");
    out.append("\n... and ");
    push_decimal(&mut out, (ls.len() - max_lines) as u64);
    out.append(" more line(s)\n");
    out
}

/// What is captured from what the git commands printed.
pub open spec fn captured(
    inside: Option<Seq<char>>,
    branch: Option<Seq<char>>,
    head: Option<Seq<char>>,
    status: Option<Seq<char>>,
) -> Option<GitView> {
    if inside is Some && trim(inside->0) == "true"@ {
        let raw = match status {
            Some(s) => trim(s),
            None => Seq::empty(),
        };
        Some(
            GitView {
                branch: said(branch),
                head_oneline: said(head),
                status_short: short_status(raw, STATUS_MAX_LINES as nat),
                is_dirty: trim(raw).len() > 0,
            },
        )
    } else {
        None
    }
}

fn non_empty(out: Option<String>) -> (r: Option<String>)
    ensures
        opt(r) == said(opt(out)),
{
    match out {
        Some(s) => {
            let t = trim_text(s.as_str());
            if t.as_str().is_empty() {
                None
            } else {
                Some(t)
            }
        },
        None => None,
    }
}

/// The prompt section of a snapshot.
pub open spec fn section(snap: Option<GitView>) -> Seq<char> {
    match snap {
        None => Seq::empty(),
        Some(git) => {
            let branch = match git.branch {
                Some(b) => "Branch: "@ + b + "\n"@,
                None => "Branch: (detached HEAD)\n"@,
            };
            let head = match git.head_oneline {
                Some(h) => "HEAD:   "@ + h + "\n"@,
                None => Seq::empty(),
            };
            let status = if git.is_dirty {
                "Status: "@ + decimal(lines(git.status_short).len()) + " change(s)\n"@
                    + git.status_short + (if git.status_short.len() > 0 && git.status_short.last()
                    == '\n' {
                    Seq::empty()
                } else {
                    seq!['\n']
                })
            } else {
                "Status: clean\n"@
            };
            "\n=== GIT STATUS (snapshot at session start, not live) ===\n"@ + branch + head + status
                + "\nThis is a snapshot from session start. Use `bash` + `git status` to check live state.\n"@
        },
    }
}

impl EnvSnapshot {
    /// The snapshot that the output of four git commands tells: whether this is
    /// a work tree, its branch, its HEAD and its status. `None` stands for a
    /// command that failed.
    pub fn capture(
        inside_work_tree: Option<String>,
        branch: Option<String>,
        head_oneline: Option<String>,
        status: Option<String>,
    ) -> (r: EnvSnapshot)
        ensures
            r@ == captured(opt(inside_work_tree), opt(branch), opt(head_oneline), opt(status)),
    {
        let inside = match &inside_work_tree {
            Some(s) => {
                let t = trim_text(s.as_str());
                same(t.as_str(), "true")
            },
            None => false,
        };
        if !inside {
            return EnvSnapshot { git: None };
        }
        let raw = match status {
            Some(s) => trim_text(s.as_str()),
            None => String::new(),
        };
        let rest = trim_text(raw.as_str());
        EnvSnapshot {
            git: Some(
                GitSnapshot {
                    branch: non_empty(branch),
                    head_oneline: non_empty(head_oneline),
                    status_short: truncate_status(raw.as_str(), STATUS_MAX_LINES),
                    is_dirty: !rest.as_str().is_empty(),
                },
            ),
        }
    }

    /// The section of the system prompt that shows the snapshot; nothing where
    /// there is no repository.
    pub fn as_prompt_section(&self) -> (r: String)
        ensures
            r@ == section(self@),
    {
        match &self.git {
            None => String::new(),
            Some(git) => {
                let mut out = "\n=== GIT STATUS (snapshot at session start, not live) ===\n".to_owned();
                let ghost a = out@;
                match &git.branch {
                    Some(b) => {
                        out.append("Branch: ");
                        out.append(b.as_str());
                        out.append("\n");
                        assert(out@ =~= a + ("Branch: "@ + b@ + "\n"@));
                    },
                    None => {
                        out.append("Branch: (detached HEAD)\n");
                    },
                }
                let ghost b = out@;
                match &git.head_oneline {
                    Some(h) => {
                        out.append("HEAD:   ");
                        out.append(h.as_str());
                        out.append("\n");
                        assert(out@ =~= b + ("HEAD:   "@ + h@ + "\n"@));
                    },
                    None => {
                        assert(out@ =~= b + Seq::<char>::empty());
                    },
                }
                let ghost c = out@;
                if git.is_dirty {
                    let ls = lines_of(git.status_short.as_str());
                    assert(texts(ls@).len() == ls@.len());
                    let chars = crate::text::chars_of(git.status_short.as_str());
                    out.append("Status: ");
                    push_decimal(&mut out, ls.len() as u64);
                    out.append(" change(s)\n");
                    out.append(git.status_short.as_str());
                    if chars.len() == 0 || chars[chars.len() - 1] != '\n' {
                        out.push('\n');
                    }
                    assert(out@ =~= c + ("Status: "@ + decimal(lines(git.status_short@).len())
                        + " change(s)\n"@ + git.status_short@ + (if git.status_short@.len() > 0
                        && git.status_short@.last() == '\n' {
                        Seq::empty()
                    } else {
                        seq!['\n']
                    })));
                } else {
                    out.append("Status: clean\n");
                }
                out.append(
                    "\nThis is a snapshot from session start. Use `bash` + `git status` to check live state.\n",
                );
                out
            },
        }
    }
}

impl Default for EnvSnapshot {
    fn default() -> (r: Self)
        ensures
            r@ is None,
    {
        EnvSnapshot { git: None }
    }
}

/// What is captured is told only of a work tree. A branch or a head that was not printed
/// is not there; the tree is dirty exactly where its status says anything; a status of no
/// more than twenty lines is kept whole, of a longer one the first twenty lines, with how
/// many more there are.
pub proof fn captures_follow_what_was_printed(
    inside: Option<Seq<char>>,
    branch: Option<Seq<char>>,
    head: Option<Seq<char>>,
    status: Seq<char>,
)
    ensures
        captured(inside, branch, head, Some(status)) is Some <==> inside is Some && trim(inside->0) == "true"@,
        captured(inside, branch, head, Some(status)) is Some ==> {
            let g = captured(inside, branch, head, Some(status))->0;
            let clean = captured(inside, branch, head, None)->0;
            let ls = lines(trim(status));
            &&& branch is Some && trim(branch->0).len() > 0 ==> g.branch == Some(trim(branch->0))
            &&& branch is None || trim(branch->0).len() == 0 ==> g.branch is None
            &&& head is Some && trim(head->0).len() > 0 ==> g.head_oneline == Some(trim(head->0))
            &&& head is None || trim(head->0).len() == 0 ==> g.head_oneline is None
            &&& g.is_dirty <==> trim(status).len() > 0
            &&& !clean.is_dirty && clean.status_short.len() == 0
            &&& ls.len() <= 20 ==> g.status_short == trim(status)
            &&& ls.len() > 20 ==> g.status_short == join(ls.take(20), "\n"@) + "\n... and "@ + decimal(
                (ls.len() - 20) as nat,
            ) + " more line(s)\n"@
        },
{
    trimming_takes_white_space_alone(status);
    lemma_trimmed(trim(status));
    let none = Seq::<char>::empty();
    assert(trim(none).len() == 0);
    reveal_strlit("\n");
    assert(lines(none).len() == 0) by {
        assert(split_on(none, '\n') =~= seq![none]);
        assert(split_on(none, '\n').last() =~= none);
        assert(split_on(none, '\n').drop_last().len() == 0);
    }
}

proof fn lemma_trimmed(s: Seq<char>)
    requires
        s.len() > 0 ==> !is_space(s[0]) && !is_space(s.last()),
    ensures
        trim(s) == s,
{
}

/// The section names the branch, or says that there is none, shows the head, and says
/// whether anything changed; without a repository there is no section.
pub proof fn sections_show_the_snapshot(g: GitView)
    ensures
        section(None).len() == 0,
        g.branch is Some ==> contains(section(Some(g)), "Branch: "@ + g.branch->0 + "\n"@),
        g.branch is None ==> contains(section(Some(g)), "Branch: (detached HEAD)\n"@),
        g.head_oneline is Some ==> contains(section(Some(g)), "HEAD:   "@ + g.head_oneline->0 + "\n"@),
        g.is_dirty ==> contains(
            section(Some(g)),
            "Status: "@ + decimal(lines(g.status_short).len()) + " change(s)\n"@ + g.status_short,
        ),
        !g.is_dirty ==> contains(section(Some(g)), "Status: clean\n"@),
{
    let a = "\n=== GIT STATUS (snapshot at session start, not live) ===\n"@;
    let branch = match g.branch {
        Some(b) => "Branch: "@ + b + "\n"@,
        None => "Branch: (detached HEAD)\n"@,
    };
    let head = match g.head_oneline {
        Some(h) => "HEAD:   "@ + h + "\n"@,
        None => Seq::empty(),
    };
    let end = "\nThis is a snapshot from session start. Use `bash` + `git status` to check live state.\n"@;
    let told = if g.is_dirty {
        "Status: "@ + decimal(lines(g.status_short).len()) + " change(s)\n"@ + g.status_short
    } else {
        "Status: clean\n"@
    };
    let rest = if g.is_dirty && !(g.status_short.len() > 0 && g.status_short.last() == '\n') {
        seq!['\n'] + end
    } else {
        end
    };
    let all = section(Some(g));
    assert(all =~= a + branch + head + told + rest);
    lemma_contains_itself(branch);
    lemma_contains_within(a, branch, head + told + rest, branch);
    assert(a + branch + (head + told + rest) =~= all);
    lemma_contains_itself(head);
    lemma_contains_within(a + branch, head, told + rest, head);
    assert(a + branch + head + (told + rest) =~= all);
    lemma_contains_itself(told);
    lemma_contains_within(a + branch + head, told, rest, told);
}

} // verus!
