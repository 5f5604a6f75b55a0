use atomcode_core::ctx::env::{truncate_status, GitSnapshot};
use atomcode_core::ctx::EnvSnapshot;

#[test]
fn empty_snapshot_renders_nothing() {
    let snap = EnvSnapshot::default();
    assert_eq!(snap.as_prompt_section(), "");
}

#[test]
fn capture_non_git_dir_returns_empty() {
    let snap = EnvSnapshot::capture(None, None, None, None);
    assert!(snap.git.is_none(), "non-git dir must yield git: None");
    assert_eq!(snap.as_prompt_section(), "");
}

#[test]
fn snapshot_with_branch_renders_section() {
    let snap = EnvSnapshot {
        git: Some(GitSnapshot {
            branch: Some("main".into()),
            head_oneline: Some("abc1234 test commit".into()),
            status_short: String::new(),
            is_dirty: false,
        }),
    };
    let out = snap.as_prompt_section();
    assert!(out.contains("=== GIT STATUS"));
    assert!(out.contains("snapshot at session start"));
    assert!(out.contains("Branch: main"));
    assert!(out.contains("HEAD:   abc1234 test commit"));
    assert!(out.contains("Status: clean"));
    // Disclaimer at the end
    assert!(out.contains("Use `bash` + `git status` to check live state"));
}

#[test]
fn detached_head_shown_explicitly() {
    let snap = EnvSnapshot {
        git: Some(GitSnapshot {
            branch: None, // detached
            head_oneline: Some("deadbee detached state".into()),
            status_short: String::new(),
            is_dirty: false,
        }),
    };
    let out = snap.as_prompt_section();
    assert!(out.contains("(detached HEAD)"));
}

#[test]
fn dirty_status_includes_changes() {
    let snap = EnvSnapshot {
        git: Some(GitSnapshot {
            branch: Some("feat/x".into()),
            head_oneline: Some("abc1234 wip".into()),
            status_short: " M src/foo.rs\n M src/bar.rs\n?? new.rs".into(),
            is_dirty: true,
        }),
    };
    let out = snap.as_prompt_section();
    assert!(out.contains("Status: 3 change(s)"));
    assert!(out.contains(" M src/foo.rs"));
    assert!(out.contains("?? new.rs"));
    assert!(!out.contains("Status: clean"));
}

#[test]
fn truncate_status_caps_long_output() {
    let raw = (0..50)
        .map(|i| format!(" M file_{}.rs", i))
        .collect::<Vec<_>>()
        .join("\n");
    let out = truncate_status(&raw, 20);
    let kept_lines = out.lines().filter(|l| l.starts_with(" M")).count();
    assert_eq!(kept_lines, 20);
    assert!(out.contains("... and 30 more line"));
}

#[test]
fn truncate_status_passthrough_when_under_cap() {
    let raw = " M a.rs\n M b.rs";
    let out = truncate_status(raw, 20);
    assert_eq!(out, raw);
    assert!(!out.contains("more line"));
}
