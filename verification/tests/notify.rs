use atomcode_core::config::NotificationConfig;
use atomcode_core::notify::{
    apple_script_string, build_approval_notification_text, build_notification_plan, build_system_notification_text,
    build_turn_terminal_notification_text, detect_terminal_app, falls_back_to_system, fmt_duration,
    macos_terminal_bundle_id, notify, notify_turn_finished, powershell_string_literal, sanitize_plain_text,
    set_terminal_focus_state, system_commands, terminal_sequence, write_iterm2_notification,
    write_kitty_notification, write_osc777_notification, ApprovalNotification, DeliveryResult, Elapsed, FocusState,
    NotificationEvent, NotificationPlan, Platform, TerminalApp, TerminalEnv, TurnNotification, TurnStopReason,
    VisibilityPolicy,
};

fn elapsed(secs: u64) -> Elapsed {
    Elapsed { secs, nanos: 0, seconds: format!("{:.1}", secs as f64) }
}

#[test]
fn builds_human_readable_notification_text() {
    let (title, body) = build_system_notification_text(&TurnNotification {
        duration: elapsed(12),
        turn_count: 3,
        tool_call_count: 5,
        total_tokens: Some(4321),
        stop_reason: TurnStopReason::Natural,
        working_dir: Some("/tmp/demo"),
    });
    assert_eq!(title, "AtomCode done");
    assert_eq!(body, "Done · 12.0s · 3 rounds · 5 tools");
}

#[test]
fn terminal_text_is_compact_for_iterm() {
    let (title, body) = build_turn_terminal_notification_text(
        TerminalApp::ITerm2,
        &TurnNotification {
            duration: elapsed(49),
            turn_count: 4,
            tool_call_count: 9,
            total_tokens: Some(1209),
            stop_reason: TurnStopReason::Natural,
            working_dir: Some("/tmp/atomcode"),
        },
    );
    assert_eq!(title, "AtomCode done");
    assert_eq!(body, "Done · 49.0s · 4 rounds · 9 tools");
}

#[test]
fn terminal_text_keeps_scope_for_split_title_body_protocols() {
    let (_title, body) = build_turn_terminal_notification_text(
        TerminalApp::WezTerm,
        &TurnNotification {
            duration: elapsed(12),
            turn_count: 3,
            tool_call_count: 5,
            total_tokens: None,
            stop_reason: TurnStopReason::Natural,
            working_dir: Some("/tmp/demo"),
        },
    );
    assert!(body.contains("3 rounds"));
    assert!(body.contains("5 tools"));
    assert!(body.starts_with("demo · Done"));
}

#[test]
fn approval_notification_is_action_oriented() {
    let (title, body) = build_approval_notification_text(&ApprovalNotification {
        tool_name: "Bash",
        detail: Some("ls -la ~/.ssh/"),
        working_dir: Some("/tmp/demo"),
    });
    assert_eq!(title, "AtomCode approval needed");
    assert!(body.contains("Bash is waiting for Y/A/N"));
    assert!(body.contains("demo"));
    assert!(body.contains("ls -la ~/.ssh/"));
}

#[test]
fn background_only_is_preserved_for_approval_notifications() {
    let plan = NotificationPlan {
        title: "AtomCode approval needed".to_string(),
        body: "Bash is waiting for Y/A/N".into(),
        terminal_id: "atomcode-approval".to_string(),
        visibility: VisibilityPolicy::BackgroundOnlyBestEffort,
        emit_terminal: true,
        emit_system: true,
        emit_bell: true,
    };
    let rendered = terminal_sequence(TerminalApp::Kitty, &plan).unwrap();
    assert!(rendered.contains(":o=unfocused:"));
}

#[test]
fn iterm2_uses_osc9_notification_sequence() {
    let plan = NotificationPlan {
        title: "AtomCode approval needed".to_string(),
        body: "Bash is waiting for Y/A/N".into(),
        terminal_id: "atomcode-approval".to_string(),
        visibility: VisibilityPolicy::BackgroundOnlyBestEffort,
        emit_terminal: true,
        emit_system: true,
        emit_bell: true,
    };
    let rendered = terminal_sequence(TerminalApp::ITerm2, &plan).unwrap();
    assert!(rendered.starts_with("\u{1b}]9;"));
    assert!(rendered.ends_with("\u{1b}\\"));
}

#[test]
fn apple_terminal_has_no_native_terminal_notification_path() {
    let plan = NotificationPlan {
        title: "AtomCode done".to_string(),
        body: "Done · 12.0s".into(),
        terminal_id: "atomcode-task".to_string(),
        visibility: VisibilityPolicy::BackgroundOnlyBestEffort,
        emit_terminal: true,
        emit_system: true,
        emit_bell: true,
    };
    assert!(terminal_sequence(TerminalApp::AppleTerminal, &plan).is_none());
}

#[test]
fn turn_finished_below_threshold_is_suppressed_by_policy() {
    let cfg = NotificationConfig::default();
    let plan = build_notification_plan(
        &cfg,
        FocusState::unknown(),
        Platform::Linux,
        &NotificationEvent::TurnFinished(TurnNotification {
            duration: elapsed(2),
            turn_count: 1,
            tool_call_count: 1,
            total_tokens: None,
            stop_reason: TurnStopReason::Natural,
            working_dir: Some("/tmp/demo"),
        }),
    );
    assert!(plan.is_none());
}

#[test]
fn approval_event_ignores_duration_threshold() {
    let cfg = NotificationConfig::default();
    let plan = build_notification_plan(
        &cfg,
        FocusState::unknown(),
        Platform::Linux,
        &NotificationEvent::ApprovalNeeded(ApprovalNotification {
            tool_name: "Bash",
            detail: Some("ls -la ~/.ssh/"),
            working_dir: Some("/tmp/demo"),
        }),
    )
    .unwrap();
    assert_eq!(plan.terminal_id, "atomcode-approval");
    assert_eq!(plan.visibility, VisibilityPolicy::BackgroundOnlyBestEffort);
}

#[test]
fn focused_terminal_suppresses_background_only_notifications() {
    let mut focus = FocusState::unknown();
    let cfg = NotificationConfig::default();
    set_terminal_focus_state(&mut focus, Some(true));
    let plan = build_notification_plan(
        &cfg,
        focus,
        Platform::Linux,
        &NotificationEvent::ApprovalNeeded(ApprovalNotification {
            tool_name: "Bash",
            detail: Some("ls -la ~/.ssh/"),
            working_dir: Some("/tmp/demo"),
        }),
    );
    set_terminal_focus_state(&mut focus, None);
    assert!(plan.is_none());
}

#[test]
fn background_only_unknown_focus_suppresses_system_fallback() {
    let mut focus = FocusState::unknown();
    let cfg = NotificationConfig::default();
    set_terminal_focus_state(&mut focus, None);
    let plan = build_notification_plan(
        &cfg,
        focus,
        Platform::Linux,
        &NotificationEvent::TurnFinished(TurnNotification {
            duration: elapsed(12),
            turn_count: 1,
            tool_call_count: 1,
            total_tokens: None,
            stop_reason: TurnStopReason::Natural,
            working_dir: Some("/tmp/demo"),
        }),
    )
    .unwrap();

    assert!(plan.emit_terminal);
    assert!(plan.emit_bell);
    assert!(!plan.emit_system);
}

#[test]
fn background_only_unfocused_allows_system_fallback() {
    let mut focus = FocusState::unknown();
    let cfg = NotificationConfig::default();
    set_terminal_focus_state(&mut focus, Some(false));
    let plan = build_notification_plan(
        &cfg,
        focus,
        Platform::Linux,
        &NotificationEvent::TurnFinished(TurnNotification {
            duration: elapsed(12),
            turn_count: 1,
            tool_call_count: 1,
            total_tokens: None,
            stop_reason: TurnStopReason::Natural,
            working_dir: Some("/tmp/demo"),
        }),
    )
    .unwrap();
    set_terminal_focus_state(&mut focus, None);

    assert_eq!(plan.emit_system, true);
}

#[test]
fn non_background_only_keeps_system_fallback_for_unknown_focus() {
    let mut focus = FocusState::unknown();
    let mut cfg = NotificationConfig::default();
    cfg.background_only = false;
    set_terminal_focus_state(&mut focus, None);
    let plan = build_notification_plan(
        &cfg,
        focus,
        Platform::Linux,
        &NotificationEvent::TurnFinished(TurnNotification {
            duration: elapsed(12),
            turn_count: 1,
            tool_call_count: 1,
            total_tokens: None,
            stop_reason: TurnStopReason::Natural,
            working_dir: Some("/tmp/demo"),
        }),
    )
    .unwrap();

    assert_eq!(plan.emit_system, true);
}

#[test]
fn macos_terminal_bundle_ids_match_supported_terminals() {
    assert_eq!(
        macos_terminal_bundle_id(Some(TerminalApp::AppleTerminal)),
        Some("com.apple.Terminal")
    );
    assert_eq!(
        macos_terminal_bundle_id(Some(TerminalApp::ITerm2)),
        Some("com.googlecode.iterm2")
    );
    assert_eq!(
        macos_terminal_bundle_id(Some(TerminalApp::WezTerm)),
        Some("com.github.wez.wezterm")
    );
    assert_eq!(
        macos_terminal_bundle_id(Some(TerminalApp::Ghostty)),
        Some("com.mitchellh.ghostty")
    );
    assert_eq!(
        macos_terminal_bundle_id(Some(TerminalApp::Kitty)),
        Some("net.kovidgoyal.kitty")
    );
}


#[test]
fn control_chars_are_removed_from_payloads() {
    let s = sanitize_plain_text("hi\x07 there\nnext\x1b");
    assert_eq!(s, "hi there next");
}

fn turn(secs: u64, stop_reason: TurnStopReason) -> TurnNotification<'static> {
    TurnNotification {
        duration: elapsed(secs),
        turn_count: 1,
        tool_call_count: 1,
        total_tokens: None,
        stop_reason,
        working_dir: None,
    }
}

fn env(term_program: &str, lc_terminal: &str, term: &str) -> TerminalEnv {
    TerminalEnv {
        has_kitty_window_id: false,
        has_wezterm_pane: false,
        has_wt_session: false,
        term_program: term_program.into(),
        lc_terminal: lc_terminal.into(),
        term: term.into(),
    }
}

#[test]
fn short_times_are_shown_in_milliseconds() {
    assert_eq!(fmt_duration(&Elapsed { secs: 0, nanos: 999_999_999, seconds: "1.0".into() }), "999ms");
    assert_eq!(fmt_duration(&elapsed(1)), "1.0s");
}

#[test]
fn every_end_has_its_title() {
    let titles = [
        (TurnStopReason::Natural, "AtomCode done"),
        (TurnStopReason::Cancelled, "AtomCode cancelled"),
        (TurnStopReason::Error, "AtomCode failed"),
        (TurnStopReason::TurnLimit, "AtomCode stopped"),
        (TurnStopReason::StepLimit, "AtomCode stopped"),
    ];
    for (reason, title) in titles {
        assert_eq!(build_system_notification_text(&turn(12, reason)).0, title);
    }
}

#[test]
fn switched_off_nothing_is_planned() {
    let mut cfg = NotificationConfig::default();
    cfg.enabled = false;
    let event = NotificationEvent::TurnFinished(turn(12, TurnStopReason::Natural));
    assert!(build_notification_plan(&cfg, FocusState::unknown(), Platform::Linux, &event).is_none());
    assert!(notify(&cfg, FocusState::unknown(), Platform::Linux, None, &event).is_none());
}

#[test]
fn the_threshold_is_reached_in_whole_seconds() {
    let cfg = NotificationConfig::default();
    let at = |secs: u64, nanos: u32| {
        let mut t = turn(secs, TurnStopReason::Natural);
        t.duration.nanos = nanos;
        let event = NotificationEvent::TurnFinished(t);
        build_notification_plan(&cfg, FocusState::unknown(), Platform::Linux, &event).is_some()
    };
    assert!(!at(9, 999_999_999));
    assert!(at(10, 0));
}

#[test]
fn finished_turns_reach_the_terminal() {
    let cfg = NotificationConfig::default();
    let d = notify_turn_finished(
        &cfg,
        FocusState { focused: Some(false) },
        Platform::Linux,
        Some(TerminalApp::ITerm2),
        turn(12, TurnStopReason::Natural),
    )
    .unwrap();
    assert_eq!(d.plan.terminal_id, "atomcode-task");
    assert!(d.sequence.unwrap().starts_with("\u{1b}]9;"));
    assert!(falls_back_to_system(&d.plan, DeliveryResult::Unsupported));
    assert!(falls_back_to_system(&d.plan, DeliveryResult::Failed));
    assert!(!falls_back_to_system(&d.plan, DeliveryResult::Delivered));
}

#[test]
fn sequences_are_exact() {
    assert_eq!(
        write_kitty_notification("id", "T\n", "B"),
        "\x1b]99;i=id:o=unfocused:d=0;T\x1b\\\x1b]99;i=id:p=body;B\x1b\\"
    );
    assert_eq!(write_osc777_notification("a;b", "c;d"), "\x1b]777;notify;a:b;c:d\x1b\\");
    assert_eq!(write_iterm2_notification("T", "B"), "\x1b]9;T: B\x1b\\");
    assert_eq!(write_iterm2_notification(" ", "B"), "\x1b]9;B\x1b\\");
}

#[test]
fn terminals_are_recognised() {
    let mut e = env("", "", "");
    assert_eq!(detect_terminal_app(&e), None);
    e.has_wt_session = true;
    assert_eq!(detect_terminal_app(&e), Some(TerminalApp::WindowsTerminal));
    e.has_wezterm_pane = true;
    assert_eq!(detect_terminal_app(&e), Some(TerminalApp::WezTerm));
    e.has_kitty_window_id = true;
    assert_eq!(detect_terminal_app(&e), Some(TerminalApp::Kitty));
    assert_eq!(detect_terminal_app(&env("iTerm.app", "", "")), Some(TerminalApp::ITerm2));
    assert_eq!(detect_terminal_app(&env("Apple_Terminal", "", "")), Some(TerminalApp::AppleTerminal));
    assert_eq!(detect_terminal_app(&env("", "iTerm2", "")), Some(TerminalApp::ITerm2));
    assert_eq!(detect_terminal_app(&env("", "", "xterm-kitty")), Some(TerminalApp::Kitty));
}

#[test]
fn quoting_is_exact() {
    assert_eq!(apple_script_string(r#"a"b\c"#), r#""a\"b\\c""#);
    assert_eq!(powershell_string_literal("it's"), "it''s");
}

#[test]
fn the_desktop_is_told_by_its_own_command() {
    let linux = system_commands(Platform::Linux, &None, None, "T", "B");
    assert_eq!(linux[0].program, "notify-send");
    let windows = system_commands(Platform::Windows, &None, None, "T", "it's");
    assert_eq!(windows[0].program, "powershell.exe");
    assert!(windows[0].args.last().unwrap().contains("it''s"));
    assert!(system_commands(Platform::Other, &None, None, "T", "B").is_empty());
}

#[test]
fn control_characters_are_those_of_std() {
    for c in (0u32..0x300).filter_map(char::from_u32) {
        let s = format!("x{c}y");
        let clean = sanitize_plain_text(&s);
        if c.is_control() || c.is_whitespace() {
            assert!(!clean.contains(c) || c == ' ', "{:?}", c);
        } else {
            assert_eq!(clean, s);
        }
    }
}
