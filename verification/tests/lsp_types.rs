use atomcode_core::lsp::types::{Diagnostic, DiagnosticSeverity};

#[test]
fn diagnostic_display_line() {
    let diag = Diagnostic {
        file: "src/main.rs".into(),
        line: 10,
        column: 5,
        end_line: Some(10),
        end_column: Some(15),
        severity: DiagnosticSeverity::Error,
        message: "unused variable".into(),
        source: Some("rust-analyzer".into()),
        code: Some("E0001".into()),
    };
    assert_eq!(
        diag.display_line(),
        "src/main.rs:10:5 [ERROR] E0001 unused variable (rust-analyzer)"
    );

    let diag2 = Diagnostic {
        file: "lib.rs".into(),
        line: 1,
        column: 1,
        end_line: None,
        end_column: None,
        severity: DiagnosticSeverity::Warning,
        message: "deprecated function".into(),
        source: None,
        code: None,
    };
    assert_eq!(
        diag2.display_line(),
        "lib.rs:1:1 [WARN] deprecated function"
    );
}

#[test]
fn severity_ordering() {
    assert!(DiagnosticSeverity::Error < DiagnosticSeverity::Warning);
    assert!(DiagnosticSeverity::Warning < DiagnosticSeverity::Info);
    assert!(DiagnosticSeverity::Info < DiagnosticSeverity::Hint);
}

#[test]
fn severity_from_lsp() {
    assert_eq!(DiagnosticSeverity::from_lsp(1), DiagnosticSeverity::Error);
    assert_eq!(DiagnosticSeverity::from_lsp(2), DiagnosticSeverity::Warning);
    assert_eq!(DiagnosticSeverity::from_lsp(3), DiagnosticSeverity::Info);
    assert_eq!(DiagnosticSeverity::from_lsp(4), DiagnosticSeverity::Hint);
    assert_eq!(DiagnosticSeverity::from_lsp(99), DiagnosticSeverity::Hint);
}
