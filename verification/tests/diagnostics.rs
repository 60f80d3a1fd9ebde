use harpy::diagnostics::{kind_label, render_diagnostic, DiagnosticKind, Span};

fn span(file: &str, line: usize, column: usize) -> Span {
    Span { file: file.to_string(), line, column }
}

#[test]
fn error_line() {
    assert_eq!(
        render_diagnostic(DiagnosticKind::Error, &span("main.hp", 3, 14), "invalid token: '!'"),
        "main.hp:3:14: error: invalid token: '!'"
    );
}

#[test]
fn warning_and_note_lines() {
    assert_eq!(
        render_diagnostic(DiagnosticKind::Warning, &span("a", 1, 1), "w"),
        "a:1:1: warning: w"
    );
    assert_eq!(
        render_diagnostic(DiagnosticKind::Note, &span("b.hp", 10, 205), ""),
        "b.hp:10:205: note: "
    );
}

#[test]
fn numbers_are_plain_decimal() {
    assert_eq!(
        render_diagnostic(DiagnosticKind::Error, &span("f", 0, 1234567890), "m"),
        "f:0:1234567890: error: m"
    );
    assert_eq!(
        render_diagnostic(DiagnosticKind::Error, &span("f", usize::MAX, 9), "m"),
        format!("f:{}:9: error: m", usize::MAX)
    );
}

#[test]
fn labels() {
    assert_eq!(kind_label(DiagnosticKind::Error), "error");
    assert_eq!(kind_label(DiagnosticKind::Warning), "warning");
    assert_eq!(kind_label(DiagnosticKind::Note), "note");
}
