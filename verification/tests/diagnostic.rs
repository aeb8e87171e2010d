use lc::diagnostic::{render_all, Diagnostic, Severity};
use lc::lexer::Span;

#[test]
fn renders_primary_label_with_carets() {
    let d = Diagnostic::error("unbound variable `y`", Span::new(8, 9));
    let out = render_all("let x = y in x", &[d]);
    let expected = format!(
        "error: unbound variable `y`\n --> 1:9\n  |\n1 | let x = y in x\n  | {}^\n",
        " ".repeat(8)
    );
    assert_eq!(out, expected);
}

#[test]
fn renders_secondary_labels_and_notes() {
    let d = Diagnostic::warning("unused", Span::new(4, 7))
        .with_label("declared here", Span::new(0, 3))
        .with_note("remove it");
    let out = render_all("let abc = 1 in 2", &[d]);
    let expected = format!(
        "warning: unused\n --> 1:5\n  |\n1 | let abc = 1 in 2\n  | {}^^^\n = label at 1:1\n   declared here\n = note: remove it\n",
        " ".repeat(4)
    );
    assert_eq!(out, expected);
}

#[test]
fn diagnostics_are_separated_by_a_blank_line() {
    let a = Diagnostic::error("first", Span::new(0, 1));
    let b = Diagnostic::error("second", Span::new(2, 3));
    let out = render_all("a\nb", &[a, b]);
    assert_eq!(
        out,
        "error: first\n --> 1:1\n  |\n1 | a\n  | ^\n\nerror: second\n --> 2:1\n  |\n2 | b\n  | ^\n"
    );
}

#[test]
fn empty_span_gets_one_caret_and_wide_line_numbers_widen_the_gutter() {
    let text = "\n\n\n\n\n\n\n\n\n\nxyz";
    let d = Diagnostic::error("here", Span::new(11, 11));
    let out = render_all(text, &[d]);
    assert_eq!(out, "error: here\n --> 11:2\n   |\n11 | xyz\n   |  ^\n");
}

#[test]
fn diagnostic_without_labels_is_one_line() {
    let mut d = Diagnostic::error("plain", Span::new(0, 0));
    d.labels.clear();
    assert_eq!(render_all("", &[d]), "error: plain\n");
}

#[test]
fn constructors_fill_the_fields() {
    let d = Diagnostic::error("m", Span::new(1, 2)).with_label("l", Span::new(3, 4)).with_note("n");
    assert_eq!(d.severity, Severity::Error);
    assert_eq!(d.message, "m");
    assert_eq!(d.labels.len(), 2);
    assert_eq!(d.labels[0].span, Span::new(1, 2));
    assert!(d.labels[0].message.is_none());
    assert_eq!(d.labels[1].message.as_deref(), Some("l"));
    assert_eq!(d.notes, vec!["n".to_string()]);
    assert_eq!(Severity::Warning.as_str(), "warning");
    assert_eq!(Severity::Error.as_str(), "error");
}
