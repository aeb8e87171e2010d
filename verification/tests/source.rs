use lc::lexer::Span;
use lc::source::Source;

const TEXT: &str = "let x = 1\nin x\n";

#[test]
fn line_of_finds_the_line_of_an_offset() {
    let source = Source::new(TEXT);
    assert_eq!(source.line_of(0), 0);
    assert_eq!(source.line_of(9), 0);
    assert_eq!(source.line_of(10), 1);
    assert_eq!(source.line_of(14), 1);
    assert_eq!(source.line_of(15), 2);
    assert_eq!(source.line_of(100), 2);
}

#[test]
fn column_and_line_col_count_bytes_from_line_start() {
    let source = Source::new(TEXT);
    assert_eq!(source.column_of(12), 2);
    assert_eq!(source.line_col(13..14), (2, 4));
    assert_eq!(source.line_col(0..3), (1, 1));
}

#[test]
fn line_range_and_text_drop_the_newline() {
    let source = Source::new(TEXT);
    assert_eq!(source.line_range(0), 0..10);
    assert_eq!(source.line_range(1), 10..15);
    assert_eq!(source.line_range(2), 15..15);
    assert_eq!(source.line_text(0), b"let x = 1");
    assert_eq!(source.line_text(1), b"in x");
    assert_eq!(source.line_text(2), b"");
}

#[test]
fn line_span_covers_the_whole_line() {
    let source = Source::new(TEXT);
    assert_eq!(source.line_span(Span::new(11, 12)), Span::new(10, 15));
    assert_eq!(source.line_span(Span::new(3, 4)), Span::new(0, 10));
}

#[test]
fn text_without_newline_is_one_line() {
    let source = Source::new("abc");
    assert_eq!(source.line_of(2), 0);
    assert_eq!(source.line_range(0), 0..3);
    assert_eq!(source.line_text(0), b"abc");
}

#[test]
fn line_is_count_of_newlines_before() {
    let text = "a\nbc\n\nd";
    let source = Source::new(text);
    for offset in 0..=text.len() {
        let newlines = text.as_bytes()[..offset].iter().filter(|&&b| b == b'\n').count();
        let (line, col) = source.line_col(offset..offset);
        assert_eq!(line - 1, newlines);
        let start = offset - (col - 1);
        assert!(start == 0 || text.as_bytes()[start - 1] == b'\n');
        assert!(!text.as_bytes()[start..offset].contains(&b'\n'));
    }
}
