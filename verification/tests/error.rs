use lib::error::{ErrorKind, LanguageError};
use lib::syntax::Span;

#[test]
fn line_col_counts_chars_not_bytes_across_newlines() {
    let source = "(def a 1)\n(car а)"; // second line uses Cyrillic а (2 bytes)
    let error = LanguageError::new(ErrorKind::Type, "boom".to_string(), Span { start: 15, end: 17 });
    assert_eq!(error.line_col(source), (2, 6));
}

#[test]
fn render_underlines_the_full_span_width() {
    let source = "(car 5)";
    let error = LanguageError::new(ErrorKind::Type, "boom".to_string(), Span { start: 0, end: 7 });
    let rendered = error.render(source);
    assert!(rendered.contains("1:1"));
    assert!(rendered.contains("(car 5)"));
    assert!(rendered.ends_with(&"^".repeat(7)));
}

#[test]
fn line_col_clamps_offsets_beyond_source_length() {
    let source = "(car";
    let error = LanguageError::new(ErrorKind::Parse, "unexpected eof".to_string(), Span { start: 999, end: 999 });
    assert_eq!(error.line_col(source), (1, 5));
}

#[test]
fn render_is_exact_on_the_second_line() {
    let source = "(a)\r\n  (bc d)\n";
    let error = LanguageError::new(ErrorKind::Type, "boom".to_string(), Span { start: 7, end: 11 });
    let rendered = error.render(source);
    assert_eq!(
        rendered,
        "boom\n  --> line/рядок/Zeile 2:3\n  |\n2 |   (bc d)\n  |   ^^^^"
    );
}

#[test]
fn render_of_an_empty_span_shows_one_caret() {
    let source = "x";
    let error = LanguageError::new(ErrorKind::Parse, "m".to_string(), Span { start: 1, end: 1 });
    assert_eq!(error.render(source), "m\n  --> line/рядок/Zeile 1:2\n  |\n1 | x\n  |  ^");
}
