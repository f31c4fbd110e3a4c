use specfmt::classify::{
    classify, is_prose, is_structural, line_kind, next_verbatim, LineKind, Segment, SegmentKind,
};
use specfmt::syntax::Syntax;

fn chars(s: &str) -> Vec<char> {
    s.chars().collect()
}

fn doc(lines: &[&str]) -> Vec<Vec<char>> {
    lines.iter().map(|l| chars(l)).collect()
}

fn kind_of(line: &str) -> LineKind {
    line_kind(&Syntax::standard(), &chars(line), false)
}

fn reflowable(start: usize, end: usize) -> Segment {
    Segment { kind: SegmentKind::Reflowable, start, end }
}

fn opaque(start: usize, end: usize) -> Segment {
    Segment { kind: SegmentKind::Opaque, start, end }
}

#[test]
fn standard_syntax_has_its_markers() {
    let s = Syntax::standard();
    assert_eq!(s.verbatim_open, chars("<pre"));
    assert_eq!(s.verbatim_close, chars("</pre>"));
    assert_eq!(s.column_marker, chars("|"));
    assert_eq!(s.leaders, chars("#-*+"));
    let d = Syntax::default();
    assert_eq!(d.verbatim_open, s.verbatim_open);
    assert_eq!(d.verbatim_close, s.verbatim_close);
    assert_eq!(d.column_marker, s.column_marker);
    assert_eq!(d.leaders, s.leaders);
}

#[test]
fn prose_lines() {
    assert_eq!(kind_of("Plain text."), LineKind::Prose);
    assert_eq!(kind_of("   indented text"), LineKind::Prose);
    assert_eq!(kind_of("-item"), LineKind::Prose);
    assert_eq!(kind_of("*emphasis* first"), LineKind::Prose);
    assert_eq!(kind_of("#tag"), LineKind::Prose);
    assert_eq!(kind_of("1.5 is a number"), LineKind::Prose);
    assert_eq!(kind_of("a) b"), LineKind::Prose);
    assert_eq!(kind_of("</pre> after"), LineKind::Prose);
    assert_eq!(kind_of("<p>Text in a paragraph</p>"), LineKind::Prose);
}

#[test]
fn blank_lines() {
    assert_eq!(kind_of(""), LineKind::Blank);
    assert_eq!(kind_of("  \t "), LineKind::Blank);
}

#[test]
fn verbatim_lines() {
    assert_eq!(kind_of("<pre>"), LineKind::Verbatim);
    assert_eq!(kind_of("text <pre class=x> text"), LineKind::Verbatim);
    assert_eq!(kind_of("<pre>code</pre>"), LineKind::Verbatim);
    let s = Syntax::standard();
    assert_eq!(line_kind(&s, &chars("Plain text."), true), LineKind::Verbatim);
    assert_eq!(line_kind(&s, &chars(""), true), LineKind::Verbatim);
    assert_eq!(line_kind(&s, &chars("</pre>"), true), LineKind::Verbatim);
}

#[test]
fn table_lines() {
    assert_eq!(kind_of("| a | b |"), LineKind::Table);
    assert_eq!(kind_of("a | b"), LineKind::Table);
    assert_eq!(kind_of("- a | b"), LineKind::Table);
}

#[test]
fn marked_lines() {
    assert_eq!(kind_of("# Title"), LineKind::Marked);
    assert_eq!(kind_of("### Title"), LineKind::Marked);
    assert_eq!(kind_of("- item"), LineKind::Marked);
    assert_eq!(kind_of("  * item"), LineKind::Marked);
    assert_eq!(kind_of("+ item"), LineKind::Marked);
    assert_eq!(kind_of("---"), LineKind::Marked);
    assert_eq!(kind_of("-"), LineKind::Marked);
    assert_eq!(kind_of("1. item"), LineKind::Marked);
    assert_eq!(kind_of("12) item"), LineKind::Marked);
    assert_eq!(kind_of("2024."), LineKind::Marked);
    assert_eq!(kind_of("-+ item"), LineKind::Prose);
    assert_eq!(kind_of(". item"), LineKind::Prose);
    assert_eq!(kind_of("= item"), LineKind::Prose);
}

#[test]
fn is_structural_looks_at_the_first_word() {
    let s = Syntax::standard();
    assert!(is_structural(&s, &chars("  ## x")));
    assert!(is_structural(&s, &chars("7.")));
    assert!(!is_structural(&s, &chars("x ## y")));
    assert!(!is_structural(&s, &chars("")));
    assert!(!is_structural(&s, &chars("   ")));
    assert!(!is_structural(&s, &chars(".")));
    assert!(!is_structural(&s, &chars("1a.")));
}

#[test]
fn is_prose_agrees_with_line_kind() {
    let s = Syntax::standard();
    assert!(is_prose(&s, &chars("text"), false));
    assert!(!is_prose(&s, &chars("text"), true));
    assert!(!is_prose(&s, &chars(""), false));
    assert!(!is_prose(&s, &chars("# x"), false));
}

#[test]
fn blocks_open_and_close() {
    let s = Syntax::standard();
    assert!(next_verbatim(&s, &chars("<pre>"), false));
    assert!(next_verbatim(&s, &chars("a <pre class=\"idl\">code"), false));
    assert!(!next_verbatim(&s, &chars("<pre>code</pre>"), false));
    assert!(next_verbatim(&s, &chars("</pre> <pre>"), false));
    assert!(!next_verbatim(&s, &chars("<pre>a</pre> <pre>b</pre>"), false));
    assert!(!next_verbatim(&s, &chars("text"), false));
    assert!(!next_verbatim(&s, &chars("</pre>"), false));
    assert!(next_verbatim(&s, &chars("code"), true));
    assert!(next_verbatim(&s, &chars("<pre>"), true));
    assert!(!next_verbatim(&s, &chars("</pre>"), true));
    assert!(!next_verbatim(&s, &chars("code </pre> <pre>"), true));
}

#[test]
fn segments_cover_the_document_in_order() {
    let lines = doc(&["a", "b", "", "c", "# h", "", "d"]);
    assert_eq!(
        classify(&Syntax::standard(), &lines),
        vec![reflowable(0, 3), reflowable(3, 4), opaque(4, 6), reflowable(6, 7)]
    );
}

#[test]
fn blank_lines_after_the_first_are_opaque() {
    let lines = doc(&["a", "", "", "", "b"]);
    assert_eq!(
        classify(&Syntax::standard(), &lines),
        vec![reflowable(0, 2), opaque(2, 4), reflowable(4, 5)]
    );
}

#[test]
fn unclosed_block_is_one_opaque_segment() {
    let lines = doc(&["intro", "<pre>", "x", "", "y", "# z", "more text"]);
    assert_eq!(classify(&Syntax::standard(), &lines), vec![reflowable(0, 1), opaque(1, 7)]);
}

#[test]
fn closed_block_is_followed_by_prose() {
    let lines = doc(&["<pre>", "x", "</pre>", "text", "more"]);
    assert_eq!(classify(&Syntax::standard(), &lines), vec![opaque(0, 3), reflowable(3, 5)]);
}

#[test]
fn empty_document_has_no_segment() {
    assert_eq!(classify(&Syntax::standard(), &doc(&[])), Vec::<Segment>::new());
}

#[test]
fn blank_document_is_opaque() {
    assert_eq!(classify(&Syntax::standard(), &doc(&["", " "])), vec![opaque(0, 2)]);
}
