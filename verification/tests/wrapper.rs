use specfmt::tokenize::{tokenize, Token, TokenKind};
use specfmt::wrap::wrap;

fn chars(s: &str) -> Vec<char> {
    s.chars().collect()
}

fn doc(lines: &[&str]) -> Vec<Vec<char>> {
    lines.iter().map(|l| chars(l)).collect()
}

#[test]
fn tokens_are_packed_greedily() {
    let tokens = tokenize(&chars("This is a line that continues."));
    assert_eq!(wrap(&tokens, &chars(""), 10), doc(&["This is a", "line that", "continues."]));
}

#[test]
fn every_line_begins_with_the_indentation() {
    let tokens = tokenize(&chars("This is a line that continues."));
    assert_eq!(
        wrap(&tokens, &chars("  "), 10),
        doc(&["  This is", "  a line", "  that", "  continues."])
    );
    let lines = wrap(&tokens, &chars(" \t"), 12);
    for line in &lines {
        assert_eq!(line[..2], chars(" \t")[..]);
        assert!(!line[2].is_whitespace());
    }
}

#[test]
fn token_wider_than_the_line_stands_alone() {
    let tokens = vec![Token { text: chars("<a_very_long_tag_name>"), kind: TokenKind::Markup }];
    assert_eq!(wrap(&tokens, &chars(""), 10), doc(&["<a_very_long_tag_name>"]));
    let tokens = tokenize(&chars("a <a_very_long_tag_name> b c"));
    assert_eq!(wrap(&tokens, &chars(""), 10), doc(&["a", "<a_very_long_tag_name>", "b c"]));
}

#[test]
fn token_that_fits_exactly_is_kept() {
    let tokens = tokenize(&chars("abc de f"));
    assert_eq!(wrap(&tokens, &chars(""), 6), doc(&["abc de", "f"]));
    assert_eq!(wrap(&tokens, &chars(""), 5), doc(&["abc", "de f"]));
    assert_eq!(wrap(&tokens, &chars(""), 8), doc(&["abc de f"]));
    assert_eq!(wrap(&tokens, &chars(""), 7), doc(&["abc de", "f"]));
}

#[test]
fn no_tokens_no_lines() {
    assert_eq!(wrap(&Vec::new(), &chars("    "), 10), doc(&[]));
}

#[test]
fn widest_width_is_255() {
    let text: String = std::iter::repeat("ab ").take(100).collect();
    let lines = wrap(&tokenize(&chars(&text)), &chars(""), 255);
    assert_eq!(lines.len(), 2);
    assert_eq!(lines[0].len(), 254);
    assert_eq!(lines[1].len(), 44);
}

#[test]
fn lines_keep_the_width_unless_a_token_stands_alone() {
    let tokens = tokenize(&chars(
        "The <a href=\"https://example.org/some/long/address\">link</a> is long, the rest is not.",
    ));
    let indent = chars("  ");
    let lines = wrap(&tokens, &indent, 20);
    for line in &lines {
        let alone = tokens.iter().any(|t| {
            let mut whole = indent.clone();
            whole.extend(t.text.iter());
            &whole == line
        });
        assert!(line.len() <= 20 || alone);
    }
    assert_eq!(
        lines,
        doc(&[
            "  The",
            "  <a href=\"https://example.org/some/long/address\">link</a>",
            "  is long, the rest",
            "  is not.",
        ])
    );
}
