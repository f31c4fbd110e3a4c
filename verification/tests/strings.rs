use specfmt::strings::{chars_of, lines_of, string_of, text_of_lines};

fn chars(s: &str) -> Vec<char> {
    s.chars().collect()
}

fn doc(lines: &[&str]) -> Vec<Vec<char>> {
    lines.iter().map(|l| chars(l)).collect()
}

#[test]
fn chars_of_gives_the_characters() {
    assert_eq!(chars_of("héllo wörld"), chars("héllo wörld"));
    assert_eq!(chars_of("héllo").len(), 5);
    assert_eq!(chars_of(""), chars(""));
}

#[test]
fn string_of_gives_the_string() {
    assert_eq!(string_of(&chars("héllo wörld")), "héllo wörld");
    assert_eq!(string_of(&chars("")), "");
    assert_eq!(string_of(&chars_of("a\tb")), "a\tb");
}

#[test]
fn lines_of_splits_at_line_feeds() {
    assert_eq!(lines_of(&chars("a\nb\n")), doc(&["a", "b", ""]));
    assert_eq!(lines_of(&chars("a\n\nb")), doc(&["a", "", "b"]));
    assert_eq!(lines_of(&chars("")), doc(&[""]));
    assert_eq!(lines_of(&chars("\n")), doc(&["", ""]));
    assert_eq!(lines_of(&chars("a\r\nb")), doc(&["a\r", "b"]));
}

#[test]
fn text_of_lines_joins_with_line_feeds() {
    assert_eq!(text_of_lines(&doc(&["a", "b", ""])), chars("a\nb\n"));
    assert_eq!(text_of_lines(&doc(&[""])), chars(""));
    assert_eq!(text_of_lines(&doc(&[])), chars(""));
}

#[test]
fn split_and_joined_text_is_the_text() {
    for text in ["", "\n", "a", "a\nb", "\n\na\n\n", "x y \n z\n"] {
        assert_eq!(text_of_lines(&lines_of(&chars(text))), chars(text));
    }
}
