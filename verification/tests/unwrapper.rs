use specfmt::unwrap::{unwrap, LogicalLine};

fn chars(s: &str) -> Vec<char> {
    s.chars().collect()
}

fn doc(lines: &[&str]) -> Vec<Vec<char>> {
    lines.iter().map(|l| chars(l)).collect()
}

fn logical(indent: &str, text: &str, trailing_blank: bool) -> LogicalLine {
    LogicalLine { indent: chars(indent), text: chars(text), trailing_blank }
}

#[test]
fn lines_are_joined_by_single_spaces() {
    assert_eq!(
        unwrap(&doc(&["This is a line", "that continues.", ""])),
        logical("", "This is a line that continues.", true)
    );
    assert_eq!(
        unwrap(&doc(&["This is a line", "that continues."])),
        logical("", "This is a line that continues.", false)
    );
}

#[test]
fn least_indentation_is_shared() {
    assert_eq!(unwrap(&doc(&["  a  b  ", "    c"])), logical("  ", "a  b   c", false));
    assert_eq!(unwrap(&doc(&["    a", "  b", "   c"])), logical("  ", "  a b  c", false));
}

#[test]
fn indentation_is_taken_from_the_first_line() {
    assert_eq!(unwrap(&doc(&["\t x", " \ty"])), logical("\t ", "x y", false));
}

#[test]
fn whitespace_inside_a_line_stays() {
    assert_eq!(unwrap(&doc(&["a   b \t c   "])), logical("", "a   b \t c", false));
}

#[test]
fn single_line_is_its_own_text() {
    assert_eq!(unwrap(&doc(&["one line here"])), logical("", "one line here", false));
    let once = unwrap(&doc(&["  one line here"]));
    assert_eq!(once, logical("  ", "one line here", false));
}

#[test]
fn no_lines_no_text() {
    assert_eq!(unwrap(&doc(&[])), logical("", "", false));
    assert_eq!(unwrap(&doc(&[""])), logical("", "", true));
    assert_eq!(unwrap(&doc(&["   "])), logical("", "", true));
}

#[test]
fn blank_line_in_the_middle_has_an_empty_body() {
    assert_eq!(unwrap(&doc(&["  a", "", "  b"])), logical("", "  a    b", false));
}
