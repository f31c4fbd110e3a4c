use specfmt::words::{join_words, split_words};

fn chars(s: &str) -> Vec<char> {
    s.chars().collect()
}

fn doc(lines: &[&str]) -> Vec<Vec<char>> {
    lines.iter().map(|l| chars(l)).collect()
}

#[test]
fn split_words_parts_at_whitespace_runs() {
    assert_eq!(split_words(&chars("  one two\t\tthree  ")), doc(&["one", "two", "three"]));
    assert_eq!(split_words(&chars("one")), doc(&["one"]));
    assert_eq!(split_words(&chars("")), doc(&[]));
    assert_eq!(split_words(&chars(" \t ")), doc(&[]));
}

#[test]
fn join_words_puts_single_spaces() {
    assert_eq!(join_words(&doc(&["one", "two", "three"])), chars("one two three"));
    assert_eq!(join_words(&doc(&["one"])), chars("one"));
    assert_eq!(join_words(&doc(&[])), chars(""));
    assert_eq!(join_words(&doc(&["a", "", "b"])), chars("a  b"));
}

#[test]
fn words_joined_and_split_are_the_words() {
    let ws = doc(&["a", "bc", "d,"]);
    assert_eq!(split_words(&join_words(&ws)), ws);
}
