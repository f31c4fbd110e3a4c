use specfmt::text::{
    contains, find, is_blank, is_digit, is_space, leading_spaces, push_range, same, starts_with,
    trimmed_len,
};

fn chars(s: &str) -> Vec<char> {
    s.chars().collect()
}

#[test]
fn whitespace_is_space_tab_and_line_ends() {
    assert!(is_space(' '));
    assert!(is_space('\t'));
    assert!(is_space('\n'));
    assert!(is_space('\r'));
    assert!(is_space('\x0C'));
    assert!(!is_space('a'));
    assert!(!is_space('-'));
    assert!(!is_space('\u{a0}'));
}

#[test]
fn digits_are_zero_to_nine() {
    for c in "0123456789".chars() {
        assert!(is_digit(c));
    }
    assert!(!is_digit('a'));
    assert!(!is_digit('.'));
    assert!(!is_digit('\u{663}'));
}

#[test]
fn blank_lines_hold_only_whitespace() {
    assert!(is_blank(&chars("")));
    assert!(is_blank(&chars("  \t ")));
    assert!(!is_blank(&chars("  a ")));
}

#[test]
fn leading_spaces_stop_at_the_first_word() {
    assert_eq!(leading_spaces(&chars("   ab ")), 3);
    assert_eq!(leading_spaces(&chars("ab")), 0);
    assert_eq!(leading_spaces(&chars("")), 0);
    assert_eq!(leading_spaces(&chars(" \t ")), 3);
}

#[test]
fn trimmed_len_drops_the_whitespace_at_the_end() {
    assert_eq!(trimmed_len(&chars("ab  ")), 2);
    assert_eq!(trimmed_len(&chars(" a")), 2);
    assert_eq!(trimmed_len(&chars("   ")), 0);
    assert_eq!(trimmed_len(&chars("")), 0);
    assert_eq!(trimmed_len(&chars("a b\t\r")), 3);
}

#[test]
fn find_gives_the_first_place() {
    let s = chars("abcabc");
    assert_eq!(find(&s, &chars("bc"), 0), Some(1));
    assert_eq!(find(&s, &chars("bc"), 1), Some(1));
    assert_eq!(find(&s, &chars("bc"), 2), Some(4));
    assert_eq!(find(&s, &chars("bc"), 5), None);
    assert_eq!(find(&s, &chars("abcabcd"), 0), None);
    assert_eq!(find(&s, &chars("x"), 0), None);
    assert_eq!(find(&s, &chars(""), 0), Some(0));
    assert_eq!(find(&s, &chars(""), 6), Some(6));
    assert_eq!(find(&s, &chars(""), 7), None);
    assert_eq!(find(&s, &chars("abcabc"), 0), Some(0));
}

#[test]
fn contains_finds_a_marker_anywhere() {
    assert!(contains(&chars("<dd><pre>"), &chars("<pre")));
    assert!(!contains(&chars("<p re>"), &chars("<pre")));
    assert!(contains(&chars(""), &chars("")));
}

#[test]
fn starts_with_looks_at_the_front_only() {
    assert!(starts_with(&chars("--wrap=5"), &chars("--wrap=")));
    assert!(!starts_with(&chars("-wrap=5"), &chars("--")));
    assert!(!starts_with(&chars("-"), &chars("--")));
    assert!(starts_with(&chars("x"), &chars("")));
}

#[test]
fn same_compares_all_characters() {
    assert!(same(&chars("help"), &chars("help")));
    assert!(!same(&chars("help"), &chars("helps")));
    assert!(!same(&chars("help"), &chars("hell")));
    assert!(same(&chars(""), &chars("")));
}

#[test]
fn push_range_appends_a_part() {
    let mut out = chars("ab");
    push_range(&mut out, &chars("012345"), 2, 4);
    assert_eq!(out, chars("ab23"));
    push_range(&mut out, &chars("012345"), 3, 3);
    assert_eq!(out, chars("ab23"));
}
