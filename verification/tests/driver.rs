use specfmt::classify::classify;
use specfmt::reflow::{emit, push_lines, reformat, reflow, rewrap_lines};
use specfmt::syntax::Syntax;

fn chars(s: &str) -> Vec<char> {
    s.chars().collect()
}

fn doc(lines: &[&str]) -> Vec<Vec<char>> {
    lines.iter().map(|l| chars(l)).collect()
}

fn strings(lines: &[&str]) -> Vec<String> {
    lines.iter().map(|l| l.to_string()).collect()
}

#[test]
fn paragraph_is_unwrapped_and_wrapped_again() {
    let out = rewrap_lines(vec!["This is a line", "that continues.", ""], 10);
    assert_eq!(out, strings(&["This is a", "line that", "continues.", ""]));
}

#[test]
fn wide_tag_has_a_line_of_its_own() {
    let out = rewrap_lines(vec!["see <a_very_long_tag_name> here"], 10);
    assert_eq!(out, strings(&["see", "<a_very_long_tag_name>", "here"]));
}

#[test]
fn unclosed_block_stays_as_it_is() {
    let input = vec![
        "Some prose that is long enough to wrap.",
        "<pre>",
        "code   that    must stay as it is, however long the line may be",
        "",
        "more of it",
    ];
    let out = rewrap_lines(input.clone(), 20);
    assert_eq!(
        out,
        strings(&[
            "Some prose that is",
            "long enough to wrap.",
            "<pre>",
            "code   that    must stay as it is, however long the line may be",
            "",
            "more of it",
        ])
    );
}

#[test]
fn second_run_changes_nothing() {
    let input = vec![
        "  The quick brown fox jumps over the lazy dog and keeps on running",
        "  through the <a href=\"https://example.org/a/long/address\">forest</a> until",
        "  night falls.",
        "",
        "- a list item that is not touched",
        "| a | table |",
        "Another paragraph - with a dash - in it, and a 1. number in it.",
    ];
    let once = rewrap_lines(input, 30);
    let again = rewrap_lines(once.iter().map(|l| l.as_str()).collect(), 30);
    assert_eq!(once, again);
}

#[test]
fn closed_block_ends_and_prose_follows() {
    let out = rewrap_lines(
        vec!["<pre>", "a  b", "</pre>", "one two three four"],
        9,
    );
    assert_eq!(out, strings(&["<pre>", "a  b", "</pre>", "one two", "three", "four"]));
}

#[test]
fn block_on_one_line_opens_nothing() {
    let out = rewrap_lines(vec!["<pre>a  b</pre>", "one two three four"], 9);
    assert_eq!(out, strings(&["<pre>a  b</pre>", "one two", "three", "four"]));
}

#[test]
fn indentation_is_kept_on_every_line() {
    let out = rewrap_lines(vec!["    alpha beta", "    gamma delta"], 15);
    assert_eq!(out, strings(&["    alpha beta", "    gamma delta"]));
    let out = rewrap_lines(vec!["    alpha beta", "      gamma delta"], 16);
    assert_eq!(out, strings(&["    alpha beta", "    gamma delta"]));
}

#[test]
fn token_that_fills_the_line_stays_on_it() {
    let out = rewrap_lines(vec!["abc de fgh"], 6);
    assert_eq!(out, strings(&["abc de", "fgh"]));
    let out = rewrap_lines(vec!["abc de fgh"], 5);
    assert_eq!(out, strings(&["abc", "de", "fgh"]));
}

#[test]
fn empty_document_stays_empty() {
    let out = rewrap_lines(Vec::new(), 100);
    assert_eq!(out, Vec::<String>::new());
}

#[test]
fn width_zero_puts_each_token_on_a_line() {
    let out = rewrap_lines(vec!["a b c"], 0);
    assert_eq!(out, strings(&["a", "b", "c"]));
}

#[test]
fn opaque_lines_keep_their_places() {
    let input = vec!["# Title", "", "word word word", "", "* item", "word"];
    let out = rewrap_lines(input, 9);
    assert_eq!(out, strings(&["# Title", "", "word word", "word", "", "* item", "word"]));
}

#[test]
fn reflow_takes_another_syntax() {
    let syntax = Syntax {
        verbatim_open: chars("```"),
        verbatim_close: chars("```"),
        column_marker: chars("||"),
        leaders: chars(">"),
    };
    let input = doc(&["```", "a   b", "```", "> quote", "a | b c d"]);
    let out = reflow(&syntax, &input, 5);
    assert_eq!(out, doc(&["```", "a   b", "```", "> quote", "a | b", "c d"]));
}

#[test]
fn reformat_splits_and_joins_at_line_feeds() {
    assert_eq!(reformat("This is a line\nthat continues.\n", 10), "This is a\nline that\ncontinues.\n");
    assert_eq!(reformat("", 10), "");
    assert_eq!(reformat("\n\n", 10), "\n\n");
}

fn words(lines: &[String]) -> Vec<String> {
    lines.iter().flat_map(|l| l.split_whitespace().map(|w| w.to_string())).collect()
}

#[test]
fn words_stay_in_their_order() {
    let input = vec![
        "   One  two   three,",
        " four <a  b>   five `six  seven` eight",
        "",
        "# nine   ten",
        "eleven | twelve",
        "thirteen",
    ];
    for width in [0u8, 1, 5, 10, 20, 80, 255] {
        let out = rewrap_lines(input.clone(), width);
        let given: Vec<String> = input.iter().map(|l| l.to_string()).collect();
        assert_eq!(words(&out), words(&given));
    }
}

#[test]
fn prose_keeps_the_width() {
    let input = vec![
        "  The quick brown fox jumps over the lazy dog, and the",
        "  <a href=\"https://example.org/a/very/long/address/indeed\">dog</a> does not mind.",
    ];
    let out = rewrap_lines(input, 24);
    assert_eq!(
        out,
        strings(&[
            "  The quick brown fox",
            "  jumps over the lazy",
            "  dog, and the",
            "  <a href=\"https://example.org/a/very/long/address/indeed\">dog</a>",
            "  does not mind.",
        ])
    );
    for (i, line) in out.iter().enumerate() {
        assert!(line.chars().count() <= 24 || i == 3);
        assert!(line.starts_with("  "));
        assert!(!line[2..].starts_with(' '));
    }
}

#[test]
fn reflow_of_wrapped_lines_changes_nothing() {
    let wrapped = vec!["    alpha beta", "    gamma", "    delta eps", "", "- x", "    zeta"];
    let out = rewrap_lines(wrapped.clone(), 14);
    assert_eq!(out, strings(&wrapped));
}

#[test]
fn line_that_begins_with_a_marker_after_wrapping_is_kept() {
    let once = rewrap_lines(vec!["aaaaaa - bb cc dd"], 6);
    assert_eq!(once, strings(&["aaaaaa", "- bb", "cc dd"]));
    let again = rewrap_lines(once.iter().map(|l| l.as_str()).collect(), 6);
    assert_eq!(again, once);
}

#[test]
fn blank_line_with_whitespace_is_kept_as_it_is() {
    let out = rewrap_lines(vec!["a b", "  \t", "c"], 1);
    assert_eq!(out, strings(&["a", "b", "  \t", "c"]));
}

#[test]
fn table_and_list_lines_are_not_touched() {
    let input = vec![
        "| a very long row | of a table that is wider than the width |",
        "1. a numbered item that is also wider than the width given",
        "* a bullet item that is also wider than the width given here",
    ];
    assert_eq!(rewrap_lines(input.clone(), 20), strings(&input));
}

#[test]
fn emitted_segments_make_the_document() {
    let syntax = Syntax::standard();
    let input = doc(&["  a b c", "  d", "", "# t", "e f"]);
    let mut out: Vec<Vec<char>> = Vec::new();
    for seg in classify(&syntax, &input) {
        emit(&mut out, &input, seg, 5);
    }
    assert_eq!(out, reflow(&syntax, &input, 5));
    assert_eq!(out, doc(&["  a b", "  c d", "", "# t", "e f"]));
}

#[test]
fn push_lines_copies_a_part() {
    let input = doc(&["a", "b", "c"]);
    let mut out = doc(&["x"]);
    push_lines(&mut out, &input, 1, 3);
    assert_eq!(out, doc(&["x", "b", "c"]));
    push_lines(&mut out, &input, 2, 2);
    assert_eq!(out, doc(&["x", "b", "c"]));
}

#[test]
fn second_reformat_changes_nothing() {
    let text = "  The quick brown fox jumps over the lazy dog and keeps on running\n  through the forest.\n\n<pre>\n  kept   as it is\n</pre>\n- item\nLast paragraph, with a <a  href=x>link</a> in it.\n";
    for width in [0u8, 7, 20, 100] {
        let once = reformat(text, width);
        assert_eq!(reformat(&once, width), once);
    }
    assert_eq!(
        reformat(text, 20),
        "  The quick brown\n  fox jumps over the\n  lazy dog and keeps\n  on running through\n  the forest.\n\n<pre>\n  kept   as it is\n</pre>\n- item\nLast paragraph, with\na <a href=x>link</a>\nin it.\n"
    );
}
