use specfmt::tokenize::{
    advance, group_words, is_punctuation, scan_word, tokenize, Mode, Token, TokenKind,
};

fn chars(s: &str) -> Vec<char> {
    s.chars().collect()
}

fn token(s: &str, kind: TokenKind) -> Token {
    Token { text: chars(s), kind }
}

#[test]
fn words_are_tokens() {
    assert_eq!(
        tokenize(&chars("This is a  line")),
        vec![
            token("This", TokenKind::Word),
            token("is", TokenKind::Word),
            token("a", TokenKind::Word),
            token("line", TokenKind::Word),
        ]
    );
}

#[test]
fn no_words_no_tokens() {
    assert_eq!(tokenize(&chars("")), Vec::<Token>::new());
    assert_eq!(tokenize(&chars("  \t ")), Vec::<Token>::new());
}

#[test]
fn punctuation_stays_with_its_word() {
    assert_eq!(
        tokenize(&chars("wait, what? (yes) no")),
        vec![
            token("wait,", TokenKind::Punctuated),
            token("what?", TokenKind::Punctuated),
            token("(yes)", TokenKind::Punctuated),
            token("no", TokenKind::Word),
        ]
    );
}

#[test]
fn tag_with_spaces_is_one_token() {
    assert_eq!(
        tokenize(&chars("see <a href=\"x\"  class=\"y\">link</a> now")),
        vec![
            token("see", TokenKind::Word),
            token("<a href=\"x\" class=\"y\">link</a>", TokenKind::Markup),
            token("now", TokenKind::Word),
        ]
    );
}

#[test]
fn very_long_tag_is_one_token_of_its_width() {
    let tokens = tokenize(&chars("<a_very_long_tag_name>"));
    assert_eq!(tokens, vec![token("<a_very_long_tag_name>", TokenKind::Markup)]);
    assert_eq!(tokens[0].width(), 22);
}

#[test]
fn code_span_is_one_token() {
    assert_eq!(
        tokenize(&chars("use `a  b` here.")),
        vec![
            token("use", TokenKind::Word),
            token("`a b`", TokenKind::Markup),
            token("here.", TokenKind::Punctuated),
        ]
    );
}

#[test]
fn lone_opener_opens_nothing() {
    assert_eq!(
        tokenize(&chars("a < b > c ` d")),
        vec![
            token("a", TokenKind::Word),
            token("<", TokenKind::Word),
            token("b", TokenKind::Word),
            token(">", TokenKind::Word),
            token("c", TokenKind::Word),
            token("`", TokenKind::Word),
            token("d", TokenKind::Word),
        ]
    );
}

#[test]
fn unclosed_construct_goes_to_the_end() {
    assert_eq!(
        tokenize(&chars("x <y z  w")),
        vec![token("x", TokenKind::Word), token("<y z w", TokenKind::Markup)]
    );
}

#[test]
fn tag_inside_a_word_is_markup() {
    assert_eq!(
        tokenize(&chars("<b>bold</b>, and plain")),
        vec![
            token("<b>bold</b>,", TokenKind::Markup),
            token("and", TokenKind::Word),
            token("plain", TokenKind::Word),
        ]
    );
}

#[test]
fn two_constructs_in_a_row() {
    assert_eq!(
        tokenize(&chars("<a b><c d> e")),
        vec![token("<a b><c d>", TokenKind::Markup), token("e", TokenKind::Word)]
    );
    assert_eq!(
        tokenize(&chars("<a b> <c d>")),
        vec![token("<a b>", TokenKind::Markup), token("<c d>", TokenKind::Markup)]
    );
}

#[test]
fn advance_follows_the_constructs() {
    assert_eq!(advance(Mode::Text, 'a', true), Mode::Text);
    assert_eq!(advance(Mode::Text, '<', true), Mode::Tag);
    assert_eq!(advance(Mode::Text, '<', false), Mode::Text);
    assert_eq!(advance(Mode::Text, '`', true), Mode::Span);
    assert_eq!(advance(Mode::Text, '`', false), Mode::Text);
    assert_eq!(advance(Mode::Text, '>', true), Mode::Text);
    assert_eq!(advance(Mode::Tag, '>', true), Mode::Text);
    assert_eq!(advance(Mode::Tag, '`', true), Mode::Tag);
    assert_eq!(advance(Mode::Tag, '<', true), Mode::Tag);
    assert_eq!(advance(Mode::Span, '`', false), Mode::Text);
    assert_eq!(advance(Mode::Span, '>', true), Mode::Span);
}

#[test]
fn scan_word_tells_the_mode_and_what_was_open() {
    assert_eq!(scan_word(Mode::Text, &chars("plain")), (Mode::Text, false));
    assert_eq!(scan_word(Mode::Text, &chars("<a")), (Mode::Tag, true));
    assert_eq!(scan_word(Mode::Text, &chars("<a>")), (Mode::Text, true));
    assert_eq!(scan_word(Mode::Tag, &chars("b>")), (Mode::Text, true));
    assert_eq!(scan_word(Mode::Tag, &chars("x>y")), (Mode::Text, true));
    assert_eq!(scan_word(Mode::Span, &chars("b")), (Mode::Span, true));
    assert_eq!(scan_word(Mode::Text, &chars("")), (Mode::Text, false));
    assert_eq!(scan_word(Mode::Text, &chars("a<")), (Mode::Text, false));
}

#[test]
fn group_words_joins_the_words_of_a_construct() {
    let ws: Vec<Vec<char>> = vec![chars("<i"), chars("x"), chars("y>"), chars("z")];
    assert_eq!(
        group_words(&ws),
        vec![token("<i x y>", TokenKind::Markup), token("z", TokenKind::Word)]
    );
}

#[test]
fn punctuation_marks() {
    for c in ".,;:!?)]}\"'".chars() {
        assert!(is_punctuation(c));
    }
    assert!(!is_punctuation('a'));
    assert!(!is_punctuation('('));
    assert!(!is_punctuation('-'));
}
