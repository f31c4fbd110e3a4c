use specfmt::cli::{parse_args, parse_width, ArgError, Command, Config};

fn chars(s: &str) -> Vec<char> {
    s.chars().collect()
}

fn args(list: &[&str]) -> Vec<String> {
    list.iter().map(|a| a.to_string()).collect()
}

fn run(filename: &str, column_length: u8) -> Result<Command, ArgError> {
    Ok(Command::Reflow(Config { filename: filename.to_string(), column_length }))
}

fn invalid(value: &str) -> Result<Command, ArgError> {
    Err(ArgError::InvalidWrapValue(value.to_string()))
}

#[test]
fn no_arguments_give_the_defaults() {
    assert_eq!(parse_args(&args(&[])), run("source", 100));
}

#[test]
fn help_asks_for_help() {
    assert_eq!(parse_args(&args(&["help"])), Ok(Command::Help));
    assert_eq!(parse_args(&args(&["file", "--wrap=80", "help"])), Ok(Command::Help));
    assert_eq!(parse_args(&args(&["help", "--wrap=x"])), Ok(Command::Help));
}

#[test]
fn file_name_and_width_are_read() {
    assert_eq!(parse_args(&args(&["file.txt", "--wrap=80"])), run("file.txt", 80));
    assert_eq!(parse_args(&args(&["--wrap=80", "file.txt"])), run("file.txt", 80));
    assert_eq!(parse_args(&args(&["file.txt"])), run("file.txt", 100));
    assert_eq!(parse_args(&args(&["--wrap=0"])), run("source", 0));
    assert_eq!(parse_args(&args(&["--wrap=255"])), run("source", 255));
}

#[test]
fn last_file_name_and_width_hold() {
    assert_eq!(parse_args(&args(&["a", "b"])), run("b", 100));
    assert_eq!(parse_args(&args(&["--wrap=10", "--wrap=20"])), run("source", 20));
}

#[test]
fn unknown_options_are_passed_over() {
    assert_eq!(parse_args(&args(&["--other", "x"])), run("x", 100));
    assert_eq!(parse_args(&args(&["--help"])), run("source", 100));
    assert_eq!(parse_args(&args(&["--wrap"])), run("source", 100));
    assert_eq!(parse_args(&args(&["-x"])), run("-x", 100));
}

#[test]
fn width_that_is_no_number_is_an_error() {
    assert_eq!(parse_args(&args(&["--wrap=abc"])), invalid("abc"));
    assert_eq!(parse_args(&args(&["--wrap="])), invalid(""));
    assert_eq!(parse_args(&args(&["--wrap=256"])), invalid("256"));
    assert_eq!(parse_args(&args(&["--wrap=-1"])), invalid("-1"));
    assert_eq!(parse_args(&args(&["--wrap= 5"])), invalid(" 5"));
    assert_eq!(parse_args(&args(&["--wrap=x", "help"])), invalid("x"));
    assert_eq!(parse_args(&args(&["f", "--wrap=1000", "--wrap=5"])), invalid("1000"));
}

#[test]
fn all_that_follows_the_option_is_the_width() {
    assert_eq!(parse_args(&args(&["--wrap=10=5"])), invalid("10=5"));
    assert_eq!(parse_args(&args(&["--wrap==5"])), invalid("=5"));
    assert_eq!(parse_args(&args(&["--wrap=10="])), invalid("10="));
    assert_eq!(parse_args(&args(&["--wrap=10 "])), invalid("10 "));
    assert_eq!(parse_args(&args(&["file", "--wrap=10=5", "help"])), invalid("10=5"));
}

#[test]
fn widths_are_decimal_numbers_up_to_255() {
    assert_eq!(parse_width(&chars("100")), Some(100));
    assert_eq!(parse_width(&chars("0")), Some(0));
    assert_eq!(parse_width(&chars("007")), Some(7));
    assert_eq!(parse_width(&chars("0000000000000000000255")), Some(255));
    assert_eq!(parse_width(&chars("+7")), Some(7));
    assert_eq!(parse_width(&chars("255")), Some(255));
    assert_eq!(parse_width(&chars("249")), Some(249));
    assert_eq!(parse_width(&chars("250")), Some(250));
    assert_eq!(parse_width(&chars("256")), None);
    assert_eq!(parse_width(&chars("260")), None);
    assert_eq!(parse_width(&chars("999")), None);
    assert_eq!(parse_width(&chars("2550")), None);
    assert_eq!(parse_width(&chars("25a")), None);
    assert_eq!(parse_width(&chars("")), None);
    assert_eq!(parse_width(&chars("+")), None);
    assert_eq!(parse_width(&chars("++1")), None);
    assert_eq!(parse_width(&chars("-0")), None);
    assert_eq!(parse_width(&chars("1 ")), None);
    assert_eq!(parse_width(&chars("\u{661}")), None);
}

#[test]
fn widths_agree_with_the_standard_parser() {
    for text in ["0", "9", "10", "99", "100", "199", "200", "255", "256", "300", "+12", "", "x"] {
        assert_eq!(parse_width(&chars(text)), text.parse::<u8>().ok());
    }
}
