//! The command line: what the arguments ask for.

use crate::strings::{chars_of, string_of};
use crate::text::{
    digit, is_digit, lemma_line_view, occurs_at, push_range, same, starts_with,
};
use vstd::prelude::*;

verus! {

broadcast use lemma_line_view;

/// What to reflow, and to which width.
#[derive(Clone, Debug, PartialEq, Eq)]
pub struct Config {
    pub filename: String,
    pub column_length: u8,
}

/// What the arguments ask for.
#[derive(Clone, Debug, PartialEq, Eq)]
pub enum Command {
    /// To show how the program is used.
    Help,
    /// To reflow a file.
    Reflow(Config),
}

/// Why the arguments cannot be followed.
#[derive(Clone, Debug, PartialEq, Eq)]
pub enum ArgError {
    /// The width is no number from 0 to 255. It holds what stood in its place.
    InvalidWrapValue(String),
}

/// What the arguments ask for, over sequences of characters.
pub enum Outcome {
    Help,
    Reflow { filename: Seq<char>, width: u8 },
    Invalid { value: Seq<char> },
}

/// The argument that asks for help.
pub open spec fn help_word() -> Seq<char> {
    seq!['h', 'e', 'l', 'p']
}

/// What an argument that gives the width begins with.
pub open spec fn wrap_option() -> Seq<char> {
    seq!['-', '-', 'w', 'r', 'a', 'p', '=']
}

/// What every option begins with.
pub open spec fn option_mark() -> Seq<char> {
    seq!['-', '-']
}

/// The name of the file that is reflowed where the arguments name none.
pub open spec fn default_filename() -> Seq<char> {
    seq!['s', 'o', 'u', 'r', 'c', 'e']
}

/// The width where the arguments give none.
pub open spec fn default_width() -> u8 {
    100
}

/// The number that the digit `c` stands for.
pub open spec fn digit_value(c: char) -> nat {
    if c == '1' {
        1
    } else if c == '2' {
        2
    } else if c == '3' {
        3
    } else if c == '4' {
        4
    } else if c == '5' {
        5
    } else if c == '6' {
        6
    } else if c == '7' {
        7
    } else if c == '8' {
        8
    } else if c == '9' {
        9
    } else {
        0
    }
}

/// The number that the digits `s` stand for, read as a decimal number.
pub open spec fn number(s: Seq<char>) -> nat
    decreases s.len(),
{
    if s.len() == 0 {
        0
    } else {
        number(s.drop_last()) * 10 + digit_value(s.last())
    }
}

/// Whether every character of `s` is a digit.
pub open spec fn all_digits(s: Seq<char>) -> bool {
    forall|i: int| 0 <= i < s.len() ==> digit(#[trigger] s[i])
}

/// `s` without the plus sign that it may begin with.
pub open spec fn unsigned(s: Seq<char>) -> Seq<char> {
    if s.len() > 0 && s[0] == '+' {
        s.skip(1)
    } else {
        s
    }
}

/// The width that `s` stands for: a decimal number from 0 to 255, written
/// with at least one digit and nothing else but a plus sign in front.
pub open spec fn width_of(s: Seq<char>) -> Option<u8> {
    let d = unsigned(s);
    if d.len() > 0 && all_digits(d) && number(d) <= 255 {
        Some(number(d) as u8)
    } else {
        None
    }
}

/// What stands for the width in the argument `arg`, which begins with
/// `--wrap=`: all that follows that.
pub open spec fn width_text(arg: Seq<char>) -> Seq<char> {
    arg.skip(wrap_option().len() as int)
}

/// What the arguments `args` ask for, read from the left, `filename` and
/// `width` being what holds before them. `help` ends the reading, and so does
/// a width that is no number from 0 to 255: all that follows `--wrap=` must
/// be that number. Of several file names or widths the last one holds. An
/// option that is not known is passed over.
pub open spec fn outcome(args: Seq<Seq<char>>, filename: Seq<char>, width: u8) -> Outcome
    decreases args.len(),
{
    if args.len() == 0 {
        Outcome::Reflow { filename, width }
    } else if args[0] == help_word() {
        Outcome::Help
    } else if occurs_at(args[0], wrap_option(), 0) {
        match width_of(width_text(args[0])) {
            Some(n) => outcome(args.skip(1), filename, n),
            None => Outcome::Invalid { value: width_text(args[0]) },
        }
    } else if !occurs_at(args[0], option_mark(), 0) {
        outcome(args.skip(1), args[0], width)
    } else {
        outcome(args.skip(1), filename, width)
    }
}

/// Whether `r` says what `o` says.
pub open spec fn agrees(r: Result<Command, ArgError>, o: Outcome) -> bool {
    match o {
        Outcome::Help => r == Ok::<Command, ArgError>(Command::Help),
        Outcome::Reflow { filename, width } => match r {
            Ok(Command::Reflow(config)) => config.filename@ == filename && config.column_length
                == width,
            _ => false,
        },
        Outcome::Invalid { value } => match r {
            Err(ArgError::InvalidWrapValue(text)) => text@ == value,
            _ => false,
        },
    }
}

/// A number is no less than the number that its first digits stand for.
pub proof fn lemma_number_grows(s: Seq<char>, k: int)
    requires
        0 <= k <= s.len(),
    ensures
        number(s.take(k)) <= number(s),
    decreases s.len() - k,
{
    if k < s.len() {
        lemma_number_grows(s.drop_last(), k);
        assert(s.drop_last().take(k) =~= s.take(k));
    } else {
        assert(s.take(k) =~= s);
    }
}

/// The number that the digit `c` stands for.
fn digit_of(c: char) -> (n: u8)
    ensures
        n == digit_value(c),
        n <= 9,
{
    if c == '1' {
        1
    } else if c == '2' {
        2
    } else if c == '3' {
        3
    } else if c == '4' {
        4
    } else if c == '5' {
        5
    } else if c == '6' {
        6
    } else if c == '7' {
        7
    } else if c == '8' {
        8
    } else if c == '9' {
        9
    } else {
        0
    }
}

/// Reads a width: a decimal number from 0 to 255.
pub fn parse_width(s: &Vec<char>) -> (r: Option<u8>)
    ensures
        r == width_of(s@),
{
    let start: usize = if s.len() > 0 && s[0] == '+' {
        1
    } else {
        0
    };
    let ghost d = unsigned(s@);
    assert(d =~= s@.skip(start as int));
    if start == s.len() {
        return None;
    }
    let mut value: u8 = 0;
    let mut i: usize = start;
    assert(d.take(0) =~= Seq::<char>::empty());
    while i < s.len()
        invariant
            start <= i <= s.len(),
            d == s@.skip(start as int),
            d == unsigned(s@),
            forall|j: int| 0 <= j < i - start ==> digit(#[trigger] d[j]),
            value == number(d.take(i - start)),
        decreases s.len() - i,
    {
        let c = s[i];
        assert(d[i - start] == c);
        if !is_digit(c) {
            return None;
        }
        let v: u8 = digit_of(c);
        proof {
            let next = d.take(i - start + 1);
            assert(next.drop_last() =~= d.take(i - start));
            assert(next.last() == c);
            lemma_number_grows(d, i - start + 1);
        }
        if value > 25 || (value == 25 && v > 5) {
            return None;
        }
        value = value * 10 + v;
        i += 1;
    }
    assert(d.take(i - start) =~= d);
    Some(value)
}

/// Reads the arguments that follow the name of the program.
pub fn parse_args(args: &Vec<String>) -> (r: Result<Command, ArgError>)
    ensures
        agrees(r, outcome(args.deep_view(), default_filename(), default_width())),
{
    let ghost all = args.deep_view();
    let help: Vec<char> = vec!['h', 'e', 'l', 'p'];
    let wrap: Vec<char> = vec!['-', '-', 'w', 'r', 'a', 'p', '='];
    let mark: Vec<char> = vec!['-', '-'];
    let mut filename: Vec<char> = vec!['s', 'o', 'u', 'r', 'c', 'e'];
    let mut width: u8 = 100;
    let mut i: usize = 0;
    proof {
        assert(help@ =~= help_word());
        assert(wrap@ =~= wrap_option());
        assert(mark@ =~= option_mark());
        assert(filename@ =~= default_filename());
        assert(all.skip(0) =~= all);
    }
    while i < args.len()
        invariant
            i <= args.len(),
            all == args.deep_view(),
            help@ == help_word(),
            wrap@ == wrap_option(),
            mark@ == option_mark(),
            outcome(all.skip(i as int), filename@, width) == outcome(
                all,
                default_filename(),
                default_width(),
            ),
        decreases args.len() - i,
    {
        let arg = chars_of(args[i].as_str());
        let ghost rest = all.skip(i as int);
        proof {
            assert(rest[0] == arg@);
            assert(rest.skip(1) =~= all.skip(i + 1));
        }
        if same(&arg, &help) {
            return Ok(Command::Help);
        } else if starts_with(&arg, &wrap) {
            let mut text: Vec<char> = Vec::new();
            push_range(&mut text, &arg, wrap.len(), arg.len());
            assert(text@ =~= width_text(arg@));
            match parse_width(&text) {
                Some(n) => {
                    width = n;
                },
                None => {
                    return Err(ArgError::InvalidWrapValue(string_of(&text)));
                },
            }
        } else if !starts_with(&arg, &mark) {
            filename = arg;
        }
        i += 1;
    }
    assert(all.skip(i as int) =~= Seq::<Seq<char>>::empty());
    Ok(Command::Reflow(Config { filename: string_of(&filename), column_length: width }))
}

} // verus!
