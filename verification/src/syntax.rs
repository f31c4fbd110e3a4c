//! The markers by which the lines that are no prose are known.

use vstd::prelude::*;

verus! {

/// The markers of a kind of document.
pub struct Syntax {
    /// A line that holds this opens a block that is kept as it is.
    pub verbatim_open: Vec<char>,
    /// A line that holds this closes such a block.
    pub verbatim_close: Vec<char>,
    /// A line that holds this is a row of a table.
    pub column_marker: Vec<char>,
    /// A line whose first word is one of these characters, once or several
    /// times, is a heading, a list item or a rule.
    pub leaders: Vec<char>,
}

/// The markers as sequences of characters.
pub struct Markers {
    pub opener: Seq<char>,
    pub closer: Seq<char>,
    pub column: Seq<char>,
    pub leaders: Seq<char>,
}

impl View for Syntax {
    type V = Markers;

    open spec fn view(&self) -> Markers {
        Markers {
            opener: self.verbatim_open@,
            closer: self.verbatim_close@,
            column: self.column_marker@,
            leaders: self.leaders@,
        }
    }
}

/// The markers of the standard syntax: blocks between `<pre` and `</pre>`,
/// table rows with `|`, and the leading characters `#`, `-`, `*` and `+`.
pub open spec fn standard() -> Markers {
    Markers {
        opener: seq!['<', 'p', 'r', 'e'],
        closer: seq!['<', '/', 'p', 'r', 'e', '>'],
        column: seq!['|'],
        leaders: seq!['#', '-', '*', '+'],
    }
}

impl Syntax {
    /// The standard syntax.
    pub fn standard() -> (s: Syntax)
        ensures
            s@ == standard(),
    {
        let s = Syntax {
            verbatim_open: vec!['<', 'p', 'r', 'e'],
            verbatim_close: vec!['<', '/', 'p', 'r', 'e', '>'],
            column_marker: vec!['|'],
            leaders: vec!['#', '-', '*', '+'],
        };
        assert(s.verbatim_open@ =~= seq!['<', 'p', 'r', 'e']);
        assert(s.verbatim_close@ =~= seq!['<', '/', 'p', 'r', 'e', '>']);
        assert(s.column_marker@ =~= seq!['|']);
        assert(s.leaders@ =~= seq!['#', '-', '*', '+']);
        s
    }
}

impl Default for Syntax {
    fn default() -> (s: Syntax)
        ensures
            s@ == standard(),
    {
        Syntax::standard()
    }
}

} // verus!
