//! The errors that graph operations report, and the words that report them.

use vstd::prelude::*;
use vstd::string::StringExecFns;

verus! {

/// A node index that does not exist in a graph: `index >= size`.
#[derive(Debug, Clone, Copy, PartialEq, Eq, Structural)]
pub struct BoundsError {
    /// The offending node index.
    pub index: usize,
    /// The number of nodes of the graph.
    pub size: usize,
}

/// Why a bulk operation or an import stopped.
#[derive(Debug, PartialEq, Eq)]
pub enum ErrorKind {
    /// An edge named a node that the graph does not have.
    BoundsError(BoundsError),
    /// The edge source could not be read at all.
    ImportError { cause: String },
    /// Item number `line` of the edge source, counted from zero, is not an edge.
    ParseError { line: usize, cause: String },
}

/// The character of a decimal digit.
pub open spec fn digit_char(digit: nat) -> char {
    if digit == 0 {
        '0'
    } else if digit == 1 {
        '1'
    } else if digit == 2 {
        '2'
    } else if digit == 3 {
        '3'
    } else if digit == 4 {
        '4'
    } else if digit == 5 {
        '5'
    } else if digit == 6 {
        '6'
    } else if digit == 7 {
        '7'
    } else if digit == 8 {
        '8'
    } else {
        '9'
    }
}

/// A number in decimal digits, without leading zeros.
pub open spec fn decimal_text(n: nat) -> Seq<char>
    decreases n,
{
    if n < 10 {
        seq![digit_char(n)]
    } else {
        decimal_text(n / 10).push(digit_char(n % 10))
    }
}

/// The words that report a bounds error.
pub open spec fn bounds_text(error: BoundsError) -> Seq<char> {
    "Node with id "@ + decimal_text(error.index as nat) + " does not fit in Graph of size "@
        + decimal_text(error.size as nat) + "."@
}

/// The words that report an error: those of a bounds error, the cause of an
/// import error, or the item number and the cause of a parse error.
pub open spec fn error_text(error: ErrorKind) -> Seq<char> {
    match error {
        ErrorKind::BoundsError(bounds) => bounds_text(bounds),
        ErrorKind::ImportError { cause } => cause@,
        ErrorKind::ParseError { line, cause } => "line "@ + decimal_text(line as nat) + ": "@
            + cause@,
    }
}

/// A decimal digit as text.
fn digit_str(digit: usize) -> (text: &'static str)
    requires
        digit < 10,
    ensures
        text@ == seq![digit_char(digit as nat)],
{
    proof {
        reveal_strlit("0");
        reveal_strlit("1");
        reveal_strlit("2");
        reveal_strlit("3");
        reveal_strlit("4");
        reveal_strlit("5");
        reveal_strlit("6");
        reveal_strlit("7");
        reveal_strlit("8");
        reveal_strlit("9");
    }
    let text = if digit == 0 {
        "0"
    } else if digit == 1 {
        "1"
    } else if digit == 2 {
        "2"
    } else if digit == 3 {
        "3"
    } else if digit == 4 {
        "4"
    } else if digit == 5 {
        "5"
    } else if digit == 6 {
        "6"
    } else if digit == 7 {
        "7"
    } else if digit == 8 {
        "8"
    } else {
        "9"
    };
    text
}

/// Appends `n` in decimal digits to `text`.
pub fn push_decimal(text: &mut String, n: usize)
    ensures
        final(text)@ == old(text)@ + decimal_text(n as nat),
    decreases n,
{
    if n >= 10 {
        push_decimal(text, n / 10);
    }
    text.append(digit_str(n % 10));
}

impl BoundsError {
    /// The words that report this error.
    pub fn message(&self) -> (text: String)
        ensures
            text@ == bounds_text(*self),
    {
        let mut text = String::from_str("Node with id ");
        push_decimal(&mut text, self.index);
        text.append(" does not fit in Graph of size ");
        push_decimal(&mut text, self.size);
        text.append(".");
        text
    }
}

impl Clone for ErrorKind {
    fn clone(&self) -> (copy: Self)
        ensures
            copy == *self,
    {
        match self {
            ErrorKind::BoundsError(bounds) => ErrorKind::BoundsError(*bounds),
            ErrorKind::ImportError { cause } => ErrorKind::ImportError { cause: cause.clone() },
            ErrorKind::ParseError { line, cause } => ErrorKind::ParseError {
                line: *line,
                cause: cause.clone(),
            },
        }
    }
}

impl ErrorKind {
    /// The words that report this error.
    pub fn message(&self) -> (text: String)
        ensures
            text@ == error_text(*self),
    {
        match self {
            ErrorKind::BoundsError(bounds) => bounds.message(),
            ErrorKind::ImportError { cause } => cause.clone(),
            ErrorKind::ParseError { line, cause } => {
                let mut text = String::from_str("line ");
                push_decimal(&mut text, *line);
                text.append(": ");
                text.append(cause.as_str());
                text
            },
        }
    }
}

} // verus!
