//! Edge lists as delimiter-separated text.
//!
//! The text holds one edge per line. A line is two fields with one delimiter
//! byte between them, and a field is a node index in decimal digits. Lines
//! end with a line feed, which the last line may lack. Nothing is skipped:
//! there is no header row, and an empty line is a malformed line.

use crate::error::ErrorKind;
use crate::graph::{
    applied_prefix, closed_under_successors, empty_graph, item_applies, item_edges, misfit,
    with_edges, Graph,
};
use vstd::prelude::*;
use vstd::slice::slice_subrange;
use vstd::string::StringExecFns;

verus! {

/// The byte that ends a line.
pub const LINE_FEED: u8 = 10;

/// The byte of the digit zero.
pub const DIGIT_ZERO: u8 = 48;

/// What is wrong with a line that is not an edge.
#[derive(Debug, Clone, Copy, PartialEq, Eq, Structural)]
pub enum LineFault {
    /// The line does not hold the delimiter exactly once.
    FieldCount,
    /// A field has no bytes.
    EmptyField,
    /// A field holds a byte that is not a decimal digit.
    NotDigits,
    /// A field's number does not fit a node index.
    TooLarge,
}

/// The index of the first `b` in `s`, or `s.len()` where `s` holds none.
pub open spec fn position(s: Seq<u8>, b: u8) -> nat
    decreases s.len(),
{
    if s.len() == 0 || s[0] == b {
        0
    } else {
        1 + position(s.drop_first(), b)
    }
}

/// The lines of `text`, without their line feeds. What follows the last
/// line feed is a line unless it is empty.
pub open spec fn lines(text: Seq<u8>) -> Seq<Seq<u8>>
    decreases text.len(),
{
    if text.len() == 0 {
        Seq::empty()
    } else {
        let end = position(text, LINE_FEED) as int;
        if end >= text.len() {
            seq![text]
        } else {
            seq![text.take(end)] + lines(text.skip(end + 1))
        }
    }
}

/// `b` is one of the bytes `0` to `9`.
pub open spec fn is_digit(b: u8) -> bool {
    DIGIT_ZERO <= b <= DIGIT_ZERO + 9
}

/// Every byte of `s` is a decimal digit.
pub open spec fn all_digits(s: Seq<u8>) -> bool {
    forall|i: int| 0 <= i < s.len() ==> is_digit(#[trigger] s[i])
}

/// The number that a string of decimal digits denotes; 0 for the empty string.
pub open spec fn decimal_value(digits: Seq<u8>) -> nat
    decreases digits.len(),
{
    if digits.len() == 0 {
        0
    } else {
        10 * decimal_value(digits.drop_last()) + (digits.last() - DIGIT_ZERO) as nat
    }
}

/// The node index that a field denotes, or what is wrong with the field.
pub open spec fn field_index(field: Seq<u8>) -> Result<usize, LineFault> {
    if field.len() == 0 {
        Err(LineFault::EmptyField)
    } else if !all_digits(field) {
        Err(LineFault::NotDigits)
    } else if decimal_value(field) > usize::MAX {
        Err(LineFault::TooLarge)
    } else {
        Ok(decimal_value(field) as usize)
    }
}

/// The edge that a line denotes, or what is wrong with the line. Of two
/// faulty fields the first one decides.
pub open spec fn line_edge(line: Seq<u8>, delimiter: u8) -> Result<(usize, usize), LineFault> {
    let at = position(line, delimiter) as int;
    if at >= line.len() || line.skip(at + 1).contains(delimiter) {
        Err(LineFault::FieldCount)
    } else {
        match field_index(line.take(at)) {
            Err(fault) => Err(fault),
            Ok(n1) => match field_index(line.skip(at + 1)) {
                Err(fault) => Err(fault),
                Ok(n2) => Ok((n1, n2)),
            },
        }
    }
}

/// What each line of `text` denotes, in order.
pub open spec fn line_edges(text: Seq<u8>, delimiter: u8) -> Seq<Result<(usize, usize), LineFault>> {
    Seq::new(lines(text).len(), |i: int| line_edge(lines(text)[i], delimiter))
}

/// The words that report a fault.
pub open spec fn fault_text(fault: LineFault) -> Seq<char> {
    match fault {
        LineFault::FieldCount => "expected two fields"@,
        LineFault::EmptyField => "cannot parse integer from empty string"@,
        LineFault::NotDigits => "invalid digit found in string"@,
        LineFault::TooLarge => "number too large to fit in target type"@,
    }
}

/// `position` is at most the length, names a `b` where it is less, and passes
/// no `b` on its way.
pub proof fn lemma_position(s: Seq<u8>, b: u8)
    ensures
        position(s, b) <= s.len(),
        position(s, b) < s.len() ==> s[position(s, b) as int] == b,
        forall|i: int| 0 <= i < position(s, b) ==> s[i] != b,
        position(s, b) < s.len() <==> s.contains(b),
    decreases s.len(),
{
    if s.len() > 0 && s[0] != b {
        let rest = s.drop_first();
        lemma_position(rest, b);
        assert forall|i: int| 0 <= i < position(s, b) implies s[i] != b by {
            if i > 0 {
                assert(rest[i - 1] == s[i]);
            }
        }
    }
}

/// A string of digits denotes at least what any of its prefixes denotes.
proof fn lemma_decimal_prefix(digits: Seq<u8>, n: int)
    requires
        all_digits(digits),
        0 <= n <= digits.len(),
    ensures
        decimal_value(digits.take(n)) <= decimal_value(digits),
    decreases digits.len() - n,
{
    if n == digits.len() {
        assert(digits.take(n) =~= digits);
    } else {
        lemma_decimal_prefix(digits, n + 1);
        assert(digits.take(n + 1).drop_last() =~= digits.take(n));
    }
}

/// The index of the first `b` in `s`, or `s.len()` where `s` holds none.
pub fn find_byte(s: &[u8], b: u8) -> (at: usize)
    ensures
        at == position(s@, b),
        at <= s@.len(),
        at < s@.len() <==> s@.contains(b),
{
    let mut i: usize = 0;
    proof {
        assert(s@.skip(0) =~= s@);
        lemma_position(s@, b);
    }
    while i < s.len()
        invariant
            i <= s@.len(),
            position(s@, b) == i + position(s@.skip(i as int), b),
        decreases s@.len() - i,
    {
        if s[i] == b {
            return i;
        }
        proof {
            assert(s@.skip(i as int).drop_first() =~= s@.skip(i + 1));
        }
        i = i + 1;
    }
    i
}

/// Reads a field as a node index.
pub fn parse_field(field: &[u8]) -> (r: Result<usize, LineFault>)
    ensures
        r == field_index(field@),
{
    if field.len() == 0 {
        return Err(LineFault::EmptyField);
    }
    let mut i: usize = 0;
    while i < field.len()
        invariant
            i <= field@.len(),
            all_digits(field@.take(i as int)),
        decreases field@.len() - i,
    {
        if field[i] < DIGIT_ZERO || field[i] > DIGIT_ZERO + 9 {
            return Err(LineFault::NotDigits);
        }
        i = i + 1;
    }
    assert(field@.take(i as int) =~= field@);
    let mut value: usize = 0;
    i = 0;
    while i < field.len()
        invariant
            i <= field@.len(),
            all_digits(field@),
            value == decimal_value(field@.take(i as int)),
        decreases field@.len() - i,
    {
        let digit = (field[i] - DIGIT_ZERO) as usize;
        proof {
            assert(field@.take(i + 1).drop_last() =~= field@.take(i as int));
            lemma_decimal_prefix(field@, i + 1);
        }
        let tens = match value.checked_mul(10) {
            Some(tens) => tens,
            None => {
                return Err(LineFault::TooLarge);
            },
        };
        value = match tens.checked_add(digit) {
            Some(sum) => sum,
            None => {
                return Err(LineFault::TooLarge);
            },
        };
        i = i + 1;
    }
    Ok(value)
}

/// Reads a line as an edge.
pub fn parse_line(line: &[u8], delimiter: u8) -> (r: Result<(usize, usize), LineFault>)
    ensures
        r == line_edge(line@, delimiter),
{
    let at = find_byte(line, delimiter);
    if at >= line.len() {
        return Err(LineFault::FieldCount);
    }
    let first = slice_subrange(line, 0, at);
    let second = slice_subrange(line, at + 1, line.len());
    if find_byte(second, delimiter) < second.len() {
        return Err(LineFault::FieldCount);
    }
    let n1 = parse_field(first)?;
    let n2 = parse_field(second)?;
    Ok((n1, n2))
}

impl LineFault {
    /// The words that report this fault.
    pub fn describe(&self) -> (text: String)
        ensures
            text@ == fault_text(*self),
    {
        match self {
            LineFault::FieldCount => String::from_str("expected two fields"),
            LineFault::EmptyField => String::from_str("cannot parse integer from empty string"),
            LineFault::NotDigits => String::from_str("invalid digit found in string"),
            LineFault::TooLarge => String::from_str("number too large to fit in target type"),
        }
    }
}

/// What `from_csv` returns for a graph of `size` nodes where the lines denote
/// `items`: the graph with every edge, or the error of the first item that is
/// no edge or does not fit.
pub open spec fn import_outcome(
    size: nat,
    items: Seq<Result<(usize, usize), LineFault>>,
    r: Result<Graph, ErrorKind>,
) -> bool {
    let taken = applied_prefix(size, items);
    match r {
        Ok(graph) => taken == items.len() && graph@ == with_edges(
            empty_graph(size),
            item_edges(items),
        ),
        Err(error) => taken < items.len() && match items[taken as int] {
            Ok(edge) => error == ErrorKind::BoundsError(misfit(size, edge.0, edge.1)),
            Err(fault) => error matches ErrorKind::ParseError { line, cause } && line == taken
                && cause@ == fault_text(fault),
        },
    }
}

impl Graph {
    /// The graph of `size` nodes with the edges that `text` lists, one per
    /// line, in the order of the lines. The first line that is not an edge, or
    /// whose edge does not fit, ends the import with its error, and no graph
    /// is returned.
    pub fn from_csv(text: &[u8], size: usize, delimiter: u8) -> (r: Result<Graph, ErrorKind>)
        ensures
            import_outcome(size as nat, line_edges(text@, delimiter), r),
            r matches Ok(graph) ==> graph@.len() == size && closed_under_successors(graph@),
    {
        let mut graph = Graph::new(size);
        let mut start: usize = 0;
        let mut line_number: usize = 0;
        let ghost items = line_edges(text@, delimiter);
        proof {
            assert(text@.skip(0) =~= text@);
            assert(items.skip(0) =~= items);
        }
        while start < text.len()
            invariant
                start <= text@.len(),
                line_number <= start,
                line_number <= lines(text@).len(),
                items == line_edges(text@, delimiter),
                lines(text@).skip(line_number as int) == lines(text@.skip(start as int)),
                applied_prefix(size as nat, items) == line_number + applied_prefix(
                    size as nat,
                    items.skip(line_number as int),
                ),
                graph@.len() == size,
                closed_under_successors(graph@),
                graph@ == with_edges(
                    empty_graph(size as nat),
                    item_edges(items.take(line_number as int)),
                ),
            decreases text@.len() - start,
        {
            let rest = slice_subrange(text, start, text.len());
            let length = find_byte(rest, LINE_FEED);
            let line = slice_subrange(rest, 0, length);
            let ghost done = line_number as int;
            proof {
                assert(lines(rest@)[0] == line@);
                assert(lines(rest@).len() >= 1);
                assert(items.skip(done).drop_first() =~= items.skip(done + 1));
                assert(lines(text@).skip(done + 1) =~= lines(text@).skip(done).drop_first());
                assert(item_edges(items.take(done + 1)).drop_last() =~= item_edges(
                    items.take(done),
                ));
            }
            match parse_line(line, delimiter) {
                Ok((n1, n2)) => {
                    match graph.add_edge(n1, n2) {
                        Ok(()) => {},
                        Err(error) => {
                            return Err(ErrorKind::BoundsError(error));
                        },
                    }
                },
                Err(fault) => {
                    return Err(ErrorKind::ParseError { line: line_number, cause: fault.describe() });
                },
            }
            line_number = line_number + 1;
            if length < rest.len() {
                proof {
                    assert(rest@.skip(length + 1) =~= text@.skip(start + length + 1));
                }
                start = start + length + 1;
            } else {
                start = text.len();
            }
        }
        Ok(graph)
    }
}

} // verus!
