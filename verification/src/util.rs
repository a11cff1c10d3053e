//! Shared plumbing for the puzzle solvers: the half selector, the common
//! parser interface, and the error type that all solvers report.

use vstd::prelude::*;

verus! {

/// Solving the first or the second half of a day's puzzle.
#[derive(Debug, Clone, Copy)]
pub enum Half {
    First,
    Second,
}

/// Why a solver rejected its input.
#[derive(Debug, Clone, Copy, PartialEq, Eq, Structural)]
pub enum ParseError {
    /// A line that should hold a decimal `u32` does not.
    InvalidNumber,
    /// The first field of a round is not one of the known opponent moves.
    UnknownOpponentMove,
    /// A round has no second field.
    MissingCipherMove,
    /// The second field of a round is not one of the known cipher moves.
    UnknownCipherMove,
    /// A round has more than two fields.
    SpuriousField,
    /// A rucksack line has an odd number of bytes.
    OddLineLength,
    /// An item byte is outside `a..=z` and `A..=Z`.
    UnexpectedCharacter,
    /// The two halves of a rucksack share no item or more than one.
    NoSingleDuplicate,
    /// The last group of rucksack lines has fewer than three members.
    IncompleteGroup,
    /// A group of three rucksack lines shares no badge or more than one.
    BadgeNotFound,
}

/// Largest number of input lines a solver accepts in one call; keeps every
/// running total of per-line scores within `u32`.
pub const MAX_LINES: usize = 16777216;

/// The byte view of one line of input.
pub open spec fn line_bytes(s: Seq<char>) -> Seq<u8> {
    vstd::utf8::encode_utf8(s)
}

/// The byte views of a sequence of input lines.
pub open spec fn lines_bytes(lines: Seq<String>) -> Seq<Seq<u8>> {
    lines.map_values(|s: String| line_bytes(s@))
}

/// A solver for one day's puzzle: turns the input lines into the puzzle's
/// integer answer, or reports why the input is malformed.
pub trait Parser {
    fn parse(&mut self, half: Half, lines: &Vec<String>) -> (r: Result<u32, ParseError>)
        requires
            lines@.len() <= MAX_LINES,
    ;
}

} // verus!
