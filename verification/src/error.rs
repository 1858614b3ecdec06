//! Positions and the error taxonomy of the parser.
//!
//! A [`ParseError`]-style failure is one of three kinds: a stray byte where
//! the grammar demanded a delimiter ([`CsvError::InvalidCharacter`]), a row
//! whose field count differs from the first row's
//! ([`CsvError::InvalidRowLength`]), or any other grammar violation, such as
//! an unterminated quoted field or a field that is not valid UTF-8
//! ([`CsvError::GenericError`]). Every error is a plain value; once built it
//! is returned upward unchanged.

use vstd::prelude::*;

verus! {

/// A location in the source buffer: a 0-based row index and a 0-based byte
/// offset within that row.
#[derive(Clone, Copy, Debug, PartialEq, Eq, Structural)]
pub struct Position {
    pub line: usize,
    pub column: usize,
}

impl Position {
    /// Builds the position for row `line`, byte offset `column`.
    pub fn new(line: usize, column: usize) -> (p: Position)
        ensures
            p == (Position { line, column }),
    {
        Position { line, column }
    }
}

/// A byte that is not allowed at its position: the delimiter the grammar
/// expected, the character actually found, and where.
#[derive(Clone, Copy, Debug, PartialEq, Eq, Structural)]
pub struct CharError {
    pub expected: char,
    pub got: char,
    pub position: Position,
}

impl CharError {
    /// Builds the error for finding `got` where `expected` was required.
    pub fn new(expected: char, got: char, pos: &Position) -> (e: CharError)
        ensures
            e == (CharError { expected, got, position: *pos }),
    {
        CharError { expected, got, position: *pos }
    }
}

/// A row whose field count differs from the field count the first row
/// established.
#[derive(Clone, Copy, Debug, PartialEq, Eq, Structural)]
pub struct SizeError {
    pub nb_elements_expected: usize,
    pub nb_elements_got: usize,
    pub position: Position,
}

impl SizeError {
    /// Builds the error for a row of `nb_elements_got` fields where
    /// `nb_elements_expected` were required.
    pub fn new(nb_elements_expected: usize, nb_elements_got: usize, pos: &Position) -> (e:
        SizeError)
        ensures
            e == (SizeError { nb_elements_expected, nb_elements_got, position: *pos }),
    {
        SizeError { nb_elements_expected, nb_elements_got, position: *pos }
    }
}

/// A classified parse failure. Raising one aborts the whole parse: the
/// caller receives either a fully valid table or exactly one of these.
#[derive(Clone, Copy, Debug, PartialEq, Eq, Structural)]
pub enum CsvError {
    InvalidCharacter(CharError),
    InvalidRowLength(SizeError),
    GenericError,
}

impl CsvError {
    /// A short, fixed name for the kind of this error.
    pub fn description(&self) -> (s: &'static str)
        ensures
            self is InvalidCharacter ==> s@ == "invalid character"@,
            self is InvalidRowLength ==> s@ == "invalid row length"@,
            self is GenericError ==> s@ == "generic parsing error"@,
    {
        match *self {
            CsvError::InvalidCharacter(_) => "invalid character",
            CsvError::InvalidRowLength(_) => "invalid row length",
            CsvError::GenericError => "generic parsing error",
        }
    }
}

} // verus!
