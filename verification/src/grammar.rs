//! The grammar of the tabular format, written as specification functions.
//!
//! These functions are the mathematical model the executable scanner in
//! [`crate::parser`] is proved against. They mirror the three layers of the
//! engine: one field ([`spec_scan_field`]), one row ([`spec_scan_row`]) and
//! the whole table ([`spec_scan_table`], [`spec_parse`]), each returning
//! either its parsed value together with the index where scanning stopped,
//! or the positioned error the grammar demands at the first violation.

use vstd::prelude::*;
use vstd::utf8::decode_utf8;
use vstd::utf8::valid_utf8;

use crate::error::CharError;
use crate::error::CsvError;
use crate::error::Position;
use crate::error::SizeError;

verus! {

/// Insignificant whitespace before a field: a space or a horizontal tab.
pub open spec fn is_whitespace(b: u8) -> bool {
    b == 32 || b == 9
}

/// A byte that ends a cell: the field delimiter `,` or the line terminator
/// `\n`.
pub open spec fn is_cell_end(b: u8) -> bool {
    b == 44 || b == 10
}

/// The double quote that delimits a quoted field.
pub open spec fn is_quote(b: u8) -> bool {
    b == 34
}

/// The first index at or after `i` whose byte is not insignificant
/// whitespace, or the end of the buffer.
pub open spec fn spec_skip_whitespace(s: Seq<u8>, i: int) -> int
    decreases s.len() - i,
{
    if 0 <= i < s.len() && is_whitespace(s[i]) {
        spec_skip_whitespace(s, i + 1)
    } else {
        i
    }
}

/// The first index at or after `i` whose byte ends a cell, or the end of
/// the buffer: a bare field starting at `i` spans exactly up to here.
pub open spec fn spec_bare_end(s: Seq<u8>, i: int) -> int
    decreases s.len() - i,
{
    if 0 <= i < s.len() && !is_cell_end(s[i]) {
        spec_bare_end(s, i + 1)
    } else {
        i
    }
}

/// The index of the first double quote at or after `i`, if any.
pub open spec fn spec_find_quote(s: Seq<u8>, i: int) -> Option<int>
    decreases s.len() - i,
{
    if 0 <= i < s.len() {
        if is_quote(s[i]) {
            Option::Some(i)
        } else {
            spec_find_quote(s, i + 1)
        }
    } else {
        Option::None
    }
}

/// One field scanned at index `i` of `s`: on success, the decoded text and
/// the index just past the field, which is the end of the buffer, a
/// delimiter or a line terminator.
///
/// Leading whitespace is skipped and discarded. A field opening with a
/// double quote spans to the next double quote, and the bytes strictly
/// between the quotes are its text; a missing closing quote is a
/// [`CsvError::GenericError`], and a byte after the closing quote that is
/// neither a delimiter nor a line terminator is a
/// [`CsvError::InvalidCharacter`] at that byte. Any other field is bare and
/// spans to the next delimiter or line terminator, its bytes kept verbatim.
/// Field bytes that are not valid UTF-8 are a [`CsvError::GenericError`].
///
/// `line` and `row_start` only locate the field's row for error positions:
/// a reported column is a byte offset from `row_start`.
pub open spec fn spec_scan_field(s: Seq<u8>, i: int, line: int, row_start: int) -> Result<
    (Seq<char>, int),
    CsvError,
> {
    let j: int = spec_skip_whitespace(s, i);
    if j < s.len() && is_quote(s[j]) {
        match spec_find_quote(s, j + 1) {
            Option::None => Result::Err(CsvError::GenericError),
            Option::Some(k) => {
                if k + 1 < s.len() && !is_cell_end(s[k + 1]) {
                    Result::Err(
                        CsvError::InvalidCharacter(
                            CharError {
                                expected: ',',
                                got: s[k + 1] as char,
                                position: Position {
                                    line: line as usize,
                                    column: (k + 1 - row_start) as usize,
                                },
                            },
                        ),
                    )
                } else if !valid_utf8(s.subrange(j + 1, k)) {
                    Result::Err(CsvError::GenericError)
                } else {
                    Result::Ok((decode_utf8(s.subrange(j + 1, k)), k + 1))
                }
            },
        }
    } else {
        let m: int = spec_bare_end(s, j);
        if !valid_utf8(s.subrange(j, m)) {
            Result::Err(CsvError::GenericError)
        } else {
            Result::Ok((decode_utf8(s.subrange(j, m)), m))
        }
    }
}

/// One row scanned at index `i` of `s`: on success, its ordered fields and
/// the index just past the row's content, which is the end of the buffer or
/// a line terminator. Fields are separated by delimiters; the first byte
/// that ends a field without being a delimiter ends the row. `row_start`
/// is the index where the row began, the origin for reported columns.
pub open spec fn spec_scan_row(s: Seq<u8>, i: int, line: int, row_start: int) -> Result<
    (Seq<Seq<char>>, int),
    CsvError,
>
    decreases s.len() - i,
{
    match spec_scan_field(s, i, line, row_start) {
        Result::Err(e) => Result::Err(e),
        Result::Ok((f, m)) => {
            if m < s.len() && s[m] == 44 {
                proof {
                    lemma_scan_field_ok_lb(s, i, line, row_start);
                }
                match spec_scan_row(s, m + 1, line, row_start) {
                    Result::Err(e) => Result::Err(e),
                    Result::Ok((fs, end)) => Result::Ok((seq![f] + fs, end)),
                }
            } else {
                Result::Ok((seq![f], m))
            }
        },
    }
}

/// The rows scanned from index `i` of `s`, each row checked against the
/// field count `expected` (`None` until a first row fixes it). Scanning
/// ends without error at the end of the buffer or at a row of zero bytes
/// (an immediately-encountered line terminator): a blank line is an
/// implicit end-of-table marker and the bytes after it are not scanned.
/// A row whose field count differs from `expected` is a
/// [`CsvError::InvalidRowLength`] positioned at that row's index, column 0.
pub open spec fn spec_scan_table(s: Seq<u8>, i: int, line: int, expected: Option<int>) -> Result<
    Seq<Seq<Seq<char>>>,
    CsvError,
>
    decreases s.len() - i,
{
    if i < 0 || i >= s.len() || s[i] == 10 {
        Result::Ok(Seq::empty())
    } else {
        match spec_scan_row(s, i, line, i) {
            Result::Err(e) => Result::Err(e),
            Result::Ok((fs, e)) => {
                if expected is Some && fs.len() != expected->0 {
                    Result::Err(
                        CsvError::InvalidRowLength(
                            SizeError {
                                nb_elements_expected: expected->0 as usize,
                                nb_elements_got: fs.len() as usize,
                                position: Position { line: line as usize, column: 0 },
                            },
                        ),
                    )
                } else {
                    let next: int = if e < s.len() {
                        e + 1
                    } else {
                        e
                    };
                    proof {
                        lemma_scan_row_ok_bounds(s, i, line, i);
                    }
                    match spec_scan_table(s, next, line + 1, Option::Some(fs.len() as int)) {
                        Result::Err(e2) => Result::Err(e2),
                        Result::Ok(rows) => Result::Ok(seq![fs] + rows),
                    }
                }
            },
        }
    }
}

/// The parse of a whole buffer: rows scanned from the start, with the first
/// row fixing the field count that every later row must match.
pub open spec fn spec_parse(s: Seq<u8>) -> Result<Seq<Seq<Seq<char>>>, CsvError> {
    spec_scan_table(s, 0, 0, Option::None)
}

/// Where the whitespace skip stops: never before `i`, never past the end of
/// the buffer, only whitespace behind it and none at it.
pub proof fn lemma_skip_whitespace_bounds(s: Seq<u8>, i: int)
    ensures
        i <= spec_skip_whitespace(s, i),
        0 <= i <= s.len() ==> spec_skip_whitespace(s, i) <= s.len(),
        forall|k: int| i <= k < spec_skip_whitespace(s, i) ==> is_whitespace(#[trigger] s[k]),
        0 <= i && spec_skip_whitespace(s, i) < s.len() ==> !is_whitespace(
            s[spec_skip_whitespace(s, i)],
        ),
    decreases s.len() - i,
{
    if 0 <= i < s.len() && is_whitespace(s[i]) {
        lemma_skip_whitespace_bounds(s, i + 1);
    }
}

/// Where a bare field stops: never before `i`, never past the end of the
/// buffer, no cell-ending byte inside it and one right after it unless the
/// buffer ends.
pub proof fn lemma_bare_end_bounds(s: Seq<u8>, i: int)
    ensures
        i <= spec_bare_end(s, i),
        0 <= i <= s.len() ==> spec_bare_end(s, i) <= s.len(),
        forall|k: int| i <= k < spec_bare_end(s, i) ==> !is_cell_end(#[trigger] s[k]),
        0 <= i && spec_bare_end(s, i) < s.len() ==> is_cell_end(s[spec_bare_end(s, i)]),
    decreases s.len() - i,
{
    if 0 <= i < s.len() && !is_cell_end(s[i]) {
        lemma_bare_end_bounds(s, i + 1);
    }
}

/// Where the quote search stops: a found quote lies in the buffer at or
/// after `i`, with no quote before it; `None` means the rest of the buffer
/// holds no quote.
pub proof fn lemma_find_quote_bounds(s: Seq<u8>, i: int)
    ensures
        spec_find_quote(s, i) matches Some(k) ==> i <= k < s.len() && is_quote(s[k]),
        spec_find_quote(s, i) matches Some(k) ==> forall|j: int|
            i <= j < k ==> !is_quote(#[trigger] s[j]),
        0 <= i && spec_find_quote(s, i) is None ==> forall|j: int|
            i <= j < s.len() ==> !is_quote(#[trigger] s[j]),
    decreases s.len() - i,
{
    if 0 <= i < s.len() && !is_quote(s[i]) {
        lemma_find_quote_bounds(s, i + 1);
    }
}

/// The bare-field scan stops exactly at the first cell-ending byte.
pub proof fn lemma_bare_end_at(s: Seq<u8>, i: int, m: int)
    requires
        0 <= i <= m <= s.len(),
        forall|k: int| i <= k < m ==> !is_cell_end(#[trigger] s[k]),
        m == s.len() || is_cell_end(s[m]),
    ensures
        spec_bare_end(s, i) == m,
    decreases m - i,
{
    if i < m {
        lemma_bare_end_at(s, i + 1, m);
    }
}

/// The quote search finds exactly the first quote.
pub proof fn lemma_find_quote_at(s: Seq<u8>, i: int, k: int)
    requires
        0 <= i <= k < s.len(),
        is_quote(s[k]),
        forall|j: int| i <= j < k ==> !is_quote(#[trigger] s[j]),
    ensures
        spec_find_quote(s, i) == Option::Some(k),
    decreases k - i,
{
    if i < k {
        lemma_find_quote_at(s, i + 1, k);
    }
}

/// A successfully scanned field never ends before its start.
pub proof fn lemma_scan_field_ok_lb(s: Seq<u8>, i: int, line: int, row_start: int)
    ensures
        spec_scan_field(s, i, line, row_start) matches Ok((f, m)) ==> i <= m,
{
    lemma_skip_whitespace_bounds(s, i);
    lemma_find_quote_bounds(s, spec_skip_whitespace(s, i) + 1);
    lemma_bare_end_bounds(s, spec_skip_whitespace(s, i));
}

/// A successfully scanned field ends inside the buffer, at its end or on a
/// cell-ending byte.
pub proof fn lemma_scan_field_ok_bounds(s: Seq<u8>, i: int, line: int, row_start: int)
    requires
        0 <= i <= s.len(),
    ensures
        spec_scan_field(s, i, line, row_start) matches Ok((f, m)) ==> i <= m <= s.len() && (m
            == s.len() || is_cell_end(s[m])),
{
    lemma_skip_whitespace_bounds(s, i);
    lemma_find_quote_bounds(s, spec_skip_whitespace(s, i) + 1);
    lemma_bare_end_bounds(s, spec_skip_whitespace(s, i));
}

/// A successfully scanned row has at least one field, ends inside the
/// buffer at its end or on a line terminator, and consumes at least one
/// byte unless it began on a line terminator or at the end of the buffer.
pub proof fn lemma_scan_row_ok_bounds(s: Seq<u8>, i: int, line: int, row_start: int)
    requires
        0 <= i <= s.len(),
    ensures
        spec_scan_row(s, i, line, row_start) matches Ok((fs, e)) ==> {
            &&& i <= e <= s.len()
            &&& e == s.len() || s[e] == 10
            &&& fs.len() >= 1
            &&& i < s.len() && s[i] != 10 ==> e > i
        },
    decreases s.len() - i,
{
    lemma_scan_field_ok_bounds(s, i, line, row_start);
    if let Result::Ok((f, m)) = spec_scan_field(s, i, line, row_start) {
        if m < s.len() && s[m] == 44 {
            lemma_scan_row_ok_bounds(s, m + 1, line, row_start);
        }
        if i < s.len() && s[i] != 10 {
            lemma_skip_whitespace_bounds(s, i);
            let j: int = spec_skip_whitespace(s, i);
            if j == i {
                if is_quote(s[i]) {
                    lemma_find_quote_bounds(s, i + 1);
                } else if s[i] == 44 {
                    assert(spec_bare_end(s, i) == i);
                } else {
                    assert(spec_bare_end(s, i) == spec_bare_end(s, i + 1));
                    lemma_bare_end_bounds(s, i + 1);
                }
            } else {
                lemma_find_quote_bounds(s, j + 1);
                lemma_bare_end_bounds(s, j);
            }
        }
    }
}

} // verus!
