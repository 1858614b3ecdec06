//! The executable scanner: one field, one row, the whole table.
//!
//! Each function is proved to return exactly what the corresponding
//! specification function of [`crate::grammar`] describes, for every
//! input. The scanner walks the buffer with explicit cursors, so its stack
//! depth is constant regardless of input size.

use vstd::prelude::*;
use vstd::slice::slice_subrange;
use vstd::slice::slice_to_vec;
use vstd::utf8::encode_utf8;

use crate::error::CharError;
use crate::error::CsvError;
use crate::error::Position;
use crate::error::SizeError;
use crate::grammar::lemma_bare_end_bounds;
use crate::grammar::lemma_find_quote_bounds;
use crate::grammar::lemma_scan_field_ok_bounds;
use crate::grammar::lemma_scan_row_ok_bounds;
use crate::grammar::lemma_skip_whitespace_bounds;
use crate::grammar::spec_bare_end;
use crate::grammar::spec_find_quote;
use crate::grammar::spec_parse;
use crate::grammar::spec_scan_field;
use crate::grammar::spec_scan_row;
use crate::grammar::spec_scan_table;
use crate::grammar::spec_skip_whitespace;
use crate::text::bytes_to_string;

verus! {

/// The result of [`scan_field`], as the value the grammar speaks of.
pub open spec fn field_view(r: Result<(String, usize), CsvError>) -> Result<
    (Seq<char>, int),
    CsvError,
> {
    match r {
        Result::Ok((t, m)) => Result::Ok((t@, m as int)),
        Result::Err(e) => Result::Err(e),
    }
}

/// The result of [`scan_row`], as the value the grammar speaks of.
pub open spec fn row_view(r: Result<(Vec<String>, usize), CsvError>) -> Result<
    (Seq<Seq<char>>, int),
    CsvError,
> {
    match r {
        Result::Ok((v, e)) => Result::Ok((v.deep_view(), e as int)),
        Result::Err(err) => Result::Err(err),
    }
}

/// The result of [`parse_csv_from_slice`], as the value the grammar speaks
/// of.
pub open spec fn table_view(r: Result<Vec<Vec<String>>, CsvError>) -> Result<
    Seq<Seq<Seq<char>>>,
    CsvError,
> {
    match r {
        Result::Ok(t) => Result::Ok(t.deep_view()),
        Result::Err(e) => Result::Err(e),
    }
}

/// A row scan result with already-scanned fields put back in front of it.
pub open spec fn row_result_with_prefix(
    prefix: Seq<Seq<char>>,
    r: Result<(Seq<Seq<char>>, int), CsvError>,
) -> Result<(Seq<Seq<char>>, int), CsvError> {
    match r {
        Result::Ok((fs, e)) => Result::Ok((prefix + fs, e)),
        Result::Err(err) => Result::Err(err),
    }
}

/// A table scan result with already-scanned rows put back in front of it.
pub open spec fn table_result_with_prefix(
    prefix: Seq<Seq<Seq<char>>>,
    r: Result<Seq<Seq<Seq<char>>>, CsvError>,
) -> Result<Seq<Seq<Seq<char>>>, CsvError> {
    match r {
        Result::Ok(rows) => Result::Ok(prefix + rows),
        Result::Err(err) => Result::Err(err),
    }
}

/// The field count the rows gathered so far impose on the next row: none
/// until a first row exists, then the first row's count.
pub open spec fn expected_of(rows: Seq<Seq<Seq<char>>>) -> Option<int> {
    if rows.len() == 0 {
        Option::None
    } else {
        Option::Some(rows[0].len() as int)
    }
}

/// The index after the insignificant whitespace beginning at `i`.
fn skip_whitespace(input: &[u8], i: usize) -> (j: usize)
    requires
        i <= input@.len(),
    ensures
        j as int == spec_skip_whitespace(input@, i as int),
{
    let mut cur: usize = i;
    while cur < input.len() && (input[cur] == 32 || input[cur] == 9)
        invariant
            i <= cur <= input@.len(),
            spec_skip_whitespace(input@, i as int) == spec_skip_whitespace(input@, cur as int),
        decreases input@.len() - cur,
    {
        cur = cur + 1;
    }
    cur
}

/// The index where a bare field beginning at `i` ends: the first delimiter
/// or line terminator at or after `i`, or the end of the buffer.
fn find_bare_end(input: &[u8], i: usize) -> (m: usize)
    requires
        i <= input@.len(),
    ensures
        m as int == spec_bare_end(input@, i as int),
{
    let mut cur: usize = i;
    while cur < input.len() && input[cur] != 44 && input[cur] != 10
        invariant
            i <= cur <= input@.len(),
            spec_bare_end(input@, i as int) == spec_bare_end(input@, cur as int),
        decreases input@.len() - cur,
    {
        cur = cur + 1;
    }
    cur
}

/// The index of the first double quote at or after `i`, if any.
fn find_quote(input: &[u8], i: usize) -> (r: Option<usize>)
    requires
        i <= input@.len(),
    ensures
        r matches Some(k) ==> spec_find_quote(input@, i as int) == Option::Some(k as int),
        r is None ==> spec_find_quote(input@, i as int) is None,
{
    let mut cur: usize = i;
    while cur < input.len()
        invariant
            i <= cur <= input@.len(),
            spec_find_quote(input@, i as int) == spec_find_quote(input@, cur as int),
        decreases input@.len() - cur,
    {
        if input[cur] == 34 {
            return Some(cur);
        }
        cur = cur + 1;
    }
    None
}

/// Scans exactly one field at byte `start` of `input`, returning its
/// decoded text and the index just past it, or the positioned error the
/// grammar demands. `line` is the 0-based index of the field's row and
/// `row_start` the buffer index where that row began; a reported column is
/// a byte offset from `row_start`.
pub fn scan_field(input: &[u8], start: usize, line: usize, row_start: usize) -> (r: Result<
    (String, usize),
    CsvError,
>)
    requires
        row_start <= start <= input@.len(),
    ensures
        field_view(r) == spec_scan_field(input@, start as int, line as int, row_start as int),
{
    proof {
        lemma_skip_whitespace_bounds(input@, start as int);
    }
    let j = skip_whitespace(input, start);
    if j < input.len() && input[j] == 34 {
        proof {
            lemma_find_quote_bounds(input@, j + 1);
        }
        match find_quote(input, j + 1) {
            None => Err(CsvError::GenericError),
            Some(k) => {
                if k + 1 < input.len() && input[k + 1] != 44 && input[k + 1] != 10 {
                    Err(
                        CsvError::InvalidCharacter(
                            CharError::new(
                                ',',
                                input[k + 1] as char,
                                &Position::new(line, k + 1 - row_start),
                            ),
                        ),
                    )
                } else {
                    match bytes_to_string(slice_to_vec(slice_subrange(input, j + 1, k))) {
                        None => Err(CsvError::GenericError),
                        Some(text) => Ok((text, k + 1)),
                    }
                }
            },
        }
    } else {
        proof {
            lemma_bare_end_bounds(input@, j as int);
        }
        let m = find_bare_end(input, j);
        match bytes_to_string(slice_to_vec(slice_subrange(input, j, m))) {
            None => Err(CsvError::GenericError),
            Some(text) => Ok((text, m)),
        }
    }
}

/// Scans one row at byte `start` of `input`, returning its ordered fields
/// and the index just past the row's content (the end of the buffer or a
/// line terminator), or the first error any of its fields produces.
pub fn scan_row(input: &[u8], start: usize, line: usize) -> (r: Result<
    (Vec<String>, usize),
    CsvError,
>)
    requires
        start <= input@.len(),
    ensures
        row_view(r) == spec_scan_row(input@, start as int, line as int, start as int),
{
    let ghost s = input@;
    let mut fields: Vec<String> = Vec::new();
    let mut cur: usize = start;
    proof {
        if let Result::Ok((fs, e)) = spec_scan_row(s, start as int, line as int, start as int) {
            assert(fields.deep_view() + fs =~= fs);
        }
    }
    loop
        invariant
            start <= cur <= s.len(),
            input@ == s,
            spec_scan_row(s, start as int, line as int, start as int) == row_result_with_prefix(
                fields.deep_view(),
                spec_scan_row(s, cur as int, line as int, start as int),
            ),
        decreases s.len() - cur,
    {
        match scan_field(input, cur, line, start) {
            Err(e) => {
                return Err(e);
            },
            Ok((text, m)) => {
                proof {
                    lemma_scan_field_ok_bounds(s, cur as int, line as int, start as int);
                }
                let ghost prefix = fields.deep_view();
                fields.push(text);
                proof {
                    assert(fields.deep_view() =~= prefix.push(text@));
                }
                if m < input.len() && input[m] == 44 {
                    proof {
                        if let Result::Ok((fs, e)) = spec_scan_row(
                            s,
                            m + 1,
                            line as int,
                            start as int,
                        ) {
                            assert(prefix + (seq![text@] + fs) =~= fields.deep_view() + fs);
                        }
                    }
                    cur = m + 1;
                } else {
                    proof {
                        assert(prefix + seq![text@] =~= fields.deep_view());
                    }
                    return Ok((fields, m));
                }
            },
        }
    }
}

/// Parses a whole byte buffer into the table of its rows, or returns the
/// positioned error at the first grammar violation. The first row fixes
/// the field count every later row must match; a blank line ends the table
/// and the bytes after it are not scanned; no partial table is ever
/// returned.
pub fn parse_csv_from_slice(entry: &[u8]) -> (r: Result<Vec<Vec<String>>, CsvError>)
    ensures
        table_view(r) == spec_parse(entry@),
{
    let ghost s = entry@;
    let mut rows: Vec<Vec<String>> = Vec::new();
    let mut cursor: usize = 0;
    let mut line: usize = 0;
    proof {
        if let Result::Ok(rest) = spec_scan_table(s, 0, 0, Option::None) {
            assert(rows.deep_view() + rest =~= rest);
        }
    }
    loop
        invariant
            cursor <= s.len(),
            entry@ == s,
            line == rows@.len(),
            rows@.len() <= cursor,
            spec_parse(s) == table_result_with_prefix(
                rows.deep_view(),
                spec_scan_table(
                    s,
                    cursor as int,
                    line as int,
                    expected_of(rows.deep_view()),
                ),
            ),
        decreases s.len() - cursor,
    {
        if cursor >= entry.len() {
            proof {
                assert(rows.deep_view() + Seq::<Seq<Seq<char>>>::empty() =~= rows.deep_view());
            }
            return Ok(rows);
        }
        if entry[cursor] == 10 {
            proof {
                assert(rows.deep_view() + Seq::<Seq<Seq<char>>>::empty() =~= rows.deep_view());
            }
            return Ok(rows);
        }
        match scan_row(entry, cursor, line) {
            Err(e) => {
                return Err(e);
            },
            Ok((fields, end)) => {
                proof {
                    lemma_scan_row_ok_bounds(s, cursor as int, line as int, cursor as int);
                }
                if rows.len() > 0 && fields.len() != rows[0].len() {
                    return Err(
                        CsvError::InvalidRowLength(
                            SizeError::new(rows[0].len(), fields.len(), &Position::new(line, 0)),
                        ),
                    );
                }
                let ghost prefix = rows.deep_view();
                rows.push(fields);
                proof {
                    assert(rows.deep_view() =~= prefix.push(fields.deep_view()));
                    if let Result::Ok(rest) = spec_scan_table(
                        s,
                        if end < s.len() {
                            end + 1
                        } else {
                            end as int
                        },
                        line + 1,
                        Option::Some(fields.deep_view().len() as int),
                    ) {
                        assert(prefix + (seq![fields.deep_view()] + rest) =~= rows.deep_view()
                            + rest);
                    }
                }
                line = line + 1;
                cursor = if end < entry.len() {
                    end + 1
                } else {
                    end
                };
            },
        }
    }
}

/// Parses a string by handing its UTF-8 bytes to
/// [`parse_csv_from_slice`].
pub fn parse_csv(entry: &str) -> (r: Result<Vec<Vec<String>>, CsvError>)
    ensures
        table_view(r) == spec_parse(encode_utf8(entry@)),
{
    parse_csv_from_slice(entry.as_bytes())
}

} // verus!
