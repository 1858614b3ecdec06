//! General properties of the grammar, stated and proved once for all
//! inputs: what a bare or quoted field yields, the shape of every table a
//! successful parse returns, and how reserialized output parses again.

use vstd::prelude::*;
use vstd::utf8::char_u32_cast;
use vstd::utf8::decode_first_scalar;
use vstd::utf8::decode_utf8;
use vstd::utf8::encode_utf8;
use vstd::utf8::encode_utf8_decode_utf8;
use vstd::utf8::encode_utf8_valid_utf8;
use vstd::utf8::is_ascii_chars;
use vstd::utf8::is_ascii_chars_encode_utf8;
use vstd::utf8::is_continuation_byte;
use vstd::utf8::is_leading_byte_width_1;
use vstd::utf8::length_of_first_scalar;
use vstd::utf8::pop_first_scalar;
use vstd::utf8::valid_utf8;

use crate::error::CsvError;
use crate::grammar::is_cell_end;
use crate::grammar::is_quote;
use crate::grammar::is_whitespace;
use crate::grammar::lemma_bare_end_at;
use crate::grammar::lemma_bare_end_bounds;
use crate::grammar::lemma_find_quote_at;
use crate::grammar::lemma_find_quote_bounds;
use crate::grammar::lemma_scan_field_ok_bounds;
use crate::grammar::lemma_scan_row_ok_bounds;
use crate::grammar::lemma_skip_whitespace_bounds;
use crate::grammar::spec_bare_end;
use crate::grammar::spec_find_quote;
use crate::grammar::spec_parse;
use crate::grammar::spec_scan_field;
use crate::grammar::spec_scan_row;
use crate::grammar::spec_scan_table;
use crate::grammar::spec_skip_whitespace;

verus! {

/// ASCII bytes are valid UTF-8 and decode to themselves, byte for byte.
pub proof fn lemma_ascii_decode(b: Seq<u8>)
    requires
        forall|k: int| 0 <= k < b.len() ==> #[trigger] b[k] < 128,
    ensures
        valid_utf8(b),
        decode_utf8(b) == b.map_values(|x: u8| x as char),
{
    let cs = b.map_values(|x: u8| x as char);
    assert forall|k: int| 0 <= k < cs.len() implies '\0' <= #[trigger] cs[k] <= '\u{7f}' by {
        assert(cs[k] == b[k] as char);
    }
    assert(is_ascii_chars(cs));
    is_ascii_chars_encode_utf8(cs);
    assert forall|k: int| 0 <= k < cs.len() implies #[trigger] encode_utf8(cs)[k] == b[k] by {
        assert(cs[k] as u8 == b[k]);
    }
    assert(encode_utf8(cs) =~= b);
    encode_utf8_valid_utf8(cs);
    encode_utf8_decode_utf8(cs);
}

/// A bare field parses to exactly its literal bytes. Wherever the bytes
/// from `i` up to the next delimiter or line terminator hold no special
/// character (nothing that ends a cell, no opening quote, no leading
/// whitespace, ASCII only), the field's text is those bytes, character by
/// character, and scanning stops right after them.
pub proof fn lemma_bare_field_literal(s: Seq<u8>, i: int, m: int, line: int, row_start: int)
    requires
        0 <= i <= m <= s.len(),
        forall|k: int| i <= k < m ==> #[trigger] s[k] < 128 && !is_cell_end(s[k]),
        m == s.len() || is_cell_end(s[m]),
        i < m ==> !is_whitespace(s[i]) && !is_quote(s[i]),
    ensures
        spec_scan_field(s, i, line, row_start) == Result::<(Seq<char>, int), CsvError>::Ok(
            (s.subrange(i, m).map_values(|b: u8| b as char), m),
        ),
{
    assert(spec_skip_whitespace(s, i) == i);
    lemma_bare_end_at(s, i, m);
    lemma_ascii_decode(s.subrange(i, m));
}

/// A quoted field parses to exactly the bytes strictly between its two
/// quotes, with the quotes stripped: whatever stands between the quotes —
/// delimiters and line terminators included — is the field's text, and
/// scanning stops right after the closing quote.
pub proof fn lemma_quoted_field_verbatim(s: Seq<u8>, i: int, k: int, line: int, row_start: int)
    requires
        0 <= i < k < s.len(),
        is_quote(s[i]),
        is_quote(s[k]),
        forall|j: int| i < j < k ==> !is_quote(#[trigger] s[j]),
        k + 1 == s.len() || is_cell_end(s[k + 1]),
        valid_utf8(s.subrange(i + 1, k)),
    ensures
        spec_scan_field(s, i, line, row_start) == Result::<(Seq<char>, int), CsvError>::Ok(
            (decode_utf8(s.subrange(i + 1, k)), k + 1),
        ),
{
    assert(spec_skip_whitespace(s, i) == i);
    lemma_find_quote_at(s, i + 1, k);
}

/// Every table scanned against a fixed field count has only rows of that
/// count.
proof fn lemma_scan_table_uniform(s: Seq<u8>, i: int, line: int, n: int)
    ensures
        spec_scan_table(s, i, line, Option::Some(n)) matches Ok(t) ==> forall|r: int|
            0 <= r < t.len() ==> #[trigger] t[r].len() == n,
    decreases s.len() - i,
{
    if i < 0 || i >= s.len() || s[i] == 10 {
    } else {
        if let Result::Ok((fs, e)) = spec_scan_row(s, i, line, i) {
            if fs.len() == n {
                let next: int = if e < s.len() {
                    e + 1
                } else {
                    e
                };
                lemma_scan_row_ok_bounds(s, i, line, i);
                lemma_scan_table_uniform(s, next, line + 1, fs.len() as int);
                if let Result::Ok(t) = spec_scan_table(s, i, line, Option::Some(n)) {
                    if let Result::Ok(rest) = spec_scan_table(
                        s,
                        next,
                        line + 1,
                        Option::Some(fs.len() as int),
                    ) {
                        assert forall|r: int| 0 <= r < t.len() implies #[trigger] t[r].len()
                            == n by {
                            if r > 0 {
                                assert(t[r] == rest[r - 1]);
                            }
                        }
                    }
                }
            }
        }
    }
}

/// Every table a successful parse returns is rectangular: each row has
/// exactly the first row's field count.
pub proof fn lemma_parse_rectangular(s: Seq<u8>)
    ensures
        spec_parse(s) matches Ok(t) ==> forall|r: int|
            0 <= r < t.len() ==> #[trigger] t[r].len() == t[0].len(),
{
    if 0 < s.len() && s[0] != 10 {
        if let Result::Ok((fs, e)) = spec_scan_row(s, 0, 0, 0) {
            let next: int = if e < s.len() {
                e + 1
            } else {
                e
            };
            lemma_scan_row_ok_bounds(s, 0, 0, 0);
            lemma_scan_table_uniform(s, next, 1, fs.len() as int);
            if let Result::Ok(t) = spec_parse(s) {
                if let Result::Ok(rest) = spec_scan_table(
                    s,
                    next,
                    1,
                    Option::Some(fs.len() as int),
                ) {
                    assert forall|r: int| 0 <= r < t.len() implies #[trigger] t[r].len()
                        == t[0].len() by {
                        if r > 0 {
                            assert(t[r] == rest[r - 1]);
                        }
                    }
                }
            }
        }
    }
}

/// The whitespace skip does not see an appended line terminator.
proof fn lemma_push_skip_whitespace(s: Seq<u8>, i: int)
    requires
        0 <= i <= s.len(),
    ensures
        spec_skip_whitespace(s.push(10u8), i) == spec_skip_whitespace(s, i),
    decreases s.len() - i,
{
    let s2 = s.push(10u8);
    if i < s.len() && is_whitespace(s[i]) {
        assert(s2[i] == s[i]);
        lemma_push_skip_whitespace(s, i + 1);
    } else if i < s.len() {
        assert(s2[i] == s[i]);
    } else {
        assert(s2[i] == 10);
    }
}

/// A bare field ends at an appended line terminator just as it ends at
/// the end of the buffer.
proof fn lemma_push_bare_end(s: Seq<u8>, i: int)
    requires
        0 <= i <= s.len(),
    ensures
        spec_bare_end(s.push(10u8), i) == spec_bare_end(s, i),
    decreases s.len() - i,
{
    let s2 = s.push(10u8);
    if i < s.len() && !is_cell_end(s[i]) {
        assert(s2[i] == s[i]);
        lemma_push_bare_end(s, i + 1);
    } else if i < s.len() {
        assert(s2[i] == s[i]);
    } else {
        assert(s2[i] == 10);
    }
}

/// The quote search does not see an appended line terminator.
proof fn lemma_push_find_quote(s: Seq<u8>, i: int)
    requires
        0 <= i <= s.len(),
    ensures
        spec_find_quote(s.push(10u8), i) == spec_find_quote(s, i),
    decreases s.len() - i,
{
    let s2 = s.push(10u8);
    if i < s.len() {
        assert(s2[i] == s[i]);
        if !is_quote(s[i]) {
            lemma_push_find_quote(s, i + 1);
        }
    } else {
        assert(s2[i] == 10);
        assert(spec_find_quote(s2, i + 1) is None);
    }
}

/// A field scan never changes when a line terminator is appended.
proof fn lemma_push_scan_field(s: Seq<u8>, i: int, line: int, row_start: int)
    requires
        0 <= i <= s.len(),
    ensures
        spec_scan_field(s.push(10u8), i, line, row_start) == spec_scan_field(
            s,
            i,
            line,
            row_start,
        ),
{
    let s2 = s.push(10u8);
    lemma_push_skip_whitespace(s, i);
    lemma_skip_whitespace_bounds(s, i);
    let j: int = spec_skip_whitespace(s, i);
    if j < s.len() && is_quote(s[j]) {
        assert(s2[j] == s[j]);
        lemma_push_find_quote(s, j + 1);
        if let Option::Some(k) = spec_find_quote(s, j + 1) {
            lemma_find_quote_bounds(s, j + 1);
            if k + 1 < s.len() {
                assert(s2[k + 1] == s[k + 1]);
            } else {
                assert(s2[k + 1] == 10);
            }
            assert(s2.subrange(j + 1, k) =~= s.subrange(j + 1, k));
        }
    } else {
        if j == s.len() {
            assert(s2[j] == 10);
            assert(spec_bare_end(s, j) == j);
            assert(spec_bare_end(s2, j) == j);
            assert(s2.subrange(j, j) =~= s.subrange(j, j));
        } else {
            assert(s2[j] == s[j]);
            lemma_push_bare_end(s, j);
            lemma_bare_end_bounds(s, j);
            let m: int = spec_bare_end(s, j);
            assert(s2.subrange(j, m) =~= s.subrange(j, m));
        }
    }
}

/// A row scan never changes when a line terminator is appended.
proof fn lemma_push_scan_row(s: Seq<u8>, i: int, line: int, row_start: int)
    requires
        0 <= i <= s.len(),
    ensures
        spec_scan_row(s.push(10u8), i, line, row_start) == spec_scan_row(s, i, line, row_start),
    decreases s.len() - i,
{
    let s2 = s.push(10u8);
    lemma_push_scan_field(s, i, line, row_start);
    if let Result::Ok((f, m)) = spec_scan_field(s, i, line, row_start) {
        lemma_scan_field_ok_bounds(s, i, line, row_start);
        if m < s.len() && s[m] == 44 {
            assert(s2[m] == s[m]);
            lemma_push_scan_row(s, m + 1, line, row_start);
        } else if m == s.len() {
            assert(s2[m] == 10);
        } else {
            assert(s2[m] == s[m]);
        }
    }
}

/// A table scan never changes when a line terminator is appended.
proof fn lemma_push_scan_table(s: Seq<u8>, i: int, line: int, expected: Option<int>)
    requires
        0 <= i <= s.len(),
    ensures
        spec_scan_table(s.push(10u8), i, line, expected) == spec_scan_table(s, i, line, expected),
    decreases s.len() - i,
{
    let s2 = s.push(10u8);
    if i == s.len() {
        assert(s2[i] == 10);
    } else if s[i] == 10 {
        assert(s2[i] == 10);
    } else {
        assert(s2[i] == s[i]);
        lemma_push_scan_row(s, i, line, i);
        if let Result::Ok((fs, e)) = spec_scan_row(s, i, line, i) {
            lemma_scan_row_ok_bounds(s, i, line, i);
            if !(expected is Some && fs.len() != expected->0) {
                if e < s.len() {
                    lemma_push_scan_table(s, e + 1, line + 1, Option::Some(fs.len() as int));
                } else {
                    assert(spec_scan_table(s, e, line + 1, Option::Some(fs.len() as int))
                        == Result::<Seq<Seq<Seq<char>>>, CsvError>::Ok(Seq::empty()));
                    assert(spec_scan_table(s2, e + 1, line + 1, Option::Some(fs.len() as int))
                        == Result::<Seq<Seq<Seq<char>>>, CsvError>::Ok(Seq::empty()));
                }
            }
        }
    }
}

/// Appending a line terminator to any input never changes its parse: in
/// particular, a last row with no trailing newline parses exactly as it
/// would with one.
pub proof fn lemma_trailing_newline(s: Seq<u8>)
    ensures
        spec_parse(s.push(10u8)) == spec_parse(s),
{
    lemma_push_scan_table(s, 0, 0, Option::None);
}

/// The first line terminator at or after `i`, or the end of the buffer:
/// where the line that begins at `i` ends.
pub open spec fn spec_line_end(s: Seq<u8>, i: int) -> int
    decreases s.len() - i,
{
    if 0 <= i < s.len() && s[i] != 10 {
        spec_line_end(s, i + 1)
    } else {
        i
    }
}

/// Where a line ends: never before `i`, never past the end of the buffer,
/// no line terminator inside the line and one right after it unless the
/// buffer ends.
pub proof fn lemma_line_end_bounds(s: Seq<u8>, i: int)
    ensures
        i <= spec_line_end(s, i),
        0 <= i <= s.len() ==> spec_line_end(s, i) <= s.len(),
        forall|k: int| i <= k < spec_line_end(s, i) ==> #[trigger] s[k] != 10,
        0 <= i && spec_line_end(s, i) < s.len() ==> s[spec_line_end(s, i)] == 10,
    decreases s.len() - i,
{
    if 0 <= i < s.len() && s[i] != 10 {
        lemma_line_end_bounds(s, i + 1);
    }
}

/// A line ends exactly at the first line terminator.
pub proof fn lemma_line_end_at(s: Seq<u8>, i: int, e: int)
    requires
        0 <= i <= e <= s.len(),
        forall|k: int| i <= k < e ==> #[trigger] s[k] != 10,
        e == s.len() || s[e] == 10,
    ensures
        spec_line_end(s, i) == e,
    decreases e - i,
{
    if i < e {
        lemma_line_end_at(s, i + 1, e);
    }
}

/// The number of lines from `i` up to the first blank line or the end of
/// the buffer: one line per terminator-delimited stretch, stopping at a
/// stretch of zero bytes.
pub open spec fn spec_count_lines(s: Seq<u8>, i: int) -> int
    decreases s.len() - i,
{
    if i < 0 || i >= s.len() || s[i] == 10 {
        0
    } else {
        let e: int = spec_line_end(s, i);
        let next: int = if e < s.len() {
            e + 1
        } else {
            e
        };
        proof {
            lemma_line_end_bounds(s, i + 1);
        }
        1 + spec_count_lines(s, next)
    }
}

/// A byte sequence holding a line-terminator byte decodes to text holding
/// a line-terminator character: UTF-8 never encodes `\n` any other way.
proof fn lemma_newline_byte_decodes(b: Seq<u8>, k: int)
    requires
        valid_utf8(b),
        0 <= k < b.len(),
        b[k] == 10,
    ensures
        decode_utf8(b).contains('\n'),
    decreases b.len(),
{
    let l: int = length_of_first_scalar(b);
    assert(1 <= l <= b.len());
    if k == 0 {
        assert(is_leading_byte_width_1(b[0]));
        assert(l == 1);
        assert(10u8 & 0x7f == 10u8) by (bit_vector);
        assert(decode_first_scalar(b) == 10u32);
        assert('\n' as u32 == 10);
        char_u32_cast('\n', 10u32);
        assert(decode_utf8(b)[0] == '\n');
        assert(decode_utf8(b).contains('\n'));
    } else if k < l {
        assert(is_continuation_byte(b[k]));
        assert(false);
    } else {
        let rest = pop_first_scalar(b);
        assert(rest[k - l] == b[k]);
        lemma_newline_byte_decodes(rest, k - l);
        let idx = choose|idx: int|
            0 <= idx < decode_utf8(rest).len() && decode_utf8(rest)[idx] == '\n';
        assert(decode_utf8(b)[idx + 1] == '\n');
        assert(decode_utf8(b).contains('\n'));
    }
}

/// A field whose decoded text holds no line-terminator character was
/// scanned from bytes holding no line-terminator byte.
proof fn lemma_scan_field_no_newline(
    s: Seq<u8>,
    i: int,
    line: int,
    row_start: int,
    f: Seq<char>,
    m: int,
)
    requires
        0 <= i <= s.len(),
        spec_scan_field(s, i, line, row_start) == Result::<(Seq<char>, int), CsvError>::Ok(
            (f, m),
        ),
        !f.contains('\n'),
    ensures
        forall|k: int| i <= k < m ==> #[trigger] s[k] != 10,
{
    lemma_skip_whitespace_bounds(s, i);
    let j: int = spec_skip_whitespace(s, i);
    if j < s.len() && is_quote(s[j]) {
        if let Option::Some(k) = spec_find_quote(s, j + 1) {
            lemma_find_quote_bounds(s, j + 1);
            let content = s.subrange(j + 1, k);
            assert forall|p: int| j + 1 <= p < k implies #[trigger] s[p] != 10 by {
                if s[p] == 10 {
                    assert(content[p - (j + 1)] == 10);
                    lemma_newline_byte_decodes(content, p - (j + 1));
                }
            }
        }
    } else {
        lemma_bare_end_bounds(s, j);
    }
}

/// A row whose cells hold no line-terminator character spans bytes holding
/// no line-terminator byte.
proof fn lemma_scan_row_no_newline(
    s: Seq<u8>,
    i: int,
    line: int,
    row_start: int,
    fs: Seq<Seq<char>>,
    e: int,
)
    requires
        0 <= i <= s.len(),
        spec_scan_row(s, i, line, row_start) == Result::<(Seq<Seq<char>>, int), CsvError>::Ok(
            (fs, e),
        ),
        forall|c: int| 0 <= c < fs.len() ==> !(#[trigger] fs[c]).contains('\n'),
    ensures
        forall|k: int| i <= k < e ==> #[trigger] s[k] != 10,
    decreases s.len() - i,
{
    if let Result::Ok((f, m)) = spec_scan_field(s, i, line, row_start) {
        lemma_scan_field_ok_bounds(s, i, line, row_start);
        if m < s.len() && s[m] == 44 {
            if let Result::Ok((fs2, e2)) = spec_scan_row(s, m + 1, line, row_start) {
                assert(fs == seq![f] + fs2);
                assert(fs[0] == f);
                lemma_scan_field_no_newline(s, i, line, row_start, f, m);
                assert forall|c: int| 0 <= c < fs2.len() implies !(#[trigger] fs2[c]).contains(
                    '\n',
                ) by {
                    assert(fs2[c] == fs[c + 1]);
                }
                lemma_scan_row_no_newline(s, m + 1, line, row_start, fs2, e2);
            }
        } else {
            assert(fs == seq![f]);
            assert(fs[0] == f);
            lemma_scan_field_no_newline(s, i, line, row_start, f, m);
        }
    }
}

/// True when no cell of the table holds a line-terminator character.
pub open spec fn table_has_no_newline(t: Seq<Seq<Seq<char>>>) -> bool {
    forall|r: int, c: int|
        0 <= r < t.len() && 0 <= c < t[r].len() ==> !(#[trigger] t[r][c]).contains('\n')
}

/// Every successful table scan returns one row per non-blank line, as long
/// as no cell holds a line terminator.
proof fn lemma_scan_table_count(s: Seq<u8>, i: int, line: int, expected: Option<int>)
    requires
        0 <= i <= s.len(),
    ensures
        spec_scan_table(s, i, line, expected) matches Ok(t) ==> (table_has_no_newline(t)
            ==> t.len() == spec_count_lines(s, i)),
    decreases s.len() - i,
{
    if i < s.len() && s[i] != 10 {
        if let Result::Ok((fs, e)) = spec_scan_row(s, i, line, i) {
            lemma_scan_row_ok_bounds(s, i, line, i);
            if !(expected is Some && fs.len() != expected->0) {
                let next: int = if e < s.len() {
                    e + 1
                } else {
                    e
                };
                lemma_scan_table_count(s, next, line + 1, Option::Some(fs.len() as int));
                if let Result::Ok(rest) = spec_scan_table(
                    s,
                    next,
                    line + 1,
                    Option::Some(fs.len() as int),
                ) {
                    let t = seq![fs] + rest;
                    if table_has_no_newline(t) {
                        assert(t[0] == fs);
                        assert forall|c: int| 0 <= c < fs.len() implies !(
                        #[trigger] fs[c]).contains('\n') by {
                            assert(t[0][c] == fs[c]);
                        }
                        lemma_scan_row_no_newline(s, i, line, i, fs, e);
                        lemma_line_end_at(s, i, e);
                        assert forall|r: int, c: int|
                            0 <= r < rest.len() && 0 <= c < rest[r].len() implies !(
                        #[trigger] rest[r][c]).contains('\n') by {
                            assert(t[r + 1][c] == rest[r][c]);
                        }
                        assert(table_has_no_newline(rest));
                    }
                }
            }
        }
    }
}

/// On input where no cell holds a line terminator, a successful parse has
/// exactly one row per non-blank line, counted up to the first blank line
/// or the end of the input.
pub proof fn lemma_parse_row_count(s: Seq<u8>)
    ensures
        spec_parse(s) matches Ok(t) ==> (table_has_no_newline(t) ==> t.len() == spec_count_lines(
            s,
            0,
        )),
{
    lemma_scan_table_count(s, 0, 0, Option::None);
}

/// A character the naive reserialization keeps verbatim: ASCII, not the
/// delimiter, not the line terminator, not the quote.
pub open spec fn plain_char(c: char) -> bool {
    (c as u32) < 128 && c != ',' && c != '\n' && c != '"'
}

/// A cell the naive reserialization round-trips: plain characters only,
/// and no leading whitespace for the scanner to trim away.
pub open spec fn plain_cell(cell: Seq<char>) -> bool {
    &&& forall|k: int| 0 <= k < cell.len() ==> plain_char(#[trigger] cell[k])
    &&& cell.len() > 0 ==> cell[0] != ' ' && cell[0] != '\t'
}

/// The bytes of a plain cell are its characters one for one: ASCII bytes
/// free of every byte the scanner treats specially.
proof fn lemma_plain_cell_bytes(cell: Seq<char>)
    requires
        plain_cell(cell),
    ensures
        encode_utf8(cell).len() == cell.len(),
        forall|k: int| 0 <= k < cell.len() ==> #[trigger] encode_utf8(cell)[k] == cell[k] as u8,
        forall|k: int|
            0 <= k < cell.len() ==> (#[trigger] encode_utf8(cell)[k]) < 128 && !is_cell_end(
                encode_utf8(cell)[k],
            ) && !is_quote(encode_utf8(cell)[k]),
        cell.len() > 0 ==> !is_whitespace(encode_utf8(cell)[0]),
        encode_utf8(cell).map_values(|b: u8| b as char) == cell,
{
    let cb = encode_utf8(cell);
    assert forall|k: int| 0 <= k < cell.len() implies '\0' <= #[trigger] cell[k] <= '\u{7f}' by {
        assert(plain_char(cell[k]));
        char_u32_cast(cell[k], cell[k] as u32);
        assert('\0' as u32 == 0);
        assert('\u{7f}' as u32 == 127);
    }
    assert(is_ascii_chars(cell));
    is_ascii_chars_encode_utf8(cell);
    assert forall|k: int|
        0 <= k < cell.len() implies (#[trigger] cb[k]) < 128 && !is_cell_end(cb[k]) && !is_quote(
        cb[k],
    ) by {
        let c = cell[k];
        assert(cb[k] == c as u8);
        assert(c as u8 == c as u32);
        if c as u8 == 44 {
            char_u32_cast(c, 44u32);
            char_u32_cast(',', 44u32);
        }
        if c as u8 == 10 {
            char_u32_cast(c, 10u32);
            char_u32_cast('\n', 10u32);
        }
        if c as u8 == 34 {
            char_u32_cast(c, 34u32);
            char_u32_cast('"', 34u32);
        }
    }
    if cell.len() > 0 {
        let c = cell[0];
        assert(cb[0] == c as u8);
        assert(c as u8 == c as u32);
        if c as u8 == 32 {
            char_u32_cast(c, 32u32);
            char_u32_cast(' ', 32u32);
        }
        if c as u8 == 9 {
            char_u32_cast(c, 9u32);
            char_u32_cast('\t', 9u32);
        }
    }
    assert forall|k: int| 0 <= k < cell.len() implies (cb[k] as char) == #[trigger] cell[k] by {
        let c = cell[k];
        assert(cb[k] == c as u8);
        char_u32_cast(c, c as u32);
    }
    assert(cb.map_values(|b: u8| b as char) =~= cell);
}

/// One row's cells joined with the delimiter: the naive reserialization
/// of a row.
pub open spec fn spec_rejoin_row(row: Seq<Seq<char>>) -> Seq<u8>
    decreases row.len(),
{
    if row.len() == 0 {
        Seq::empty()
    } else if row.len() == 1 {
        encode_utf8(row[0])
    } else {
        encode_utf8(row[0]) + seq![44u8] + spec_rejoin_row(row.drop_first())
    }
}

/// The rows joined with the line terminator: the naive reserialization of
/// a table.
pub open spec fn spec_rejoin(t: Seq<Seq<Seq<char>>>) -> Seq<u8>
    decreases t.len(),
{
    if t.len() == 0 {
        Seq::empty()
    } else if t.len() == 1 {
        spec_rejoin_row(t[0])
    } else {
        spec_rejoin_row(t[0]) + seq![10u8] + spec_rejoin(t.drop_first())
    }
}

/// Scanning a row at the start of its own reserialization yields exactly
/// that row and stops right after its last cell.
proof fn lemma_rejoin_row_scan(s: Seq<u8>, i: int, row: Seq<Seq<char>>, line: int, row_start: int)
    requires
        0 <= row_start <= i,
        row.len() >= 1,
        forall|c: int| 0 <= c < row.len() ==> plain_cell(#[trigger] row[c]),
        i + spec_rejoin_row(row).len() <= s.len(),
        s.subrange(i, i + spec_rejoin_row(row).len()) == spec_rejoin_row(row),
        i + spec_rejoin_row(row).len() == s.len() || s[i + spec_rejoin_row(row).len()] == 10,
    ensures
        spec_scan_row(s, i, line, row_start) == Result::<(Seq<Seq<char>>, int), CsvError>::Ok(
            (row, i + spec_rejoin_row(row).len()),
        ),
    decreases row.len(),
{
    let rj = spec_rejoin_row(row);
    let cell = row[0];
    let cb = encode_utf8(cell);
    lemma_plain_cell_bytes(cell);
    let m: int = i + cb.len();
    if row.len() == 1 {
        assert(rj == cb);
        assert forall|k: int| i <= k < m implies #[trigger] s[k] < 128 && !is_cell_end(s[k]) by {
            assert(s[k] == s.subrange(i, i + rj.len())[k - i]);
            assert(s[k] == cb[k - i]);
        }
        if i < m {
            assert(s[i] == cb[0]);
        }
        lemma_bare_field_literal(s, i, m, line, row_start);
        assert(s.subrange(i, m) =~= cb);
        assert(s.subrange(i, m).map_values(|b: u8| b as char) == cell);
        assert(spec_scan_row(s, i, line, row_start) == Result::<
            (Seq<Seq<char>>, int),
            CsvError,
        >::Ok((seq![cell], m)));
        assert(seq![cell] =~= row);
    } else {
        let rest = row.drop_first();
        assert(rj == cb + seq![44u8] + spec_rejoin_row(rest));
        assert forall|k: int| i <= k < m implies #[trigger] s[k] < 128 && !is_cell_end(s[k]) by {
            assert(s[k] == s.subrange(i, i + rj.len())[k - i]);
            assert(rj[k - i] == cb[k - i]);
        }
        assert(s[m] == s.subrange(i, i + rj.len())[m - i]);
        assert(rj[cb.len() as int] == 44u8);
        assert(s[m] == 44u8);
        if i < m {
            assert(s[i] == s.subrange(i, i + rj.len())[0]);
            assert(rj[0] == cb[0]);
        }
        lemma_bare_field_literal(s, i, m, line, row_start);
        assert(s.subrange(i, m) =~= cb);
        assert(s.subrange(i, m).map_values(|b: u8| b as char) == cell);
        assert forall|c: int| 0 <= c < rest.len() implies plain_cell(#[trigger] rest[c]) by {
            assert(rest[c] == row[c + 1]);
        }
        assert(s.subrange(m + 1, m + 1 + spec_rejoin_row(rest).len()) =~= spec_rejoin_row(
            rest,
        )) by {
            assert forall|p: int|
                0 <= p < spec_rejoin_row(rest).len() implies s[m + 1 + p] == spec_rejoin_row(
                rest,
            )[p] by {
                assert(s[m + 1 + p] == s.subrange(i, i + rj.len())[cb.len() + 1 + p]);
                assert(rj[cb.len() + 1 + p] == spec_rejoin_row(rest)[p]);
            }
        }
        lemma_rejoin_row_scan(s, m + 1, rest, line, row_start);
        assert(seq![cell] + rest =~= row);
    }
}

/// True when the naive reserialization of the table round-trips: rows of
/// equal, nonzero field counts, none of them reserializing to a blank
/// line, and every cell plain.
pub open spec fn rejoinable(t: Seq<Seq<Seq<char>>>) -> bool {
    &&& forall|r: int| 0 <= r < t.len() ==> (#[trigger] t[r]).len() == t[0].len()
    &&& forall|r: int| 0 <= r < t.len() ==> (#[trigger] t[r]).len() >= 1
    &&& forall|r: int| 0 <= r < t.len() ==> !((#[trigger] t[r]).len() == 1 && t[r][0].len() == 0)
    &&& forall|r: int, c: int|
        0 <= r < t.len() && 0 <= c < t[r].len() ==> plain_cell(#[trigger] t[r][c])
}

/// Scanning rows at the start of their own reserialization yields exactly
/// those rows.
proof fn lemma_rejoin_scan_table(
    s: Seq<u8>,
    i: int,
    t: Seq<Seq<Seq<char>>>,
    line: int,
    expected: Option<int>,
)
    requires
        0 <= i <= s.len(),
        s.subrange(i, s.len() as int) == spec_rejoin(t),
        rejoinable(t),
        expected matches Some(n) ==> t.len() == 0 || t[0].len() == n,
    ensures
        spec_scan_table(s, i, line, expected) == Result::<Seq<Seq<Seq<char>>>, CsvError>::Ok(t),
    decreases t.len(),
{
    if t.len() == 0 {
        assert(spec_rejoin(t).len() == 0);
        assert(i == s.len());
        assert(t =~= Seq::<Seq<Seq<char>>>::empty());
    } else {
        let row0 = t[0];
        let rj = spec_rejoin_row(row0);
        let cell = row0[0];
        let cb = encode_utf8(cell);
        lemma_plain_cell_bytes(cell);
        // the row's reserialization is never blank
        if row0.len() == 1 {
            assert(cell.len() >= 1);
            assert(rj.len() >= 1);
        } else {
            assert(rj == cb + seq![44u8] + spec_rejoin_row(row0.drop_first()));
            assert(rj.len() >= 1);
        }
        // the full reserialization from i, and where this row's part ends
        let e: int = i + rj.len();
        if t.len() == 1 {
            assert(spec_rejoin(t) == rj);
            assert(e == s.len());
        } else {
            assert(spec_rejoin(t) == rj + seq![10u8] + spec_rejoin(t.drop_first()));
            assert(e < s.len());
            assert(s[e] == s.subrange(i, s.len() as int)[e - i]);
            assert(spec_rejoin(t)[rj.len() as int] == 10u8);
            assert(s[e] == 10u8);
        }
        // this row starts with a byte that is not a line terminator
        assert(i < s.len());
        assert(s[i] == s.subrange(i, s.len() as int)[0]);
        if row0.len() == 1 || cb.len() > 0 {
            assert(rj[0] == cb[0]);
            assert(s[i] == cb[0]);
            assert(s[i] != 10);
        } else {
            assert(rj[0] == 44u8);
            assert(s[i] != 10);
        }
        // scan this row
        assert(s.subrange(i, e) =~= rj) by {
            assert forall|p: int| 0 <= p < rj.len() implies s[i + p] == rj[p] by {
                assert(s[i + p] == s.subrange(i, s.len() as int)[p]);
                if t.len() > 1 {
                    assert(spec_rejoin(t)[p] == rj[p]);
                }
            }
        }
        lemma_rejoin_row_scan(s, i, row0, line, i);
        // the established field count matches
        assert(!(expected is Some && row0.len() != expected->0));
        // scan the remaining rows
        let rest = t.drop_first();
        let next: int = if e < s.len() {
            e + 1
        } else {
            e
        };
        assert forall|r: int| 0 <= r < rest.len() implies (#[trigger] rest[r]).len() == row0.len()
            && rest[r].len() >= 1 && !(rest[r].len() == 1 && rest[r][0].len() == 0) by {
            assert(rest[r] == t[r + 1]);
        }
        assert forall|r: int, c: int|
            0 <= r < rest.len() && 0 <= c < rest[r].len() implies plain_cell(
            #[trigger] rest[r][c],
        ) by {
            assert(rest[r] == t[r + 1]);
        }
        if t.len() == 1 {
            assert(rest.len() == 0);
            assert(next == s.len());
            assert(s.subrange(next, s.len() as int) =~= spec_rejoin(rest));
        } else {
            assert(next == e + 1);
            assert(s.subrange(next, s.len() as int) =~= spec_rejoin(rest)) by {
                assert forall|p: int|
                    0 <= p < s.len() - next implies s[next + p] == spec_rejoin(rest)[p] by {
                    assert(s[next + p] == s.subrange(i, s.len() as int)[rj.len() + 1 + p]);
                    assert(spec_rejoin(t)[rj.len() + 1 + p] == spec_rejoin(rest)[p]);
                }
            }
        }
        lemma_rejoin_scan_table(s, next, rest, line + 1, Option::Some(row0.len() as int));
        assert(seq![row0] + rest =~= t);
    }
}

/// Idempotence of parsing over the naive reserialization: a table whose
/// cells hold no delimiter, quote, line terminator or other special
/// character parses back from its comma-and-newline rejoin to exactly
/// itself.
pub proof fn lemma_rejoin_round_trip(t: Seq<Seq<Seq<char>>>)
    requires
        rejoinable(t),
    ensures
        spec_parse(spec_rejoin(t)) == Result::<Seq<Seq<Seq<char>>>, CsvError>::Ok(t),
{
    let s = spec_rejoin(t);
    assert(s.subrange(0, s.len() as int) =~= s);
    lemma_rejoin_scan_table(s, 0, t, 0, Option::None);
}

} // verus!
