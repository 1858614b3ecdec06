use csv_parser::parse_csv;
use csv_parser::parse_csv_from_slice;
use csv_parser::scan_field;
use csv_parser::CharError;
use csv_parser::CsvError;
use csv_parser::Position;
use csv_parser::SizeError;

fn table(rows: &[&[&str]]) -> Vec<Vec<String>> {
    rows.iter()
        .map(|r| r.iter().map(|c| (*c).to_owned()).collect())
        .collect()
}

#[test]
fn empty_input_gives_zero_rows() {
    assert_eq!(parse_csv(""), Ok(vec![]));
}

#[test]
fn bare_field_keeps_literal_bytes() {
    assert_eq!(parse_csv("carles"), Ok(table(&[&["carles"]])));
    assert_eq!(parse_csv("a b c,d"), Ok(table(&[&["a b c", "d"]])));
}

#[test]
fn quoted_field_strips_quotes() {
    assert_eq!(parse_csv("\"abc\""), Ok(table(&[&["abc"]])));
    assert_eq!(parse_csv("\"\"\n"), Ok(table(&[&[""]])));
}

#[test]
fn quoted_field_keeps_comma_as_one_field() {
    assert_eq!(parse_csv("\"a,b\"\n"), Ok(table(&[&["a,b"]])));
}

#[test]
fn quoted_field_keeps_line_break() {
    assert_eq!(parse_csv("\"a\nb\",c\n"), Ok(table(&[&["a\nb", "c"]])));
}

#[test]
fn empty_field_between_delimiters() {
    assert_eq!(parse_csv("a,,b"), Ok(table(&[&["a", "", "b"]])));
}

#[test]
fn last_row_needs_no_trailing_newline() {
    assert_eq!(
        parse_csv("a,b\nc,d"),
        Ok(table(&[&["a", "b"], &["c", "d"]]))
    );
}

#[test]
fn leading_whitespace_is_trimmed_trailing_kept() {
    assert_eq!(parse_csv("  a, \tb\n"), Ok(table(&[&["a", "b"]])));
    assert_eq!(parse_csv("a ,b\n"), Ok(table(&[&["a ", "b"]])));
    assert_eq!(parse_csv(" \"x\",y\n"), Ok(table(&[&["x", "y"]])));
}

#[test]
fn blank_line_ends_the_table() {
    assert_eq!(parse_csv("a,b\n\nskipped,garbage"), Ok(table(&[&["a", "b"]])));
    assert_eq!(parse_csv("\nx"), Ok(vec![]));
}

#[test]
fn stray_byte_after_closing_quote() {
    assert_eq!(
        parse_csv("\"nom\" ,age"),
        Err(CsvError::InvalidCharacter(CharError::new(
            ',',
            ' ',
            &Position::new(0, 5)
        )))
    );
}

#[test]
fn stray_byte_position_counts_from_row_start() {
    assert_eq!(
        parse_csv("a\n\"b\"x\n"),
        Err(CsvError::InvalidCharacter(CharError::new(
            ',',
            'x',
            &Position::new(1, 3)
        )))
    );
}

#[test]
fn row_length_mismatch() {
    assert_eq!(
        parse_csv("a,b\n1,2,3\n"),
        Err(CsvError::InvalidRowLength(SizeError::new(
            2,
            3,
            &Position::new(1, 0)
        )))
    );
}

#[test]
fn unterminated_quote_is_generic_error() {
    assert_eq!(parse_csv("\"abc"), Err(CsvError::GenericError));
    assert_eq!(parse_csv("x,\"abc\ny"), Err(CsvError::GenericError));
}

#[test]
fn invalid_utf8_is_generic_error() {
    assert_eq!(parse_csv_from_slice(&[0xff, 0xfe]), Err(CsvError::GenericError));
    assert_eq!(
        parse_csv_from_slice(&[b'a', b',', 0xc3, b'\n']),
        Err(CsvError::GenericError)
    );
}

#[test]
fn multibyte_text_is_decoded() {
    assert_eq!(
        parse_csv("h\u{e9}llo,caf\u{e9}\n"),
        Ok(table(&[&["h\u{e9}llo", "caf\u{e9}"]]))
    );
    let bytes = [b'n', b'o', 0xc3, 0xab, b'l', b'\n'];
    assert_eq!(parse_csv_from_slice(&bytes), Ok(table(&[&["no\u{eb}l"]])));
}

#[test]
fn end_to_end_three_rows() {
    assert_eq!(
        parse_csv("\"nom\",age\ncarles,30\nlaure,28\n"),
        Ok(table(&[
            &["nom", "age"],
            &["carles", "30"],
            &["laure", "28"]
        ]))
    );
}

#[test]
fn rectangular_tables_parse_whole() {
    let parsed = parse_csv("a,b,c\nd,e,f\n").unwrap();
    assert_eq!(parsed.len(), 2);
    assert!(parsed.iter().all(|row| row.len() == parsed[0].len()));
}

#[test]
fn rejoin_round_trip() {
    let parsed = parse_csv("x,y\nz,w\n").unwrap();
    let rejoined = parsed
        .iter()
        .map(|row| row.join(","))
        .collect::<Vec<String>>()
        .join("\n");
    assert_eq!(parse_csv(&rejoined), Ok(parsed));
}

#[test]
fn scan_field_reports_end_of_field() {
    let f = b" \t\"a,b\",rest";
    match scan_field(f, 0, 0, 0) {
        Ok((out, end)) => {
            assert_eq!(out, "a,b");
            assert_eq!(&f[end..], b",rest");
        }
        Err(e) => panic!("error: {:?}", e),
    }
}

#[test]
fn error_descriptions() {
    let pos = Position::new(0, 0);
    assert_eq!(
        CsvError::InvalidCharacter(CharError::new(',', 'x', &pos)).description(),
        "invalid character"
    );
    assert_eq!(
        CsvError::InvalidRowLength(SizeError::new(1, 2, &pos)).description(),
        "invalid row length"
    );
    assert_eq!(CsvError::GenericError.description(), "generic parsing error");
}

#[test]
fn error_constructors_keep_their_fields() {
    let pos = Position::new(3, 7);
    assert_eq!(pos.line, 3);
    assert_eq!(pos.column, 7);
    let c = CharError::new(',', ';', &pos);
    assert_eq!(c.expected, ',');
    assert_eq!(c.got, ';');
    assert_eq!(c.position, pos);
    let s = SizeError::new(4, 5, &pos);
    assert_eq!(s.nb_elements_expected, 4);
    assert_eq!(s.nb_elements_got, 5);
    assert_eq!(s.position, pos);
}
