use csv_parser::scan_field;
use csv_parser::scan_row;
use csv_parser::parse_csv;
use csv_parser::parse_csv_from_slice;
use csv_parser::CharError;
use csv_parser::CsvError;
use csv_parser::Position;

#[test]
fn check_string_between_quotes() {
    let f = b"\"nom\",age\ncarles,30\nlaure,28\n";

    match scan_field(f, 0, 0, 0) {
        Ok((out, end)) => {
            assert_eq!(out, "nom");
            assert_eq!(&f[end..], b",age\ncarles,30\nlaure,28\n");
        }
        Err(e) => panic!("error: {:?}", e),
    }
}

#[test]
fn check_get_cell() {
    let f = b"age\ncarles,30\n";
    let g = b"age2,carles,30\n";

    match scan_field(f, 0, 0, 0) {
        Ok((out, _)) => assert_eq!(out, "age"),
        Err(e) => panic!("error: {:?}", e),
    }
    match scan_field(g, 0, 0, 0) {
        Ok((out, _)) => assert_eq!(out, "age2"),
        Err(e) => panic!("error: {:?}", e),
    }
}

#[test]
fn check_get_line_values() {
    let res = scan_row(b"\"nom\",,age\n", 0, 0);
    println!("res: {:?}", res);
    let (cells, _) = res.unwrap();
    assert_eq!(cells, vec!["nom".to_owned(), "".to_owned(), "age".to_owned()]);

    let (cells, _) = scan_row(b"\"nom\",age,\n", 0, 0).unwrap();
    assert_eq!(cells, vec!["nom".to_owned(), "age".to_owned(), "".to_owned()]);

    let (cells, _) = scan_row(b"\"nom\",age,,\"hoho\",,end\n", 0, 0).unwrap();
    assert_eq!(
        cells,
        vec![
            "nom".to_owned(),
            "age".to_owned(),
            "".to_owned(),
            "hoho".to_owned(),
            "".to_owned(),
            "end".to_owned()
        ]
    );

    let e = scan_row(b"\"nom\" ,age,\"hoho\"", 0, 0);
    assert_eq!(
        e,
        Err(CsvError::InvalidCharacter(CharError::new(
            ',',
            ' ',
            &Position::new(0, 5)
        )))
    );
}

#[test]
fn check_get_lines_values() {
    let f = b"\"nom\",age\ncarles,30\nlaure,28\n";

    assert_eq!(
        parse_csv_from_slice(f),
        Ok(vec![
            vec!["nom".to_owned(), "age".to_owned()],
            vec!["carles".to_owned(), "30".to_owned()],
            vec!["laure".to_owned(), "28".to_owned()]
        ])
    );
    let f = b"\"nom\",age\ncarles,30\nlaure,28";

    assert_eq!(
        parse_csv_from_slice(f),
        Ok(vec![
            vec!["nom".to_owned(), "age".to_owned()],
            vec!["carles".to_owned(), "30".to_owned()],
            vec!["laure".to_owned(), "28".to_owned()]
        ])
    );
}

#[test]
fn check_parse_csv() {
    let f = "\"nom\",age\ncarles,30\nlaure,28\n";

    assert_eq!(
        parse_csv(f),
        Ok(vec![
            vec!["nom".to_owned(), "age".to_owned()],
            vec!["carles".to_owned(), "30".to_owned()],
            vec!["laure".to_owned(), "28".to_owned()]
        ])
    );
}
