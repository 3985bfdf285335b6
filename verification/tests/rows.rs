use measurements::row::{parse_next_row, parse_value, MalformedRow};

fn content() -> &'static [u8] {
    r#"Hamburg;12.0
Bulawayo;8.9
Palembang;38.8
St. John's;15.2
Cracow;12.6
Bridgetown;26.9
Istanbul;6.2
Roseau;-34.4
Conakry;31.2
Istanbul;23.0"#
        .as_bytes()
}

#[test]
fn it_parses_rows() {
    let content = content();

    let mut result: Vec<(&[u8], i16)> = vec![];
    let mut i = 0;
    while i < content.len() {
        let (city, measure, last) = parse_next_row(&content[i..]).unwrap();
        result.push((city, measure));
        i += last;
    }

    assert_eq!(
        vec![
            ("Hamburg".as_bytes(), 120),
            ("Bulawayo".as_bytes(), 89),
            ("Palembang".as_bytes(), 388),
            ("St. John's".as_bytes(), 152),
            ("Cracow".as_bytes(), 126),
            ("Bridgetown".as_bytes(), 269),
            ("Istanbul".as_bytes(), 62),
            ("Roseau".as_bytes(), -344),
            ("Conakry".as_bytes(), 312),
            ("Istanbul".as_bytes(), 230),
        ],
        result
    );
}

#[test]
fn parse_value_reads_the_grammar() {
    assert_eq!(parse_value(b"12.0"), Some(120));
    assert_eq!(parse_value(b"-3.2"), Some(-32));
    assert_eq!(parse_value(b"0.5"), Some(5));
    assert_eq!(parse_value(b"-0.5"), Some(-5));
    assert_eq!(parse_value(b"0.0"), Some(0));
    assert_eq!(parse_value(b"-0.0"), Some(0));
    assert_eq!(parse_value(b"99.9"), Some(999));
    assert_eq!(parse_value(b"-99.9"), Some(-999));
    assert_eq!(parse_value(b"05.3"), Some(53));
    assert_eq!(parse_value(b"8.9"), Some(89));
}

#[test]
fn parse_value_refuses_everything_else() {
    for text in [
        "", "-", ".", "abc", "1", "12", "1.", ".5", "1.23", "123.4", "12.34", "+1.0", "1,0",
        "--1.0", "-1.0-", "1.0 ", " 1.0", "1 .0", "a.0", "1.a", "1a.0", "-.5", "-1.", "1..0",
        "12.0\n", "1.0;", "٣.٤",
    ] {
        assert_eq!(parse_value(text.as_bytes()), None, "{:?}", text);
    }
}

#[test]
fn row_with_newline_takes_it_in() {
    assert_eq!(parse_next_row(b"Oslo;-3.2\nRome;1.0\n"), Ok((b"Oslo".as_slice(), -32, 10)));
}

#[test]
fn last_row_without_newline_takes_the_rest() {
    assert_eq!(parse_next_row(b"Oslo;-3.2"), Ok((b"Oslo".as_slice(), -32, 9)));
}

#[test]
fn key_may_hold_spaces_and_any_other_byte() {
    assert_eq!(
        parse_next_row(b"St. John's;15.2\n"),
        Ok((b"St. John's".as_slice(), 152, 16))
    );
    assert_eq!(
        parse_next_row(b"\xff\x00 \t;1.0\n"),
        Ok((b"\xff\x00 \t".as_slice(), 10, 9))
    );
    assert_eq!(parse_next_row(b";1.0\n"), Ok((b"".as_slice(), 10, 5)));
}

#[test]
fn long_key_is_read_whole() {
    let mut text = vec![b'k'; 300];
    text.extend_from_slice(b";7.5\nnext;1.0\n");
    let (key, value, taken) = parse_next_row(&text).unwrap();
    assert_eq!(key, &text[..300]);
    assert_eq!(value, 75);
    assert_eq!(taken, 305);
}

#[test]
fn row_without_separator_is_malformed() {
    assert_eq!(parse_next_row(b"Oslo\n"), Err(MalformedRow::MissingSeparator));
    assert_eq!(parse_next_row(b"Oslo 1.0"), Err(MalformedRow::MissingSeparator));
    assert_eq!(parse_next_row(b"\nOslo;1.0"), Err(MalformedRow::MissingSeparator));
    assert_eq!(parse_next_row(b""), Err(MalformedRow::MissingSeparator));
    // The separator of the next row does not count.
    assert_eq!(parse_next_row(b"Oslo\nRome;1.0\n"), Err(MalformedRow::MissingSeparator));
}

#[test]
fn row_with_bad_value_is_malformed() {
    assert_eq!(parse_next_row(b"Oslo;abc"), Err(MalformedRow::InvalidValue));
    assert_eq!(parse_next_row(b"Oslo;\n"), Err(MalformedRow::InvalidValue));
    assert_eq!(parse_next_row(b"Oslo;123.4\n"), Err(MalformedRow::InvalidValue));
    assert_eq!(parse_next_row(b"Oslo;1.23\n"), Err(MalformedRow::InvalidValue));
    assert_eq!(parse_next_row(b"12.0;Hamburg\n"), Err(MalformedRow::InvalidValue));
    assert_eq!(parse_next_row(b"a;b;1.0\n"), Err(MalformedRow::InvalidValue));
    assert_eq!(parse_next_row(b"Oslo;1.0\r\n"), Err(MalformedRow::InvalidValue));
}
