use abada::request::strconv::{
    atoi, base64_decode, parse_bool, parse_int, parse_uint, quote, runtime_bytes, Alphabet, CorruptInput,
    NumErrorKind,
};

fn text(b: Vec<u8>) -> String {
    String::from_utf8(b).unwrap()
}

#[test]
fn ints_follow_go() {
    assert_eq!(parse_int(b"0x1f", true, 32), Ok(31));
    assert_eq!(parse_int(b"017", true, 32), Ok(15));
    assert_eq!(parse_int(b"-0x80000000", true, 32), Ok(-2147483648));
    assert_eq!(
        text(parse_int(b"08", true, 32).unwrap_err().message()),
        r#"strconv.ParseInt: parsing "08": invalid syntax"#
    );
    assert_eq!(parse_uint(b"0x_ff", true, 32), Ok(255));
    assert!(parse_int(b"1_000", false, 32).is_err());
}

#[test]
fn quote_escapes_like_go() {
    assert_eq!(text(quote(b"a\"\x07\xff\xc3\xa9")), r#""a\"\a\xffé""#);
    assert_eq!(text(quote("\u{85}".as_bytes())), "\"\\u0085\"");
}

#[test]
fn base64_errors_point_where_go_does() {
    assert_eq!(runtime_bytes(b"aGVsbG8"), Err(CorruptInput(4)));
    assert_eq!(runtime_bytes(b"_-8="), Ok(vec![0xff, 0xef]));
    assert_eq!(runtime_bytes(b"Y\nQ=="), Ok(b"a".to_vec()));
}

#[test]
fn integer_ranges_are_checked_per_width() {
    assert_eq!(parse_int(b"2147483647", false, 32), Ok(2147483647));
    let e = parse_int(b"2147483648", false, 32).unwrap_err();
    assert_eq!(e.kind, NumErrorKind::Range);
    assert_eq!(
        text(e.message()),
        r#"strconv.ParseInt: parsing "2147483648": value out of range"#
    );
    assert_eq!(parse_int(b"-9223372036854775808", false, 64), Ok(i64::MIN));
    assert_eq!(parse_uint(b"18446744073709551615", false, 64), Ok(u64::MAX));
    assert_eq!(parse_uint(b"18446744073709551616", false, 64).unwrap_err().kind, NumErrorKind::Range);
    assert_eq!(parse_uint(b"0b101", true, 8), Ok(5));
    assert_eq!(parse_uint(b"0o17", true, 8), Ok(15));
    assert_eq!(parse_uint(b"", false, 8).unwrap_err().kind, NumErrorKind::Syntax);
    assert_eq!(atoi(b"+42"), Some(42));
    assert_eq!(atoi(b"4x"), None);
}

#[test]
fn a_range_error_outranks_a_later_bad_byte() {
    assert_eq!(
        parse_uint(b"99999999999999999999999x", false, 64).unwrap_err().kind,
        NumErrorKind::Range
    );
}

#[test]
fn underscores_must_stand_between_digits() {
    assert_eq!(parse_int(b"1_000", true, 32), Ok(1000));
    assert!(parse_int(b"1__000", true, 32).is_err());
    assert!(parse_int(b"_1000", true, 32).is_err());
    assert!(parse_int(b"1000_", true, 32).is_err());
}

#[test]
fn booleans_follow_go() {
    for t in ["1", "t", "T", "true", "TRUE", "True"] {
        assert_eq!(parse_bool(t.as_bytes()), Ok(true));
    }
    for f in ["0", "f", "F", "false", "FALSE", "False"] {
        assert_eq!(parse_bool(f.as_bytes()), Ok(false));
    }
    assert_eq!(
        text(parse_bool(b"yes").unwrap_err().message()),
        r#"strconv.ParseBool: parsing "yes": invalid syntax"#
    );
}

#[test]
fn base64_padding_and_newlines() {
    assert_eq!(base64_decode(Alphabet::Std, b"aGVsbG8="), Ok(b"hello".to_vec()));
    assert_eq!(base64_decode(Alphabet::Std, b"aGVs\r\nbG8="), Ok(b"hello".to_vec()));
    assert_eq!(base64_decode(Alphabet::Std, b"aGVsbG8=x"), Err(CorruptInput(8)));
    assert_eq!(base64_decode(Alphabet::Url, b"+/"), Err(CorruptInput(0)));
    assert_eq!(
        text(CorruptInput(4).message()),
        "illegal base64 data at input byte 4"
    );
}
