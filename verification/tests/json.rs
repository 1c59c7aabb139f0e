use abada::json::go::{append_base64, append_escaped_raw, append_protojson_string, parse_bool, parse_int, parse_rfc3339, parse_uint, Base64};
use abada::json::{JsonError, JsonErrorKind};

#[test]
fn integers_are_parsed_like_strconv() {
    assert_eq!(parse_int(b"0x_1f", 0, 32), Some(31));
    assert_eq!(parse_int(b"-0b1", 0, 32), Some(-1));
    assert_eq!(parse_int(b"010", 0, 32), Some(8));
    assert_eq!(parse_int(b"1_000", 0, 32), Some(1000));
    assert_eq!(parse_int(b"_1", 0, 32), None);
    assert_eq!(parse_int(b"-0x80000000", 0, 32), Some(i32::MIN as i64));
    assert_eq!(parse_uint(b"+1", 10, 32), None);
    assert_eq!(parse_int(b"+1", 10, 32), Some(1));
}

#[test]
fn base64_follows_go() {
    let std = Base64 {
        url: false,
        padding: true,
    };
    assert_eq!(std.decode(b"AQ==\n\n"), Some(vec![1]));
    assert_eq!(std.decode(b"AQ"), None);
    assert_eq!(std.decode(b"AQJ="), Some(vec![1, 2]));
}

#[test]
fn what_is_encoded_decodes_back() {
    let std = Base64 { url: false, padding: true };
    for data in [&b""[..], b"f", b"fo", b"foo", b"foob", b"fooba", b"foobar", &[0u8, 255, 128, 7][..]] {
        let mut enc = Vec::new();
        append_base64(&mut enc, data);
        assert_eq!(std.decode(&enc), Some(data.to_vec()));
    }
    let mut enc = Vec::new();
    append_base64(&mut enc, b"foobar");
    assert_eq!(enc, b"Zm9vYmFy".to_vec());
}

#[test]
fn unpadded_and_url_alphabets() {
    let raw_url = Base64 { url: true, padding: false };
    assert_eq!(raw_url.decode(b"_-8"), Some(vec![0xff, 0xef]));
    assert_eq!(raw_url.decode(b"_-8="), None);
    assert_eq!(raw_url.decode(b"A"), None);
}

#[test]
fn rfc3339_for_the_codec() {
    assert_eq!(parse_rfc3339(b"1970-01-01T00:00:01.5Z"), Some((1, 500_000_000)));
    assert_eq!(parse_rfc3339(b"1970-01-01 00:00:01Z"), None);
    assert_eq!(parse_bool(b"True"), Some(true));
    assert_eq!(parse_bool(b"yes"), None);
}

#[test]
fn protojson_strings_escape_controls_only() {
    let mut out = Vec::new();
    append_protojson_string(&mut out, "a\"<\u{1}\n");
    assert_eq!(out, b"\"a\\\"<\\u0001\\n\"".to_vec());
    let e = JsonError::new(JsonErrorKind::Syntax, b"bad".to_vec());
    assert_eq!(e.kind(), JsonErrorKind::Syntax);
    assert_eq!(JsonError::eof().message(), b"unexpected EOF");
}

#[test]
fn raw_json_is_re_emitted_with_html_escapes() {
    let mut out = b"x".to_vec();
    append_escaped_raw(&mut out, "{\"a\":\"<b>&\u{2028}\u{2029}\u{2027}\"}".as_bytes());
    assert_eq!(
        String::from_utf8(out).unwrap(),
        "x{\"a\":\"\\u003cb\\u003e\\u0026\\u2028\\u2029\u{2027}\"}"
    );
}
