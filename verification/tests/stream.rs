use abada::json::stream::{array_items, first_value, object_members, MAX_NESTING};
use abada::json::JsonErrorKind;

fn err_text(body: &[u8]) -> (JsonErrorKind, String) {
    let e = first_value(body).expect_err("an error");
    (e.kind(), String::from_utf8(e.message().to_vec()).unwrap())
}

#[test]
fn blank_bodies_have_no_value() {
    assert_eq!(first_value(b"").unwrap(), None);
    assert_eq!(first_value(b" \t\r\n").unwrap(), None);
}

#[test]
fn the_first_value_is_cut_out_and_the_rest_ignored() {
    let body = b"  {\"a\": [1, -2.5e+3, true, null, \"x\\u00e9\\n\"], \"b\": {}} trailing";
    assert_eq!(
        first_value(body).unwrap(),
        Some(&b"{\"a\": [1, -2.5e+3, true, null, \"x\\u00e9\\n\"], \"b\": {}}"[..])
    );
    assert_eq!(first_value(b"01").unwrap(), Some(&b"0"[..]));
    assert_eq!(first_value(b"\"s\"\"t\"").unwrap(), Some(&b"\"s\""[..]));
    assert_eq!(first_value(b"[ ]x").unwrap(), Some(&b"[ ]"[..]));
}

#[test]
fn a_cut_value_is_an_unexpected_eof() {
    for body in [&b"[1,"[..], b"{\"a\"", b"\"abc", b"-", b"1.", b"1e+", b"tru", b"\"\\u12"] {
        assert_eq!(err_text(body), (JsonErrorKind::UnexpectedEof, "unexpected EOF".to_string()));
    }
}

#[test]
fn scanner_errors_name_the_offset() {
    let cases: [(&[u8], &str); 9] = [
        (b"{1}", "invalid character looking for beginning of object key (offset 1)"),
        (b"[1 2]", "invalid character after value (offset 3)"),
        (b" {\"a\" 1}", "invalid character after object key (offset 6)"),
        (b"-a", "invalid character in numeric literal (offset 1)"),
        (b"1.e5", "invalid character in numeric literal (offset 2)"),
        (b"trux", "invalid character in literal (offset 3)"),
        (b"\"a\\x\"", "invalid character in string escape code (offset 2)"),
        (b"\"\\u12g4\"", "invalid character in \\u escape (offset 1)"),
        (b"]", "invalid character looking for beginning of value (offset 0)"),
    ];
    for (body, text) in cases {
        assert_eq!(err_text(body), (JsonErrorKind::Syntax, text.to_string()), "{:?}", body);
    }
    assert_eq!(
        err_text(b"\"a\x01\""),
        (JsonErrorKind::Syntax, "invalid character in string literal (offset 2)".to_string())
    );
}

#[test]
fn nesting_stops_at_ten_thousand_levels() {
    assert_eq!(MAX_NESTING, 10_000);
    let mut deep = vec![b'['; MAX_NESTING];
    deep.extend(vec![b']'; MAX_NESTING]);
    assert_eq!(first_value(&deep).unwrap(), Some(&deep[..]));
    let mut deeper = vec![b'['; MAX_NESTING + 1];
    deeper.extend(vec![b']'; MAX_NESTING + 1]);
    assert_eq!(
        err_text(&deeper),
        (JsonErrorKind::Syntax, "exceeded max depth (offset 10000)".to_string())
    );
    let mut objects = Vec::new();
    for _ in 0..MAX_NESTING {
        objects.extend_from_slice(b"{\"k\":");
    }
    objects.push(b'1');
    objects.extend(vec![b'}'; MAX_NESTING]);
    assert_eq!(first_value(&objects).unwrap(), Some(&objects[..]));
}

#[test]
fn array_items_are_the_elements_without_their_space() {
    let raw = b"[ 1 , {\"a\": [2]},\"x\" ,null]";
    assert_eq!(
        array_items(raw),
        vec![&b"1"[..], &b"{\"a\": [2]}"[..], &b"\"x\""[..], &b"null"[..]]
    );
    assert!(array_items(b"[ ]").is_empty());
}

#[test]
fn object_members_are_key_literals_and_values() {
    let raw = b"{ \"a\" : 1, \"b\\\"c\":{\"x\":[]} ,\"d\":\"e\" }";
    assert_eq!(
        object_members(raw),
        vec![
            (&b"\"a\""[..], &b"1"[..]),
            (&b"\"b\\\"c\""[..], &b"{\"x\":[]}"[..]),
            (&b"\"d\""[..], &b"\"e\""[..]),
        ]
    );
    assert!(object_members(b"{ }").is_empty());
}
