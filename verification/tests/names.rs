use abada::json::go::{append_encoding_json_string, push_lossy};
use abada::json::names::{go_trim_space, is_valid_full_name, json_camel_case, json_snake_case};

#[test]
fn field_names_change_case_like_protobuf() {
    assert_eq!(json_camel_case(b"foo_bar_baz"), b"fooBarBaz".to_vec());
    assert_eq!(json_camel_case(b"foo__bar"), b"fooBar".to_vec());
    assert_eq!(json_camel_case(b"_1x"), b"1x".to_vec());
    assert_eq!(json_snake_case(b"fooBarBaz"), b"foo_bar_baz".to_vec());
    assert_eq!(json_snake_case(b"Foo"), b"_foo".to_vec());
    assert_eq!(json_snake_case("\u{e9}".as_bytes()), "\u{c3}\u{a9}".as_bytes().to_vec());
}

#[test]
fn full_names_are_dotted_identifiers() {
    assert!(is_valid_full_name(b"google.protobuf.Duration"));
    assert!(is_valid_full_name(b"_a1._b"));
    assert!(!is_valid_full_name(b""));
    assert!(!is_valid_full_name(b"a..b"));
    assert!(!is_valid_full_name(b"a."));
    assert!(!is_valid_full_name(b"1a"));
    assert!(!is_valid_full_name(b"a-b"));
}

#[test]
fn white_space_is_trimmed_like_go() {
    assert_eq!(go_trim_space(" \t x y \u{a0}\u{3000}".as_bytes()), b"x y".to_vec());
    assert_eq!(go_trim_space(b"   "), Vec::<u8>::new());
}

#[test]
fn strings_are_written_like_json_marshal() {
    let mut out = Vec::new();
    append_encoding_json_string(&mut out, "a\"<\u{2028}\u{1}\u{e9}\n");
    assert_eq!(out, b"\"a\\\"\\u003c\\u2028\\u0001\xc3\xa9\\n\"".to_vec());
}

#[test]
fn invalid_bytes_become_one_replacement_each() {
    let mut out = Vec::new();
    push_lossy(&mut out, b"a\xe2\x82A\xff");
    assert_eq!(out, "a\u{fffd}\u{fffd}A\u{fffd}".as_bytes().to_vec());
}
