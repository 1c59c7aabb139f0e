use abada::request::json::{first_value, parse, FirstValue, Json};

#[test]
fn the_first_value_is_all_that_is_read() {
    assert_eq!(first_value(b" \n"), FirstValue::Eof);
    assert_eq!(first_value(b"{} x"), FirstValue::Value(b"{}"));
    assert_eq!(first_value(b"123abc"), FirstValue::Value(b"123"));
    assert_eq!(first_value(b"01"), FirstValue::Value(b"0"));
    assert_eq!(first_value(b"{"), FirstValue::Error(b"unexpected EOF".to_vec()));
    assert_eq!(
        first_value(b"f_int32=5"),
        FirstValue::Error(b"invalid character '_' in literal false (expecting 'a')".to_vec())
    );
    assert_eq!(
        first_value(b"x"),
        FirstValue::Error(b"invalid character 'x' looking for beginning of value".to_vec())
    );
}

#[test]
fn repeated_keys_keep_the_last_value() {
    let input = br#"{"a":1,"b":"\ud83d\ude00","a":null}"#;
    let Json::Object(members) = parse(input).json else {
        panic!("an object");
    };
    assert_eq!(members.len(), 2);
    assert_eq!(members[0].0, b"a".to_vec());
    assert_eq!(members[0].1.json, Json::Null);
    assert_eq!(&input[members[0].1.start..members[0].1.end], b"null");
    assert_eq!(members[1].1.json, Json::String("\u{1f600}".as_bytes().to_vec()));
}

#[test]
fn scan_errors_name_the_byte_and_the_place() {
    assert_eq!(
        first_value(b"[1 2]"),
        FirstValue::Error(b"invalid character '2' after array element".to_vec())
    );
    assert_eq!(
        first_value(b"{\"a\" 1}"),
        FirstValue::Error(b"invalid character '1' after object key".to_vec())
    );
    assert_eq!(
        first_value(b"{1:2}"),
        FirstValue::Error(b"invalid character '1' looking for beginning of object key string".to_vec())
    );
    assert_eq!(
        first_value(b"{\"a\":1 2}"),
        FirstValue::Error(b"invalid character '2' after object key:value pair".to_vec())
    );
    assert_eq!(
        first_value(b"\"\\x\""),
        FirstValue::Error(b"invalid character 'x' in string escape code".to_vec())
    );
    assert_eq!(
        first_value(b"\"\\u12g4\""),
        FirstValue::Error(b"invalid character 'g' in \\u hexadecimal character escape".to_vec())
    );
    assert_eq!(
        first_value(b"\"a\nb\""),
        FirstValue::Error(b"invalid character '\\n' in string literal".to_vec())
    );
    assert_eq!(
        first_value(b"-x"),
        FirstValue::Error(b"invalid character 'x' in numeric literal".to_vec())
    );
    assert_eq!(
        first_value(b"1.e5"),
        FirstValue::Error(b"invalid character 'e' after decimal point in numeric literal".to_vec())
    );
    assert_eq!(
        first_value(b"1e+x"),
        FirstValue::Error(b"invalid character 'x' in exponent of numeric literal".to_vec())
    );
    assert_eq!(
        first_value(b"nul'"),
        FirstValue::Error(b"invalid character '\\'' in literal null (expecting 'l')".to_vec())
    );
    assert_eq!(first_value(b"[1,"), FirstValue::Error(b"unexpected EOF".to_vec()));
    assert_eq!(first_value(b"  -1.5e+3 ]"), FirstValue::Value(b"-1.5e+3"));
}

#[test]
fn values_decode_like_encoding_json() {
    let input = b" [true, false, null, -12.5e1, \"a\\tb\\u00e9\\ud800x\", {}, [ ]] ";
    let node = parse(&input[1..input.len() - 1]);
    assert_eq!(node.start, 0);
    assert_eq!(node.end, input.len() - 2);
    let Json::Array(items) = node.json else {
        panic!("an array");
    };
    assert_eq!(items.len(), 7);
    assert_eq!(items[0].json, Json::Bool(true));
    assert_eq!(items[1].json, Json::Bool(false));
    assert_eq!(items[2].json, Json::Null);
    assert_eq!(items[3].json, Json::Number(b"-12.5e1".to_vec()));
    assert_eq!(items[4].json, Json::String("a\tb\u{e9}\u{fffd}x".as_bytes().to_vec()));
    assert_eq!(items[5].json, Json::Object(Vec::new()));
    assert_eq!(items[6].json, Json::Array(Vec::new()));
}

#[test]
fn invalid_utf8_in_a_string_becomes_the_replacement_rune() {
    let node = parse(b"\"a\xffb\"");
    assert_eq!(node.json, Json::String("a\u{fffd}b".as_bytes().to_vec()));
}
