use abada::json::token::{parse_number, plain_integer, Decoder, Kind};
use abada::json::JsonErrorKind;

fn kinds(input: &[u8]) -> Vec<Kind> {
    let mut d = Decoder::new(input);
    let mut out = Vec::new();
    loop {
        let t = d.read().expect("a token");
        out.push(t.kind);
        if t.kind == Kind::Eof {
            return out;
        }
    }
}

fn error_text(input: &[u8]) -> (JsonErrorKind, String) {
    let mut d = Decoder::new(input);
    loop {
        match d.read() {
            Ok(t) if t.kind == Kind::Eof => panic!("no error"),
            Ok(_) => {}
            Err(e) => return (e.kind(), String::from_utf8(e.message().to_vec()).unwrap()),
        }
    }
}

#[test]
fn tokens_come_in_order_without_commas() {
    assert_eq!(
        kinds(b" {\"a\": [1, true, null, \"x\"], \"b\": {}} "),
        vec![
            Kind::ObjectOpen,
            Kind::Name,
            Kind::ArrayOpen,
            Kind::Number,
            Kind::Bool,
            Kind::Null,
            Kind::String,
            Kind::ArrayClose,
            Kind::Name,
            Kind::ObjectOpen,
            Kind::ObjectClose,
            Kind::ObjectClose,
            Kind::Eof,
        ]
    );
}

#[test]
fn peeking_does_not_move() {
    let mut d = Decoder::new(b"[false]");
    assert_eq!(d.peek_kind().unwrap(), Kind::ArrayOpen);
    assert_eq!(d.peek().unwrap().kind, Kind::ArrayOpen);
    assert_eq!(d.read().unwrap().kind, Kind::ArrayOpen);
    let t = d.read().unwrap();
    assert_eq!(t.kind, Kind::Bool);
    assert!(!t.boolean);
    assert_eq!(t.pos, 1);
    assert_eq!(t.raw, b"false");
}

#[test]
fn strings_are_unescaped() {
    let mut d = Decoder::new(br#""a\n\u00e9\ud83d\ude00\/""#);
    let t = d.read().unwrap();
    assert_eq!(t.kind, Kind::String);
    assert_eq!(t.text, "a\n\u{e9}\u{1f600}/".as_bytes());
    assert_eq!(t.raw.len(), 25);
}

#[test]
fn syntax_errors_name_the_offset() {
    assert_eq!(
        error_text(b"[1 2]"),
        (JsonErrorKind::Syntax, "syntax error (offset 3): unexpected token 2".to_string())
    );
    assert_eq!(
        error_text(b"{\"a\" 1}"),
        (
            JsonErrorKind::Syntax,
            "syntax error (offset 5): unexpected character 1, missing \":\" after field name".to_string()
        )
    );
    assert_eq!(error_text(b"[1,"), (JsonErrorKind::UnexpectedEof, "unexpected EOF".to_string()));
    assert_eq!(
        error_text(b"nul"),
        (JsonErrorKind::Syntax, "syntax error (offset 0): invalid value".to_string())
    );
    assert_eq!(
        error_text(b"\"\\ud800\\u0041\""),
        (JsonErrorKind::Syntax, "syntax error (offset 0): invalid escape code in string".to_string())
    );
    assert_eq!(
        error_text(b"\"a\xff\""),
        (JsonErrorKind::Syntax, "syntax error (offset 0): invalid UTF-8 in string".to_string())
    );
    assert_eq!(
        error_text(b"[1,]"),
        (JsonErrorKind::Syntax, "syntax error (offset 3): unexpected token ]".to_string())
    );
}

#[test]
fn numbers_end_at_a_delimiter() {
    assert_eq!(parse_number(b"-12.5e+3,"), Some(8));
    assert_eq!(parse_number(b"01"), None);
    assert_eq!(parse_number(b"1x"), None);
    assert_eq!(parse_number(b"1e+ "), Some(3));
    assert_eq!(parse_number(b"-"), None);
    assert_eq!(kinds(b"1e+ "), vec![Kind::Number, Kind::Eof]);
    let mut strict = Decoder::new_strict(b"1e+ ");
    assert_eq!(strict.read().unwrap_err().kind(), JsonErrorKind::Syntax);
}

#[test]
fn integers_read_through_e_notation() {
    let mut d = Decoder::new(b"[1.5e1, 100e-2, -0, 1.5, 123456789012345678901, 7]");
    d.read().unwrap();
    let want: Vec<Option<i64>> = vec![Some(15), Some(1), Some(0), None, None, Some(7)];
    for w in want {
        let t = d.read().unwrap();
        assert_eq!(t.int_value(64), w);
    }
    assert!(plain_integer(b"-12"));
    assert!(!plain_integer(b"-0"));
    assert!(!plain_integer(b"012"));
    let mut u = Decoder::new(b"-1");
    assert_eq!(u.read().unwrap().uint(64), None);
    let mut u = Decoder::new(b"2e3");
    assert_eq!(u.read().unwrap().uint(32), Some(2000));
}
