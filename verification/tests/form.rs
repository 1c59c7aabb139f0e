use abada::request::form::{parse_form, parse_media_type, parse_query, query_unescape, Form};

fn text(b: Vec<u8>) -> String {
    String::from_utf8(b).unwrap()
}

#[test]
fn media_types_like_go() {
    assert_eq!(parse_media_type(b";").1.map(|e| e.text()), Some("mime: no media type"));
    assert_eq!(parse_media_type(b"text").1.map(|e| e.text()), None);
    let (media, err) = parse_media_type(b"application/x-www-form-urlencoded; x");
    assert_eq!(
        (media, err.map(|e| e.text())),
        (
            b"application/x-www-form-urlencoded".to_vec(),
            Some("mime: invalid media parameter")
        )
    );
    assert_eq!(
        parse_media_type(b"text/plain; a=1; a=2").1.map(|e| e.text()),
        Some("mime: duplicate parameter name")
    );
    assert_eq!(parse_media_type(b"text/plain;").1.map(|e| e.text()), None);
}

#[test]
fn query_like_go() {
    let (form, err) = parse_query(b"a=1&a=2;&b=%zz&c=x+y");
    assert_eq!(err.map(text).as_deref(), Some("invalid semicolon separator in query"));
    assert_eq!(form.get(b"a"), Some([b"1".to_vec()].as_slice()));
    assert_eq!(form.get(b"c"), Some([b"x y".to_vec()].as_slice()));
}

#[test]
fn a_bad_escape_is_reported_with_its_bytes() {
    assert_eq!(query_unescape(b"a%41b+c"), Ok(b"aAb c".to_vec()));
    assert_eq!(text(query_unescape(b"x%z").unwrap_err()), r#"invalid URL escape "%z""#);
    let (form, err) = parse_query(b"a=%zz&b=2");
    assert_eq!(err.map(text).as_deref(), Some(r#"invalid URL escape "%zz""#));
    assert_eq!(form.get(b"a"), None);
    assert_eq!(form.get(b"b"), Some([b"2".to_vec()].as_slice()));
}

#[test]
fn media_types_are_lowered_and_trimmed() {
    assert_eq!(parse_media_type(b" Text/HTML ; charset=utf-8").0, b"text/html".to_vec());
    assert_eq!(parse_media_type(b"text/").1.map(|e| e.text()), Some("mime: expected token after slash"));
    assert_eq!(parse_media_type(b"text plain").1.map(|e| e.text()), Some("mime: expected slash after first token"));
    assert_eq!(parse_media_type(b"text/plain x").1.map(|e| e.text()), Some("mime: unexpected content after media subtype"));
    assert_eq!(parse_media_type(b"text/plain; a=\"q\\\"v\"").1, None);
}

#[test]
fn a_form_post_reads_the_body_before_the_query() {
    let (form, err) = parse_form(
        "POST",
        Some(b"application/x-www-form-urlencoded"),
        b"a=q",
        b"a=b&c=d",
    );
    assert_eq!(err, None);
    assert_eq!(form.get(b"a"), Some([b"b".to_vec(), b"q".to_vec()].as_slice()));
    assert_eq!(form.get(b"c"), Some([b"d".to_vec()].as_slice()));
    let (get_form, _) = parse_form("GET", None, b"x=1", b"a=b");
    assert_eq!(get_form.get(b"a"), None);
    assert!(!get_form.is_empty());
}

#[test]
fn a_form_keeps_keys_in_first_seen_order() {
    let mut form = Form::new();
    assert!(form.is_empty());
    form.add(b"k".to_vec(), b"1".to_vec());
    form.add(b"j".to_vec(), b"2".to_vec());
    form.add(b"k".to_vec(), b"3".to_vec());
    let keys: Vec<Vec<u8>> = form.entries().iter().map(|(k, _)| k.clone()).collect();
    assert_eq!(keys, vec![b"k".to_vec(), b"j".to_vec()]);
    assert_eq!(form.get(b"k"), Some([b"1".to_vec(), b"3".to_vec()].as_slice()));
}
