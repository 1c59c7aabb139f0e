use abada::request::binding::{EnumShape, FieldKind, FieldShape, MessageShape, ScalarKind, Schema};
use abada::request::field_mask::{field_mask_from_body, field_mask_paths};
use abada::request::json::{first_value, parse, FirstValue};

fn field(name: &str, json: &str, kind: FieldKind) -> FieldShape {
    FieldShape {
        name: name.as_bytes().to_vec(),
        json_name: json.as_bytes().to_vec(),
        number: 1,
        kind,
        is_list: false,
        is_map: false,
        synthetic_oneof: false,
        oneof: None,
    }
}

fn message(name: &str, full: &str, fields: Vec<FieldShape>) -> MessageShape {
    MessageShape {
        name: name.as_bytes().to_vec(),
        full_name: full.as_bytes().to_vec(),
        proto2: false,
        fields,
        oneofs: vec![],
    }
}

/// 0: Book { title, author: Author, tags (repeated), labels (map), extra: Struct, detail: Any, state }
/// 1: Author { display_name, born: Date }
/// 2: google.protobuf.Struct
/// 3: google.protobuf.Any
/// 4: Date { year }
/// 5: Book.LabelsEntry { key, value }
fn schema() -> Schema {
    let mut tags = field("tags", "tags", FieldKind::Scalar(ScalarKind::String));
    tags.is_list = true;
    let mut labels = field("labels", "labels", FieldKind::Message(5));
    labels.is_map = true;
    Schema {
        messages: vec![
            message(
                "Book",
                "lib.v1.Book",
                vec![
                    field("title", "title", FieldKind::Scalar(ScalarKind::String)),
                    field("author", "author", FieldKind::Message(1)),
                    tags,
                    labels,
                    field("extra", "extra", FieldKind::Message(2)),
                    field("detail", "detail", FieldKind::Message(3)),
                    field("state", "state", FieldKind::Enum(0)),
                ],
            ),
            message(
                "Author",
                "lib.v1.Author",
                vec![field("display_name", "displayName", FieldKind::Scalar(ScalarKind::String)), field("born", "born", FieldKind::Message(4))],
            ),
            message("Struct", "google.protobuf.Struct", vec![]),
            message("Any", "google.protobuf.Any", vec![]),
            message("Date", "lib.v1.Date", vec![field("year", "year", FieldKind::Scalar(ScalarKind::Int32))]),
            message(
                "LabelsEntry",
                "lib.v1.Book.LabelsEntry",
                vec![
                    field("key", "key", FieldKind::Scalar(ScalarKind::String)),
                    field("value", "value", FieldKind::Scalar(ScalarKind::String)),
                ],
            ),
        ],
        enums: vec![EnumShape { values: vec![(b"STATE_UNSPECIFIED".to_vec(), 0), (b"DONE".to_vec(), 1)] }],
    }
}

fn paths(body: &str) -> Result<Vec<String>, String> {
    let raw = match first_value(body.as_bytes()) {
        FirstValue::Value(raw) => raw,
        other => panic!("not a value: {other:?}"),
    };
    let root = parse(raw);
    match field_mask_paths(&root, &schema(), 0) {
        Ok(v) => Ok(v.into_iter().map(|p| String::from_utf8(p).unwrap()).collect()),
        Err(e) => Err(String::from_utf8(e).unwrap()),
    }
}

#[test]
fn the_paths_a_body_sets_are_sorted() {
    let got = paths(r#"{"title":"x","author":{"displayName":"a","born":{"year":1}},"state":"DONE"}"#).unwrap();
    assert_eq!(got, vec!["author.born.year", "author.display_name", "state", "title"]);
}

#[test]
fn lists_and_maps_are_one_path_each() {
    let got = paths(r#"{"tags":["a","b"],"labels":{"k":"v","j":"w"}}"#).unwrap();
    assert_eq!(got, vec!["labels", "tags"]);
}

#[test]
fn a_struct_field_is_walked_by_its_keys() {
    let got = paths(r#"{"extra":{"b":{"c":1,"d":{}},"a":[1]}}"#).unwrap();
    assert_eq!(got, vec!["extra.a", "extra.b.c"]);
    let got = paths(r#"{"extra":5}"#).unwrap();
    assert_eq!(got, vec!["extra"]);
}

#[test]
fn an_any_keeps_its_key_as_written() {
    let got = paths(r#"{"detail":{"@type":"t","x":1}}"#).unwrap();
    assert_eq!(got, vec!["detail"]);
    let err = paths(r#"{"detail":{"x":1}}"#).unwrap_err();
    assert_eq!(err, r#"could not find field @type in "detail" in message "lib.v1.Book""#);
}

#[test]
fn an_empty_object_is_a_path_even_at_the_top() {
    assert_eq!(paths("{}").unwrap(), vec![""]);
    assert_eq!(paths(r#"{"author":{}}"#).unwrap(), vec!["author"]);
    assert_eq!(paths("[1]").unwrap(), Vec::<String>::new());
}

#[test]
fn unknown_fields_and_shapes_are_refused() {
    assert_eq!(paths(r#"{"nope":1}"#).unwrap_err(), r#"could not find field "nope" in "lib.v1.Book""#);
    assert_eq!(paths(r#"{"title":{"a":1}}"#).unwrap_err(), "JSON structure did not match request type");
}

#[test]
fn the_shallower_fault_is_reported_first() {
    // The walk is breadth first: the unknown top-level key is met before
    // the unknown key inside `author`, though it comes later in the text.
    let err = paths(r#"{"author":{"nope":1},"zzz":2}"#).unwrap_err();
    assert_eq!(err, r#"could not find field "zzz" in "lib.v1.Book""#);
}

#[test]
fn a_body_gives_its_paths_after_its_syntax_and_numbers_are_checked() {
    let sc = schema();
    let text = |r: Result<Vec<Vec<u8>>, Vec<u8>>| match r {
        Ok(v) => Ok(v.into_iter().map(|p| String::from_utf8(p).unwrap()).collect::<Vec<_>>()),
        Err(e) => Err(String::from_utf8(e).unwrap()),
    };
    assert_eq!(text(field_mask_from_body(b"  ", &sc, 0, Ok(()))), Ok(vec![]));
    assert_eq!(text(field_mask_from_body(br#" {"title":"x"} tail"#, &sc, 0, Ok(()))), Ok(vec!["title".to_string()]));
    assert_eq!(
        text(field_mask_from_body(br#"{"title":"x""#, &sc, 0, Err(b"not read".to_vec()))),
        Err("unexpected EOF".to_string())
    );
    assert_eq!(
        text(field_mask_from_body(br#"{"title":1e999}"#, &sc, 0, Err(b"too big".to_vec()))),
        Err("too big".to_string())
    );
}
