use abada::path::template::PathTemplate;
use abada::request::binding::{
    split_map_key, BindingError, BindingOptions, BodySelector, EnumShape, FieldKind, FieldShape, MessageShape, ScalarKind, PathConv,
    RequestBinding, Schema,
};

fn field(name: &str, json: &str, kind: FieldKind) -> FieldShape {
    FieldShape {
        name: name.as_bytes().to_vec(),
        json_name: json.as_bytes().to_vec(),
        number: 1,
        kind,
        is_list: false,
        is_map: false,
        synthetic_oneof: false,
        oneof: None,
    }
}

fn message(name: &str, full: &str, fields: Vec<FieldShape>) -> MessageShape {
    MessageShape {
        name: name.as_bytes().to_vec(),
        full_name: full.as_bytes().to_vec(),
        proto2: false,
        fields,
        oneofs: vec![],
    }
}

/// 0: UpdateBookRequest { name, book: Book, update_mask: FieldMask, page_size, opt (optional) }
/// 1: Book { title, author: Author, state: enum }
/// 2: Author { display_name }
/// 3: google.protobuf.FieldMask { paths }
/// 4: google.protobuf.Timestamp
fn schema() -> Schema {
    let mut opt = field("opt", "opt", FieldKind::Scalar(ScalarKind::String));
    opt.synthetic_oneof = true;
    Schema {
        messages: vec![
            message(
                "UpdateBookRequest",
                "lib.v1.UpdateBookRequest",
                vec![
                    field("name", "name", FieldKind::Scalar(ScalarKind::String)),
                    field("book", "book", FieldKind::Message(1)),
                    field("update_mask", "updateMask", FieldKind::Message(3)),
                    field("page_size", "pageSize", FieldKind::Scalar(ScalarKind::Int32)),
                    opt,
                ],
            ),
            message(
                "Book",
                "lib.v1.Book",
                vec![
                    field("title", "title", FieldKind::Scalar(ScalarKind::String)),
                    field("author", "author", FieldKind::Message(2)),
                    field("state", "state", FieldKind::Enum(0)),
                ],
            ),
            message("Author", "lib.v1.Author", vec![field("display_name", "displayName", FieldKind::Scalar(ScalarKind::String))]),
            message("FieldMask", "google.protobuf.FieldMask", vec![field("paths", "paths", FieldKind::Scalar(ScalarKind::String))]),
            message("Timestamp", "google.protobuf.Timestamp", vec![]),
        ],
        enums: vec![EnumShape { values: vec![(b"STATE_UNSPECIFIED".to_vec(), 0), (b"DONE".to_vec(), 1)] }],
    }
}

fn bind(method: &str, template: &str, body: &str, response: &str) -> Result<RequestBinding, BindingError> {
    let t = PathTemplate::parse(template).unwrap();
    RequestBinding::new(&schema(), 0, 1, method, &t, body, response, &BindingOptions::default())
}

#[test]
fn a_patch_with_a_body_field_computes_the_mask() {
    let b = bind("PATCH", "/v1/{name=books/*}/{book.author.display_name}", "book", "author").unwrap();
    assert_eq!(b.body(), BodySelector::Field(1));
    assert_eq!(b.patch_field_mask(), Some(2));
    assert!(b.reads_query());
    assert_eq!(b.response_body(), &[(1, 1)]);
    let ps = b.path_fields();
    assert_eq!(ps.len(), 2);
    assert_eq!(ps[0].conv, PathConv::Top { repeated: false });
    assert_eq!(ps[1].fields, vec![(0, 1), (1, 1), (2, 0)]);
    assert_eq!(ps[1].conv, PathConv::Nested { reparse_enum: false });
}

#[test]
fn query_keys_under_the_body_or_a_path_variable_are_ignored() {
    let b = bind("PATCH", "/v1/{name=books/*}", "book", "").unwrap();
    let s = schema();
    assert_eq!(b.query_field(&s, b"book.title", &[b"x".to_vec()]), None);
    assert_eq!(b.query_field(&s, b"name", &[b"x".to_vec()]), None);
    assert_eq!(
        b.query_field(&s, b"pageSize", &[b"3".to_vec()]),
        Some((vec![b"page_size".to_vec()], vec![b"3".to_vec()]))
    );
    assert_eq!(
        b.query_field(&s, b"labels[k]", &[b"v".to_vec()]),
        Some((vec![b"labels".to_vec()], vec![b"k".to_vec(), b"v".to_vec()]))
    );
    let whole = bind("POST", "/v1/books", "*", "").unwrap();
    assert!(!whole.reads_query());
    assert_eq!(whole.query_field(&s, b"page_size", &[]), None);
}

#[test]
fn refusals_name_the_path() {
    assert_eq!(
        bind("GET", "/v1/{nope}", "", "").unwrap_err(),
        BindingError::NoField { path: b"nope".to_vec(), message: b"UpdateBookRequest".to_vec() }
    );
    assert_eq!(
        bind("GET", "/v1/{name.x}", "", "").unwrap_err(),
        BindingError::NotAggregate { field: b"name".to_vec(), path: b"name.x".to_vec() }
    );
    assert_eq!(
        bind("GET", "/v1/{opt}", "", "").unwrap_err(),
        BindingError::OptionalInPath { field: b"opt".to_vec(), path: b"opt".to_vec() }
    );
    assert_eq!(
        bind("GET", "/v1/{book}", "", "").unwrap_err(),
        BindingError::MessageInPath { path: b"book".to_vec() }
    );
    assert_eq!(
        bind("POST", "/v1/x", "book.title", "").unwrap_err(),
        BindingError::NestedBodyField { path: b"book.title".to_vec() }
    );
    assert_eq!(
        bind("PATCH", "/v1/x", "page_size", "").unwrap_err(),
        BindingError::UnsupportedPatchBody { path: b"page_size".to_vec() }
    );
    let mut s = schema();
    s.messages[0].proto2 = true;
    let t = PathTemplate::parse("/v1/x").unwrap();
    assert_eq!(
        RequestBinding::new(&s, 0, 1, "GET", &t, "", "", &BindingOptions::default()).unwrap_err(),
        BindingError::Proto2 { message: b"lib.v1.UpdateBookRequest".to_vec() }
    );
}

#[test]
fn map_keys_come_out_of_brackets() {
    assert_eq!(split_map_key(b"a[b][c]"), Some((&b"a[b]"[..], &b"c"[..])));
    assert_eq!(split_map_key(b"a[b"), None);
    assert_eq!(split_map_key(b"a\n[b]"), None);
    assert_eq!(split_map_key(b"ab]"), None);
    assert!(BindingOptions::default().allow_patch_feature);
    assert_eq!(BindingOptions::default().repeated_path_param_separator, b',');
}
