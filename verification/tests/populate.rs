use abada::path::pattern::{Pattern, UnescapingMode};
use abada::path::router::{RequestPath, RouteOutcome, Router};
use abada::request::mux::raw_query;
use abada::request::form::parse_query;
use abada::path::template::PathTemplate;
use abada::request::binding::{BindingOptions, EnumShape, FieldKind, FieldShape, MessageShape, RequestBinding, ScalarKind, Schema};
use abada::request::path_params::path_field_fits;
use abada::request::convert::{parse_field, runtime_convert, runtime_enum, Converted};
use abada::request::populate::{
    populate_field_value_from_path, resolve_path, Elem, FieldValue, MessageValue, OutsideReads, Scalar,
};
use abada::request::ErrorOrigin;

fn field(name: &str, number: u32, kind: FieldKind) -> FieldShape {
    FieldShape {
        name: name.as_bytes().to_vec(),
        json_name: name.as_bytes().to_vec(),
        number,
        kind,
        is_list: false,
        is_map: false,
        synthetic_oneof: false,
        oneof: None,
    }
}

fn message(name: &str, full: &str, fields: Vec<FieldShape>, oneofs: Vec<&str>) -> MessageShape {
    MessageShape {
        name: name.as_bytes().to_vec(),
        full_name: full.as_bytes().to_vec(),
        proto2: false,
        fields,
        oneofs: oneofs.into_iter().map(|o| o.as_bytes().to_vec()).collect(),
    }
}

const REQ: usize = 0;

/// 0: Req { name, count: int32, tags: repeated int32, labels: map<string,int32>,
///          book: Book, state: State, when: Timestamp, size: Int32Value,
///          a (oneof choice), b: Book (oneof choice), ratio: float, extra: Struct }
/// 1: Book { title, inner: Book, state: State }
/// 2: Req.LabelsEntry { key, value: int32 }
/// 3: google.protobuf.Timestamp { seconds: int64, nanos: int32 }
/// 4: google.protobuf.Int32Value { value: int32 }
/// 5: google.protobuf.Struct
fn schema() -> Schema {
    let mut tags = field("tags", 3, FieldKind::Scalar(ScalarKind::Int32));
    tags.is_list = true;
    let mut labels = field("labels", 4, FieldKind::Message(2));
    labels.is_map = true;
    let mut a = field("a", 9, FieldKind::Scalar(ScalarKind::String));
    a.oneof = Some(0);
    let mut b = field("b", 10, FieldKind::Message(1));
    b.oneof = Some(0);
    Schema {
        messages: vec![
            message(
                "Req",
                "lib.v1.Req",
                vec![
                    field("name", 1, FieldKind::Scalar(ScalarKind::String)),
                    field("count", 2, FieldKind::Scalar(ScalarKind::Int32)),
                    tags,
                    labels,
                    field("book", 5, FieldKind::Message(1)),
                    field("state", 6, FieldKind::Enum(0)),
                    field("when", 7, FieldKind::Message(3)),
                    field("size", 8, FieldKind::Message(4)),
                    a,
                    b,
                    field("ratio", 11, FieldKind::Scalar(ScalarKind::Float)),
                    field("extra", 12, FieldKind::Message(5)),
                ],
                vec!["choice"],
            ),
            message(
                "Book",
                "lib.v1.Book",
                vec![
                    field("title", 1, FieldKind::Scalar(ScalarKind::String)),
                    field("inner", 2, FieldKind::Message(1)),
                    field("state", 3, FieldKind::Enum(0)),
                ],
                vec![],
            ),
            message(
                "LabelsEntry",
                "lib.v1.Req.LabelsEntry",
                vec![
                    field("key", 1, FieldKind::Scalar(ScalarKind::String)),
                    field("value", 2, FieldKind::Scalar(ScalarKind::Int32)),
                ],
                vec![],
            ),
            message(
                "Timestamp",
                "google.protobuf.Timestamp",
                vec![
                    field("seconds", 1, FieldKind::Scalar(ScalarKind::Int64)),
                    field("nanos", 2, FieldKind::Scalar(ScalarKind::Int32)),
                ],
                vec![],
            ),
            message("Int32Value", "google.protobuf.Int32Value", vec![field("value", 1, FieldKind::Scalar(ScalarKind::Int32))], vec![]),
            message("Struct", "google.protobuf.Struct", vec![], vec![]),
        ],
        enums: vec![EnumShape { values: vec![(b"STATE_UNSPECIFIED".to_vec(), 0), (b"DONE".to_vec(), 2)] }],
    }
}

fn reads_for(values: &[&str]) -> Vec<OutsideReads> {
    values
        .iter()
        .map(|_| OutsideReads {
            float32: Ok(0x3fc0_0000),
            float64: Err(b"not read".to_vec()),
            duration: Err(b"not read".to_vec()),
            as_struct: None,
            as_value: None,
        })
        .collect()
}

fn bytes(v: &[&str]) -> Vec<Vec<u8>> {
    v.iter().map(|s| s.as_bytes().to_vec()).collect()
}

fn set(mv: &mut MessageValue, path: &str, values: &[&str]) -> Result<(), (String, ErrorOrigin)> {
    let path: Vec<Vec<u8>> = path.split('.').map(|p| p.as_bytes().to_vec()).collect();
    populate_field_value_from_path(&schema(), mv, &path, &bytes(values), &reads_for(values))
        .map_err(|e| (String::from_utf8(e.message).unwrap(), e.origin))
}

fn root() -> MessageValue {
    MessageValue { msg: REQ, fields: vec![] }
}

fn text(s: &str) -> Elem {
    Elem::Scalar(Scalar::String(s.as_bytes().to_vec()))
}

#[test]
fn a_scalar_is_set_and_replaced() {
    let mut mv = root();
    set(&mut mv, "name", &["x"]).unwrap();
    set(&mut mv, "count", &["7"]).unwrap();
    set(&mut mv, "name", &["y"]).unwrap();
    assert_eq!(
        mv.fields,
        vec![(0, FieldValue::Single(text("y"))), (1, FieldValue::Single(Elem::Scalar(Scalar::I32(7))))]
    );
}

#[test]
fn nested_messages_are_created_on_the_way() {
    let mut mv = root();
    set(&mut mv, "book.inner.title", &["t"]).unwrap();
    let inner = MessageValue { msg: 1, fields: vec![(0, FieldValue::Single(text("t")))] };
    let book = MessageValue { msg: 1, fields: vec![(1, FieldValue::Single(Elem::Message(inner)))] };
    assert_eq!(mv.fields, vec![(4, FieldValue::Single(Elem::Message(book)))]);
}

#[test]
fn an_unknown_name_ends_the_walk_quietly() {
    let mut mv = root();
    set(&mut mv, "nope", &["1"]).unwrap();
    assert!(mv.fields.is_empty());
    set(&mut mv, "book.nope", &["1"]).unwrap();
    assert_eq!(mv.fields, vec![(4, FieldValue::Single(Elem::Message(MessageValue { msg: 1, fields: vec![] })))]);
}

#[test]
fn lists_grow_and_maps_gather_entries() {
    let mut mv = root();
    set(&mut mv, "tags", &["1", "2"]).unwrap();
    set(&mut mv, "tags", &["3"]).unwrap();
    set(&mut mv, "labels", &["k", "5"]).unwrap();
    let items: Vec<Elem> = [1, 2, 3].iter().map(|n| Elem::Scalar(Scalar::I32(*n))).collect();
    assert_eq!(
        mv.fields,
        vec![
            (2, FieldValue::List(items)),
            (3, FieldValue::MapEntries(vec![(Scalar::String(b"k".to_vec()), Elem::Scalar(Scalar::I32(5)))])),
        ]
    );
}

#[test]
fn well_known_types_become_their_messages() {
    let mut mv = root();
    set(&mut mv, "when", &["1970-01-01T00:00:01.5Z"]).unwrap();
    set(&mut mv, "size", &["12"]).unwrap();
    set(&mut mv, "state", &["DONE"]).unwrap();
    set(&mut mv, "ratio", &["1.5"]).unwrap();
    let ts = MessageValue {
        msg: 3,
        fields: vec![
            (0, FieldValue::Single(Elem::Scalar(Scalar::I64(1)))),
            (1, FieldValue::Single(Elem::Scalar(Scalar::I32(500_000_000)))),
        ],
    };
    let size = MessageValue { msg: 4, fields: vec![(0, FieldValue::Single(Elem::Scalar(Scalar::I32(12))))] };
    assert_eq!(
        mv.fields,
        vec![
            (6, FieldValue::Single(Elem::Message(ts))),
            (7, FieldValue::Single(Elem::Message(size))),
            (5, FieldValue::Single(Elem::Scalar(Scalar::Enum(2)))),
            (10, FieldValue::Single(Elem::Scalar(Scalar::F32(0x3fc0_0000)))),
        ]
    );
}

#[test]
fn errors_name_the_field_like_grpc_gateway() {
    let mut mv = root();
    let gw = |s: &str| Err((s.to_string(), ErrorOrigin::Gateway));
    assert_eq!(set(&mut mv, "name", &["a", "b"]), gw("too many values for field \"name\": a, b"));
    assert_eq!(
        set(&mut mv, "labels", &["k"]),
        gw("more than one value provided for key \"k\" in map \"lib.v1.Req.labels\"")
    );
    assert_eq!(set(&mut mv, "name.x", &["1"]), gw("invalid path: \"name\" is not a message"));
    assert_eq!(
        set(&mut mv, "count", &["x"]),
        gw("parsing field \"count\": strconv.ParseInt: parsing \"x\": invalid syntax")
    );
    assert_eq!(
        set(&mut mv, "tags", &["1", "y"]),
        gw("parsing list \"tags\": strconv.ParseInt: parsing \"y\": invalid syntax")
    );
    assert_eq!(set(&mut mv, "state", &["7"]), gw("parsing field \"state\": \"7\" is not a valid value"));
    assert_eq!(set(&mut mv, "", &[]), gw("no value provided"));
    assert!(mv.fields.is_empty());
}

#[test]
fn a_oneof_takes_one_member() {
    let mut mv = root();
    set(&mut mv, "a", &["x"]).unwrap();
    assert_eq!(set(&mut mv, "b.title", &["t"]), Err(("field already set for oneof \"choice\"".to_string(), ErrorOrigin::Gateway)));
    let mut mv = root();
    set(&mut mv, "b.title", &["t"]).unwrap();
    set(&mut mv, "b.inner.title", &["u"]).unwrap();
    assert_eq!(set(&mut mv, "a", &["x"]), Err(("field already set for oneof \"choice\"".to_string(), ErrorOrigin::Gateway)));
}

#[test]
fn a_struct_is_kept_as_text_once_the_codec_accepts_it() {
    let mut mv = root();
    set(&mut mv, "extra", &["{\"a\":1}"]).unwrap();
    assert_eq!(mv.fields, vec![(11, FieldValue::Single(Elem::Json(b"{\"a\":1}".to_vec())))]);
    let path = vec![b"extra".to_vec()];
    let values = bytes(&["nope"]);
    let mut reads = reads_for(&["nope"]);
    reads[0].as_struct = Some(b"proto: syntax error".to_vec());
    let err = populate_field_value_from_path(&schema(), &mut root(), &path, &values, &reads).unwrap_err();
    assert_eq!(String::from_utf8(err.message).unwrap(), "parsing field \"extra\": proto: syntax error");
    assert_eq!(err.origin, ErrorOrigin::Decoder);
}

#[test]
fn the_walk_past_the_depth_limit_is_refused() {
    let mut path = vec![b"book".to_vec()];
    for _ in 0..99 {
        path.push(b"inner".to_vec());
    }
    path.push(b"title".to_vec());
    let err = resolve_path(&schema(), &root(), &path, &bytes(&["x"])).unwrap_err();
    assert_eq!(String::from_utf8(err).unwrap(), "exceeded max recursion depth");
    let ok = resolve_path(&schema(), &root(), &path[..98].to_vec(), &bytes(&["x"])).unwrap();
    assert_eq!(ok.chain.len(), 97);
}

#[test]
fn converters_follow_the_generated_code() {
    let sc = schema();
    let int32 = FieldKind::Scalar(ScalarKind::Int32);
    assert_eq!(runtime_convert(&sc, int32, b"0x10"), Ok(Converted::I32(16)));
    assert_eq!(
        parse_field(&sc, int32, b"0x10"),
        Err(b"strconv.ParseInt: parsing \"0x10\": invalid syntax".to_vec())
    );
    assert_eq!(runtime_enum(&sc.enums[0], b"DONE"), Ok(2));
    assert_eq!(runtime_enum(&sc.enums[0], b"0x2"), Ok(2));
    assert_eq!(runtime_enum(&sc.enums[0], b"3"), Err(b"3 is not valid".to_vec()));
    assert_eq!(
        parse_field(&sc, FieldKind::Scalar(ScalarKind::Bool), b"yes"),
        Err(b"strconv.ParseBool: parsing \"yes\": invalid syntax".to_vec())
    );
    assert_eq!(
        parse_field(&sc, FieldKind::Scalar(ScalarKind::Bytes), b"aGk="),
        Ok(Converted::Bytes(b"hi".to_vec()))
    );
    assert_eq!(
        parse_field(&sc, FieldKind::Message(4), b"5"),
        Ok(Converted::Wrapper(Box::new(Converted::I32(5))))
    );
    assert_eq!(
        parse_field(&sc, FieldKind::Message(1), b"5"),
        Err(b"unsupported message type: \"lib.v1.Book\"".to_vec())
    );
}

fn bind(template: &str) -> RequestBinding {
    let t = PathTemplate::parse(template).unwrap();
    RequestBinding::new(&schema(), REQ, 1, "GET", &t, "", "", &BindingOptions::default()).unwrap()
}

fn set_path(mv: &mut MessageValue, template: &str, val: &str) -> Result<(), (String, ErrorOrigin)> {
    let b = bind(template);
    let sc = schema();
    let p = &b.path_fields()[0];
    assert!(path_field_fits(&sc, mv.msg, p));
    let texts = b.path_texts(p, val.as_bytes());
    let reads: Vec<OutsideReads> = texts
        .iter()
        .map(|_| OutsideReads {
            float32: Err(b"not read".to_vec()),
            float64: Err(b"not read".to_vec()),
            duration: Err(b"not read".to_vec()),
            as_struct: None,
            as_value: None,
        })
        .collect();
    b.populate_path(&sc, mv, p, val.as_bytes(), &reads)
        .map_err(|e| (String::from_utf8(e.message().to_vec()).unwrap(), e.origin()))
}

#[test]
fn a_top_level_path_variable_uses_its_converter() {
    let mut mv = root();
    set_path(&mut mv, "/v1/{count}", "0x10").unwrap();
    set_path(&mut mv, "/v1/{tags}", "1,2,3").unwrap();
    set_path(&mut mv, "/v1/{tags}", "4").unwrap();
    assert_eq!(
        mv.fields,
        vec![
            (1, FieldValue::Single(Elem::Scalar(Scalar::I32(16)))),
            (2, FieldValue::List(vec![Elem::Scalar(Scalar::I32(4))])),
        ]
    );
    assert_eq!(
        set_path(&mut mv, "/v1/{count}", "x"),
        Err((
            "type mismatch, parameter: count, error: strconv.ParseInt: parsing \"x\": invalid syntax".to_string(),
            ErrorOrigin::Gateway
        ))
    );
}

#[test]
fn a_nested_path_variable_goes_through_the_field_path() {
    let mut mv = root();
    set_path(&mut mv, "/v1/{book.title}", "t").unwrap();
    set_path(&mut mv, "/v1/{book.state}", "2").unwrap();
    let book = MessageValue {
        msg: 1,
        fields: vec![(0, FieldValue::Single(text("t"))), (2, FieldValue::Single(Elem::Scalar(Scalar::Enum(2))))],
    };
    assert_eq!(mv.fields, vec![(4, FieldValue::Single(Elem::Message(book)))]);
    assert_eq!(
        set_path(&mut mv, "/v1/{book.state}", "0x2"),
        Err((
            "type mismatch, parameter: book.state, error: parsing field \"state\": \"0x2\" is not a valid value"
                .to_string(),
            ErrorOrigin::Gateway
        ))
    );
}

#[test]
fn a_path_variable_in_a_oneof_refuses_a_set_sibling() {
    let mut mv = root();
    set(&mut mv, "b.title", &["t"]).unwrap();
    assert_eq!(
        set_path(&mut mv, "/v1/{a}", "x"),
        Err(("expect type: *Req_a, but: b\n".to_string(), ErrorOrigin::Gateway))
    );
}

fn run_query(template: &str, query: &str) -> (MessageValue, Result<(), String>) {
    let b = bind(template);
    let sc = schema();
    let (form, _) = parse_query(query.as_bytes());
    let reads: Vec<Vec<OutsideReads>> = form
        .entries()
        .iter()
        .map(|(k, vs)| match b.query_field(&sc, k, vs) {
            Some((_, vals)) => reads_for(&vals.iter().map(|_| "").collect::<Vec<_>>()),
            None => Vec::new(),
        })
        .collect();
    let mut mv = root();
    let r = b
        .populate_query(&sc, &mut mv, &form, &reads)
        .map_err(|e| String::from_utf8(e.message().to_vec()).unwrap());
    (mv, r)
}

#[test]
fn query_keys_fill_the_message_in_order() {
    let (mv, r) = run_query("/v1/{name}", "count=3&name=ignored&tags=1&tags=2&book.title=t&zzz=1");
    assert_eq!(r, Ok(()));
    assert_eq!(
        mv.fields,
        vec![
            (1, FieldValue::Single(Elem::Scalar(Scalar::I32(3)))),
            (2, FieldValue::List(vec![Elem::Scalar(Scalar::I32(1)), Elem::Scalar(Scalar::I32(2))])),
            (4, FieldValue::Single(Elem::Message(MessageValue { msg: 1, fields: vec![(0, FieldValue::Single(text("t")))] }))),
        ]
    );
}

#[test]
fn a_bad_query_value_stops_with_earlier_keys_written() {
    let (mv, r) = run_query("/v1/{name}", "count=3&tags=x&book.title=t");
    assert!(r.is_err());
    assert_eq!(mv.fields, vec![(1, FieldValue::Single(Elem::Scalar(Scalar::I32(3))))]);
}

fn after_body(template: &str, target: &str) -> (MessageValue, Result<(), String>) {
    let b = bind(template);
    let sc = schema();
    let mut router = Router::new(UnescapingMode::Legacy);
    router.add("GET", Pattern::new(template).unwrap(), 0usize);
    let req = RequestPath::parse(target).unwrap();
    let params = match router.route("GET", &req) {
        RouteOutcome::Matched { params, .. } => params,
        other => panic!("{other:?}"),
    };
    let query = raw_query(target);
    let path_reads: Vec<Vec<OutsideReads>> = b
        .path_fields()
        .iter()
        .map(|p| match params.get(&p.name) {
            Some(v) => reads_for(&b.path_texts(p, v).iter().map(|_| "").collect::<Vec<_>>()),
            None => Vec::new(),
        })
        .collect();
    let (form, _) = parse_query(query);
    let query_reads: Vec<Vec<OutsideReads>> = form
        .entries()
        .iter()
        .map(|(k, vs)| match b.query_field(&sc, k, vs) {
            Some((_, vals)) => reads_for(&vals.iter().map(|_| "").collect::<Vec<_>>()),
            None => Vec::new(),
        })
        .collect();
    let mut mv = root();
    let r = b
        .decode_after_body(&sc, &mut mv, &params, None, b"GET", None, query, &path_reads, &query_reads)
        .map_err(|e| String::from_utf8(e.message().to_vec()).unwrap());
    (mv, r)
}

#[test]
fn path_variables_then_the_query_fill_the_message() {
    let (mv, r) = after_body("/v1/{name}", "/v1/n1?count=4&name=ignored");
    assert_eq!(r, Ok(()));
    assert_eq!(
        mv.fields,
        vec![(0, FieldValue::Single(text("n1"))), (1, FieldValue::Single(Elem::Scalar(Scalar::I32(4))))]
    );
    let (_, r) = after_body("/v1/{name}", "/v1/n1?count=%zz");
    assert_eq!(r, Err(r#"invalid URL escape "%zz""#.to_string()));
}

#[test]
fn a_string_that_is_not_utf8_is_refused_at_the_end() {
    let (_, r) = after_body("/v1/{name}", "/v1/%FF?count=4");
    assert_eq!(r, Err("grpc: error while marshaling: string field contains invalid UTF-8".to_string()));
}
