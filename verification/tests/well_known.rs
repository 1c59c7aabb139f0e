use abada::json::well_known::{encode_duration, encode_field_mask, encode_timestamp, encode_well_known};
use abada::json::JsonErrorKind;
use abada::request::binding::{FieldKind, FieldShape, MessageShape, ScalarKind, Schema};
use abada::request::populate::{Elem, FieldValue, MessageValue, Scalar};

fn ok(r: Result<Vec<u8>, abada::json::JsonError>) -> String {
    String::from_utf8(r.unwrap()).unwrap()
}

fn err(r: Result<Vec<u8>, abada::json::JsonError>) -> String {
    let e = r.unwrap_err();
    assert_eq!(e.kind(), JsonErrorKind::Marshal);
    String::from_utf8(e.message().to_vec()).unwrap()
}

#[test]
fn timestamps_are_rfc3339_in_utc() {
    assert_eq!(ok(encode_timestamp(0, 0)), r#""1970-01-01T00:00:00Z""#);
    assert_eq!(ok(encode_timestamp(1_700_000_000, 500_000_000)), r#""2023-11-14T22:13:20.500Z""#);
    assert_eq!(ok(encode_timestamp(-1, 1_000)), r#""1969-12-31T23:59:59.000001Z""#);
    assert_eq!(ok(encode_timestamp(-62_135_596_800, 0)), r#""0001-01-01T00:00:00Z""#);
    assert_eq!(ok(encode_timestamp(253_402_300_799, 999_999_999)), r#""9999-12-31T23:59:59.999999999Z""#);
    assert_eq!(ok(encode_timestamp(951_782_400, 7)), r#""2000-02-29T00:00:00.000000007Z""#);
    assert_eq!(
        err(encode_timestamp(253_402_300_800, 0)),
        "google.protobuf.Timestamp: seconds out of range 253402300800"
    );
    assert_eq!(err(encode_timestamp(0, -1)), "google.protobuf.Timestamp: nanos out of range -1");
}

#[test]
fn durations_are_seconds_with_an_s() {
    assert_eq!(ok(encode_duration(1, 500_000_000)), r#""1.500s""#);
    assert_eq!(ok(encode_duration(-1, -5_000)), r#""-1.000005s""#);
    assert_eq!(ok(encode_duration(0, -1)), r#""-0.000000001s""#);
    assert_eq!(ok(encode_duration(0, 0)), r#""0s""#);
    assert_eq!(
        err(encode_duration(1, -1)),
        "google.protobuf.Duration: signs of seconds and nanos do not match"
    );
    assert_eq!(
        err(encode_duration(315_576_000_001, 0)),
        "google.protobuf.Duration: seconds out of range 315576000001"
    );
    assert_eq!(err(encode_duration(0, 1_000_000_000)), "google.protobuf.Duration: nanos out of range 1000000000");
}

fn field(kind: FieldKind, number: u32) -> FieldShape {
    FieldShape {
        name: b"value".to_vec(),
        json_name: b"value".to_vec(),
        number,
        kind,
        is_list: false,
        is_map: false,
        synthetic_oneof: false,
        oneof: None,
    }
}

fn schema() -> Schema {
    let wrapper = |name: &str, k: ScalarKind| MessageShape {
        name: name.as_bytes().to_vec(),
        full_name: format!("google.protobuf.{name}").into_bytes(),
        proto2: false,
        fields: vec![field(FieldKind::Scalar(k), 1)],
        oneofs: vec![],
    };
    Schema {
        messages: vec![
            wrapper("Int64Value", ScalarKind::Int64),
            wrapper("BoolValue", ScalarKind::Bool),
            wrapper("BytesValue", ScalarKind::Bytes),
            wrapper("FloatValue", ScalarKind::Float),
            MessageShape {
                name: b"Empty".to_vec(),
                full_name: b"google.protobuf.Empty".to_vec(),
                proto2: false,
                fields: vec![],
                oneofs: vec![],
            },
            MessageShape {
                name: b"Timestamp".to_vec(),
                full_name: b"google.protobuf.Timestamp".to_vec(),
                proto2: false,
                fields: vec![field(FieldKind::Scalar(ScalarKind::Int64), 1), field(FieldKind::Scalar(ScalarKind::Int32), 2)],
                oneofs: vec![],
            },
        ],
        enums: vec![],
    }
}

fn one(msg: usize, s: Scalar) -> MessageValue {
    MessageValue { msg, fields: vec![(0, FieldValue::Single(Elem::Scalar(s)))] }
}

#[test]
fn wrappers_and_empty_are_their_value() {
    let sc = schema();
    assert_eq!(ok(encode_well_known(&sc, &one(0, Scalar::I64(-5)), b"")), r#""-5""#);
    assert_eq!(ok(encode_well_known(&sc, &MessageValue { msg: 1, fields: vec![] }, b"")), "false");
    assert_eq!(ok(encode_well_known(&sc, &one(2, Scalar::Bytes(b"hi".to_vec())), b"")), r#""aGk=""#);
    assert_eq!(ok(encode_well_known(&sc, &one(3, Scalar::F32(0x3fc0_0000)), b"1.5")), "1.5");
    assert_eq!(ok(encode_well_known(&sc, &MessageValue { msg: 4, fields: vec![] }, b"")), "{}");
    let ts = MessageValue {
        msg: 5,
        fields: vec![(1, FieldValue::Single(Elem::Scalar(Scalar::I32(5_000_000)))), (0, FieldValue::Single(Elem::Scalar(Scalar::I64(60))))],
    };
    assert_eq!(ok(encode_well_known(&sc, &ts, b"")), r#""1970-01-01T00:01:00.005Z""#);
}

#[test]
fn field_masks_are_camel_case_paths() {
    let paths = |v: &[&str]| v.iter().map(|p| p.as_bytes().to_vec()).collect::<Vec<_>>();
    assert_eq!(ok(encode_field_mask(&paths(&["user.display_name", "photo"]))), r#""user.displayName,photo""#);
    assert_eq!(ok(encode_field_mask(&paths(&[]))), r#""""#);
    assert_eq!(
        err(encode_field_mask(&paths(&["a", "1x"]))),
        r#"google.protobuf.FieldMask.paths contains invalid path: "1x""#
    );
    assert_eq!(
        err(encode_field_mask(&paths(&["fooBar"]))),
        r#"google.protobuf.FieldMask.paths contains irreversible value "fooBar""#
    );
    let mut sc = schema();
    let mut paths_field = field(FieldKind::Scalar(ScalarKind::String), 1);
    paths_field.is_list = true;
    sc.messages.push(MessageShape {
        name: b"FieldMask".to_vec(),
        full_name: b"google.protobuf.FieldMask".to_vec(),
        proto2: false,
        fields: vec![paths_field],
        oneofs: vec![],
    });
    let mv = MessageValue {
        msg: 6,
        fields: vec![(
            0,
            FieldValue::List(vec![Elem::Scalar(Scalar::String(b"a_b".to_vec())), Elem::Scalar(Scalar::String(b"c".to_vec()))]),
        )],
    };
    assert_eq!(ok(encode_well_known(&sc, &mv, b"")), r#""aB,c""#);
}
