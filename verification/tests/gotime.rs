use abada::request::gotime::{
    parse_rfc3339_nano, protojson_parse_duration, quote_time, runtime_duration, runtime_timestamp,
    timestamp_is_valid, Instant,
};

fn text(b: Vec<u8>) -> String {
    String::from_utf8(b).unwrap()
}

#[test]
fn rfc3339_like_go() {
    assert_eq!(
        parse_rfc3339_nano(b"1970-01-01T00:00:01.5+00:00"),
        Ok(Instant {
            seconds: 1,
            nanos: 500_000_000
        })
    );
    assert_eq!(
        text(parse_rfc3339_nano(b"2024-01-02T03:04:05.Z").unwrap_err()),
        r#"parsing time "2024-01-02T03:04:05.Z" as "2006-01-02T15:04:05.999999999Z07:00": cannot parse ".Z" as "Z07:00""#
    );
    assert_eq!(
        text(parse_rfc3339_nano(b"2024-01-02t03:04:05z").unwrap_err()),
        r#"parsing time "2024-01-02t03:04:05z" as "2006-01-02T15:04:05.999999999Z07:00": cannot parse "t03:04:05z" as "T""#
    );
}

#[test]
fn zones_shift_the_instant() {
    assert_eq!(
        parse_rfc3339_nano(b"2000-03-01T00:00:00-01:30"),
        Ok(Instant { seconds: 951_874_200, nanos: 0 })
    );
    assert_eq!(
        parse_rfc3339_nano(b"2024-02-29T12:00:00Z"),
        Ok(Instant { seconds: 1_709_208_000, nanos: 0 })
    );
}

#[test]
fn out_of_range_fields_are_named() {
    assert_eq!(
        text(parse_rfc3339_nano(b"2024-13-01T00:00:00Z").unwrap_err()),
        r#"parsing time "2024-13-01T00:00:00Z": month out of range"#
    );
    assert_eq!(
        text(parse_rfc3339_nano(b"2023-02-29T00:00:00Z").unwrap_err()),
        r#"parsing time "2023-02-29T00:00:00Z": day out of range"#
    );
    assert_eq!(
        text(parse_rfc3339_nano(b"2024-01-01T00:00:00Zx").unwrap_err()),
        r#"parsing time "2024-01-01T00:00:00Zx": extra text: "x""#
    );
}

#[test]
fn time_quotes_escape_every_byte_of_non_ascii() {
    assert_eq!(text(quote_time("é\"".as_bytes())), r#""\xc3\xa9\"""#);
}

#[test]
fn protojson_durations() {
    assert_eq!(runtime_duration(b"-0.000000001s"), Ok((0, -1)));
    assert_eq!(protojson_parse_duration(b"1.5s"), Some((1, 500_000_000)));
    assert_eq!(protojson_parse_duration(b"00.5s"), None);
    assert_eq!(protojson_parse_duration(b"5"), None);
    assert_eq!(
        text(runtime_duration(b"\"x\"").unwrap_err()),
        r#"proto: (line 1:1): invalid google.protobuf.Duration value "x""#
    );
    assert_eq!(
        text(runtime_duration(b"315576000001s").unwrap_err()),
        r#"proto: (line 1:1): google.protobuf.Duration value out of range: "315576000001s""#
    );
}

#[test]
fn protojson_timestamps() {
    assert_eq!(
        runtime_timestamp(b"\"1970-01-01T00:00:02Z\""),
        Ok(Instant { seconds: 2, nanos: 0 })
    );
    assert_eq!(
        text(runtime_timestamp(b"1970-01-01T00:00:02.0000000001Z").unwrap_err()),
        r#"proto: (line 1:1): invalid google.protobuf.Timestamp value "1970-01-01T00:00:02.0000000001Z""#
    );
    assert!(timestamp_is_valid(Instant { seconds: 0, nanos: 0 }));
    assert!(!timestamp_is_valid(Instant { seconds: 0, nanos: -1 }));
}
