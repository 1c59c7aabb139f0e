use std::time::Duration;

use abada::service::metadata::{
    decode_base64_std, incoming, matched_key, parse_grpc_timeout, split_host_port, MetadataError,
};

fn timeout(s: &str) -> Result<Duration, ()> {
    parse_grpc_timeout(s.as_bytes()).map(Duration::from_nanos)
}

#[test]
fn timeout_units_match_go() {
    assert_eq!(timeout("17H"), Ok(Duration::from_secs(17 * 3600)));
    assert_eq!(timeout("19M"), Ok(Duration::from_secs(19 * 60)));
    assert_eq!(timeout("23S"), Ok(Duration::from_secs(23)));
    assert_eq!(timeout("1009m"), Ok(Duration::from_millis(1009)));
    assert_eq!(timeout("1000003u"), Ok(Duration::from_micros(1_000_003)));
    assert_eq!(timeout("100000007n"), Ok(Duration::from_nanos(100_000_007)));
}

#[test]
fn timeout_rejects_what_go_rejects() {
    assert_eq!(timeout("H"), Err(()));
    assert_eq!(timeout("5X"), Err(()));
    assert_eq!(timeout("5s"), Err(()));
    assert_eq!(timeout(""), Err(()));
}

#[test]
fn timeout_accepts_a_leading_plus_like_strconv_parseint() {
    assert_eq!(timeout("+5S"), Ok(Duration::from_secs(5)));
}

#[test]
fn base64_padded_and_unpadded_agree_with_go() {
    assert_eq!(decode_base64_std(b"AGhlbGxv"), Ok(b"\x00hello".to_vec()));
    assert_eq!(decode_base64_std(b"Alo"), Ok(vec![0x02, b'Z']));
    assert_eq!(decode_base64_std(b"AAE="), Ok(vec![0x00, 0x01]));
    assert_eq!(decode_base64_std(b"AQ=="), Ok(vec![0x01]));
    assert_eq!(decode_base64_std(b"not valid base64!!"), Err(()));
}

#[test]
fn split_host_port_handles_the_shapes_remote_addr_takes() {
    assert_eq!(split_host_port(b"192.0.2.100:12345"), Some(b"192.0.2.100".as_slice()));
    assert_eq!(split_host_port(b"[::1]:12345"), Some(b"::1".as_slice()));
    assert_eq!(split_host_port(b"bad-addr-no-port"), None);
}

#[test]
fn a_negative_timeout_is_immediate() {
    assert_eq!(timeout("-5S"), Ok(Duration::from_secs(0)));
    assert_eq!(timeout("9223372036854775807H"), Err(()));
}

#[test]
fn headers_become_metadata_like_annotate_context() {
    let headers = vec![
        (b"authorization".to_vec(), b"Bearer x".to_vec()),
        (b"grpc-metadata-k".to_vec(), b"v".to_vec()),
        (b"grpc-metadata-b-bin".to_vec(), b"AQ==".to_vec()),
        (b"grpc-metadata-bad".to_vec(), b"\xff".to_vec()),
        (b"x-forwarded-for".to_vec(), b"10.0.0.1".to_vec()),
        (b"other".to_vec(), b"ignored".to_vec()),
        (b"grpc-timeout".to_vec(), b"1S".to_vec()),
    ];
    let got = incoming(&headers, b"example.com", Some(b"192.0.2.7:4000")).unwrap();
    assert_eq!(got.timeout, Some(1_000_000_000));
    assert_eq!(
        got.pairs,
        vec![
            (b"authorization".to_vec(), b"Bearer x".to_vec()),
            (b"grpcgateway-authorization".to_vec(), b"Bearer x".to_vec()),
            (b"k".to_vec(), b"v".to_vec()),
            (b"b-bin".to_vec(), vec![1]),
            (b"x-forwarded-host".to_vec(), b"example.com".to_vec()),
            (b"x-forwarded-for".to_vec(), b"10.0.0.1, 192.0.2.7".to_vec()),
        ]
    );
}

#[test]
fn a_bad_timeout_or_binary_value_refuses_the_call() {
    let headers = vec![(b"grpc-timeout".to_vec(), b"5X".to_vec())];
    assert_eq!(
        incoming(&headers, b"", None),
        Err(MetadataError::InvalidTimeout { value: b"5X".to_vec() })
    );
    let headers = vec![(b"grpc-metadata-x-bin".to_vec(), b"!!".to_vec())];
    assert_eq!(
        incoming(&headers, b"", None),
        Err(MetadataError::InvalidBinaryHeader { header: b"grpc-metadata-x-bin".to_vec() })
    );
    assert_eq!(matched_key(b"accept"), Some(b"grpcgateway-accept".to_vec()));
    assert_eq!(matched_key(b"x-custom"), None);
}

/// `runtime.AnnotateContext` with the default header matcher, case by case:
/// the headers, host and peer given, and the pairs, deadline or refusal.
#[test]
fn incoming_metadata_matches_annotate_context() {
    struct Case {
        headers: Vec<(&'static str, &'static [u8])>,
        host: &'static [u8],
        remote: Option<&'static [u8]>,
        pairs: Result<Vec<(&'static str, &'static [u8])>, ()>,
        timeout: bool,
    }
    let cases = vec![
        Case { headers: vec![], host: b"", remote: None, pairs: Ok(vec![]), timeout: false },
        Case {
            headers: vec![("accept", b"*/*")],
            host: b"",
            remote: None,
            pairs: Ok(vec![("grpcgateway-accept", b"*/*")]),
            timeout: false,
        },
        Case {
            headers: vec![("grpc-metadata-trace", b"t1"), ("grpc-metadata-trace", b"t2")],
            host: b"",
            remote: None,
            pairs: Ok(vec![("trace", b"t1"), ("trace", b"t2")]),
            timeout: false,
        },
        Case {
            headers: vec![("x-custom", b"dropped")],
            host: b"api.example.com",
            remote: None,
            pairs: Ok(vec![("x-forwarded-host", b"api.example.com")]),
            timeout: false,
        },
        Case {
            headers: vec![],
            host: b"",
            remote: Some(b"[2001:db8::1]:443"),
            pairs: Ok(vec![("x-forwarded-for", b"2001:db8::1")]),
            timeout: false,
        },
        Case {
            headers: vec![("grpc-timeout", b"100m")],
            host: b"",
            remote: None,
            pairs: Ok(vec![]),
            timeout: true,
        },
        Case { headers: vec![("grpc-timeout", b"1x")], host: b"", remote: None, pairs: Err(()), timeout: false },
        Case {
            headers: vec![("grpc-metadata-data-bin", b"#")],
            host: b"",
            remote: None,
            pairs: Err(()),
            timeout: false,
        },
    ];
    for (i, c) in cases.iter().enumerate() {
        let headers: Vec<(Vec<u8>, Vec<u8>)> =
            c.headers.iter().map(|(k, v)| (k.as_bytes().to_vec(), v.to_vec())).collect();
        match (incoming(&headers, c.host, c.remote), &c.pairs) {
            (Ok(got), Ok(want)) => {
                let want: Vec<(Vec<u8>, Vec<u8>)> =
                    want.iter().map(|(k, v)| (k.as_bytes().to_vec(), v.to_vec())).collect();
                assert_eq!(got.pairs, want, "case {i}");
                assert_eq!(got.timeout.is_some(), c.timeout, "case {i}");
            }
            (Err(_), Err(())) => {}
            (got, _) => panic!("case {i}: {got:?}"),
        }
    }
}
