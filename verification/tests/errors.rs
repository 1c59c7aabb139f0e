use abada::error::{
    accepts_trailers, canonical_mime_header_key, go_quote, http_status_from_code, marshal_status,
    not_printable_2byte, wire_value, Any, ErrorResponse, RoutingError, ServerMetadata, Status,
};

fn quote(s: &[u8]) -> String {
    String::from_utf8(go_quote(s)).unwrap()
}

fn text(b: &[u8]) -> String {
    String::from_utf8(b.to_vec()).unwrap()
}

#[test]
fn quote_escapes_like_strconv() {
    assert_eq!(quote(b"%zz"), r#""%zz""#);
    assert_eq!(quote(b"%\x01\x7f"), r#""%\x01\x7f""#);
    assert_eq!(quote("%\u{85}".as_bytes()), r#""%\u0085""#);
    assert_eq!(quote(b"%a\xc3"), r#""%a\xc3""#);
    assert_eq!(quote(b"%\xc0\x80"), r#""%\xc0\x80""#);
}

#[test]
fn te_is_lowered_like_go() {
    assert!(accepts_trailers(Some(b"deflate, TRAILERS")));
    assert!(!accepts_trailers(Some(b"gzip")));
    assert!(!accepts_trailers(None));
}

#[test]
fn codes_map_to_statuses() {
    assert_eq!(http_status_from_code(0), 200);
    assert_eq!(http_status_from_code(1), 499);
    assert_eq!(http_status_from_code(3), 400);
    assert_eq!(http_status_from_code(5), 404);
    assert_eq!(http_status_from_code(12), 501);
    assert_eq!(http_status_from_code(16), 401);
    assert_eq!(http_status_from_code(17), 500);
    assert_eq!(http_status_from_code(-1), 500);
}

#[test]
fn a_not_found_route_is_answered_like_grpc_gateway() {
    let r = ErrorResponse::routing(RoutingError::NotFound);
    assert_eq!(r.status, 404);
    assert_eq!(
        r.headers,
        vec![(b"content-type".to_vec(), b"application/json".to_vec())]
    );
    assert_eq!(text(&r.body), r#"{"code":5,"message":"Not Found","details":[]}"#);
    assert!(r.trailers.is_empty());
}

#[test]
fn a_malformed_escape_is_a_400_with_code_unknown() {
    let r = ErrorResponse::malformed_escape(b"%zz");
    assert_eq!(r.status, 400);
    assert_eq!(
        text(&r.body),
        r#"{"code":2,"message":"malformed path escape \"%zz\"","details":[]}"#
    );
}

#[test]
fn metadata_becomes_headers_and_trailers() {
    let status = Status::new(16, b"bad token\r\n".to_vec());
    let md = ServerMetadata {
        headers: vec![(b"X-Id".to_vec(), b"42".to_vec())],
        trailers: vec![(b"cost".to_vec(), b"7".to_vec()), (b"cost".to_vec(), b"8".to_vec())],
    };
    let r = ErrorResponse::from_status(&status, Some(&md), true);
    assert_eq!(r.status, 401);
    assert_eq!(
        r.headers,
        vec![
            (b"content-type".to_vec(), b"application/json".to_vec()),
            (b"www-authenticate".to_vec(), b"bad token".to_vec()),
            (b"grpc-metadata-x-id".to_vec(), b"42".to_vec()),
            (b"trailer".to_vec(), b"Grpc-Trailer-Cost".to_vec()),
        ]
    );
    assert_eq!(
        r.trailers,
        vec![
            (b"grpc-trailer-cost".to_vec(), b"7".to_vec()),
            (b"grpc-trailer-cost".to_vec(), b"8".to_vec()),
        ]
    );
    assert_eq!(
        text(&r.body),
        "{\"code\":16,\"message\":\"bad token\\r\\n\",\"details\":[]}"
    );
}

#[test]
fn an_ok_status_has_no_message() {
    let r = ErrorResponse::from_status(&Status::new(0, b"ignored".to_vec()), None, false);
    assert_eq!(r.status, 200);
    assert_eq!(text(&r.body), r#"{"code":0,"message":"","details":[]}"#);
}

#[test]
fn a_detail_that_needs_its_type_is_a_500() {
    let status = Status {
        code: 3,
        message: b"x".to_vec(),
        details: vec![Any { type_url: b"type.googleapis.com/x".to_vec(), value: Vec::new() }],
    };
    assert_eq!(marshal_status(&status), None);
    let r = ErrorResponse::from_status(&status, None, false);
    assert_eq!(r.status, 500);
    assert_eq!(
        text(&r.body),
        r#"{"code": 13, "message": "failed to marshal error message"}"#
    );
}

#[test]
fn header_values_are_written_like_net_http() {
    assert_eq!(wire_value(b"  a\r\nb \t"), Some(b"a  b".to_vec()));
    assert_eq!(wire_value(b"a\x01b"), None);
    assert_eq!(canonical_mime_header_key(b"grpc-trailer-foo-bar"), b"Grpc-Trailer-Foo-Bar".to_vec());
    assert_eq!(canonical_mime_header_key(b"bad key"), b"bad key".to_vec());
}

#[test]
fn the_printability_table_starts_with_c1_controls() {
    let t = not_printable_2byte();
    assert_eq!(t.len(), 20);
    assert_eq!(t[0], (0x80, 0xa0));
    assert_eq!(t[19], (0x7fb, 0x7fc));
}

/// `runtime.HTTPStatusFromCode`, code by code, and a code it does not know.
#[test]
fn codes_map_to_http_status_like_grpc_gateway() {
    let table: [(i32, u16); 18] = [
        (0, 200),
        (1, 499),
        (2, 500),
        (3, 400),
        (4, 504),
        (5, 404),
        (6, 409),
        (7, 403),
        (8, 429),
        (9, 400),
        (10, 409),
        (11, 400),
        (12, 501),
        (13, 500),
        (14, 503),
        (15, 500),
        (16, 401),
        (99, 500),
    ];
    for (code, status) in table {
        assert_eq!(http_status_from_code(code), status, "code {code}");
    }
}

/// The three answers of `ServeMux` routing, as grpc-gateway's default
/// routing error handler writes them.
#[test]
fn routing_errors_are_written_like_grpc_gateway() {
    let cases = [
        (RoutingError::NotFound, 404, r#"{"code":5,"message":"Not Found","details":[]}"#),
        (RoutingError::MethodNotAllowed, 501, r#"{"code":12,"message":"Method Not Allowed","details":[]}"#),
        (RoutingError::BadRequest, 400, r#"{"code":3,"message":"Bad Request","details":[]}"#),
    ];
    for (e, status, body) in cases {
        let r = ErrorResponse::routing(e);
        assert_eq!(r.status, status);
        assert_eq!(r.headers, vec![(b"content-type".to_vec(), b"application/json".to_vec())]);
        assert_eq!(text(&r.body), body);
        assert!(r.trailers.is_empty());
    }
}

/// `runtime.DefaultHTTPErrorHandler`, status by status: the HTTP status, the
/// body, and what metadata becomes.
#[test]
fn statuses_are_written_like_grpc_gateway() {
    let cases: Vec<(i32, &[u8], u16, &str)> = vec![
        (3, b"bad field", 400, r#"{"code":3,"message":"bad field","details":[]}"#),
        (5, b"no such book", 404, r#"{"code":5,"message":"no such book","details":[]}"#),
        (7, b"", 403, r#"{"code":7,"message":"","details":[]}"#),
        (14, b"try \"later\"", 503, r#"{"code":14,"message":"try \"later\"","details":[]}"#),
        (13, b"tab\there", 500, r#"{"code":13,"message":"tab\there","details":[]}"#),
    ];
    for (code, message, status, body) in cases {
        let r = ErrorResponse::from_status(&Status::new(code, message.to_vec()), None, false);
        assert_eq!(r.status, status, "code {code}");
        assert_eq!(r.headers, vec![(b"content-type".to_vec(), b"application/json".to_vec())]);
        assert_eq!(text(&r.body), body, "code {code}");
        assert!(r.trailers.is_empty());
    }
    let md = ServerMetadata {
        headers: vec![(b"x-request-id".to_vec(), b"abc".to_vec())],
        trailers: vec![(b"cost".to_vec(), b"7".to_vec())],
    };
    let r = ErrorResponse::from_status(&Status::new(3, b"x".to_vec()), Some(&md), false);
    assert_eq!(
        r.headers,
        vec![
            (b"content-type".to_vec(), b"application/json".to_vec()),
            (b"grpc-metadata-x-request-id".to_vec(), b"abc".to_vec()),
        ]
    );
    assert!(r.trailers.is_empty());
}
