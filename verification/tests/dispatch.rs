use abada::path::pattern::{Pattern, UnescapingMode};
use abada::path::router::{RequestPath, RouteOutcome, Router};
use abada::request::mux::{dispatch, go_to_upper, raw_query, DispatchOutcome, Incoming, MuxOptions};
use abada::request::{ErrorOrigin, RequestError};

fn router() -> Router<u32> {
    let mut r = Router::new(UnescapingMode::Legacy);
    r.add("GET", Pattern::new("/v1/things").unwrap(), 1);
    r.add("DELETE", Pattern::new("/v1/things/{id}").unwrap(), 2);
    r
}

#[test]
fn the_query_is_what_follows_the_first_question_mark() {
    assert_eq!(raw_query("/v1/x?a=1?b"), b"a=1?b");
    assert_eq!(raw_query("/v1/x"), b"");
}

#[test]
fn a_form_post_falls_back_to_get_and_parses_the_form() {
    let r = router();
    let path = RequestPath::parse("/v1/things?q=1").unwrap();
    let incoming = Incoming {
        method: "POST",
        target: "/v1/things?q=1",
        content_type: Some(b"application/x-www-form-urlencoded"),
        method_override: None,
        body: b"a=b",
    };
    let d = dispatch(&r, &path, &incoming, &MuxOptions { disable_path_length_fallback: false });
    assert_eq!(d.method, b"POST".to_vec());
    assert!(matches!(d.outcome, DispatchOutcome::Route(RouteOutcome::Matched { handler: &1, .. })));
    let form = d.form.unwrap();
    assert_eq!(form.get(b"a"), Some([b"b".to_vec()].as_slice()));
    assert_eq!(form.get(b"q"), Some([b"1".to_vec()].as_slice()));
}

#[test]
fn the_method_override_is_upper_cased() {
    let r = router();
    let path = RequestPath::parse("/v1/things/7").unwrap();
    let incoming = Incoming {
        method: "POST",
        target: "/v1/things/7",
        content_type: Some(b"application/x-www-form-urlencoded"),
        method_override: Some(b"delete"),
        body: b"",
    };
    let d = dispatch(&r, &path, &incoming, &MuxOptions { disable_path_length_fallback: false });
    assert_eq!(d.method, b"DELETE".to_vec());
    assert!(matches!(d.outcome, DispatchOutcome::Route(RouteOutcome::Matched { handler: &2, .. })));
    assert!(d.form.is_some());
}

#[test]
fn a_bad_form_is_an_invalid_argument() {
    let r = router();
    let path = RequestPath::parse("/v1/things").unwrap();
    let incoming = Incoming {
        method: "POST",
        target: "/v1/things",
        content_type: Some(b"application/x-www-form-urlencoded"),
        method_override: None,
        body: b"a=%zz",
    };
    let d = dispatch(&r, &path, &incoming, &MuxOptions { disable_path_length_fallback: false });
    match d.outcome {
        DispatchOutcome::FormError { escapes, error } => {
            assert!(escapes.is_empty());
            assert_eq!(error.code(), 3);
            assert_eq!(error.message(), br#"invalid URL escape "%zz""#);
            assert_eq!(error.origin(), ErrorOrigin::Gateway);
        }
        other => panic!("unexpected {other:?}"),
    }
}

#[test]
fn with_the_fallback_disabled_a_post_is_not_allowed() {
    let r = router();
    let path = RequestPath::parse("/v1/things").unwrap();
    let incoming = Incoming {
        method: "POST",
        target: "/v1/things",
        content_type: Some(b"application/x-www-form-urlencoded"),
        method_override: None,
        body: b"",
    };
    let d = dispatch(&r, &path, &incoming, &MuxOptions { disable_path_length_fallback: true });
    assert!(matches!(d.outcome, DispatchOutcome::Route(RouteOutcome::MethodNotAllowed)));
    assert!(d.form.is_none());
}

#[test]
fn upper_casing_follows_go() {
    assert_eq!(go_to_upper(b"patch"), b"PATCH".to_vec());
    assert_eq!(go_to_upper("é".as_bytes()), "É".as_bytes().to_vec());
    assert_eq!(go_to_upper(b"\xff"), "\u{fffd}".as_bytes().to_vec());
}

#[test]
fn request_errors_carry_their_status() {
    let e = RequestError::invalid(b"bad".to_vec());
    let s = e.status();
    assert_eq!(s.code, 3);
    assert_eq!(s.message, b"bad".to_vec());
    assert!(s.details.is_empty());
    let d = RequestError::decoder(b"codec".to_vec()).with_origin(ErrorOrigin::Gateway);
    assert_eq!(d.origin(), ErrorOrigin::Gateway);
    assert_eq!(RequestError::invalid_utf8().code(), 13);
}
