use abada::path::pattern::{Pattern, UnescapingMode};
use abada::path::router::Router;
use abada::request::mux::{Incoming, MuxOptions};
use abada::service::gateway::prepare;

fn router() -> Router<u32> {
    let mut r = Router::new(UnescapingMode::Legacy);
    r.add("GET", Pattern::new("/v1/things").unwrap(), 1);
    r.add("GET", Pattern::new("/v1/things/{id}").unwrap(), 2);
    r
}

fn get(target: &str) -> Incoming<'_> {
    Incoming { method: "GET", target, content_type: None, method_override: None, body: b"" }
}

const OPTS: MuxOptions = MuxOptions { disable_path_length_fallback: false };

#[test]
fn a_matched_request_goes_on_with_its_variables() {
    let r = router();
    let p = prepare(&r, &get("/v1/things/a%20b?x=1"), &OPTS).unwrap();
    assert_eq!(*p.handler, 2);
    assert_eq!(p.method, b"GET".to_vec());
    assert_eq!(p.params.get(b"id"), Some(&b"a b"[..]));
    assert!(p.form.is_none());
}

#[test]
fn a_target_that_is_not_a_path_is_a_bad_request() {
    let r = router();
    let e = prepare(&r, &get("v1/things"), &OPTS).err().unwrap();
    assert_eq!(e.status, 400);
    let e = prepare(&r, &get("/v1/\x01"), &OPTS).err().unwrap();
    assert_eq!(e.status, 400);
}

#[test]
fn routing_errors_are_answered_at_once() {
    let r = router();
    let e = prepare(&r, &get("/v2/x"), &OPTS).err().unwrap();
    assert_eq!(e.status, 404);
    let del = Incoming { method: "DELETE", target: "/v1/things", content_type: None, method_override: None, body: b"" };
    let e = prepare(&r, &del, &OPTS).err().unwrap();
    assert_eq!(e.status, 501);
}

#[test]
fn a_bad_form_is_answered_with_invalid_argument() {
    let r = router();
    let post = Incoming {
        method: "POST",
        target: "/v1/things",
        content_type: Some(b"application/x-www-form-urlencoded"),
        method_override: None,
        body: b"a=%zz",
    };
    let e = prepare(&r, &post, &OPTS).err().unwrap();
    assert_eq!(e.status, 400);
    let body = String::from_utf8(e.body).unwrap();
    assert_eq!(body, r#"{"code":3,"message":"invalid URL escape \"%zz\"","details":[]}"#);
}
