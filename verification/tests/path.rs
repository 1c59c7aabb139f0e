use abada::path::pattern::{MatchError, Pattern, PatternError, UnescapingMode};
use abada::path::router::{path_kept_bytes, RequestPath, RouteOutcome, Router};
use abada::path::template::{PathTemplate, Segment};

fn comps(path: &str) -> Vec<Vec<u8>> {
    path.split('/').map(|c| c.as_bytes().to_vec()).collect()
}

#[test]
fn a_deep_wildcard_leaves_room_for_the_tail() {
    let p = Pattern::new("/v1/{name=**}/end").unwrap();
    let params = p
        .match_components(&comps("v1/a/b/end"), b"", UnescapingMode::Legacy)
        .unwrap();
    assert_eq!(params.get(b"name"), Some(b"a/b".as_slice()));
}

#[test]
fn two_deep_wildcards_are_refused() {
    assert!(matches!(
        Pattern::new("/v1/**/**"),
        Err(PatternError::DeepWildcardTwice { .. })
    ));
}

#[test]
fn reserved_characters_stay_escaped_in_a_deep_capture() {
    let p = Pattern::new("/v1/{name=**}").unwrap();
    let params = p
        .match_components(&comps("v1/a%2Fb%20c"), b"", UnescapingMode::AllExceptReserved)
        .unwrap();
    assert_eq!(params.get(b"name"), Some(b"a%2Fb c".as_slice()));
}

#[test]
fn a_malformed_escape_is_not_a_plain_miss() {
    let p = Pattern::new("/v1/{name}").unwrap();
    assert_eq!(
        p.match_components(&comps("v1/a%zz"), b"", UnescapingMode::AllCharacters),
        Err(MatchError::MalformedEscape(b"%zz".to_vec()))
    );
}

#[test]
fn a_resource_name_with_a_verb() {
    let t = PathTemplate::parse("/v1/{name=projects/*/vms/*}:start").unwrap();
    assert_eq!(t.verb(), b"start");
    assert_eq!(t.fields(), [b"name".to_vec()]);
    assert_eq!(t.display(), b"/v1/{name=projects/*/vms/*}:start".to_vec());
}

#[test]
fn a_colon_inside_the_last_literal_is_the_verb_boundary() {
    let t = PathTemplate::parse("/v1/a:b:c").unwrap();
    assert_eq!(t.verb(), b"c");
}

#[test]
fn nested_variables_are_refused() {
    assert!(PathTemplate::parse("/v1/{a={b}}").is_err());
}

#[test]
fn the_root_is_one_empty_literal() {
    let t = PathTemplate::parse("/").unwrap();
    assert_eq!(t.segments(), [Segment::Literal(Vec::new())]);
    assert_eq!(t.display(), b"/".to_vec());
}

#[test]
fn a_template_keeps_its_source_text() {
    let t = PathTemplate::parse("/v1/{name=shelves/*}/books").unwrap();
    assert_eq!(t.as_str(), "/v1/{name=shelves/*}/books");
    assert_eq!(t.fields(), [b"name".to_vec()]);
}

#[test]
fn a_variable_binds_its_component() {
    let p = Pattern::new("/v1/shelves/{shelf}/books/{book}").unwrap();
    let params = p
        .match_components(&comps("v1/shelves/s1/books/b2"), b"", UnescapingMode::Legacy)
        .unwrap();
    assert_eq!(params.len(), 2);
    assert_eq!(params.get(b"shelf"), Some(b"s1".as_slice()));
    assert_eq!(params.get(b"book"), Some(b"b2".as_slice()));
    assert_eq!(params.get(b"other"), None);
}

#[test]
fn a_literal_mismatch_is_no_match() {
    let p = Pattern::new("/v1/shelves").unwrap();
    assert_eq!(
        p.match_components(&comps("v1/books"), b"", UnescapingMode::Legacy),
        Err(MatchError::NoMatch)
    );
}

#[test]
fn the_newest_registration_for_a_method_wins() {
    let mut router: Router<u32> = Router::new(UnescapingMode::Legacy);
    router.add("GET", Pattern::new("/v1/{name}").unwrap(), 1);
    router.add("GET", Pattern::new("/v1/{id}").unwrap(), 2);
    let req = RequestPath::parse("/v1/abc").unwrap();
    match router.route("GET", &req) {
        RouteOutcome::Matched { handler, params } => {
            assert_eq!(*handler, 2);
            assert_eq!(params.get(b"id"), Some(b"abc".as_slice()));
        }
        other => panic!("unexpected {other:?}"),
    }
}

#[test]
fn another_method_is_method_not_allowed() {
    let mut router: Router<u32> = Router::new(UnescapingMode::Legacy);
    router.add("GET", Pattern::new("/v1/things").unwrap(), 1);
    let req = RequestPath::parse("/v1/things").unwrap();
    assert!(matches!(router.route("POST", &req), RouteOutcome::MethodNotAllowed));
    let other = RequestPath::parse("/v2/things").unwrap();
    assert!(matches!(router.route("GET", &other), RouteOutcome::NotFound));
}

#[test]
fn a_post_falls_back_to_get_when_asked() {
    let mut router: Router<u32> = Router::new(UnescapingMode::Legacy);
    router.add("GET", Pattern::new("/v1/things").unwrap(), 7);
    let req = RequestPath::parse("/v1/things").unwrap();
    let (outcome, fell_back) = router.route_with_fallback("POST", &req, true);
    assert!(fell_back);
    assert!(matches!(outcome, RouteOutcome::Matched { handler: &7, .. }));
}

#[test]
fn malformed_escapes_are_collected_before_the_outcome() {
    let mut router: Router<u32> = Router::new(UnescapingMode::AllCharacters);
    router.add("GET", Pattern::new("/v1/{name}").unwrap(), 1);
    let req = RequestPath::parse("/v1/a%25zz").unwrap();
    match router.route("GET", &req) {
        RouteOutcome::BadRequest { escapes, then } => {
            assert_eq!(escapes, vec![b"%zz".to_vec()]);
            assert!(matches!(*then, RouteOutcome::NotFound));
        }
        other => panic!("unexpected {other:?}"),
    }
}

#[test]
fn a_target_without_a_slash_is_refused() {
    assert!(RequestPath::parse("v1/things").is_err());
    let req = RequestPath::parse("/v1/a%2Fb?x=1").unwrap();
    assert_eq!(req.path(), b"/v1/a/b");
    assert_eq!(req.raw_path(), Some(b"/v1/a%2Fb".as_slice()));
}

#[test]
fn a_path_keeps_the_unreserved_and_sub_delimiters() {
    let kept = path_kept_bytes();
    let text = String::from_utf8(kept).unwrap();
    assert_eq!(text, "$&+,-./0123456789:;=@ABCDEFGHIJKLMNOPQRSTUVWXYZ_abcdefghijklmnopqrstuvwxyz~");
}

#[test]
fn the_query_does_not_change_how_the_path_reads() {
    let with = RequestPath::parse("/v1/a%20b?x=%zz").unwrap();
    let without = RequestPath::parse("/v1/a%20b").unwrap();
    assert_eq!(with.path(), without.path());
    assert_eq!(with.raw_path(), without.raw_path());
    assert_eq!(RequestPath::parse("/v1/%zz?x=1").err().unwrap().0, "malformed percent-encoding");
    assert_eq!(RequestPath::parse("v1?x").err().unwrap().0, "not an origin-form path");
    assert_eq!(RequestPath::parse("/v1\x7f?x").err().unwrap().0, "control character");
    assert_eq!(RequestPath::parse("?x").err().unwrap().0, "not an origin-form path");
}

/// The bytes `net/url` leaves unescaped in a path, as hex.
#[test]
fn request_paths_are_escaped_like_net_url() {
    let hex: String = path_kept_bytes().iter().map(|b| format!("{b:02x}")).collect();
    let mut want = String::from("24262b2c2d2e2f");
    for b in b'0'..=b'9' {
        want.push_str(&format!("{b:02x}"));
    }
    want.push_str("3a3b3d40");
    for b in b'A'..=b'Z' {
        want.push_str(&format!("{b:02x}"));
    }
    want.push_str("5f");
    for b in b'a'..=b'z' {
        want.push_str(&format!("{b:02x}"));
    }
    want.push_str("7e");
    assert_eq!(hex, want);
}

fn route_case(router: &Router<usize>, method: &str, target: &str) -> (String, usize, Vec<(String, String)>) {
    match RequestPath::parse(target) {
        Err(_) => ("invalid_target".to_string(), 0, vec![]),
        Ok(req) => match router.route(method, &req) {
            RouteOutcome::Matched { handler, params } => (
                "matched".to_string(),
                *handler,
                params
                    .entries()
                    .iter()
                    .map(|(k, v)| (String::from_utf8(k.clone()).unwrap(), String::from_utf8_lossy(v).into_owned()))
                    .collect(),
            ),
            RouteOutcome::NotFound => ("not_found".into(), 0, vec![]),
            RouteOutcome::MethodNotAllowed => ("method_not_allowed".into(), 0, vec![]),
            RouteOutcome::BadRequest { .. } => ("bad_request".into(), 0, vec![]),
        },
    }
}

#[test]
fn requests_route_like_grpc_gateway() {
    let mut router = Router::new(UnescapingMode::Legacy);
    let handlers = [
        ("GET", "/v1/{name=shelves/*/books/*}"),
        ("GET", "/v1/shelves/{shelf}"),
        ("POST", "/v1/shelves/{shelf}:archive"),
        ("GET", "/v1/files/{path=**}"),
    ];
    for (i, (m, t)) in handlers.iter().enumerate() {
        router.add(m, Pattern::new(t).unwrap(), i);
    }
    let s = |v: &[(&str, &str)]| -> Vec<(String, String)> {
        v.iter().map(|(k, v)| (k.to_string(), v.to_string())).collect()
    };
    assert_eq!(
        route_case(&router, "GET", "/v1/shelves/1/books/2"),
        ("matched".to_string(), 0, s(&[("name", "shelves/1/books/2")]))
    );
    assert_eq!(route_case(&router, "GET", "/v1/shelves/7?x=1"), ("matched".to_string(), 1, s(&[("shelf", "7")])));
    assert_eq!(route_case(&router, "POST", "/v1/shelves/7:archive"), ("matched".to_string(), 2, s(&[("shelf", "7")])));
    assert_eq!(route_case(&router, "GET", "/v1/files/a/b/c"), ("matched".to_string(), 3, s(&[("path", "a/b/c")])));
    assert_eq!(route_case(&router, "DELETE", "/v1/shelves/7"), ("method_not_allowed".to_string(), 0, vec![]));
    assert_eq!(route_case(&router, "GET", "/v2/shelves/7"), ("not_found".to_string(), 0, vec![]));
    assert_eq!(route_case(&router, "GET", "v1/shelves/7"), ("invalid_target".to_string(), 0, vec![]));
    assert_eq!(route_case(&router, "GET", "/v1/shelves/%zz"), ("invalid_target".to_string(), 0, vec![]));
}

#[test]
fn path_params_iterate_in_key_order() {
    let mut router = Router::new(UnescapingMode::Legacy);
    router.add("GET", Pattern::new("/v1/{zeta}/{alpha}/{mid}").unwrap(), 0usize);
    let req = RequestPath::parse("/v1/z/a/m").unwrap();
    match router.route("GET", &req) {
        RouteOutcome::Matched { params, .. } => {
            let got: Vec<(&[u8], &[u8])> = params.iter();
            assert_eq!(got, vec![(&b"alpha"[..], &b"a"[..]), (&b"mid"[..], &b"m"[..]), (&b"zeta"[..], &b"z"[..])]);
        }
        other => panic!("{other:?}"),
    }
}

#[test]
fn parse_errors_say_what_is_wrong() {
    let msg = |t: &str| PathTemplate::parse(t).unwrap_err().message();
    assert_eq!(msg("v1"), "no leading /");
    assert_eq!(msg("/v1/{a"), "unterminated variable segment");
    assert_eq!(msg("/v1/{1}"), "invalid field path");
    assert_eq!(msg("/v1/{a.1}"), "invalid field path component");
    match Pattern::new("/v1/{a") {
        Err(PatternError::Parse(e)) => {
            assert_eq!(e.message(), "unterminated variable segment");
            assert_eq!(e.template(), "/v1/{a");
        }
        _ => panic!("expected a parse error"),
    }
}
