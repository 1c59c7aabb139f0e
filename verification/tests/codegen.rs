use abada::codegen::descriptor::{
    FileDescriptorProto, FileDescriptorSet, HttpRule, MethodDescriptorProto, MethodOptions, Pattern,
    ServiceDescriptorProto,
};
use abada::codegen::rules::{bindings, ExtractError};

fn rule(pattern: Option<Pattern>, extra: Vec<HttpRule>) -> HttpRule {
    HttpRule {
        selector: String::new(),
        pattern,
        body: "*".to_string(),
        response_body: String::new(),
        additional_bindings: extra,
    }
}

fn set(rule: HttpRule) -> FileDescriptorSet {
    FileDescriptorSet {
        file: vec![FileDescriptorProto {
            name: Some("a.proto".to_string()),
            package: Some("pkg.v1".to_string()),
            service: vec![ServiceDescriptorProto {
                name: Some("Svc".to_string()),
                method: vec![MethodDescriptorProto {
                    name: Some("Get".to_string()),
                    input_type: None,
                    output_type: None,
                    options: Some(MethodOptions { http: Some(rule) }),
                    client_streaming: None,
                    server_streaming: Some(true),
                }],
            }],
        }],
    }
}

#[test]
fn a_rule_and_its_additional_bindings() {
    let extra = rule(Some(Pattern::Post("/v1/things:get".to_string())), Vec::new());
    let got = bindings(&set(rule(Some(Pattern::Get("/v1/things/{id}".to_string())), vec![extra]))).unwrap();
    assert_eq!(got.len(), 2);
    assert_eq!(got[0].service, "pkg.v1.Svc");
    assert_eq!(got[0].method, "Get");
    assert_eq!(got[0].http_method, "GET");
    assert_eq!(got[0].template, "/v1/things/{id}");
    assert_eq!(got[0].body, "*");
    assert!(!got[0].client_streaming);
    assert!(got[0].server_streaming);
    assert_eq!(got[0].index, 0);
    assert_eq!(got[1].http_method, "POST");
    assert_eq!(got[1].index, 1);
}

#[test]
fn refusals_name_the_rpc() {
    match bindings(&set(rule(None, Vec::new()))) {
        Err(ExtractError::NoPattern { rpc }) => assert_eq!(rpc, "pkg.v1.Svc.Get"),
        other => panic!("unexpected {other:?}"),
    }
    let nested = rule(
        Some(Pattern::Get("/v1/b".to_string())),
        vec![rule(Some(Pattern::Get("/v1/c".to_string())), Vec::new())],
    );
    match bindings(&set(rule(Some(Pattern::Get("/v1/a".to_string())), vec![nested]))) {
        Err(ExtractError::NestedAdditionalBindings { rpc }) => assert_eq!(rpc, "pkg.v1.Svc.Get"),
        other => panic!("unexpected {other:?}"),
    }
    match bindings(&set(rule(Some(Pattern::Get("/v1/**/**".to_string())), Vec::new()))) {
        Err(ExtractError::InvalidTemplate { rpc, .. }) => assert_eq!(rpc, "pkg.v1.Svc.Get"),
        other => panic!("unexpected {other:?}"),
    }
}
