use devsync::engine::{build_proxy_request, escape_json_exec, Action, Engine, EngineError, UpstreamReader};
use devsync::jsontext::to_text;
use devsync::kv::StrMap;
use devsync::model::{
    ChainComponentPlace, Component, RuleFrom, RuleInto, Service, ServiceMap, ServiceSets,
};
use devsync::json::parse_path;
use devsync::trie::Node;
use devsync::wire::WireError;

fn service(server: &str, port: u16, uses: &[&str], path: &str, body: &str) -> Service {
    let mut svc = Service::new(server.to_owned(), port, None);
    svc.uses = uses.iter().map(|u| (*u).to_owned()).collect();
    svc.sets = ServiceSets::new();
    svc.sets.path = path.to_owned();
    svc.sets.body = devsync::jsontext::parse_text(body).expect("default body must be JSON");
    svc
}

fn registry(entries: Vec<(&str, Service)>) -> ServiceMap {
    let mut m = ServiceMap::new();
    for (name, svc) in entries {
        m.insert(name.to_owned(), svc);
    }
    m
}

#[test]
fn proxy_with_no_uses_ignores_caller() {
    let svc = service("up.local", 81, &[], "api/v1", "{\"fixed\":true}");
    let empty = StrMap::new();
    let a = build_proxy_request(&svc, "GET", "caller/path", &empty, "caller-body").unwrap();
    let b = build_proxy_request(&svc, "GET", "other", &empty, "{\"x\":1}").unwrap();
    assert_eq!(a, b);
    assert_eq!(a, "GET /api/v1 HTTP/1.1\r\n\r\n\r\n{\"fixed\":true}");
}

#[test]
fn proxy_with_no_uses_drops_unlisted_headers() {
    let svc = service("up.local", 81, &[], "", "null");
    let mut headers = StrMap::new();
    headers.insert("Accept".to_owned(), "text/plain".to_owned());
    headers.insert("X-Secret".to_owned(), "1".to_owned());
    let text = build_proxy_request(&svc, "GET", "", &headers, "").unwrap();
    assert!(text.contains("Accept: text/plain"));
    assert!(!text.contains("X-Secret"));
}

#[test]
fn proxy_with_url_appends_remainder_before_default_path() {
    let svc = service("up.local", 81, &["url"], "api/v1", "null");
    let empty = StrMap::new();
    let text = build_proxy_request(&svc, "GET", "x/y", &empty, "").unwrap();
    assert!(text.starts_with("GET /x/y/api/v1 HTTP/1.1\r\n"));
}

#[test]
fn proxy_with_body_merges_json() {
    let svc = service("up.local", 81, &["body"], "", "{\"extra\":2}");
    let mut headers = StrMap::new();
    headers.insert("Content-Type".to_owned(), "application/json".to_owned());
    let text = build_proxy_request(&svc, "POST", "", &headers, "{\"x\":1}").unwrap();
    assert!(text.ends_with("{\"x\":1,\"extra\":2}"));
}

#[test]
fn proxy_with_body_rejects_bad_json() {
    let svc = service("up.local", 81, &["body"], "", "{}");
    let mut headers = StrMap::new();
    headers.insert("Content-Type".to_owned(), "application/json".to_owned());
    let r = build_proxy_request(&svc, "POST", "", &headers, "not-json");
    assert!(matches!(r, Err(EngineError::BadBody)));
}

#[test]
fn service_default_headers_overwrite_caller() {
    let mut svc = service("up.local", 81, &["headers"], "", "null");
    svc.sets.headers.insert("Host".to_owned(), "up".to_owned());
    let mut headers = StrMap::new();
    headers.insert("Host".to_owned(), "caller".to_owned());
    let text = build_proxy_request(&svc, "GET", "", &headers, "").unwrap();
    assert!(text.contains("Host: up"));
    assert!(!text.contains("Host: caller"));
}

#[test]
fn chain_end_to_end_pipes_body_value_into_header() {
    // Route /agg = Chain(Proxy(svcA), Proxy(svcB), rules = [{from: {body: "id"},
    // into: {header: "X-Id"}}]).
    let services = registry(vec![
        ("svcA", service("a.local", 81, &[], "", "null")),
        ("svcB", service("b.local", 82, &["headers"], "", "null")),
    ]);
    let rule = ChainComponentPlace::new(
        RuleFrom::Body(parse_path("id").unwrap()),
        RuleInto::Header("X-Id".to_owned()),
    );
    let chain = Component::new_chain(
        Box::new(Component::new_proxy("svcA".to_owned())),
        Box::new(Component::new_proxy("svcB".to_owned())),
        vec![rule],
    );
    let (eng, action) = Engine::start(
        &chain,
        &services,
        "GET".to_owned(),
        "".to_owned(),
        StrMap::new(),
        String::new(),
    );
    // First, svcA must be called.
    let (host, port) = match &action {
        Action::Send { host, port, .. } => (host.clone(), *port),
        other => panic!("expected a send to svcA, got {:?}", kind(other)),
    };
    assert_eq!((host.as_str(), port), ("a.local", 81));
    // svcA answers 2xx with a JSON body holding "id".
    let resp_a = "HTTP/1.1 200 Ok\r\nContent-Length: 11\r\n\r\n{\"id\":\"42\"}";
    let (eng, action) = eng.on_response(&services, resp_a);
    let (host, port, text) = match &action {
        Action::Send { host, port, text } => (host.clone(), *port, text.clone()),
        other => panic!("expected a send to svcB, got {:?}", kind(other)),
    };
    assert_eq!((host.as_str(), port), ("b.local", 82));
    // The extracted body value (serialized back to text) rides the header.
    assert!(text.contains("X-Id: \"42\""));
    // svcB's raw response is the final answer.
    let resp_b = "HTTP/1.1 200 Fine\r\nContent-Length: 4\r\n\r\ndone";
    let (_eng, action) = eng.on_response(&services, resp_b);
    match action {
        Action::Respond { text } => assert_eq!(text, resp_b),
        other => panic!("expected the final response, got {:?}", kind(&other)),
    }
}

#[test]
fn chain_aborts_on_non_2xx_without_calling_second_service() {
    let services = registry(vec![
        ("svcA", service("a.local", 81, &[], "", "null")),
        ("svcB", service("b.local", 82, &[], "", "null")),
    ]);
    let chain = Component::new_chain(
        Box::new(Component::new_proxy("svcA".to_owned())),
        Box::new(Component::new_proxy("svcB".to_owned())),
        vec![],
    );
    let (eng, action) = Engine::start(
        &chain,
        &services,
        "GET".to_owned(),
        "".to_owned(),
        StrMap::new(),
        String::new(),
    );
    assert!(matches!(action, Action::Send { .. }));
    let (_eng, action) = eng.on_response(&services, "HTTP/1.1 500 ServerError\r\n\r\n");
    match action {
        Action::Fail { err } => assert_eq!(err, EngineError::UpstreamStatus(500)),
        other => panic!("expected an abort, got {:?}", kind(&other)),
    }
}

#[test]
fn chain_pipes_response_body_when_no_rule_targets_it() {
    let services = registry(vec![
        ("svcA", service("a.local", 81, &[], "", "null")),
        ("svcB", service("b.local", 82, &["body"], "", "{}")),
    ]);
    let chain = Component::new_chain(
        Box::new(Component::new_proxy("svcA".to_owned())),
        Box::new(Component::new_proxy("svcB".to_owned())),
        vec![],
    );
    let (eng, action) = Engine::start(
        &chain,
        &services,
        "GET".to_owned(),
        "".to_owned(),
        StrMap::new(),
        String::new(),
    );
    assert!(matches!(action, Action::Send { .. }));
    let resp_a = "HTTP/1.1 200 Ok\r\nContent-Length: 9\r\n\r\n{\"k\":\"v\"}";
    let (_eng, action) = eng.on_response(&services, resp_a);
    match action {
        Action::Send { text, .. } => assert!(text.ends_with("{\"k\":\"v\"}")),
        other => panic!("expected a send to svcB, got {:?}", kind(&other)),
    }
}

#[test]
fn chain_rejects_non_json_upstream_body() {
    let services = registry(vec![("svcA", service("a.local", 81, &[], "", "null"))]);
    let chain = Component::new_chain(
        Box::new(Component::new_proxy("svcA".to_owned())),
        Box::new(Component::new_proxy("svcA".to_owned())),
        vec![],
    );
    let (eng, _action) = Engine::start(
        &chain,
        &services,
        "GET".to_owned(),
        "".to_owned(),
        StrMap::new(),
        String::new(),
    );
    let resp = "HTTP/1.1 200 Ok\r\nContent-Length: 8\r\n\r\nnot json";
    let (_eng, action) = eng.on_response(&services, resp);
    match action {
        Action::Fail { err } => assert_eq!(err, EngineError::BadUpstreamBody),
        other => panic!("expected a body error, got {:?}", kind(&other)),
    }
}

#[test]
fn unknown_service_fails() {
    let services = ServiceMap::new();
    let proxy = Component::new_proxy("ghost".to_owned());
    let (_eng, action) = Engine::start(
        &proxy,
        &services,
        "GET".to_owned(),
        "".to_owned(),
        StrMap::new(),
        String::new(),
    );
    match action {
        Action::Fail { err } => assert_eq!(err, EngineError::UnknownService),
        other => panic!("expected a lookup failure, got {:?}", kind(&other)),
    }
}

#[test]
fn exposed_component_is_not_executable() {
    let services = ServiceMap::new();
    let root = Component::new_exposed("0.0.0.0".to_owned(), 3000);
    let (_eng, action) = Engine::start(
        &root,
        &services,
        "GET".to_owned(),
        "".to_owned(),
        StrMap::new(),
        String::new(),
    );
    match action {
        Action::Fail { err } => assert_eq!(err, EngineError::NotExecutable),
        other => panic!("expected a failure, got {:?}", kind(&other)),
    }
}

#[test]
fn malformed_upstream_response_is_an_upstream_error() {
    let services = registry(vec![("svcA", service("a.local", 81, &[], "", "null"))]);
    let chain = Component::new_chain(
        Box::new(Component::new_proxy("svcA".to_owned())),
        Box::new(Component::new_proxy("svcA".to_owned())),
        vec![],
    );
    let (eng, _action) = Engine::start(
        &chain,
        &services,
        "GET".to_owned(),
        "".to_owned(),
        StrMap::new(),
        String::new(),
    );
    let (_eng, action) = eng.on_response(&services, "garbage");
    match action {
        Action::Fail { err } => assert_eq!(err, EngineError::Upstream(WireError::BadStatusLine)),
        other => panic!("expected an upstream error, got {:?}", kind(&other)),
    }
}

#[test]
fn store_rules_carry_values_between_steps() {
    // First rule copies a body value into the store, second writes the store
    // value into the body handed to the next component.
    let services = registry(vec![
        ("svcA", service("a.local", 81, &[], "", "null")),
        ("svcB", service("b.local", 82, &["body"], "", "{}")),
    ]);
    let rules = vec![
        ChainComponentPlace::new(
            RuleFrom::Body(parse_path("token").unwrap()),
            RuleInto::Store("t".to_owned()),
        ),
        ChainComponentPlace::new(RuleFrom::Store("t".to_owned()), RuleInto::Body),
    ];
    let chain = Component::new_chain(
        Box::new(Component::new_proxy("svcA".to_owned())),
        Box::new(Component::new_proxy("svcB".to_owned())),
        rules,
    );
    let (eng, _action) = Engine::start(
        &chain,
        &services,
        "GET".to_owned(),
        "".to_owned(),
        StrMap::new(),
        String::new(),
    );
    let resp_a = "HTTP/1.1 200 Ok\r\nContent-Length: 15\r\n\r\n{\"token\":\"abc\"}";
    let (_eng, action) = eng.on_response(&services, resp_a);
    match action {
        // The body value serializes to "\"abc\"", and writing it into the
        // body wraps it as a JSON string literal, escaping the quotes.
        Action::Send { text, .. } => assert!(text.ends_with("\"\\\"abc\\\"\"")),
        other => panic!("expected a send to svcB, got {:?}", kind(&other)),
    }
}

#[test]
fn missing_header_rule_value_is_undefined() {
    let services = registry(vec![
        ("svcA", service("a.local", 81, &[], "", "null")),
        ("svcB", service("b.local", 82, &["headers"], "", "null")),
    ]);
    let rules = vec![ChainComponentPlace::new(
        RuleFrom::Header("Nope".to_owned()),
        RuleInto::Header("X-Out".to_owned()),
    )];
    let chain = Component::new_chain(
        Box::new(Component::new_proxy("svcA".to_owned())),
        Box::new(Component::new_proxy("svcB".to_owned())),
        rules,
    );
    let (eng, _action) = Engine::start(
        &chain,
        &services,
        "GET".to_owned(),
        "x".to_owned(),
        StrMap::new(),
        String::new(),
    );
    let resp_a = "HTTP/1.1 200 Ok\r\nContent-Length: 2\r\n\r\n{}";
    let (_eng, action) = eng.on_response(&services, resp_a);
    match action {
        // The missing response header falls back to the literal sentinel.
        Action::Send { text, .. } => assert!(text.contains("X-Out: undefined")),
        other => panic!("expected a send to svcB, got {:?}", kind(&other)),
    }
}

#[test]
fn static_component_hands_out_joined_path() {
    let services = ServiceMap::new();
    let st = Component::Static(devsync::model::StaticComponent {
        path: "www".to_owned(),
        index: "index.html".to_owned(),
    });
    let (_eng, action) = Engine::start(
        &st,
        &services,
        "GET".to_owned(),
        "docs/readme".to_owned(),
        StrMap::new(),
        String::new(),
    );
    match action {
        Action::ServeStatic { base, index } => {
            assert_eq!(base, "www/docs/readme");
            assert_eq!(index, "index.html");
        },
        other => panic!("expected a static serve, got {:?}", kind(&other)),
    }
}

#[test]
fn upstream_reader_stops_at_second_blank_line() {
    let mut r = UpstreamReader::new();
    assert!(!r.push_line("HTTP/1.1 200 Ok".to_owned()));
    assert!(!r.push_line("Content-Length: 2".to_owned()));
    assert!(!r.push_line("".to_owned()));
    assert!(!r.push_line("ok".to_owned()));
    assert!(r.push_line("".to_owned()));
    assert_eq!(r.text(), "HTTP/1.1 200 Ok\r\nContent-Length: 2\r\n\r\nok\r\n\r\n");
}

#[test]
fn escape_json_escapes_specials() {
    assert_eq!(escape_json_exec("plain"), "plain");
    assert_eq!(escape_json_exec("a\"b\\c"), "a\\\"b\\\\c");
    assert_eq!(escape_json_exec("x\ny"), "x\\ny");
    assert_eq!(escape_json_exec("\u{01}"), "\\u0001");
}

#[test]
fn trie_search_finds_inserted_route_and_remainder() {
    let mut root = Node::new();
    root.insert("/a/b".to_owned(), Component::new_proxy("svc".to_owned()));
    let (node, rest) = root.search("/a/b".to_owned());
    assert!(node.value.is_some());
    assert_eq!(rest, "");
    let (node, rest) = root.search("/a/b/c/d".to_owned());
    assert!(node.value.is_some());
    assert_eq!(rest, "c/d");
    let (node, rest) = root.search("/a".to_owned());
    assert!(node.value.is_none());
    assert_eq!(rest, "");
    let (node, rest) = root.search("/z".to_owned());
    assert!(node.value.is_none());
    assert_eq!(rest, "z");
}

#[test]
fn trie_insert_overwrites_same_path() {
    let mut root = Node::new();
    root.insert("/a".to_owned(), Component::new_proxy("one".to_owned()));
    root.insert("/a".to_owned(), Component::new_proxy("two".to_owned()));
    let (node, rest) = root.search("/a".to_owned());
    assert_eq!(rest, "");
    match node.value.as_ref().unwrap() {
        Component::Proxy(p) => assert_eq!(p.service_name, "two"),
        _ => panic!("expected a proxy at the route"),
    }
}

#[test]
fn to_text_matches_serde_output() {
    // Cross-check the verified serializer against serde_json on a compact
    // document without escapes.
    let doc = "{\"a\":[1,2,{\"b\":null}],\"c\":true}";
    let ours = to_text(&devsync::jsontext::parse_text(doc).unwrap());
    let theirs = serde_json::to_string(&serde_json::from_str::<serde_json::Value>(doc).unwrap())
        .unwrap();
    assert_eq!(ours, theirs);
}

fn kind(a: &Action) -> &'static str {
    match a {
        Action::Send { .. } => "send",
        Action::Respond { .. } => "respond",
        Action::ServeStatic { .. } => "static",
        Action::Fail { .. } => "fail",
    }
}
