use devsync::config::{add_service, parse_component, parse_config, reload};
use devsync::jsontext::parse_text;
use devsync::model::{Component, Exposed, GlobalState, RuleFrom, RuleInto, ServiceMap};

fn doc(s: &str) -> devsync::json::Json {
    parse_text(s).expect("test document must parse")
}

fn exposed_err(s: &str) -> String {
    match Exposed::from_json(&doc(s)) {
        Err(m) => m,
        Ok(_) => panic!("expected a configuration error"),
    }
}

fn component_err(s: &str) -> String {
    match parse_component(&doc(s)) {
        Err(m) => m,
        Ok(_) => panic!("expected a configuration error"),
    }
}

fn config_err(text: &str) -> String {
    match parse_config(text) {
        Err(m) => m,
        Ok(_) => panic!("expected a configuration error"),
    }
}

const CONFIG: &str = "{\"type\":\"endpoint\",\"exposed\":{\"host\":\"127.0.0.1\",\"port\":4000},\"services\":[{\"name\":\"svcA\",\"server\":\"self\",\"port\":81},{\"name\":\"svcB\",\"server\":\"b.local\",\"use\":[\"url\"],\"set\":{\"url\":\"api\",\"headers\":{\"Host\":\"b\"},\"body\":{\"d\":1}}}],\"requests\":[{\"type\":\"proxy\",\"service\":\"svcA\",\"uri\":\"/a\"},{\"type\":\"chain\",\"uri\":\"/agg\",\"from\":{\"type\":\"proxy\",\"service\":\"svcA\"},\"into\":{\"type\":\"proxy\",\"service\":\"svcB\"},\"place\":[{\"from\":{\"body\":\"id\"},\"into\":{\"header\":\"X-Id\"}}]}]}";

#[test]
fn exposed_defaults_and_errors() {
    let e = Exposed::from_json(&doc("{}")).unwrap();
    assert_eq!(e.host, "0.0.0.0");
    assert_eq!(e.port, 3000);
    let e = Exposed::from_json(&doc("{\"host\":\"h\",\"port\":81}")).unwrap();
    assert_eq!(e.host, "h");
    assert_eq!(e.port, 81);
    assert_eq!(exposed_err("{\"host\":5}"), "Host must be string");
    assert_eq!(exposed_err("{\"port\":\"x\"}"), "Port must be string");
}

#[test]
fn add_service_reads_declaration() {
    let mut services = ServiceMap::new();
    let v = doc("{\"name\":\"s\",\"server\":\"self\",\"port\":81,\"use\":[\"url\",\"body\"],\"set\":{\"url\":\"v1\",\"headers\":{\"Host\":\"u\"},\"body\":{\"k\":1}},\"run\":{\"image\":\"tag1\"}}");
    let name = add_service(&v, &mut services).unwrap();
    assert_eq!(name, "s");
    let svc = services.get("s").unwrap();
    assert_eq!(svc.server, "127.0.0.1");
    assert_eq!(svc.port, 81);
    assert_eq!(svc.uses, vec!["url".to_owned(), "body".to_owned()]);
    assert_eq!(svc.sets.path, "v1");
    assert_eq!(svc.sets.headers.get("Host"), Some(&"u".to_owned()));
    assert_eq!(devsync::jsontext::to_text(&svc.sets.body), "{\"k\":1}");
    let run = svc.run.as_ref().unwrap();
    assert_eq!(run.way, "image");
    assert_eq!(run.tag, "tag1");
}

#[test]
fn add_service_generates_name_when_absent() {
    let mut services = ServiceMap::new();
    let name = add_service(&doc("{\"server\":\"x\"}"), &mut services).unwrap();
    assert_eq!(name.chars().count(), 36);
    assert!(services.get(&name).is_some());
}

#[test]
fn add_service_requires_server() {
    let mut services = ServiceMap::new();
    let err = add_service(&doc("{\"name\":\"s\"}"), &mut services).unwrap_err();
    assert_eq!(err, "Service must have a server");
    let err = add_service(&doc("{\"server\":\"x\",\"port\":99999}"), &mut services).unwrap_err();
    assert_eq!(err, "Service port must be a number");
    let err = add_service(&doc("{\"server\":\"x\",\"use\":[1]}"), &mut services).unwrap_err();
    assert_eq!(err, "Service use entries must be strings");
}

#[test]
fn parse_component_proxy_and_static() {
    match parse_component(&doc("{\"type\":\"proxy\",\"service\":\"s\"}")).unwrap() {
        Component::Proxy(p) => assert_eq!(p.service_name, "s"),
        _ => panic!("expected a proxy"),
    }
    match parse_component(&doc("{\"type\":\"static\"}")).unwrap() {
        Component::Static(st) => {
            assert_eq!(st.path, "");
            assert_eq!(st.index, "index.html");
        },
        _ => panic!("expected a static component"),
    }
    assert_eq!(component_err("{\"type\":\"nope\"}"), "Invalid component type");
    assert_eq!(component_err("{}"), "Component must have type");
    assert_eq!(component_err("{\"type\":\"proxy\"}"), "Proxy component must have service");
}

#[test]
fn parse_component_endpoint() {
    match parse_component(&doc("{\"type\":\"endpoint\"}")).unwrap() {
        Component::Exposed(e) => {
            assert_eq!(e.host, "0.0.0.0");
            assert_eq!(e.port, 3000);
        },
        _ => panic!("expected an endpoint marker"),
    }
    match parse_component(&doc("{\"type\":\"endpoint\",\"exposed\":{\"host\":\"h\",\"port\":81}}"))
        .unwrap()
    {
        Component::Exposed(e) => {
            assert_eq!(e.host, "h");
            assert_eq!(e.port, 81);
        },
        _ => panic!("expected an endpoint marker"),
    }
}

#[test]
fn parse_component_chain_with_rules() {
    let v = doc("{\"type\":\"chain\",\"from\":{\"type\":\"proxy\",\"service\":\"a\"},\"into\":{\"type\":\"proxy\",\"service\":\"b\"},\"place\":[{\"from\":{\"store\":\"k\"},\"into\":{\"body\":true}}]}");
    match parse_component(&v).unwrap() {
        Component::Chain(ch) => {
            assert!(matches!(*ch.from, Component::Proxy(_)));
            assert!(matches!(*ch.to, Component::Proxy(_)));
            assert_eq!(ch.place.len(), 1);
            assert!(matches!(ch.place[0].from, RuleFrom::Store(_)));
            assert!(matches!(ch.place[0].into, RuleInto::Body));
        },
        _ => panic!("expected a chain"),
    }
}

#[test]
fn placement_rules_must_have_one_kind() {
    let v = doc("{\"type\":\"chain\",\"from\":{\"type\":\"proxy\",\"service\":\"a\"},\"into\":{\"type\":\"proxy\",\"service\":\"b\"},\"place\":[{\"from\":{\"header\":\"H\",\"store\":\"k\"},\"into\":{\"body\":1}}]}");
    match parse_component(&v) {
        Err(m) => assert_eq!(m, "Placement rule must have exactly one source"),
        Ok(_) => panic!("expected a configuration error"),
    }
    let v = doc("{\"type\":\"chain\",\"from\":{\"type\":\"proxy\",\"service\":\"a\"},\"into\":{\"type\":\"proxy\",\"service\":\"b\"},\"place\":[{\"from\":{\"body\":\"a[x]\"},\"into\":{\"body\":1}}]}");
    match parse_component(&v) {
        Err(m) => assert_eq!(m, "Placement rule body path is malformed"),
        Ok(_) => panic!("expected a configuration error"),
    }
}

#[test]
fn parse_config_builds_routes_and_services() {
    let (tree, global) = parse_config(CONFIG).unwrap();
    let exposed = global.exposed.as_ref().unwrap();
    assert_eq!(exposed.host, "127.0.0.1");
    assert_eq!(exposed.port, 4000);
    assert_eq!(exposed.stringify(), "127.0.0.1:4000");
    assert!(global.services.get("svcA").is_some());
    assert!(global.services.get("svcB").is_some());
    let (node, rest) = tree.search("/a/tail".to_owned());
    assert_eq!(rest, "tail");
    assert!(matches!(node.value.as_ref().unwrap(), Component::Proxy(_)));
    let (node, rest) = tree.search("/agg".to_owned());
    assert_eq!(rest, "");
    assert!(matches!(node.value.as_ref().unwrap(), Component::Chain(_)));
}

#[test]
fn parse_config_rejects_bad_documents() {
    assert_eq!(config_err("{oops"), "Configuration is not valid JSON");
    assert_eq!(config_err("{\"type\":\"proxy\"}"), "Configuration root type must be endpoint");
    let missing = "{\"type\":\"endpoint\",\"requests\":[{\"type\":\"proxy\",\"service\":\"ghost\",\"uri\":\"/a\"}]}";
    assert_eq!(config_err(missing), "Trying to use non declared service");
    let nouri = "{\"type\":\"endpoint\",\"services\":[{\"name\":\"s\",\"server\":\"x\"}],\"requests\":[{\"type\":\"proxy\",\"service\":\"s\"}]}";
    assert_eq!(config_err(nouri), "Every request must have uri");
}

#[test]
fn reload_with_invalid_document_keeps_prior_state() {
    let (tree, global) = parse_config(CONFIG).unwrap();
    let (tree, global, changed) = reload(tree, global, "{definitely not json");
    assert!(!changed);
    // The prior routing and service state is fully intact.
    let (node, rest) = tree.search("/agg".to_owned());
    assert_eq!(rest, "");
    assert!(node.value.is_some());
    assert!(global.services.get("svcA").is_some());
    assert_eq!(global.exposed.as_ref().unwrap().port, 4000);
    // A later valid reload replaces the generation.
    let smaller = "{\"type\":\"endpoint\",\"exposed\":{\"port\":5000}}";
    let (tree, global, changed) = reload(tree, global, smaller);
    assert!(changed);
    assert_eq!(global.exposed.as_ref().unwrap().port, 5000);
    let (node, _rest) = tree.search("/agg".to_owned());
    assert!(node.value.is_none());
}

#[test]
fn reload_rejects_half_valid_document() {
    let (tree, global) = parse_config(CONFIG).unwrap();
    // Valid JSON, but a service declaration is malformed: the prior state
    // stays.
    let bad = "{\"type\":\"endpoint\",\"services\":[{\"name\":\"s\"}]}";
    let (tree, global, changed) = reload(tree, global, bad);
    assert!(!changed);
    assert!(global.services.get("svcA").is_some());
    let (node, _rest) = tree.search("/a".to_owned());
    assert!(node.value.is_some());
}

#[test]
fn blank_and_empty_states_match() {
    let a = GlobalState::blank();
    let b = GlobalState::empty();
    assert!(a.exposed.is_none() && b.exposed.is_none());
    assert_eq!(a.services.pairs.len(), 0);
    assert_eq!(b.services.pairs.len(), 0);
}
