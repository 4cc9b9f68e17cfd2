//! The component execution engine: proxy request shaping, chain data-flow,
//! and the per-request evaluation state machine.
//!
//! Evaluation of a component tree alternates pure decisions with upstream
//! exchanges, so the engine is a state machine: [`start`] descends to the
//! first proxy leaf and says what to send; each upstream response is handed
//! back through [`on_response`], which applies the pending chain's placement
//! rules and descends into its `to` side, until the final response text is
//! ready. The caller performs the socket work between steps; every decision
//! in between is verified against the spec-level transition functions.

use vstd::prelude::*;

use crate::json::{Json, JsonV, jv_get_path, PathSeg, spec_merge};
use crate::jsontext::{jv_text, parse_text, spec_parse_text, to_text};
use crate::kv::{seq_find, StrMap};
use crate::model::{ChainComponent, ChainComponentPlace, Component, ProxyComponent, RuleFrom, RuleInto, Service, ServiceMap};
use crate::strutil::{join_seq, merge_paths, merged_path, path_segs, split_path};
use crate::wire::{build_request, fold_headers, sp_response, spec_build_request, Response, WireError};
use vstd::string::StrSliceExecFns;
use vstd::string::StringExecFns;

verus! {

/// Why an evaluation failed.
#[derive(Debug, PartialEq, Eq)]
pub enum EngineError {
    /// A proxy names a service the registry does not hold.
    UnknownService,
    /// The caller's body was declared JSON but does not parse, so it cannot
    /// be merged with the service's default body.
    BadBody,
    /// An upstream response inside a chain had a status class other than
    /// 2xx; the chain is aborted.
    UpstreamStatus(i64),
    /// An upstream response inside a chain was malformed.
    Upstream(WireError),
    /// An upstream response body inside a chain is not JSON, so placement
    /// rules cannot read it.
    BadUpstreamBody,
    /// The component (an exposed root marker) is not executable.
    NotExecutable,
}

/// The mathematical view of an engine action.
pub enum ActionV {
    /// Open a connection to `host:port`, send `text`, and hand back the
    /// response text.
    Send { host: Seq<char>, port: u16, text: Seq<char> },
    /// The final response text for the client.
    Respond { text: Seq<char> },
    /// Serve a file under `base` (falling back to its `index`); the file
    /// system is the caller's business.
    ServeStatic { base: Seq<char>, index: Seq<char> },
    /// Evaluation failed.
    Fail { err: EngineError },
}

/// What the engine asks its caller to do next.
pub enum Action {
    /// Open a connection to `host:port`, send `text`, and hand the response
    /// text back through `on_response`.
    Send { host: String, port: u16, text: String },
    /// The final response text for the client.
    Respond { text: String },
    /// Serve a file under `base` (falling back to its `index`).
    ServeStatic { base: String, index: String },
    /// Evaluation failed.
    Fail { err: EngineError },
}

impl Action {
    /// The mathematical view.
    pub open spec fn deep(self) -> ActionV {
        match self {
            Action::Send { host, port, text } => ActionV::Send { host: host@, port, text: text@ },
            Action::Respond { text } => ActionV::Respond { text: text@ },
            Action::ServeStatic { base, index } => ActionV::ServeStatic {
                base: base@,
                index: index@,
            },
            Action::Fail { err } => ActionV::Fail { err },
        }
    }
}

/// The four header names that survive from the caller when a service does
/// not pass headers through.
pub open spec fn allowed_names() -> Seq<Seq<char>> {
    seq!["Connection"@, "Host"@, "Accept"@, "Content-Type"@]
}

/// The effective upstream path: the service's default path alone, or the
/// caller's remainder followed by the default path when `url` is enabled.
pub open spec fn proxy_path(svc: Service, remained: Seq<char>) -> Seq<char> {
    if svc.uses_flag("url"@) {
        merged_path(remained, svc.sets.path@)
    } else {
        join_seq(path_segs(svc.sets.path@), '/')
    }
}

/// The caller headers the service lets through: all of them when `headers`
/// is enabled, only the allow-list otherwise.
pub open spec fn proxy_base_headers(
    svc: Service,
    headers: Seq<(Seq<char>, Seq<char>)>,
) -> Seq<(Seq<char>, Seq<char>)> {
    if svc.uses_flag("headers"@) {
        headers
    } else {
        headers.filter(|p: (Seq<char>, Seq<char>)| allowed_names().contains(p.0))
    }
}

/// The headers actually sent: the let-through caller headers with the
/// service's default headers applied on top, always overwriting.
pub open spec fn proxy_headers(
    svc: Service,
    headers: Seq<(Seq<char>, Seq<char>)>,
) -> Seq<(Seq<char>, Seq<char>)> {
    fold_headers(proxy_base_headers(svc, headers), svc.sets.headers.entries())
}

/// The body actually sent: the service's default body when `body` is not
/// enabled; the caller's JSON body deep-merged with the default when the
/// content type is JSON; the caller's body verbatim otherwise. An
/// unparseable JSON body is an error.
pub open spec fn proxy_body(
    svc: Service,
    base_headers: Seq<(Seq<char>, Seq<char>)>,
    body: Seq<char>,
) -> Result<Seq<char>, EngineError> {
    if !svc.uses_flag("body"@) {
        Ok(jv_text(svc.sets.body.deep()))
    } else if seq_find(base_headers, "Content-Type"@) == Some("application/json"@) {
        match spec_parse_text(body) {
            Some(j) => Ok(jv_text(spec_merge(j, svc.sets.body.deep()))),
            None => Err(EngineError::BadBody),
        }
    } else {
        Ok(body)
    }
}

/// The full wire text of the upstream request a proxy sends.
pub open spec fn spec_proxy_request(
    svc: Service,
    method: Seq<char>,
    remained: Seq<char>,
    headers: Seq<(Seq<char>, Seq<char>)>,
    body: Seq<char>,
) -> Result<Seq<char>, EngineError> {
    match proxy_body(svc, proxy_base_headers(svc, headers), body) {
        Err(e) => Err(e),
        Ok(b) => Ok(
            spec_build_request(method, proxy_path(svc, remained), proxy_headers(svc, headers), b),
        ),
    }
}

/// `host:port` of a service.
pub fn build_request_url(service: &Service) -> (r: String)
    ensures
        r@ == service.server@ + seq![':'] + crate::strutil::dec_seq(service.port as nat),
{
    let mut uri = service.server.clone();
    crate::bridge::push_char(&mut uri, ':');
    let p = crate::strutil::u64_to_string(service.port as u64);
    uri.append(p.as_str());
    uri
}

/// Shape the upstream request for a proxy dispatch: the effective path,
/// headers, and body per the service's `uses` flags, encoded as wire text.
pub fn build_proxy_request(
    service: &Service,
    method: &str,
    remained_uri: &str,
    headers: &StrMap,
    body: &str,
) -> (r: Result<String, EngineError>)
    requires
        headers.wf(),
    ensures
        match r {
            Ok(text) => spec_proxy_request(*service, method@, remained_uri@, headers.entries(), body@)
                == Ok::<Seq<char>, EngineError>(text@),
            Err(e) => spec_proxy_request(
                *service,
                method@,
                remained_uri@,
                headers.entries(),
                body@,
            ) == Err::<Seq<char>, EngineError>(e),
        },
{
    // Path.
    let path: String = if service.has_use("url") {
        merge_paths(remained_uri.to_owned(), service.sets.path.clone())
    } else {
        let segs = split_path(service.sets.path.clone());
        let joined = crate::strutil::join_from(&segs, 0, '/');
        proof {
            assert(segs@.map_values(|t: String| t@).skip(0) =~= path_segs(service.sets.path@));
        }
        joined
    };
    proof {
        assert(path@ == proxy_path(*service, remained_uri@));
    }
    // Let-through caller headers.
    let base: StrMap = if service.has_use("headers") {
        headers.duplicate()
    } else {
        let mut allowed: Vec<String> = Vec::new();
        allowed.push("Connection".to_owned());
        allowed.push("Host".to_owned());
        allowed.push("Accept".to_owned());
        allowed.push("Content-Type".to_owned());
        proof {
            assert(allowed@.map_values(|a: String| a@) =~= allowed_names());
        }
        headers.retain_keys(&allowed)
    };
    proof {
        assert(base.entries() == proxy_base_headers(*service, headers.entries()));
    }
    // Body.
    let sent_body: String = if !service.has_use("body") {
        to_text(&service.sets.body)
    } else {
        let is_json = match base.get("Content-Type") {
            Some(v) => crate::strutil::str_eq(v.as_str(), "application/json"),
            None => false,
        };
        if is_json {
            match parse_text(body) {
                Some(parsed) => {
                    let merged = crate::json::merge_body(&parsed, &service.sets.body);
                    to_text(&merged)
                },
                None => {
                    return Err(EngineError::BadBody);
                },
            }
        } else {
            body.to_owned()
        }
    };
    // Default headers on top, always overwriting.
    let mut sent_headers = base;
    let ghost base0 = sent_headers.entries();
    proof {
        assert(service.sets.headers.entries().skip(0) =~= service.sets.headers.entries());
    }
    let n = service.sets.headers.len();
    let mut i: usize = 0;
    while i < n
        invariant
            n == service.sets.headers.entries().len(),
            i <= n,
            sent_headers.wf(),
            fold_headers(base0, service.sets.headers.entries()) == fold_headers(
                sent_headers.entries(),
                service.sets.headers.entries().skip(i as int),
            ),
        decreases n - i,
    {
        let ghost defs = service.sets.headers.entries();
        let k = service.sets.headers.key_at(i).clone();
        let v = service.sets.headers.val_at(i).clone();
        sent_headers.insert(k, v);
        proof {
            assert(defs.skip(i as int)[0] == defs[i as int]);
            assert(defs.skip(i as int).skip(1) =~= defs.skip(i as int + 1));
        }
        i += 1;
    }
    proof {
        assert(service.sets.headers.entries().skip(n as int) =~= Seq::<
            (Seq<char>, Seq<char>),
        >::empty());
        assert(sent_headers.entries() == proxy_headers(*service, headers.entries()));
    }
    Ok(build_request(method, path.as_str(), &sent_headers, sent_body.as_str()))
}

/// Law: a service with no `uses` flags ignores the caller's URI and body
/// entirely, and of the caller's headers only the four allow-listed names
/// can matter: two requests whose headers agree on the allow-list produce
/// the same upstream text, whatever their URIs, bodies, and other headers.
pub proof fn lemma_uses_empty_ignores_caller(
    svc: Service,
    method: Seq<char>,
    r1: Seq<char>,
    h1: Seq<(Seq<char>, Seq<char>)>,
    b1: Seq<char>,
    r2: Seq<char>,
    h2: Seq<(Seq<char>, Seq<char>)>,
    b2: Seq<char>,
)
    requires
        svc.uses@.len() == 0,
        h1.filter(|p: (Seq<char>, Seq<char>)| allowed_names().contains(p.0)) == h2.filter(
            |p: (Seq<char>, Seq<char>)| allowed_names().contains(p.0),
        ),
    ensures
        spec_proxy_request(svc, method, r1, h1, b1) == spec_proxy_request(svc, method, r2, h2, b2),
        spec_proxy_request(svc, method, r1, h1, b1) is Ok,
{
    assert(!svc.uses_flag("url"@));
    assert(!svc.uses_flag("headers"@));
    assert(!svc.uses_flag("body"@));
}

/// Law: a service with `url` enabled sends the caller's remainder segments
/// followed by its own default path segments.
pub proof fn lemma_uses_url_appends_remainder(svc: Service, remained: Seq<char>)
    requires
        svc.uses_flag("url"@),
    ensures
        proxy_path(svc, remained) == join_seq(
            path_segs(remained) + path_segs(svc.sets.path@),
            '/',
        ),
{
}

/// A hexadecimal digit character.
pub open spec fn hex_char(d: nat) -> char {
    if d < 10 {
        crate::strutil::digit_char(d)
    } else if d == 10 {
        'a'
    } else if d == 11 {
        'b'
    } else if d == 12 {
        'c'
    } else if d == 13 {
        'd'
    } else if d == 14 {
        'e'
    } else {
        'f'
    }
}

/// The JSON escape of one character: quote and backslash are escaped, other
/// control characters become `\u00XX`, everything else stands as itself.
pub open spec fn esc_char(c: char) -> Seq<char> {
    if c == '"' {
        seq!['\\', '"']
    } else if c == '\\' {
        seq!['\\', '\\']
    } else if c == '\n' {
        seq!['\\', 'n']
    } else if c == '\r' {
        seq!['\\', 'r']
    } else if c == '\t' {
        seq!['\\', 't']
    } else if (c as u32) < 32 {
        seq!['\\', 'u', '0', '0', hex_char((c as u32 / 16) as nat), hex_char(
            (c as u32 % 16) as nat,
        )]
    } else {
        seq![c]
    }
}

/// The JSON escape of a string, character by character.
pub open spec fn escape_json(s: Seq<char>) -> Seq<char>
    decreases s.len(),
{
    if s.len() == 0 {
        Seq::<char>::empty()
    } else {
        escape_json(s.drop_last()) + esc_char(s.last())
    }
}

fn hex_exec(d: u32) -> (c: char)
    requires
        d < 16,
    ensures
        c == hex_char(d as nat),
{
    match d {
        0 => '0',
        1 => '1',
        2 => '2',
        3 => '3',
        4 => '4',
        5 => '5',
        6 => '6',
        7 => '7',
        8 => '8',
        9 => '9',
        10 => 'a',
        11 => 'b',
        12 => 'c',
        13 => 'd',
        14 => 'e',
        _ => 'f',
    }
}

/// Escape a string for use as JSON string-literal contents.
pub fn escape_json_exec(s: &str) -> (r: String)
    ensures
        r@ == escape_json(s@),
{
    let n = s.unicode_len();
    let mut r = String::new();
    let mut i: usize = 0;
    while i < n
        invariant
            n == s@.len(),
            i <= n,
            r@ == escape_json(s@.take(i as int)),
        decreases n - i,
    {
        proof {
            assert(s@.take(i as int + 1).drop_last() =~= s@.take(i as int));
            assert(s@.take(i as int + 1).last() == s@[i as int]);
        }
        let c = s.get_char(i);
        if c == '"' {
            crate::bridge::push_char(&mut r, '\\');
            crate::bridge::push_char(&mut r, '"');
        } else if c == '\\' {
            crate::bridge::push_char(&mut r, '\\');
            crate::bridge::push_char(&mut r, '\\');
        } else if c == '\n' {
            crate::bridge::push_char(&mut r, '\\');
            crate::bridge::push_char(&mut r, 'n');
        } else if c == '\r' {
            crate::bridge::push_char(&mut r, '\\');
            crate::bridge::push_char(&mut r, 'r');
        } else if c == '\t' {
            crate::bridge::push_char(&mut r, '\\');
            crate::bridge::push_char(&mut r, 't');
        } else if (c as u32) < 32 {
            crate::bridge::push_char(&mut r, '\\');
            crate::bridge::push_char(&mut r, 'u');
            crate::bridge::push_char(&mut r, '0');
            crate::bridge::push_char(&mut r, '0');
            crate::bridge::push_char(&mut r, hex_exec((c as u32) / 16));
            crate::bridge::push_char(&mut r, hex_exec((c as u32) % 16));
        } else {
            crate::bridge::push_char(&mut r, c);
        }
        proof {
            assert(r@ =~= escape_json(s@.take(i as int)) + esc_char(s@[i as int]));
        }
        i += 1;
    }
    proof {
        assert(s@.take(n as int) =~= s@);
    }
    r
}

/// A placement-rule value as a JSON string-literal body text.
pub open spec fn quoted(v: Seq<char>) -> Seq<char> {
    seq!['"'] + escape_json(v) + seq!['"']
}

/// The value a placement rule reads: a response header (the literal
/// `undefined` when absent), a path into the response body (serialized back
/// to text), or a store key (keeping `undefined` when absent).
pub open spec fn rule_value(
    rule: ChainComponentPlace,
    resp_headers: Seq<(Seq<char>, Seq<char>)>,
    resp_body: JsonV,
    store: Seq<(Seq<char>, Seq<char>)>,
) -> Seq<char> {
    match rule.from {
        RuleFrom::Header(h) => match seq_find(resp_headers, h@) {
            Some(v) => v,
            None => "undefined"@,
        },
        RuleFrom::Body(path) => jv_text(
            jv_get_path(resp_body, path@.map_values(|g: PathSeg| g.deep())),
        ),
        RuleFrom::Store(k) => match seq_find(store, k@) {
            Some(v) => v,
            None => "undefined"@,
        },
    }
}

/// Apply the placement rules in order. Rules read the original decoded
/// response body, but see earlier rules' header and store writes; the last
/// body-targeting rule's value is the pending body replacement.
pub open spec fn apply_rules(
    rules: Seq<ChainComponentPlace>,
    resp_headers: Seq<(Seq<char>, Seq<char>)>,
    resp_body: JsonV,
    headers: Seq<(Seq<char>, Seq<char>)>,
    store: Seq<(Seq<char>, Seq<char>)>,
    pending: Option<Seq<char>>,
) -> (Seq<(Seq<char>, Seq<char>)>, Seq<(Seq<char>, Seq<char>)>, Option<Seq<char>>)
    decreases rules.len(),
{
    if rules.len() == 0 {
        (headers, store, pending)
    } else {
        let v = rule_value(rules[0], resp_headers, resp_body, store);
        let (h2, s2, p2) = match rules[0].into {
            RuleInto::Header(h) => (crate::kv::seq_upsert(headers, h@, v), store, pending),
            RuleInto::Body => (headers, store, Some(v)),
            RuleInto::Store(k) => (headers, crate::kv::seq_upsert(store, k@, v), pending),
        };
        apply_rules(rules.skip(1), resp_headers, resp_body, h2, s2, p2)
    }
}

/// Apply the placement rules of one chain step.
fn apply_rules_exec(
    rules: &Vec<ChainComponentPlace>,
    resp: &Response,
    resp_body: &Json,
    headers: StrMap,
    store: StrMap,
) -> (r: (StrMap, StrMap, Option<String>))
    requires
        headers.wf(),
        store.wf(),
    ensures
        ({
            let (h, s, p) = apply_rules(
                rules@,
                resp.headers.entries(),
                resp_body.deep(),
                headers.entries(),
                store.entries(),
                None,
            );
            r.0.entries() == h && r.1.entries() == s && (match (r.2, p) {
                (Some(v), Some(w)) => v@ == w,
                (None, None) => true,
                _ => false,
            }) && r.0.wf() && r.1.wf()
        }),
{
    let ghost rh = resp.headers.entries();
    let ghost rb = resp_body.deep();
    let mut h = headers;
    let mut s = store;
    let mut pending: Option<String> = None;
    proof {
        assert(rules@.skip(0) =~= rules@);
    }
    let mut i: usize = 0;
    while i < rules.len()
        invariant
            i <= rules@.len(),
            h.wf(),
            s.wf(),
            rh == resp.headers.entries(),
            rb == resp_body.deep(),
            apply_rules(rules@, rh, rb, headers.entries(), store.entries(), None) == apply_rules(
                rules@.skip(i as int),
                rh,
                rb,
                h.entries(),
                s.entries(),
                match pending {
                    Some(v) => Some(v@),
                    None => None,
                },
            ),
        decreases rules@.len() - i,
    {
        proof {
            assert(rules@.skip(i as int)[0] == rules@[i as int]);
            assert(rules@.skip(i as int).skip(1) =~= rules@.skip(i as int + 1));
        }
        // Resolve the value.
        let value: String = match &rules[i].from {
            RuleFrom::Header(name) => match resp.headers.get(name.as_str()) {
                Some(v) => v.clone(),
                None => "undefined".to_owned(),
            },
            RuleFrom::Body(path) => {
                let ghost segs = path@.map_values(|g: PathSeg| g.deep());
                let mut cur: Json = resp_body.duplicate();
                let mut t: usize = 0;
                while t < path.len()
                    invariant
                        t <= path@.len(),
                        segs == path@.map_values(|g: PathSeg| g.deep()),
                        cur.deep() == jv_get_path(rb, segs.take(t as int)),
                        rb == resp_body.deep(),
                    decreases path@.len() - t,
                {
                    proof {
                        assert(segs.take(t as int + 1).drop_last() =~= segs.take(t as int));
                        assert(segs.take(t as int + 1).last() == segs[t as int]);
                        assert(segs[t as int] == path@[t as int].deep());
                    }
                    cur = apply_seg_exec(cur, &path[t]);
                    t += 1;
                }
                proof {
                    assert(segs.take(segs.len() as int) =~= segs);
                }
                to_text(&cur)
            },
            RuleFrom::Store(key) => match s.get(key.as_str()) {
                Some(v) => v.clone(),
                None => "undefined".to_owned(),
            },
        };
        proof {
            assert(value@ == rule_value(rules@[i as int], rh, rb, s.entries()));
        }
        // Write it.
        match &rules[i].into {
            RuleInto::Header(name) => {
                h.insert(name.clone(), value);
            },
            RuleInto::Body => {
                pending = Some(value);
            },
            RuleInto::Store(key) => {
                s.insert(key.clone(), value);
            },
        }
        i += 1;
    }
    proof {
        assert(rules@.skip(rules@.len() as int) =~= Seq::<ChainComponentPlace>::empty());
    }
    (h, s, pending)
}

/// The mathematical view of a pending chain frame: the chain whose `from`
/// side is being evaluated, and the headers at that chain's level.
pub struct FrameV {
    pub chain: ChainComponent,
    pub headers: Seq<(Seq<char>, Seq<char>)>,
}

/// A pending chain whose `from` side is being evaluated.
pub struct Frame<'a> {
    pub chain: &'a ChainComponent,
    pub headers: StrMap,
}

impl<'a> Frame<'a> {
    /// The mathematical view.
    pub open spec fn deep(self) -> FrameV {
        FrameV { chain: *self.chain, headers: self.headers.entries() }
    }
}

/// The evaluation state between upstream exchanges: the request's method and
/// unconsumed path remainder (fixed for the whole evaluation), the
/// per-request store, and the stack of pending chains, innermost last.
pub struct Engine<'a> {
    pub method: String,
    pub uri: String,
    pub store: StrMap,
    pub frames: Vec<Frame<'a>>,
}

impl<'a> Engine<'a> {
    /// The views of the frame stack, innermost last.
    pub open spec fn frames_deep(self) -> Seq<FrameV> {
        self.frames@.map_values(|f: Frame<'a>| f.deep())
    }

    /// Header maps and the store have unique keys.
    pub open spec fn wf(self) -> bool {
        self.store.wf() && forall|i: int|
            0 <= i < self.frames@.len() ==> (#[trigger] self.frames@[i]).headers.wf()
    }
}

/// Descend along `from` sides to the first executable leaf: what the frame
/// stack becomes and which action the leaf asks for. A chain pushes a frame
/// remembering its level's headers and continues into its `from`; a proxy
/// shapes its upstream request; an exposed root is not executable; a static
/// component hands the joined file path out.
pub open spec fn spec_descend(
    c: Component,
    services: ServiceMap,
    method: Seq<char>,
    uri: Seq<char>,
    headers: Seq<(Seq<char>, Seq<char>)>,
    body: Seq<char>,
    frames: Seq<FrameV>,
) -> (Seq<FrameV>, ActionV)
    decreases c,
{
    match c {
        Component::Proxy(p) => match services.spec_get(p.service_name@) {
            None => (frames, ActionV::Fail { err: EngineError::UnknownService }),
            Some(svc) => match spec_proxy_request(svc, method, uri, headers, body) {
                Ok(text) => (
                    frames,
                    ActionV::Send { host: svc.server@, port: svc.port, text },
                ),
                Err(e) => (frames, ActionV::Fail { err: e }),
            },
        },
        Component::Chain(ch) => spec_descend(
            *ch.from,
            services,
            method,
            uri,
            headers,
            body,
            frames.push(FrameV { chain: ch, headers }),
        ),
        Component::Exposed(_) => (frames, ActionV::Fail { err: EngineError::NotExecutable }),
        Component::Static(st) => (
            frames,
            ActionV::ServeStatic { base: merged_path(st.path@, uri), index: st.index@ },
        ),
    }
}

/// One chain step after an upstream response arrived, and the descent that
/// follows it: pop the innermost frame; a non-2xx or malformed response
/// aborts the whole evaluation; otherwise the placement rules run over the
/// decoded response and the `to` side is entered with the mutated headers,
/// the piped (or rule-replaced) body, and the carried-forward store. With no
/// frame pending, the response text is the final answer.
pub open spec fn spec_on_response(
    frames: Seq<FrameV>,
    services: ServiceMap,
    method: Seq<char>,
    uri: Seq<char>,
    store: Seq<(Seq<char>, Seq<char>)>,
    resp: Seq<char>,
) -> (Seq<FrameV>, Seq<(Seq<char>, Seq<char>)>, ActionV) {
    if frames.len() == 0 {
        (frames, store, ActionV::Respond { text: resp })
    } else {
        let f = frames.last();
        let rest = frames.drop_last();
        match sp_response(resp) {
            Err(WireError::NonSuccess(code)) => (
                rest,
                store,
                ActionV::Fail { err: EngineError::UpstreamStatus(code) },
            ),
            Err(e) => (rest, store, ActionV::Fail { err: EngineError::Upstream(e) }),
            Ok((code, status, rheaders, rbody)) => match spec_parse_text(rbody) {
                None => (rest, store, ActionV::Fail { err: EngineError::BadUpstreamBody }),
                Some(bv) => {
                    let (h2, s2, pend) = apply_rules(
                        f.chain.place@,
                        rheaders,
                        bv,
                        f.headers,
                        store,
                        None,
                    );
                    let body2 = match pend {
                        Some(v) => quoted(v),
                        None => jv_text(bv),
                    };
                    let (frames2, action) = spec_descend(
                        *f.chain.to,
                        services,
                        method,
                        uri,
                        h2,
                        body2,
                        rest,
                    );
                    (frames2, s2, action)
                },
            },
        }
    }
}

/// Law: a non-2xx upstream response inside a chain aborts the evaluation
/// with an upstream error; in particular the chain's `to` side is never
/// entered and nothing further is sent.
pub proof fn lemma_non_success_aborts(
    frames: Seq<FrameV>,
    services: ServiceMap,
    method: Seq<char>,
    uri: Seq<char>,
    store: Seq<(Seq<char>, Seq<char>)>,
    resp: Seq<char>,
    code: i64,
)
    requires
        frames.len() > 0,
        sp_response(resp) == Err::<
            (int, Seq<char>, Seq<(Seq<char>, Seq<char>)>, Seq<char>),
            WireError,
        >(WireError::NonSuccess(code)),
    ensures
        spec_on_response(frames, services, method, uri, store, resp).2 == (ActionV::Fail {
            err: EngineError::UpstreamStatus(code),
        }),
        spec_on_response(frames, services, method, uri, store, resp).1 == store,
{
}

/// Law: a chain of two proxies, end to end. Starting a request on
/// `Chain(Proxy(a), Proxy(b), rules)` first sends `a`'s request, shaped
/// from the original method, remainder, headers and body. Handing back a
/// success reply whose body is JSON applies the placement rules to the
/// decoded reply and sends `b`'s request, shaped from the rule-mutated
/// headers and the piped (or rule-replaced) body, with no chain left
/// pending. Handing back `b`'s reply then returns it, raw, as the final
/// response.
pub proof fn lemma_chain_end_to_end(
    ch: ChainComponent,
    pa: ProxyComponent,
    pb: ProxyComponent,
    services: ServiceMap,
    method: Seq<char>,
    uri: Seq<char>,
    headers: Seq<(Seq<char>, Seq<char>)>,
    body: Seq<char>,
    svc_a: Service,
    svc_b: Service,
    req_a: Seq<char>,
    resp_a: Seq<char>,
    resp_b: Seq<char>,
    store_b: Seq<(Seq<char>, Seq<char>)>,
)
    requires
        *ch.from == Component::Proxy(pa),
        *ch.to == Component::Proxy(pb),
        services.spec_get(pa.service_name@) == Some(svc_a),
        services.spec_get(pb.service_name@) == Some(svc_b),
        spec_proxy_request(svc_a, method, uri, headers, body) == Ok::<Seq<char>, EngineError>(
            req_a,
        ),
    ensures
        spec_descend(
            Component::Chain(ch),
            services,
            method,
            uri,
            headers,
            body,
            Seq::<FrameV>::empty(),
        ) == (
            seq![FrameV { chain: ch, headers }],
            ActionV::Send { host: svc_a.server@, port: svc_a.port, text: req_a },
        ),
        (sp_response(resp_a) matches Ok(p) && spec_parse_text(p.3) is Some) ==> {
            let p = sp_response(resp_a)->Ok_0;
            let bv = spec_parse_text(p.3)->Some_0;
            let (h2, s2, pend) = apply_rules(
                ch.place@,
                p.2,
                bv,
                headers,
                Seq::<(Seq<char>, Seq<char>)>::empty(),
                None,
            );
            let body2 = match pend {
                Some(v) => quoted(v),
                None => jv_text(bv),
            };
            match spec_proxy_request(svc_b, method, uri, h2, body2) {
                Ok(req_b) => spec_on_response(
                    seq![FrameV { chain: ch, headers }],
                    services,
                    method,
                    uri,
                    Seq::<(Seq<char>, Seq<char>)>::empty(),
                    resp_a,
                ) == (
                    Seq::<FrameV>::empty(),
                    s2,
                    ActionV::Send { host: svc_b.server@, port: svc_b.port, text: req_b },
                ),
                Err(e) => spec_on_response(
                    seq![FrameV { chain: ch, headers }],
                    services,
                    method,
                    uri,
                    Seq::<(Seq<char>, Seq<char>)>::empty(),
                    resp_a,
                ).2 == (ActionV::Fail { err: e }),
            }
        },
        spec_on_response(Seq::<FrameV>::empty(), services, method, uri, store_b, resp_b) == (
            Seq::<FrameV>::empty(),
            store_b,
            ActionV::Respond { text: resp_b },
        ),
{
    let f = FrameV { chain: ch, headers };
    assert(Seq::<FrameV>::empty().push(f) =~= seq![f]);
    assert(spec_descend(
        Component::Chain(ch),
        services,
        method,
        uri,
        headers,
        body,
        Seq::<FrameV>::empty(),
    ) == spec_descend(*ch.from, services, method, uri, headers, body, seq![f]));
    assert(spec_descend(Component::Proxy(pa), services, method, uri, headers, body, seq![f]) == (
        seq![f],
        ActionV::Send { host: svc_a.server@, port: svc_a.port, text: req_a },
    ));
    let fr = seq![f];
    assert(fr.last() == f);
    assert(fr.drop_last() =~= Seq::<FrameV>::empty());
}

/// Descend from `comp` to the first executable leaf, pushing chain frames.
#[verifier::loop_isolation(false)]
fn descend<'a>(
    eng: Engine<'a>,
    services: &ServiceMap,
    comp: &'a Component,
    headers: StrMap,
    body: String,
) -> (r: (Engine<'a>, Action))
    requires
        eng.wf(),
        headers.wf(),
    ensures
        ({
            let (frames2, action) = spec_descend(
                *comp,
                *services,
                eng.method@,
                eng.uri@,
                headers.entries(),
                body@,
                eng.frames_deep(),
            );
            r.0.frames_deep() == frames2 && r.1.deep() == action && r.0.wf() && r.0.method
                == eng.method && r.0.uri == eng.uri && r.0.store == eng.store
        }),
{
    let ghost target = spec_descend(
        *comp,
        *services,
        eng.method@,
        eng.uri@,
        headers.entries(),
        body@,
        eng.frames_deep(),
    );
    let ghost m0 = eng.method;
    let ghost u0 = eng.uri;
    let ghost st0 = eng.store;
    let mut eng = eng;
    let mut comp = comp;
    loop
        invariant
            eng.wf(),
            headers.wf(),
            eng.method == m0,
            eng.uri == u0,
            eng.store == st0,
            spec_descend(
                *comp,
                *services,
                m0@,
                u0@,
                headers.entries(),
                body@,
                eng.frames_deep(),
            ) == target,
        decreases *comp,
    {
        match comp {
            Component::Proxy(p) => {
                let action = match services.get(p.service_name.as_str()) {
                    None => Action::Fail { err: EngineError::UnknownService },
                    Some(svc) => {
                        match build_proxy_request(
                            svc,
                            eng.method.as_str(),
                            eng.uri.as_str(),
                            &headers,
                            body.as_str(),
                        ) {
                            Ok(text) => Action::Send {
                                host: svc.server.clone(),
                                port: svc.port,
                                text,
                            },
                            Err(e) => Action::Fail { err: e },
                        }
                    },
                };
                return (eng, action);
            },
            Component::Chain(ch) => {
                let ghost frames0 = eng.frames_deep();
                let fheaders = headers.duplicate();
                eng.frames.push(Frame { chain: ch, headers: fheaders });
                proof {
                    assert(eng.frames_deep() =~= frames0.push(
                        FrameV { chain: *ch, headers: headers.entries() },
                    ));
                    assert forall|i: int| 0 <= i < eng.frames@.len() implies (
                    #[trigger] eng.frames@[i]).headers.wf() by {
                        if i < eng.frames@.len() - 1 {
                            assert(eng.frames@[i] == eng.frames@.drop_last()[i]);
                        }
                    }
                }
                comp = &ch.from;
            },
            Component::Exposed(_) => {
                return (eng, Action::Fail { err: EngineError::NotExecutable });
            },
            Component::Static(st) => {
                let base = merge_paths(st.path.clone(), eng.uri.clone());
                return (eng, Action::ServeStatic { base, index: st.index.clone() });
            },
        }
    }
}

impl<'a> Engine<'a> {
    /// Begin evaluating `component` for a request: the initial engine state
    /// and the first action.
    pub fn start(
        component: &'a Component,
        services: &ServiceMap,
        method: String,
        uri: String,
        headers: StrMap,
        body: String,
    ) -> (r: (Engine<'a>, Action))
        requires
            headers.wf(),
        ensures
            ({
                let (frames2, action) = spec_descend(
                    *component,
                    *services,
                    method@,
                    uri@,
                    headers.entries(),
                    body@,
                    Seq::<FrameV>::empty(),
                );
                r.0.frames_deep() == frames2 && r.1.deep() == action && r.0.wf() && r.0.method@
                    == method@ && r.0.uri@ == uri@ && r.0.store.entries() == Seq::<
                    (Seq<char>, Seq<char>),
                >::empty()
            }),
    {
        let eng = Engine { method, uri, store: StrMap::new(), frames: Vec::new() };
        proof {
            assert(eng.frames_deep() =~= Seq::<FrameV>::empty());
        }
        descend(eng, services, component, headers, body)
    }

    /// Hand an upstream response text back: the next engine state and
    /// action. With no chain pending this is the final response; inside a
    /// chain the placement rules run and evaluation continues on the `to`
    /// side.
    pub fn on_response(self, services: &ServiceMap, resp_text: &str) -> (r: (Engine<'a>, Action))
        requires
            self.wf(),
        ensures
            ({
                let (frames2, store2, action) = spec_on_response(
                    self.frames_deep(),
                    *services,
                    self.method@,
                    self.uri@,
                    self.store.entries(),
                    resp_text@,
                );
                r.0.frames_deep() == frames2 && r.0.store.entries() == store2 && r.1.deep()
                    == action && r.0.wf() && r.0.method == self.method && r.0.uri == self.uri
            }),
    {
        let ghost frames0 = self.frames_deep();
        let Engine { method, uri, store, mut frames } = self;
        if frames.len() == 0 {
            let text = resp_text.to_owned();
            return (Engine { method, uri, store, frames }, Action::Respond { text });
        }
        let frame = match frames.pop() {
            Some(f) => f,
            None => {
                // Unreachable: the stack is non-empty here.
                let text = resp_text.to_owned();
                return (Engine { method, uri, store, frames }, Action::Respond { text });
            },
        };
        proof {
            assert(frames@.map_values(|f: Frame<'a>| f.deep()) =~= frames0.drop_last());
            assert(frame.deep() == frames0.last());
        }
        let chain = frame.chain;
        let eng = Engine { method, uri, store, frames };
        proof {
            assert(eng.wf()) by {
                assert forall|i: int| 0 <= i < eng.frames@.len() implies (
                #[trigger] eng.frames@[i]).headers.wf() by {
                    assert(eng.frames@[i] == self.frames@[i]);
                }
            }
        }
        let resp = match Response::parse(resp_text) {
            Ok(resp) => resp,
            Err(e) => {
                let err = match e {
                    WireError::NonSuccess(code) => EngineError::UpstreamStatus(code),
                    other => EngineError::Upstream(other),
                };
                return (eng, Action::Fail { err });
            },
        };
        let body_json = match parse_text(resp.body.as_str()) {
            Some(j) => j,
            None => {
                return (eng, Action::Fail { err: EngineError::BadUpstreamBody });
            },
        };
        let Engine { method, uri, store, frames } = eng;
        proof {
            assert(frame.headers.wf()) by {
                assert(self.frames@[self.frames@.len() - 1] == frame);
            }
        }
        let (h2, s2, pend) = apply_rules_exec(
            &chain.place,
            &resp,
            &body_json,
            frame.headers,
            store,
        );
        let body2: String = match pend {
            Some(v) => {
                let mut b = String::new();
                crate::bridge::push_char(&mut b, '"');
                let esc = escape_json_exec(v.as_str());
                b.append(esc.as_str());
                crate::bridge::push_char(&mut b, '"');
                proof {
                    assert(b@ =~= quoted(v@));
                }
                b
            },
            None => to_text(&body_json),
        };
        let eng2 = Engine { method, uri, store: s2, frames };
        proof {
            assert(eng2.wf()) by {
                assert forall|i: int| 0 <= i < eng2.frames@.len() implies (
                #[trigger] eng2.frames@[i]).headers.wf() by {
                    assert(eng2.frames@[i] == self.frames@[i]);
                }
            }
        }
        descend(eng2, services, &chain.to, h2, body2)
    }
}
/// Lines joined by CRLF, with a CRLF CRLF terminator after the last.
pub open spec fn lines_text(ls: Seq<Seq<char>>) -> Seq<char> {
    joined_lines(ls) + crate::wire::crlf() + crate::wire::crlf()
}

/// Lines joined by CRLF, with no trailing CRLF.
pub open spec fn joined_lines(ls: Seq<Seq<char>>) -> Seq<char>
    decreases ls,
{
    if ls.len() == 0 {
        Seq::<char>::empty()
    } else if ls.len() == 1 {
        ls[0]
    } else {
        joined_lines(ls.drop_last()) + crate::wire::crlf() + ls.last()
    }
}

/// Accumulates the lines of an upstream response as the caller reads them.
/// The response is complete at the second blank line: the first blank line
/// ends the header block (and is kept), the second ends the body (and is
/// not). The caller also stops early when the connection ends.
pub struct UpstreamReader {
    pub lines: Vec<String>,
    pub in_body: bool,
    pub done: bool,
}

impl UpstreamReader {
    /// The lines collected so far.
    pub open spec fn collected(self) -> Seq<Seq<char>> {
        self.lines@.map_values(|l: String| l@)
    }

    pub fn new() -> (r: UpstreamReader)
        ensures
            r.collected() == Seq::<Seq<char>>::empty(),
            !r.in_body,
            !r.done,
    {
        let r = UpstreamReader { lines: Vec::new(), in_body: false, done: false };
        proof {
            assert(r.collected() =~= Seq::<Seq<char>>::empty());
        }
        r
    }

    /// Take one line; the result says whether the response is complete. A
    /// non-empty line, or the first empty one, is kept; the second empty
    /// line completes the response and is dropped.
    pub fn push_line(&mut self, line: String) -> (r: bool)
        requires
            !old(self).done,
        ensures
            r == final(self).done,
            line@.len() == 0 && old(self).in_body ==> final(self).done && final(self).collected()
                == old(self).collected(),
            line@.len() == 0 && !old(self).in_body ==> !final(self).done && final(self).in_body
                && final(self).collected() == old(self).collected().push(line@),
            line@.len() > 0 ==> !final(self).done && final(self).in_body == old(self).in_body
                && final(self).collected() == old(self).collected().push(line@),
    {
        let ghost c0 = self.collected();
        let empty = line.as_str().unicode_len() == 0;
        if empty {
            if self.in_body {
                self.done = true;
                return true;
            }
            self.in_body = true;
        }
        let ghost lv = line@;
        self.lines.push(line);
        proof {
            assert(self.collected() =~= c0.push(lv));
        }
        false
    }

    /// The accumulated raw response text: the lines joined by CRLF with a
    /// CRLF CRLF terminator.
    pub fn text(&self) -> (r: String)
        ensures
            r@ == lines_text(self.collected()),
    {
        let ghost ls = self.collected();
        let mut r = String::new();
        let mut i: usize = 0;
        while i < self.lines.len()
            invariant
                i <= self.lines@.len(),
                ls == self.collected(),
                ls.len() == self.lines@.len(),
                r@ == joined_lines(ls.take(i as int)),
            decreases self.lines@.len() - i,
        {
            proof {
                assert(ls.take(i as int + 1).drop_last() =~= ls.take(i as int));
                assert(ls.take(i as int + 1).last() == ls[i as int]);
                if i == 0 {
                    assert(ls.take(1)[0] == ls[0]);
                }
            }
            if i > 0 {
                crate::bridge::push_char(&mut r, '\r');
                crate::bridge::push_char(&mut r, '\n');
            }
            r.append(self.lines[i].as_str());
            proof {
                if i > 0 {
                    assert(r@ =~= joined_lines(ls.take(i as int)) + crate::wire::crlf()
                        + ls[i as int]);
                }
            }
            i += 1;
        }
        proof {
            assert(ls.take(ls.len() as int) =~= ls);
        }
        crate::bridge::push_char(&mut r, '\r');
        crate::bridge::push_char(&mut r, '\n');
        crate::bridge::push_char(&mut r, '\r');
        crate::bridge::push_char(&mut r, '\n');
        proof {
            assert(r@ =~= lines_text(ls));
        }
        r
    }
}

/// Apply one parsed path segment to a JSON value.
fn apply_seg_exec(cur: Json, seg: &PathSeg) -> (r: Json)
    ensures
        r.deep() == crate::json::jv_apply_seg(cur.deep(), seg.deep()),
{
    let ghost before = cur.deep();
    let mut cur = cur;
    // Field lookup.
    let next: Option<Json> = match &cur {
        Json::Obj(fields) => match crate::json::obj_find(fields, seg.name.as_str()) {
            Some(j) => Some(fields[j].1.duplicate()),
            None => None,
        },
        _ => None,
    };
    if let Some(nv) = next {
        cur = nv;
    }
    proof {
        assert(cur.deep() == crate::json::jv_get_field(before, seg.name@));
    }
    // Indices, left to right.
    let ghost fielded = cur.deep();
    let ghost idxs = seg.deep().1;
    let mut t: usize = 0;
    while t < seg.indices.len()
        invariant
            t <= seg.indices@.len(),
            idxs == seg.indices@.map_values(|u: usize| u as int),
            cur.deep() == crate::json::jv_apply_indices(fielded, idxs.take(t as int)),
        decreases seg.indices@.len() - t,
    {
        proof {
            assert(idxs.take(t as int + 1).drop_last() =~= idxs.take(t as int));
            assert(idxs.take(t as int + 1).last() == idxs[t as int]);
            assert(idxs[t as int] == seg.indices@[t as int] as int);
        }
        let idx = seg.indices[t];
        let ghost prev = cur.deep();
        let next: Option<Json> = match &cur {
            Json::Arr(elems) => {
                proof {
                    broadcast use crate::json::lemma_deep_elems_len;

                    assert(prev == JsonV::Arr(crate::json::deep_elems(elems@)));
                }
                if idx < elems.len() {
                    let d = elems[idx].duplicate();
                    proof {
                        assert(crate::json::jv_index(prev, idx as int)
                            == crate::json::deep_elems(elems@)[idx as int]);
                    }
                    Some(d)
                } else {
                    proof {
                        assert(crate::json::jv_index(prev, idx as int) == prev);
                    }
                    None
                }
            },
            _ => {
                proof {
                    assert(crate::json::jv_index(prev, idx as int) == prev);
                }
                None
            },
        };
        if let Some(nv) = next {
            cur = nv;
        }
        proof {
            assert(cur.deep() == crate::json::jv_index(prev, idxs[t as int]));
        }
        t += 1;
    }
    proof {
        assert(idxs.take(idxs.len() as int) =~= idxs);
    }
    cur
}

} // verus!
