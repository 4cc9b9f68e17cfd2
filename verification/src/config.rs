//! Configuration parsing: turning a JSON configuration document into the
//! routing trie and the service registry, and the reload rule that keeps the
//! prior generation when a new document is rejected.

use vstd::prelude::*;

use crate::bridge::fresh_name;
use crate::json::{
    jv_as_i64, jv_field, parse_path, parse_path_spec, Json, JsonV, PathSeg,
};
use crate::jsontext::{parse_text, spec_parse_text};
use crate::model::{
    ChainComponent, ChainComponentPlace, Component, Exposed, GlobalState, ProxyComponent,
    RuleFrom, RuleInto, Service, ServiceMap, ServiceRun, ServiceSets, StaticComponent,
};
use crate::kv::StrMap;
use crate::strutil::str_eq;
use crate::trie::{nv_empty, spec_insert, Node, NodeV};
use vstd::string::StrSliceExecFns;
use vstd::string::StringExecFns;

verus! {

/// The parsed `exposed` block: host (default `0.0.0.0`) and port (default
/// 3000); a non-string host or a non-integer port is a configuration error.
pub open spec fn spec_exposed(v: JsonV) -> Result<(Seq<char>, int), Seq<char>> {
    let host: Result<Seq<char>, Seq<char>> = match jv_field(v, "host"@) {
        None => Ok("0.0.0.0"@),
        Some(hv) => match hv {
            JsonV::Str(s) => Ok(s),
            _ => Err("Host must be string"@),
        },
    };
    match host {
        Err(e) => Err(e),
        Ok(h) => match jv_field(v, "port"@) {
            None => Ok((h, 3000int)),
            Some(pv) => match jv_as_i64(pv) {
                Some(p) => Ok((h, p)),
                None => Err("Port must be string"@),
            },
        },
    }
}

impl Exposed {
    /// Parse an `exposed` block.
    pub fn from_json(value: &Json) -> (r: Result<Exposed, String>)
        ensures
            match r {
                Ok(e) => spec_exposed(value.deep()) == Ok::<(Seq<char>, int), Seq<char>>(
                    (e.host@, e.port as int),
                ),
                Err(m) => spec_exposed(value.deep()) == Err::<(Seq<char>, int), Seq<char>>(m@),
            },
    {
        let host: String = match value.get_field("host") {
            None => "0.0.0.0".to_owned(),
            Some(hv) => match hv.as_str() {
                Some(s) => s.clone(),
                None => {
                    return Err("Host must be string".to_owned());
                },
            },
        };
        let port: i64 = match value.get_field("port") {
            None => 3000,
            Some(pv) => match pv.as_i64() {
                Some(p) => p,
                None => {
                    return Err("Port must be string".to_owned());
                },
            },
        };
        Ok(Exposed { host, port })
    }
}

/// The mathematical view of a rule source.
pub enum RuleFromV {
    Header(Seq<char>),
    Body(Seq<(Seq<char>, Seq<int>)>),
    Store(Seq<char>),
}

/// The mathematical view of a rule destination.
pub enum RuleIntoV {
    Header(Seq<char>),
    Body,
    Store(Seq<char>),
}

impl RuleFrom {
    /// The mathematical view.
    pub open spec fn deep(self) -> RuleFromV {
        match self {
            RuleFrom::Header(h) => RuleFromV::Header(h@),
            RuleFrom::Body(p) => RuleFromV::Body(p@.map_values(|g: PathSeg| g.deep())),
            RuleFrom::Store(k) => RuleFromV::Store(k@),
        }
    }
}

impl RuleInto {
    /// The mathematical view.
    pub open spec fn deep(self) -> RuleIntoV {
        match self {
            RuleInto::Header(h) => RuleIntoV::Header(h@),
            RuleInto::Body => RuleIntoV::Body,
            RuleInto::Store(k) => RuleIntoV::Store(k@),
        }
    }
}

/// A rule source: an object with exactly one of `header`, `body`, `store`,
/// whose value is a string; a `body` path must parse.
pub open spec fn spec_rule_from(v: JsonV) -> Result<RuleFromV, Seq<char>> {
    match v {
        JsonV::Obj(fs) => if fs.len() != 1 {
            Err("Placement rule must have exactly one source"@)
        } else {
            match fs[0].1 {
                JsonV::Str(s) => if fs[0].0 == "header"@ {
                    Ok(RuleFromV::Header(s))
                } else if fs[0].0 == "body"@ {
                    match parse_path_spec(s) {
                        Some(segs) => Ok(RuleFromV::Body(segs)),
                        None => Err("Placement rule body path is malformed"@),
                    }
                } else if fs[0].0 == "store"@ {
                    Ok(RuleFromV::Store(s))
                } else {
                    Err("Placement rule has no recognized source kind"@)
                },
                _ => Err("Placement rule source must name a string"@),
            }
        },
        _ => Err("Placement rule source must be an object"@),
    }
}

/// A rule destination: an object with exactly one of `header`, `body`,
/// `store`; `header` and `store` name a string, `body` may carry anything.
pub open spec fn spec_rule_into(v: JsonV) -> Result<RuleIntoV, Seq<char>> {
    match v {
        JsonV::Obj(fs) => if fs.len() != 1 {
            Err("Placement rule must have exactly one destination"@)
        } else if fs[0].0 == "body"@ {
            Ok(RuleIntoV::Body)
        } else {
            match fs[0].1 {
                JsonV::Str(s) => if fs[0].0 == "header"@ {
                    Ok(RuleIntoV::Header(s))
                } else if fs[0].0 == "store"@ {
                    Ok(RuleIntoV::Store(s))
                } else {
                    Err("Placement rule has no recognized destination kind"@)
                },
                _ => Err("Placement rule destination must name a string"@),
            }
        },
        _ => Err("Placement rule destination must be an object"@),
    }
}

/// A whole placement rule: a `from` source and an `into` destination.
pub open spec fn spec_rule(v: JsonV) -> Result<(RuleFromV, RuleIntoV), Seq<char>> {
    match jv_field(v, "from"@) {
        None => Err("Placement rule must have from"@),
        Some(fv) => match spec_rule_from(fv) {
            Err(e) => Err(e),
            Ok(f) => match jv_field(v, "into"@) {
                None => Err("Placement rule must have into"@),
                Some(iv) => match spec_rule_into(iv) {
                    Err(e) => Err(e),
                    Ok(i) => Ok((f, i)),
                },
            },
        },
    }
}

fn parse_rule_from(v: &Json) -> (r: Result<RuleFrom, String>)
    ensures
        match r {
            Ok(f) => spec_rule_from(v.deep()) == Ok::<RuleFromV, Seq<char>>(f.deep()),
            Err(m) => spec_rule_from(v.deep()) == Err::<RuleFromV, Seq<char>>(m@),
        },
{
    broadcast use crate::json::lemma_deep_fields_len;

    let fields = match v {
        Json::Obj(fields) => fields,
        _ => {
            return Err("Placement rule source must be an object".to_owned());
        },
    };
    proof {
        assert(crate::json::deep_fields(fields@).len() == fields@.len());
        if fields@.len() > 0 {
            assert(crate::json::deep_fields(fields@)[0] == (fields@[0].0@, fields@[0].1.deep()));
        }
    }
    if fields.len() != 1 {
        return Err("Placement rule must have exactly one source".to_owned());
    }
    let key = &fields[0].0;
    let s: String = match &fields[0].1 {
        Json::Str(s) => s.clone(),
        _ => {
            return Err("Placement rule source must name a string".to_owned());
        },
    };
    if str_eq(key.as_str(), "header") {
        Ok(RuleFrom::Header(s))
    } else if str_eq(key.as_str(), "body") {
        match parse_path(s.as_str()) {
            Some(segs) => Ok(RuleFrom::Body(segs)),
            None => Err("Placement rule body path is malformed".to_owned()),
        }
    } else if str_eq(key.as_str(), "store") {
        Ok(RuleFrom::Store(s))
    } else {
        Err("Placement rule has no recognized source kind".to_owned())
    }
}

fn parse_rule_into(v: &Json) -> (r: Result<RuleInto, String>)
    ensures
        match r {
            Ok(i) => spec_rule_into(v.deep()) == Ok::<RuleIntoV, Seq<char>>(i.deep()),
            Err(m) => spec_rule_into(v.deep()) == Err::<RuleIntoV, Seq<char>>(m@),
        },
{
    broadcast use crate::json::lemma_deep_fields_len;

    let fields = match v {
        Json::Obj(fields) => fields,
        _ => {
            return Err("Placement rule destination must be an object".to_owned());
        },
    };
    proof {
        assert(crate::json::deep_fields(fields@).len() == fields@.len());
        if fields@.len() > 0 {
            assert(crate::json::deep_fields(fields@)[0] == (fields@[0].0@, fields@[0].1.deep()));
        }
    }
    if fields.len() != 1 {
        return Err("Placement rule must have exactly one destination".to_owned());
    }
    let key = &fields[0].0;
    if str_eq(key.as_str(), "body") {
        return Ok(RuleInto::Body);
    }
    let s: String = match &fields[0].1 {
        Json::Str(s) => s.clone(),
        _ => {
            return Err("Placement rule destination must name a string".to_owned());
        },
    };
    if str_eq(key.as_str(), "header") {
        Ok(RuleInto::Header(s))
    } else if str_eq(key.as_str(), "store") {
        Ok(RuleInto::Store(s))
    } else {
        Err("Placement rule has no recognized destination kind".to_owned())
    }
}

/// The mathematical view of a parsed service declaration.
pub struct ServiceV {
    pub name: Seq<char>,
    pub server: Seq<char>,
    pub port: int,
    pub run: Option<(Seq<char>, Seq<char>)>,
    pub uses: Seq<Seq<char>>,
    pub path: Seq<char>,
    pub headers: Seq<(Seq<char>, Seq<char>)>,
    pub body: JsonV,
}

/// The elements of a `use` array, which must all be strings.
pub open spec fn use_strings(es: Seq<JsonV>) -> Result<Seq<Seq<char>>, Seq<char>>
    decreases es.len(),
{
    if es.len() == 0 {
        Ok(Seq::<Seq<char>>::empty())
    } else {
        match es[0] {
            JsonV::Str(s) => match use_strings(es.skip(1)) {
                Ok(rest) => Ok(seq![s] + rest),
                Err(e) => Err(e),
            },
            _ => Err("Service use entries must be strings"@),
        }
    }
}

/// The fields of a default-header object, whose values must all be strings.
pub open spec fn header_strings(fs: Seq<(Seq<char>, JsonV)>) -> Result<
    Seq<(Seq<char>, Seq<char>)>,
    Seq<char>,
>
    decreases fs.len(),
{
    if fs.len() == 0 {
        Ok(Seq::<(Seq<char>, Seq<char>)>::empty())
    } else {
        match fs[0].1 {
            JsonV::Str(s) => match header_strings(fs.skip(1)) {
                Ok(rest) => Ok(seq![(fs[0].0, s)] + rest),
                Err(e) => Err(e),
            },
            _ => Err("Service headers must be strings"@),
        }
    }
}

/// A parsed service declaration: `name` (or the given fresh name), `server`
/// (required; the literal `self` means loopback), `port` (default 80, must
/// fit a 16-bit port), optional `run` (an object whose last entry names the
/// launch way and tag), `use` flags, and the `set` defaults (`url`,
/// `headers`, `body`).
pub open spec fn spec_service(v: JsonV, fresh: Seq<char>) -> Result<ServiceV, Seq<char>> {
    if !(v is Obj) {
        Err("Service must be an object"@)
    } else {
        let name: Result<Seq<char>, Seq<char>> = match jv_field(v, "name"@) {
            None => Ok(fresh),
            Some(nv) => match nv {
                JsonV::Str(s) => Ok(s),
                _ => Err("Service name must be a string"@),
            },
        };
        match name {
            Err(e) => Err(e),
            Ok(name) => {
                let server: Result<Seq<char>, Seq<char>> = match jv_field(v, "server"@) {
                    None => Err("Service must have a server"@),
                    Some(sv) => match sv {
                        JsonV::Str(s) => if s == "self"@ {
                            Ok("127.0.0.1"@)
                        } else {
                            Ok(s)
                        },
                        _ => Err("Service server must be a string"@),
                    },
                };
                match server {
                    Err(e) => Err(e),
                    Ok(server) => {
                        let port: Result<int, Seq<char>> = match jv_field(v, "port"@) {
                            None => Ok(80int),
                            Some(pv) => match jv_as_i64(pv) {
                                Some(p) => if 0 <= p <= 65535 {
                                    Ok(p)
                                } else {
                                    Err("Service port must be a number"@)
                                },
                                None => Err("Service port must be a number"@),
                            },
                        };
                        match port {
                            Err(e) => Err(e),
                            Ok(port) => {
                                let run: Result<Option<(Seq<char>, Seq<char>)>, Seq<char>> = match jv_field(
                                    v,
                                    "run"@,
                                ) {
                                    None => Ok(None),
                                    Some(rv) => match rv {
                                        JsonV::Obj(fs) => if fs.len() == 0 {
                                            Ok(None)
                                        } else {
                                            match fs.last().1 {
                                                JsonV::Str(tag) => Ok(
                                                    Some((fs.last().0, tag)),
                                                ),
                                                _ => Err("Service run tag must be a string"@),
                                            }
                                        },
                                        _ => Err("Service run must be an object"@),
                                    },
                                };
                                match run {
                                    Err(e) => Err(e),
                                    Ok(run) => {
                                        let uses: Result<Seq<Seq<char>>, Seq<char>> = match jv_field(
                                            v,
                                            "use"@,
                                        ) {
                                            None => Ok(Seq::<Seq<char>>::empty()),
                                            Some(uv) => match uv {
                                                JsonV::Arr(es) => use_strings(es),
                                                _ => Err("Service use must be an array"@),
                                            },
                                        };
                                        match uses {
                                            Err(e) => Err(e),
                                            Ok(uses) => spec_service_sets(
                                                v,
                                                ServiceV {
                                                    name,
                                                    server,
                                                    port,
                                                    run,
                                                    uses,
                                                    path: Seq::<char>::empty(),
                                                    headers: Seq::<(Seq<char>, Seq<char>)>::empty(),
                                                    body: JsonV::Str(Seq::<char>::empty()),
                                                },
                                            ),
                                        }
                                    },
                                }
                            },
                        }
                    },
                }
            },
        }
    }
}

/// The `set` defaults of a service declaration, completing a parsed service.
pub open spec fn spec_service_sets(v: JsonV, base: ServiceV) -> Result<ServiceV, Seq<char>> {
    match jv_field(v, "set"@) {
        None => Ok(base),
        Some(setv) => if !(setv is Obj) {
            Err("Service set must be an object"@)
        } else {
            let path: Result<Seq<char>, Seq<char>> = match jv_field(setv, "url"@) {
                None => Ok(Seq::<char>::empty()),
                Some(uv) => match uv {
                    JsonV::Str(s) => Ok(s),
                    _ => Err("Service url must be a string"@),
                },
            };
            match path {
                Err(e) => Err(e),
                Ok(path) => {
                    let body: JsonV = match jv_field(setv, "body"@) {
                        None => JsonV::Str(Seq::<char>::empty()),
                        Some(bv) => bv,
                    };
                    match jv_field(setv, "headers"@) {
                        None => Ok(ServiceV { path, body, ..base }),
                        Some(hv) => match hv {
                            JsonV::Obj(fs) => match header_strings(fs) {
                                Ok(headers) => Ok(ServiceV { path, body, headers, ..base }),
                                Err(e) => Err(e),
                            },
                            _ => Err("Service headers must be an object"@),
                        },
                    }
                },
            }
        },
    }
}

/// One declaration applied: under some fresh name, the declaration parses
/// and the new registry binds its name to its fields, leaving other names
/// alone.
pub open spec fn service_applied(
    v: JsonV,
    fresh: Seq<char>,
    name: Seq<char>,
    before: ServiceMap,
    after: ServiceMap,
) -> bool {
    match spec_service(v, fresh) {
        Ok(sv) => {
            &&& name == sv.name
            &&& after.spec_get(sv.name) matches Some(s) && service_has(s, sv)
            &&& forall|n2: Seq<char>| n2 != sv.name ==> after.spec_get(n2) == before.spec_get(n2)
        },
        Err(_) => false,
    }
}

/// Whether a service value carries exactly the fields of a parsed
/// declaration.
pub open spec fn service_has(s: Service, sv: ServiceV) -> bool {
    &&& s.server@ == sv.server
    &&& s.port as int == sv.port
    &&& s.uses@.map_values(|u: String| u@) == sv.uses
    &&& s.sets.path@ == sv.path
    &&& s.sets.headers.entries() == sv.headers
    &&& s.sets.body.deep() == sv.body
    &&& match (s.run, sv.run) {
        (Some(r), Some(rv)) => r.way@ == rv.0 && r.tag@ == rv.1,
        (None, None) => true,
        _ => false,
    }
}

/// Parse one service declaration and register it under its name (a fresh
/// generated name when the declaration has none). Returns the name.
#[verifier::loop_isolation(false)]
#[verifier::rlimit(100)]
pub fn add_service(service_component: &Json, services: &mut ServiceMap) -> (r: Result<
    String,
    String,
>)
    ensures
        r matches Ok(name) ==> exists|fresh: Seq<char>|
            #[trigger] spec_service(service_component.deep(), fresh) is Ok && service_applied(
                service_component.deep(),
                fresh,
                name@,
                *old(services),
                *final(services),
            ),
        r matches Err(m) ==> (exists|fresh: Seq<char>|
            #[trigger] spec_service(service_component.deep(), fresh) == Err::<
                ServiceV,
                Seq<char>,
            >(m@)) && *final(services) == *old(services),
        r matches Ok(name) ==> (jv_field(service_component.deep(), "name"@) is None
            ==> name@.len() == 36),
{
    broadcast use crate::json::lemma_deep_fields_len, crate::json::lemma_deep_elems_len;

    let v = service_component;
    match v {
        Json::Obj(_) => {},
        _ => {
            return Err("Service must be an object".to_owned());
        },
    }
    let generated = fresh_name();
    let ghost fresh = generated@;
    let name: String = match v.get_field("name") {
        None => generated,
        Some(nv) => match nv.as_str() {
            Some(s) => s.clone(),
            None => {
                return Err("Service name must be a string".to_owned());
            },
        },
    };
    let server: String = match v.get_field("server") {
        None => {
            return Err("Service must have a server".to_owned());
        },
        Some(sv) => match sv.as_str() {
            Some(s) => {
                if str_eq(s.as_str(), "self") {
                    "127.0.0.1".to_owned()
                } else {
                    s.clone()
                }
            },
            None => {
                return Err("Service server must be a string".to_owned());
            },
        },
    };
    let port: u16 = match v.get_field("port") {
        None => 80,
        Some(pv) => match pv.as_i64() {
            Some(p) => {
                if 0 <= p && p <= 65535 {
                    p as u16
                } else {
                    return Err("Service port must be a number".to_owned());
                }
            },
            None => {
                return Err("Service port must be a number".to_owned());
            },
        },
    };
    let run: Option<ServiceRun> = match v.get_field("run") {
        None => None,
        Some(rv) => match rv {
            Json::Obj(fs) => {
                proof {
                    assert(crate::json::deep_fields(fs@).len() == fs@.len());
                    if fs@.len() > 0 {
                        assert(crate::json::deep_fields(fs@).last() == (fs@.last().0@,
                        fs@.last().1.deep()));
                        assert(fs@.last() == fs@[fs@.len() - 1]);
                    }
                }
                if fs.len() == 0 {
                    None
                } else {
                    let way = fs[fs.len() - 1].0.clone();
                    match fs[fs.len() - 1].1.as_str() {
                        Some(tag) => Some(ServiceRun { way, tag: tag.clone() }),
                        None => {
                            return Err("Service run tag must be a string".to_owned());
                        },
                    }
                }
            },
            _ => {
                return Err("Service run must be an object".to_owned());
            },
        },
    };
    let uses: Vec<String> = match v.get_field("use") {
        None => Vec::new(),
        Some(uv) => match uv {
            Json::Arr(es) => {
                let ghost esd = crate::json::deep_elems(es@);
                let mut out: Vec<String> = Vec::new();
                proof {
                    assert(esd.skip(0) =~= esd);
                    assert(out@.map_values(|u: String| u@) =~= Seq::<Seq<char>>::empty());
                    match use_strings(esd) {
                        Ok(rest) => {
                            assert(Seq::<Seq<char>>::empty() + rest =~= rest);
                        },
                        Err(_) => {},
                    }
                }
                let mut i: usize = 0;
                while i < es.len()
                    invariant
                        i <= es@.len(),
                        esd == crate::json::deep_elems(es@),
                        esd.len() == es@.len(),
                        use_strings(esd) == (match use_strings(esd.skip(i as int)) {
                            Ok(rest) => Ok::<Seq<Seq<char>>, Seq<char>>(
                                out@.map_values(|u: String| u@) + rest,
                            ),
                            Err(e) => Err::<Seq<Seq<char>>, Seq<char>>(e),
                        }),
                    decreases es@.len() - i,
                {
                    broadcast use crate::json::lemma_deep_elems_len;

                    proof {
                        assert(esd.skip(i as int)[0] == esd[i as int]);
                        assert(esd.skip(i as int).skip(1) =~= esd.skip(i as int + 1));
                    }
                    match es[i].as_str() {
                        Some(s) => {
                            let ghost out0 = out@;
                            let sc = s.clone();
                            out.push(sc);
                            proof {
                                match use_strings(esd.skip(i as int + 1)) {
                                    Ok(rest) => {
                                        assert(out0.map_values(|u: String| u@) + (seq![s@] + rest)
                                            =~= out@.map_values(|u: String| u@) + rest);
                                    },
                                    Err(_) => {},
                                }
                            }
                        },
                        None => {
                            return Err("Service use entries must be strings".to_owned());
                        },
                    }
                    i += 1;
                }
                proof {
                    assert(esd.skip(es@.len() as int) =~= Seq::<JsonV>::empty());
                    assert(out@.map_values(|u: String| u@) + Seq::<Seq<char>>::empty()
                        =~= out@.map_values(|u: String| u@));
                }
                out
            },
            _ => {
                return Err("Service use must be an array".to_owned());
            },
        },
    };
    // The `set` defaults.
    let mut sets = ServiceSets::new();
    match v.get_field("set") {
        None => {},
        Some(setv) => {
            match setv {
                Json::Obj(_) => {},
                _ => {
                    return Err("Service set must be an object".to_owned());
                },
            }
            match setv.get_field("url") {
                None => {},
                Some(uv) => match uv.as_str() {
                    Some(s) => {
                        sets.path = s.clone();
                    },
                    None => {
                        return Err("Service url must be a string".to_owned());
                    },
                },
            }
            match setv.get_field("body") {
                None => {},
                Some(bv) => {
                    sets.body = bv.duplicate();
                },
            }
            match setv.get_field("headers") {
                None => {},
                Some(hv) => match hv {
                    Json::Obj(fs) => {
                        let ghost fsd = crate::json::deep_fields(fs@);
                        let mut pairs: Vec<(String, String)> = Vec::new();
                        proof {
                            assert(fsd.skip(0) =~= fsd);
                            assert(pairs@.map_values(|p: (String, String)| (p.0@, p.1@)) =~= Seq::<
                                (Seq<char>, Seq<char>),
                            >::empty());
                            match header_strings(fsd) {
                                Ok(rest) => {
                                    assert(Seq::<(Seq<char>, Seq<char>)>::empty() + rest =~= rest);
                                },
                                Err(_) => {},
                            }
                        }
                        let mut i: usize = 0;
                        while i < fs.len()
                            invariant
                                i <= fs@.len(),
                                fsd == crate::json::deep_fields(fs@),
                                fsd.len() == fs@.len(),
                                header_strings(fsd) == (match header_strings(
                                    fsd.skip(i as int),
                                ) {
                                    Ok(rest) => Ok::<Seq<(Seq<char>, Seq<char>)>, Seq<char>>(
                                        pairs@.map_values(|p: (String, String)| (p.0@, p.1@))
                                            + rest,
                                    ),
                                    Err(e) => Err::<Seq<(Seq<char>, Seq<char>)>, Seq<char>>(e),
                                }),
                            decreases fs@.len() - i,
                        {
                            broadcast use crate::json::lemma_deep_fields_len;

                            proof {
                                assert(fsd.skip(i as int)[0] == fsd[i as int]);
                                assert(fsd.skip(i as int).skip(1) =~= fsd.skip(i as int + 1));
                            }
                            match fs[i].1.as_str() {
                                Some(val) => {
                                    let ghost pairs0 = pairs@;
                                    let ghost vv = val@;
                                    let entry = (fs[i].0.clone(), val.clone());
                                    pairs.push(entry);
                                    proof {
                                        match header_strings(fsd.skip(i as int + 1)) {
                                            Ok(rest) => {
                                                assert(pairs0.map_values(
                                                    |p: (String, String)| (p.0@, p.1@),
                                                ) + (seq![(fsd[i as int].0, vv)] + rest)
                                                    =~= pairs@.map_values(
                                                    |p: (String, String)| (p.0@, p.1@),
                                                ) + rest);
                                            },
                                            Err(_) => {},
                                        }
                                    }
                                },
                                None => {
                                    return Err("Service headers must be strings".to_owned());
                                },
                            }
                            i += 1;
                        }
                        proof {
                            assert(fsd.skip(fs@.len() as int) =~= Seq::<
                                (Seq<char>, JsonV),
                            >::empty());
                            assert(pairs@.map_values(|p: (String, String)| (p.0@, p.1@)) + Seq::<
                                (Seq<char>, Seq<char>),
                            >::empty() =~= pairs@.map_values(|p: (String, String)| (p.0@, p.1@)));
                        }
                        sets.headers = StrMap { pairs };
                    },
                    _ => {
                        return Err("Service headers must be an object".to_owned());
                    },
                },
            }
        },
    }
    let service = Service { server, port, uses, sets, run };
    proof {
        if service.uses@.len() == 0 {
            assert(service.uses@.map_values(|u: String| u@) =~= Seq::<Seq<char>>::empty());
        }
        assert(spec_service(service_component.deep(), fresh) is Ok);
        let sv = spec_service(service_component.deep(), fresh)->Ok_0;
        assert(name@ == sv.name);
        assert(service.server@ == sv.server);
        assert(service.port as int == sv.port);
        assert(service.uses@.map_values(|u: String| u@) == sv.uses);
        assert(service.sets.path@ == sv.path);
        assert(service.sets.headers.entries() == sv.headers);
        assert(service.sets.body.deep() == sv.body);
        assert(service_has(service, sv));
    }
    let ghost svname = name@;
    services.insert(name.clone(), service);
    proof {
        assert(service_applied(
            service_component.deep(),
            fresh,
            svname,
            *old(services),
            *services,
        ));
    }
    Ok(name)
}

fn parse_rule(v: &Json) -> (r: Result<ChainComponentPlace, String>)
    ensures
        match r {
            Ok(rule) => spec_rule(v.deep()) == Ok::<(RuleFromV, RuleIntoV), Seq<char>>(
                (rule.from.deep(), rule.into.deep()),
            ),
            Err(m) => spec_rule(v.deep()) == Err::<(RuleFromV, RuleIntoV), Seq<char>>(m@),
        },
{
    let fv = match v.get_field("from") {
        Some(fv) => fv,
        None => {
            return Err("Placement rule must have from".to_owned());
        },
    };
    let from = match parse_rule_from(fv) {
        Ok(f) => f,
        Err(m) => {
            return Err(m);
        },
    };
    let iv = match v.get_field("into") {
        Some(iv) => iv,
        None => {
            return Err("Placement rule must have into".to_owned());
        },
    };
    let into = match parse_rule_into(iv) {
        Ok(i) => i,
        Err(m) => {
            return Err(m);
        },
    };
    Ok(ChainComponentPlace::new(from, into))
}

/// Whether a parsed component carries exactly what a component declaration
/// says: a proxy its service name, a chain its parsed sub-components and
/// rules, a static component its directory and index (with their defaults).
pub open spec fn component_matches(c: Component, v: JsonV) -> bool
    decreases c,
{
    match c {
        Component::Proxy(p) => jv_field(v, "type"@) == Some(JsonV::Str("proxy"@)) && jv_field(
            v,
            "service"@,
        ) == Some(JsonV::Str(p.service_name@)),
        Component::Chain(ch) => {
            &&& jv_field(v, "type"@) == Some(JsonV::Str("chain"@))
            &&& match jv_field(v, "from"@) {
                Some(fv) => component_matches(*ch.from, fv),
                None => false,
            }
            &&& match jv_field(v, "into"@) {
                Some(iv) => component_matches(*ch.to, iv),
                None => false,
            }
            &&& rules_match(ch.place@, jv_field(v, "place"@))
        },
        Component::Static(st) => {
            &&& jv_field(v, "type"@) == Some(JsonV::Str("static"@))
            &&& match jv_field(v, "path"@) {
                None => st.path@ == Seq::<char>::empty(),
                Some(pv) => pv == JsonV::Str(st.path@),
            }
            &&& match jv_field(v, "index"@) {
                None => st.index@ == "index.html"@,
                Some(iv) => iv == JsonV::Str(st.index@),
            }
        },
        Component::Exposed(e) => {
            &&& jv_field(v, "type"@) == Some(JsonV::Str("endpoint"@))
            &&& match jv_field(v, "exposed"@) {
                None => e.host@ == "0.0.0.0"@ && e.port == 3000,
                Some(ev) => spec_exposed(ev) == Ok::<(Seq<char>, int), Seq<char>>(
                    (e.host@, e.port as int),
                ),
            }
        },
    }
}

/// Whether parsed rules carry exactly what a `place` array says (absent
/// means no rules).
pub open spec fn rules_match(rules: Seq<ChainComponentPlace>, pf: Option<JsonV>) -> bool {
    match pf {
        None => rules.len() == 0,
        Some(JsonV::Arr(es)) => rules.len() == es.len() && forall|i: int|
            0 <= i < es.len() ==> spec_rule(#[trigger] es[i]) == Ok::<
                (RuleFromV, RuleIntoV),
                Seq<char>,
            >((rules[i].from.deep(), rules[i].into.deep())),
        Some(_) => false,
    }
}

/// Whether a component declaration is well-formed, or the first error in it.
/// (The inner height tests always hold — field values sit strictly below
/// their object — and only make termination of the definition evident.)
pub open spec fn comp_ok(v: JsonV) -> Result<(), Seq<char>>
    decreases crate::json::jv_height(v),
{
    if !(v is Obj) {
        Err("Component must be an object"@)
    } else {
        match jv_field(v, "type"@) {
            None => Err("Component must have type"@),
            Some(tv) => match tv {
                JsonV::Str(t) => if t == "proxy"@ {
                    match jv_field(v, "service"@) {
                        None => Err("Proxy component must have service"@),
                        Some(JsonV::Str(_)) => Ok(()),
                        Some(_) => Err("Proxy component service name must be a string"@),
                    }
                } else if t == "chain"@ {
                    match jv_field(v, "from"@) {
                        None => Err("Chain component must have from"@),
                        Some(fv) => {
                            if !(crate::json::jv_height(fv) < crate::json::jv_height(v)) {
                                Err("Chain component must have from"@)
                            } else {
                                match comp_ok(fv) {
                                    Err(e) => Err(e),
                                    Ok(_) => match jv_field(v, "into"@) {
                                        None => Err("Chain component must have into"@),
                                        Some(iv) => {
                                            if !(crate::json::jv_height(iv)
                                                < crate::json::jv_height(v)) {
                                                Err("Chain component must have into"@)
                                            } else {
                                                match comp_ok(iv) {
                                                    Err(e) => Err(e),
                                                    Ok(_) => match jv_field(v, "place"@) {
                                                        None => Ok(()),
                                                        Some(JsonV::Arr(es)) => rules_ok(es),
                                                        Some(_) => Err(
                                                            "Chain component place must be an array"@,
                                                        ),
                                                    },
                                                }
                                            }
                                        },
                                    },
                                }
                            }
                        },
                    }
                } else if t == "endpoint"@ {
                    match jv_field(v, "exposed"@) {
                        None => Ok(()),
                        Some(ev) => match spec_exposed(ev) {
                            Ok(_) => Ok(()),
                            Err(e) => Err(e),
                        },
                    }
                } else if t == "static"@ {
                    let path_ok: Result<(), Seq<char>> = match jv_field(v, "path"@) {
                        None => Ok(()),
                        Some(JsonV::Str(_)) => Ok(()),
                        Some(_) => Err("Static component path must be a string"@),
                    };
                    match path_ok {
                        Err(e) => Err(e),
                        Ok(_) => match jv_field(v, "index"@) {
                            None => Ok(()),
                            Some(JsonV::Str(_)) => Ok(()),
                            Some(_) => Err("Static component index must be a string"@),
                        },
                    }
                } else {
                    Err("Invalid component type"@)
                },
                _ => Err("Component type must be a string"@),
            },
        }
    }
}

/// Whether every entry of a `place` array is a well-formed rule.
pub open spec fn rules_ok(es: Seq<JsonV>) -> Result<(), Seq<char>>
    decreases es.len(),
{
    if es.len() == 0 {
        Ok(())
    } else {
        match spec_rule(es[0]) {
            Err(e) => Err(e),
            Ok(_) => rules_ok(es.skip(1)),
        }
    }
}

/// Parse a component declaration: `proxy` (a `service` name), `chain`
/// (nested `from` and `into` declarations with `place` rules), `endpoint`
/// (a root marker carrying its listener block), or `static` (a directory
/// and an index file). Fails exactly on the first malformation `comp_ok`
/// names.
#[verifier::loop_isolation(false)]
pub fn parse_component(val: &Json) -> (r: Result<Component, String>)
    ensures
        match r {
            Ok(c) => comp_ok(val.deep()) is Ok && component_matches(c, val.deep()),
            Err(m) => comp_ok(val.deep()) == Err::<(), Seq<char>>(m@),
        },
    decreases crate::json::jv_height(val.deep()),
{
    match val {
        Json::Obj(_) => {},
        _ => {
            return Err("Component must be an object".to_owned());
        },
    }
    let tv = match val.get_field("type") {
        None => {
            return Err("Component must have type".to_owned());
        },
        Some(tv) => tv,
    };
    let t = match tv.as_str() {
        Some(t) => t,
        None => {
            return Err("Component type must be a string".to_owned());
        },
    };
    if str_eq(t.as_str(), "proxy") {
        match val.get_field("service") {
            None => Err("Proxy component must have service".to_owned()),
            Some(sv) => match sv.as_str() {
                Some(name) => Ok(Component::new_proxy(name.clone())),
                None => Err("Proxy component service name must be a string".to_owned()),
            },
        }
    } else if str_eq(t.as_str(), "chain") {
        let fv = match val.get_field("from") {
            None => {
                return Err("Chain component must have from".to_owned());
            },
            Some(fv) => fv,
        };
        proof {
            lemma_sub_height(*val, fv.deep(), "from"@);
        }
        let from = match parse_component(fv) {
            Ok(c) => c,
            Err(m) => {
                return Err(m);
            },
        };
        let iv = match val.get_field("into") {
            None => {
                return Err("Chain component must have into".to_owned());
            },
            Some(iv) => iv,
        };
        proof {
            lemma_sub_height(*val, iv.deep(), "into"@);
        }
        let to = match parse_component(iv) {
            Ok(c) => c,
            Err(m) => {
                return Err(m);
            },
        };
        let mut place: Vec<ChainComponentPlace> = Vec::new();
        match val.get_field("place") {
            None => {},
            Some(pv) => match pv {
                Json::Arr(es) => {
                    let ghost esd = crate::json::deep_elems(es@);
                    proof {
                        broadcast use crate::json::lemma_deep_elems_len;

                        assert(esd.skip(0) =~= esd);
                        assert(esd.len() == es@.len());
                    }
                    let mut i: usize = 0;
                    while i < es.len()
                        invariant
                            i <= es@.len(),
                            esd == crate::json::deep_elems(es@),
                            esd.len() == es@.len(),
                            place@.len() == i,
                            rules_ok(esd) == rules_ok(esd.skip(i as int)),
                            forall|j: int|
                                0 <= j < i ==> spec_rule(#[trigger] esd[j]) == Ok::<
                                    (RuleFromV, RuleIntoV),
                                    Seq<char>,
                                >((place@[j].from.deep(), place@[j].into.deep())),
                        decreases es@.len() - i,
                    {
                        broadcast use crate::json::lemma_deep_elems_len;

                        proof {
                            assert(esd.skip(i as int)[0] == esd[i as int]);
                            assert(esd.skip(i as int).skip(1) =~= esd.skip(i as int + 1));
                        }
                        match parse_rule(&es[i]) {
                            Ok(rule) => {
                                place.push(rule);
                            },
                            Err(m) => {
                                return Err(m);
                            },
                        }
                        i += 1;
                    }
                    proof {
                        assert(esd.skip(es@.len() as int) =~= Seq::<JsonV>::empty());
                    }
                },
                _ => {
                    return Err("Chain component place must be an array".to_owned());
                },
            },
        }
        Ok(Component::new_chain(Box::new(from), Box::new(to), place))
    } else if str_eq(t.as_str(), "endpoint") {
        match val.get_field("exposed") {
            None => Ok(Component::new_exposed("0.0.0.0".to_owned(), 3000)),
            Some(ev) => match Exposed::from_json(ev) {
                Ok(e) => Ok(Component::new_exposed(e.host, e.port)),
                Err(m) => Err(m),
            },
        }
    } else if str_eq(t.as_str(), "static") {
        let path: String = match val.get_field("path") {
            None => String::new(),
            Some(pv) => match pv.as_str() {
                Some(s) => s.clone(),
                None => {
                    return Err("Static component path must be a string".to_owned());
                },
            },
        };
        let index: String = match val.get_field("index") {
            None => "index.html".to_owned(),
            Some(iv) => match iv.as_str() {
                Some(s) => s.clone(),
                None => {
                    return Err("Static component index must be a string".to_owned());
                },
            },
        };
        Ok(Component::Static(StaticComponent { path, index }))
    } else {
        Err("Invalid component type".to_owned())
    }
}

/// A field value of an object sits strictly below the object.
proof fn lemma_sub_height(v: Json, sub: JsonV, name: Seq<char>)
    requires
        jv_field(v.deep(), name) == Some(sub),
    ensures
        crate::json::jv_height(sub) < crate::json::jv_height(v.deep()),
{
    match v.deep() {
        JsonV::Obj(fs) => {
            crate::json::lemma_field_height(fs, name);
        },
        _ => {},
    }
}

/// Every proxy inside the component names a service the registry holds.
pub open spec fn services_known(c: Component, m: ServiceMap) -> bool
    decreases c,
{
    match c {
        Component::Proxy(p) => m.spec_get(p.service_name@) is Some,
        Component::Chain(ch) => services_known(*ch.from, m) && services_known(*ch.to, m),
        _ => true,
    }
}

/// Check that every proxy inside the component names a known service.
pub fn check_services_known(c: &Component, m: &ServiceMap) -> (r: bool)
    ensures
        r == services_known(*c, *m),
    decreases *c,
{
    match c {
        Component::Proxy(p) => match m.get(p.service_name.as_str()) {
            Some(_) => true,
            None => false,
        },
        Component::Chain(ch) => {
            let a = check_services_known(&ch.from, m);
            let b = check_services_known(&ch.to, m);
            a && b
        },
        _ => true,
    }
}

/// The names the services array declares itself (a declaration without a
/// `name` field is registered under a generated name, which is not among
/// these).
pub open spec fn declared_names(es: Seq<JsonV>) -> Seq<Seq<char>>
    decreases es.len(),
{
    if es.len() == 0 {
        Seq::<Seq<char>>::empty()
    } else {
        let rest = declared_names(es.drop_last());
        match jv_field(es.last(), "name"@) {
            Some(nv) => match nv {
                JsonV::Str(n) => rest.push(n),
                _ => rest,
            },
            None => rest,
        }
    }
}

/// Every service name a component declaration references stands in `names`.
/// (The height tests under chains always hold and only make termination of
/// the definition evident.)
pub open spec fn comp_refs_in(v: JsonV, names: Seq<Seq<char>>) -> bool
    decreases crate::json::jv_height(v),
{
    match jv_field(v, "type"@) {
        Some(tv) => match tv {
            JsonV::Str(t) => if t == "proxy"@ {
                match jv_field(v, "service"@) {
                    Some(sv) => match sv {
                        JsonV::Str(n) => names.contains(n),
                        _ => true,
                    },
                    None => true,
                }
            } else if t == "chain"@ {
                &&& match jv_field(v, "from"@) {
                    Some(fv) => crate::json::jv_height(fv) < crate::json::jv_height(v)
                        ==> comp_refs_in(fv, names),
                    None => true,
                }
                &&& match jv_field(v, "into"@) {
                    Some(iv) => crate::json::jv_height(iv) < crate::json::jv_height(v)
                        ==> comp_refs_in(iv, names),
                    None => true,
                }
            } else {
                true
            },
            _ => true,
        },
        None => true,
    }
}

/// Every service name a component declaration references is bound in `m`.
pub open spec fn comp_refs_bound(v: JsonV, m: ServiceMap) -> bool
    decreases crate::json::jv_height(v),
{
    match jv_field(v, "type"@) {
        Some(tv) => match tv {
            JsonV::Str(t) => if t == "proxy"@ {
                match jv_field(v, "service"@) {
                    Some(sv) => match sv {
                        JsonV::Str(n) => m.spec_get(n) is Some,
                        _ => true,
                    },
                    None => true,
                }
            } else if t == "chain"@ {
                &&& match jv_field(v, "from"@) {
                    Some(fv) => crate::json::jv_height(fv) < crate::json::jv_height(v)
                        ==> comp_refs_bound(fv, m),
                    None => true,
                }
                &&& match jv_field(v, "into"@) {
                    Some(iv) => crate::json::jv_height(iv) < crate::json::jv_height(v)
                        ==> comp_refs_bound(iv, m),
                    None => true,
                }
            } else {
                true
            },
            _ => true,
        },
        None => true,
    }
}

/// References inside `names` are bound in any registry that binds every name
/// of `names`.
proof fn lemma_refs_in_bound(v: JsonV, names: Seq<Seq<char>>, m: ServiceMap)
    requires
        forall|n: Seq<char>| #[trigger] names.contains(n) ==> m.spec_get(n) is Some,
        comp_refs_in(v, names),
    ensures
        comp_refs_bound(v, m),
    decreases crate::json::jv_height(v),
{
    proof_strlit_facts();
    match jv_field(v, "type"@) {
        Some(tv) => match tv {
            JsonV::Str(t) => if t == "chain"@ {
                match jv_field(v, "from"@) {
                    Some(fv) => {
                        if crate::json::jv_height(fv) < crate::json::jv_height(v) {
                            assert(comp_refs_in(fv, names));
                            lemma_refs_in_bound(fv, names, m);
                        }
                    },
                    None => {},
                }
                match jv_field(v, "into"@) {
                    Some(iv) => {
                        if crate::json::jv_height(iv) < crate::json::jv_height(v) {
                            assert(comp_refs_in(iv, names));
                            lemma_refs_in_bound(iv, names, m);
                        }
                    },
                    None => {},
                }
            } else {
            },
            _ => {},
        },
        None => {},
    }
}

/// The component type words are pairwise distinct.
proof fn proof_strlit_facts()
    ensures
        "proxy"@ != "chain"@,
        "proxy"@ != "endpoint"@,
        "proxy"@ != "static"@,
        "chain"@ != "endpoint"@,
        "chain"@ != "static"@,
        "endpoint"@ != "static"@,
{
    reveal_strlit("proxy");
    reveal_strlit("chain");
    reveal_strlit("endpoint");
    reveal_strlit("static");
    assert("proxy"@[0] == 'p');
    assert("chain"@[0] == 'c');
    assert("endpoint"@[0] == 'e');
    assert("static"@[0] == 's');
}

/// A parsed component whose declaration references only bound names looks
/// every one of its services up successfully.
proof fn lemma_matches_refs_known(c: Component, v: JsonV, m: ServiceMap)
    requires
        component_matches(c, v),
        comp_refs_bound(v, m),
    ensures
        services_known(c, m),
    decreases c,
{
    proof_strlit_facts();
    match c {
        Component::Chain(ch) => {
            let fv = jv_field(v, "from"@)->Some_0;
            let iv = jv_field(v, "into"@)->Some_0;
            lemma_sub_height_v(v, fv, "from"@);
            lemma_sub_height_v(v, iv, "into"@);
            assert(comp_refs_bound(fv, m));
            assert(comp_refs_bound(iv, m));
            lemma_matches_refs_known(*ch.from, fv, m);
            lemma_matches_refs_known(*ch.to, iv, m);
        },
        _ => {},
    }
}

/// A field value of an object sits strictly below the object (value form).
proof fn lemma_sub_height_v(v: JsonV, sub: JsonV, name: Seq<char>)
    requires
        jv_field(v, name) == Some(sub),
    ensures
        crate::json::jv_height(sub) < crate::json::jv_height(v),
{
    match v {
        JsonV::Obj(fs) => {
            crate::json::lemma_field_height(fs, name);
        },
        _ => {},
    }
}

/// The `uri` of a request declaration, which must be a string.
pub open spec fn spec_request_uri(v: JsonV) -> Result<Seq<char>, Seq<char>> {
    match jv_field(v, "uri"@) {
        None => Err("Every request must have uri"@),
        Some(uv) => match uv {
            JsonV::Str(u) => Ok(u),
            _ => Err("Uri must be string"@),
        },
    }
}

/// Parse one request declaration: its routing path and its component. The
/// component may only name services the registry already holds.
pub fn parse_request(comp: &Json, global: &GlobalState) -> (r: Result<(String, Component), String>)
    ensures
        match r {
            Ok((uri, c)) => {
                &&& spec_request_uri(comp.deep()) == Ok::<Seq<char>, Seq<char>>(uri@)
                &&& comp_ok(comp.deep()) is Ok
                &&& component_matches(c, comp.deep())
                &&& services_known(c, global.services)
            },
            Err(m) => spec_request_uri(comp.deep()) == Err::<Seq<char>, Seq<char>>(m@) || (
            spec_request_uri(comp.deep()) is Ok && (comp_ok(comp.deep()) == Err::<(), Seq<char>>(
                m@,
            ) || (comp_ok(comp.deep()) is Ok && m@ == "Trying to use non declared service"@
                && exists|c: Component|
                #[trigger] component_matches(c, comp.deep()) && !services_known(
                    c,
                    global.services,
                )))),
        },
        (spec_request_uri(comp.deep()) is Ok && comp_ok(comp.deep()) is Ok && comp_refs_bound(
            comp.deep(),
            global.services,
        )) ==> r is Ok,
{
    let uri: String = match comp.get_field("uri") {
        None => {
            return Err("Every request must have uri".to_owned());
        },
        Some(uv) => match uv.as_str() {
            Some(u) => u.clone(),
            None => {
                return Err("Uri must be string".to_owned());
            },
        },
    };
    let c = match parse_component(comp) {
        Ok(c) => c,
        Err(m) => {
            return Err(m);
        },
    };
    if !check_services_known(&c, &global.services) {
        proof {
            if comp_refs_bound(comp.deep(), global.services) {
                lemma_matches_refs_known(c, comp.deep(), global.services);
            }
        }
        return Err("Trying to use non declared service".to_owned());
    }
    Ok((uri, c))
}

/// Whether every request declaration in the array is well-formed, or the
/// first error among them.
pub open spec fn requests_ok(es: Seq<JsonV>) -> Result<(), Seq<char>>
    decreases es.len(),
{
    if es.len() == 0 {
        Ok(())
    } else {
        match spec_request_uri(es[0]) {
            Err(e) => Err(e),
            Ok(_) => match comp_ok(es[0]) {
                Err(e) => Err(e),
                Ok(_) => requests_ok(es.skip(1)),
            },
        }
    }
}

/// The routing trie is built by inserting each declared request in order:
/// there are components matching the declarations whose insertion path leads
/// from `acc` to `out`.
pub open spec fn requests_built(es: Seq<JsonV>, acc: NodeV, out: NodeV, m: ServiceMap) -> bool
    decreases es.len(),
{
    if es.len() == 0 {
        out == acc
    } else {
        exists|c: Component|
            {
                &&& #[trigger] component_matches(c, es[0])
                &&& services_known(c, m)
                &&& spec_request_uri(es[0]) is Ok
                &&& requests_built(
                    es.skip(1),
                    spec_insert(acc, crate::strutil::path_segs(spec_request_uri(es[0])->Ok_0), Some(c)),
                    out,
                    m,
                )
            }
    }
}

/// Parse the `requests` array into a routing trie. A value that is not an
/// array yields an empty trie; a malformed declaration is the first error.
#[verifier::loop_isolation(false)]
pub fn parse_requests(comp: &Json, global: &GlobalState) -> (r: Result<Node, String>)
    ensures
        match r {
            Ok(node) => match comp.deep() {
                JsonV::Arr(es) => requests_ok(es) is Ok && requests_built(
                    es,
                    nv_empty(),
                    node.deep(),
                    global.services,
                ),
                _ => node.deep() == nv_empty(),
            },
            Err(m) => comp.deep() is Arr && (requests_ok(
                comp.deep()->Arr_0,
            ) == Err::<(), Seq<char>>(m@) || (m@ == "Trying to use non declared service"@
                && exists|j: int, c: Component|
                0 <= j < comp.deep()->Arr_0.len() && #[trigger] component_matches(
                    c,
                    comp.deep()->Arr_0[j],
                ) && !services_known(c, global.services))),
        },
        (match comp.deep() {
            JsonV::Arr(es) => requests_ok(es) is Ok && (forall|i: int|
                0 <= i < es.len() ==> comp_refs_bound(#[trigger] es[i], global.services)),
            _ => true,
        }) ==> r is Ok,
{
    let mut res = Node::new();
    let requests = match comp {
        Json::Arr(requests) => requests,
        _ => {
            return Ok(res);
        },
    };
    let ghost esd = crate::json::deep_elems(requests@);
    let ghost m = global.services;
    proof {
        broadcast use crate::json::lemma_deep_elems_len;

        assert(esd.skip(0) =~= esd);
        assert(esd.len() == requests@.len());
    }
    let mut i: usize = 0;
    while i < requests.len()
        invariant
            i <= requests@.len(),
            requests_ok(esd) == requests_ok(esd.skip(i as int)),
            forall|out: NodeV|
                requests_built(esd.skip(i as int), res.deep(), out, m) ==> requests_built(
                    esd,
                    nv_empty(),
                    out,
                    m,
                ),
        decreases requests@.len() - i,
    {
        broadcast use crate::json::lemma_deep_elems_len;

        proof {
            assert(esd.skip(i as int)[0] == esd[i as int]);
            assert(esd.skip(i as int).skip(1) =~= esd.skip(i as int + 1));
        }
        let (uri, c) = match parse_request(&requests[i], global) {
            Ok(p) => p,
            Err(m) => {
                proof {
                    assert(requests@[i as int].deep() == esd[i as int]);
                    if spec_request_uri(esd[i as int]) is Ok && comp_ok(esd[i as int]) is Ok {
                        // The references cannot all have been bound, or the
                        // element would have parsed.
                        assert(!comp_refs_bound(esd[i as int], global.services));
                    } else {
                        assert(requests_ok(esd.skip(i as int)) is Err);
                    }
                }
                return Err(m);
            },
        };
        let ghost cg = c;
        let ghost acc0 = res.deep();
        let ghost u = uri@;
        res.insert(uri, c);
        proof {
            assert(res.deep() == spec_insert(
                acc0,
                crate::strutil::path_segs(u),
                Some(cg),
            ));
            assert forall|out: NodeV|
                requests_built(esd.skip(i as int + 1), res.deep(), out, m) implies requests_built(
                esd,
                nv_empty(),
                out,
                m,
            ) by {
                assert(requests_built(esd.skip(i as int), acc0, out, m)) by {
                    assert(component_matches(cg, esd.skip(i as int)[0]));
                }
            }
        }
        i += 1;
    }
    proof {
        assert(esd.skip(requests@.len() as int) =~= Seq::<JsonV>::empty());
        assert(requests_built(Seq::<JsonV>::empty(), res.deep(), res.deep(), m));
    }
    Ok(res)
}

/// Whether every service declaration in the array is well-formed, or the
/// first error among them. (The generated name plays no part in whether a
/// declaration is well-formed.)
pub open spec fn services_ok(es: Seq<JsonV>) -> Result<(), Seq<char>>
    decreases es.len(),
{
    if es.len() == 0 {
        Ok(())
    } else {
        match spec_service(es[0], Seq::<char>::empty()) {
            Err(e) => Err(e),
            Ok(_) => services_ok(es.skip(1)),
        }
    }
}

/// The registry is the left-to-right application of the declarations: for
/// each one there is a fresh name under which it was registered, leading
/// from `before` to `after`.
pub open spec fn services_applied(es: Seq<JsonV>, before: ServiceMap, after: ServiceMap) -> bool
    decreases es.len(),
{
    if es.len() == 0 {
        after == before
    } else {
        exists|mid: ServiceMap, fresh: Seq<char>, name: Seq<char>|
            #[trigger] service_applied(es[0], fresh, name, before, mid) && services_applied(
                es.skip(1),
                mid,
                after,
            )
    }
}

/// The error of a service declaration does not depend on the fresh name.
proof fn lemma_spec_service_err_any_fresh(v: JsonV, f1: Seq<char>, f2: Seq<char>)
    ensures
        (spec_service(v, f1) is Err) == (spec_service(v, f2) is Err),
        spec_service(v, f1) is Err ==> spec_service(v, f1) == spec_service(v, f2),
{
}

/// Parse and register every service declaration, in order. A value that is
/// not an array registers nothing; a malformed declaration is the first
/// error, and the registry then keeps only the declarations before it.
#[verifier::loop_isolation(false)]
pub fn parse_services(services: &mut ServiceMap, val: &Json) -> (r: Result<(), String>)
    ensures
        match r {
            Ok(_) => match val.deep() {
                JsonV::Arr(es) => services_ok(es) is Ok && services_applied(
                    es,
                    *old(services),
                    *final(services),
                ) && (forall|n: Seq<char>|
                    #[trigger] declared_names(es).contains(n) ==> final(services).spec_get(n)
                        is Some),
                _ => *final(services) == *old(services),
            },
            Err(m) => val.deep() is Arr && services_ok(val.deep()->Arr_0) == Err::<
                (),
                Seq<char>,
            >(m@),
        },
{
    let arr = match val {
        Json::Arr(arr) => arr,
        _ => {
            return Ok(());
        },
    };
    let ghost esd = crate::json::deep_elems(arr@);
    let ghost before0 = *services;
    proof {
        broadcast use crate::json::lemma_deep_elems_len;

        assert(esd.skip(0) =~= esd);
        assert(esd.len() == arr@.len());
    }
    proof {
        assert(esd.take(0) =~= Seq::<JsonV>::empty());
    }
    let mut i: usize = 0;
    while i < arr.len()
        invariant
            i <= arr@.len(),
            before0 == *old(services),
            services_ok(esd) == services_ok(esd.skip(i as int)),
            forall|fin: ServiceMap|
                services_applied(esd.skip(i as int), *services, fin) ==> services_applied(
                    esd,
                    before0,
                    fin,
                ),
            forall|n: Seq<char>|
                #[trigger] declared_names(esd.take(i as int)).contains(n) ==> services.spec_get(
                    n,
                ) is Some,
        decreases arr@.len() - i,
    {
        broadcast use crate::json::lemma_deep_elems_len;

        proof {
            assert(esd.skip(i as int)[0] == esd[i as int]);
            assert(esd.skip(i as int).skip(1) =~= esd.skip(i as int + 1));
        }
        let ghost prev = *services;
        match add_service(&arr[i], services) {
            Ok(name) => {
                proof {
                    let fresh = choose|fresh: Seq<char>|
                        #[trigger] service_applied(esd[i as int], fresh, name@, prev, *services);
                    assert(spec_service(esd[i as int], fresh) is Ok);
                    lemma_spec_service_err_any_fresh(esd[i as int], fresh, Seq::<char>::empty());
                    assert forall|fin: ServiceMap|
                        services_applied(esd.skip(i as int + 1), *services, fin) implies services_applied(
                        esd,
                        before0,
                        fin,
                    ) by {
                        assert(services_applied(esd.skip(i as int), prev, fin)) by {
                            assert(service_applied(
                                esd.skip(i as int)[0],
                                fresh,
                                name@,
                                prev,
                                *services,
                            ));
                        }
                    }
                    // Every declared name seen so far stays bound, and a
                    // declared name on this element becomes bound.
                    let sv = spec_service(esd[i as int], fresh)->Ok_0;
                    assert(esd.take(i as int + 1).drop_last() =~= esd.take(i as int));
                    assert(esd.take(i as int + 1).last() == esd[i as int]);
                    assert forall|n: Seq<char>|
                        #[trigger] declared_names(esd.take(i as int + 1)).contains(
                            n,
                        ) implies services.spec_get(n) is Some by {
                        let olds = declared_names(esd.take(i as int));
                        let news = declared_names(esd.take(i as int + 1));
                        if n == sv.name {
                            assert(services.spec_get(n) is Some);
                        } else {
                            assert(services.spec_get(n) == prev.spec_get(n));
                            match jv_field(esd[i as int], "name"@) {
                                Some(nv) => match nv {
                                    JsonV::Str(ni) => {
                                        assert(sv.name == ni);
                                        assert(news == olds.push(ni));
                                        let idx = choose|idx: int|
                                            0 <= idx < news.len() && news[idx] == n;
                                        assert(idx < olds.len());
                                        assert(olds[idx] == n);
                                        assert(olds.contains(n));
                                    },
                                    _ => {
                                        assert(news == olds);
                                    },
                                },
                                None => {
                                    assert(news == olds);
                                },
                            }
                            assert(prev.spec_get(n) is Some);
                        }
                    }
                }
            },
            Err(m) => {
                proof {
                    let fresh = choose|fresh: Seq<char>|
                        #[trigger] spec_service(esd[i as int], fresh) == Err::<
                            ServiceV,
                            Seq<char>,
                        >(m@);
                    lemma_spec_service_err_any_fresh(esd[i as int], fresh, Seq::<char>::empty());
                }
                return Err(m);
            },
        }
        i += 1;
    }
    proof {
        assert(esd.skip(arr@.len() as int) =~= Seq::<JsonV>::empty());
        assert(esd.take(arr@.len() as int) =~= esd);
    }
    Ok(())
}

/// Apply the root declaration to the global state: the `exposed` listener
/// and the root `services` list, each optional.
pub fn parse_root(component: &Json, global: &mut GlobalState) -> (r: Result<(), String>)
    ensures
        match r {
            Ok(_) => {
                &&& match jv_field(component.deep(), "exposed"@) {
                    Some(ev) => spec_exposed(ev) is Ok && (final(global).exposed matches Some(e)
                        && spec_exposed(ev) == Ok::<(Seq<char>, int), Seq<char>>(
                        (e.host@, e.port as int),
                    )),
                    None => final(global).exposed == old(global).exposed,
                }
                &&& match jv_field(component.deep(), "services"@) {
                    Some(sv) => if sv is Arr {
                        services_ok(sv->Arr_0) is Ok && services_applied(
                            sv->Arr_0,
                            old(global).services,
                            final(global).services,
                        ) && (forall|n: Seq<char>|
                            #[trigger] declared_names(sv->Arr_0).contains(n)
                                ==> final(global).services.spec_get(n) is Some)
                    } else {
                        final(global).services == old(global).services
                    },
                    None => final(global).services == old(global).services,
                }
            },
            Err(m) => (match jv_field(component.deep(), "exposed"@) {
                Some(ev) => spec_exposed(ev) == Err::<(Seq<char>, int), Seq<char>>(m@),
                None => false,
            }) || (match jv_field(component.deep(), "services"@) {
                Some(sv) => sv is Arr && services_ok(sv->Arr_0) == Err::<(), Seq<char>>(m@),
                None => false,
            }),
        },
{
    match component.get_field("exposed") {
        None => {},
        Some(ev) => match Exposed::from_json(ev) {
            Ok(e) => {
                global.exposed = Some(e);
            },
            Err(m) => {
                return Err(m);
            },
        },
    }
    match component.get_field("services") {
        None => {},
        Some(sv) => match parse_services(&mut global.services, sv) {
            Ok(_) => {},
            Err(m) => {
                return Err(m);
            },
        },
    }
    Ok(())
}

/// The document-level and root-declaration checks: valid JSON, root type
/// `endpoint`, a well-formed `exposed` block and service declarations.
/// (The `requests` section is covered by [`config_accepted`]; its own
/// failures can also depend on the registry, so they are not a function of
/// these checks alone.)
pub open spec fn config_ok(s: Seq<char>) -> Result<(), Seq<char>> {
    match spec_parse_text(s) {
        None => Err("Configuration is not valid JSON"@),
        Some(v) => if jv_field(v, "type"@) != Some(JsonV::Str("endpoint"@)) {
            Err("Configuration root type must be endpoint"@)
        } else {
            let exposed_ok: Result<(), Seq<char>> = match jv_field(v, "exposed"@) {
                None => Ok(()),
                Some(ev) => match spec_exposed(ev) {
                    Ok(_) => Ok(()),
                    Err(e) => Err(e),
                },
            };
            match exposed_ok {
                Err(e) => Err(e),
                Ok(_) => {
                    let svcs_ok: Result<(), Seq<char>> = match jv_field(v, "services"@) {
                        None => Ok(()),
                        Some(sv) => match sv {
                            JsonV::Arr(es) => services_ok(es),
                            _ => Ok(()),
                        },
                    };
                    match svcs_ok {
                        Err(e) => Err(e),
                        Ok(_) => Ok(()),
                    }
                },
            }
        },
    }
}

/// Parse a whole configuration document into a routing trie and a global
/// state. The document must be valid JSON with root type `endpoint`; the
/// `requests` errors surface after the root declarations are applied.
/// What a successfully parsed configuration document yields: the exposed
/// listener per its block (absent means none), the service registry as the
/// left-to-right application of the declarations, and the routing trie built
/// from the request declarations in order.
pub open spec fn parsed_config_matches(s: Seq<char>, node: NodeV, gs: GlobalState) -> bool {
    &&& spec_parse_text(s) is Some
    &&& {
        let v = spec_parse_text(s)->Some_0;
        &&& match jv_field(v, "exposed"@) {
            Some(ev) => gs.exposed matches Some(e) && spec_exposed(ev) == Ok::<
                (Seq<char>, int),
                Seq<char>,
            >((e.host@, e.port as int)),
            None => gs.exposed is None,
        }
        &&& match jv_field(v, "services"@) {
            Some(sv) => if sv is Arr {
                exists|start: ServiceMap|
                    #[trigger] services_applied(sv->Arr_0, start, gs.services)
                        && start.pairs@.len() == 0
            } else {
                gs.services.pairs@.len() == 0
            },
            None => gs.services.pairs@.len() == 0,
        }
        &&& match jv_field(v, "requests"@) {
            Some(rv) => match rv {
                JsonV::Arr(es) => requests_built(es, nv_empty(), node, gs.services),
                _ => node == nv_empty(),
            },
            None => node == nv_empty(),
        }
    }
}

/// A document the gateway accepts outright: well-formed JSON with root type
/// `endpoint`, well-formed `exposed` and service declarations, and request
/// declarations that are well-formed and reference only services the
/// document itself declares by name. (A request may also reference a
/// generated name it cannot know, so this predicate is sufficient for
/// success, and `config_ok` failing is sufficient for rejection.)
pub open spec fn config_accepted(s: Seq<char>) -> bool {
    &&& config_ok(s) is Ok
    &&& match spec_parse_text(s) {
        Some(v) => {
            let names = match jv_field(v, "services"@) {
                Some(sv) => match sv {
                    JsonV::Arr(es) => declared_names(es),
                    _ => Seq::<Seq<char>>::empty(),
                },
                None => Seq::<Seq<char>>::empty(),
            };
            match jv_field(v, "requests"@) {
                Some(rv) => match rv {
                    JsonV::Arr(es) => requests_ok(es) is Ok && (forall|i: int|
                        0 <= i < es.len() ==> comp_refs_in(#[trigger] es[i], names)),
                    _ => true,
                },
                None => true,
            }
        },
        None => false,
    }
}

pub fn parse_config(text: &str) -> (r: Result<(Node, GlobalState), String>)
    ensures
        match r {
            Ok((node, gs)) => config_ok(text@) is Ok && parsed_config_matches(
                text@,
                node.deep(),
                gs,
            ),
            Err(_) => true,
        },
        config_ok(text@) is Err ==> r is Err,
        config_accepted(text@) ==> r is Ok,
{
    let v = match parse_text(text) {
        Some(v) => v,
        None => {
            return Err("Configuration is not valid JSON".to_owned());
        },
    };
    let is_endpoint = match v.get_field("type") {
        Some(tv) => match tv.as_str() {
            Some(t) => str_eq(t.as_str(), "endpoint"),
            None => false,
        },
        None => false,
    };
    if !is_endpoint {
        return Err("Configuration root type must be endpoint".to_owned());
    }
    let mut global = GlobalState::empty();
    let ghost start = global.services;
    match parse_root(&v, &mut global) {
        Ok(_) => {},
        Err(m) => {
            return Err(m);
        },
    }
    let tree: Node = match v.get_field("requests") {
        Some(req) => match parse_requests(req, &global) {
            Ok(t) => t,
            Err(m) => {
                proof {
                    if config_accepted(text@) {
                        // Declared references are bound after the root was
                        // applied, so the requests parser cannot have failed.
                        let names = match jv_field(v.deep(), "services"@) {
                            Some(sv) => match sv {
                                JsonV::Arr(es) => declared_names(es),
                                _ => Seq::<Seq<char>>::empty(),
                            },
                            None => Seq::<Seq<char>>::empty(),
                        };
                        match req.deep() {
                            JsonV::Arr(es) => {
                                assert forall|i: int| 0 <= i < es.len() implies comp_refs_bound(
                                    #[trigger] es[i],
                                    global.services,
                                ) by {
                                    lemma_refs_in_bound(es[i], names, global.services);
                                }
                            },
                            _ => {},
                        }
                    }
                }
                return Err(m);
            },
        },
        None => Node::new(),
    };
    Ok((tree, global))
}

/// Law: reloading with a document that does not parse or does not validate
/// leaves the prior routing tree and service state fully intact; an accepted
/// document must be adopted, and the adopted generation is exactly what the
/// document describes, replaced as a unit.
pub fn reload(tree: Node, global: GlobalState, text: &str) -> (r: (Node, GlobalState, bool))
    ensures
        !r.2 ==> r.0 == tree && r.1 == global,
        r.2 ==> config_ok(text@) is Ok && parsed_config_matches(text@, r.0.deep(), r.1),
        config_accepted(text@) ==> r.2,
        spec_parse_text(text@) is None ==> !r.2 && r.0 == tree && r.1 == global,
{
    match parse_config(text) {
        Ok((t, g)) => (t, g, true),
        Err(_) => (tree, global, false),
    }
}

} // verus!
