//! The configuration data model: upstream services with their defaults and
//! override flags, routed components (proxy, chain, exposed root, static),
//! and chain placement rules.

use vstd::prelude::*;

use crate::json::{Json, JsonV};
use crate::kv::StrMap;
use crate::strutil::{dec_int_seq, i64_to_string, str_eq};
use vstd::string::StringExecFns;

use crate::bridge::push_char;
use crate::json::PathSeg;

verus! {

/// How a local copy of a service is launched (an external collaborator; the
/// library only carries the description).
pub struct ServiceRun {
    pub way: String,
    pub tag: String,
}

/// A service's defaults: path, headers, and body, applied according to the
/// service's `uses` flags.
pub struct ServiceSets {
    pub headers: StrMap,
    pub path: String,
    pub body: Json,
}

impl ServiceSets {
    /// Empty defaults: no headers, an empty path, and an empty-string body.
    pub fn new() -> (r: ServiceSets)
        ensures
            r.headers.entries() == Seq::<(Seq<char>, Seq<char>)>::empty(),
            r.path@ == Seq::<char>::empty(),
            r.body.deep() == JsonV::Str(Seq::<char>::empty()),
    {
        ServiceSets { headers: StrMap::new(), path: String::new(), body: Json::Str(String::new()) }
    }
}

/// A named upstream: host, port, which caller parts pass through (`uses`),
/// and the defaults applied otherwise.
pub struct Service {
    pub server: String,
    pub port: u16,
    pub uses: Vec<String>,
    pub sets: ServiceSets,
    pub run: Option<ServiceRun>,
}

impl Service {
    /// Whether the flag `name` (one of `url`, `headers`, `body`) is enabled.
    pub open spec fn uses_flag(self, name: Seq<char>) -> bool {
        exists|i: int| 0 <= i < self.uses@.len() && (#[trigger] self.uses@[i])@ == name
    }

    /// A service with the given address, no flags, and empty defaults.
    pub fn new(server: String, port: u16, run: Option<ServiceRun>) -> (r: Service)
        ensures
            r.server == server,
            r.port == port,
            r.uses@.len() == 0,
            r.sets.headers.entries() == Seq::<(Seq<char>, Seq<char>)>::empty(),
            r.sets.path@ == Seq::<char>::empty(),
            r.sets.body.deep() == JsonV::Str(Seq::<char>::empty()),
            r.run == run,
            forall|name: Seq<char>| !r.uses_flag(name),
    {
        Service { server, port, uses: Vec::new(), sets: ServiceSets::new(), run }
    }

    /// Whether the flag `name` is enabled.
    pub fn has_use(&self, name: &str) -> (r: bool)
        ensures
            r == self.uses_flag(name@),
    {
        let mut i: usize = 0;
        while i < self.uses.len()
            invariant
                i <= self.uses@.len(),
                forall|j: int| 0 <= j < i ==> (#[trigger] self.uses@[j])@ != name@,
            decreases self.uses@.len() - i,
        {
            if str_eq(self.uses[i].as_str(), name) {
                return true;
            }
            i += 1;
        }
        false
    }
}

/// The listening endpoint configured at the root.
pub struct Exposed {
    pub host: String,
    pub port: i64,
}

impl Exposed {
    /// `host:port`, the address the listener binds.
    pub fn stringify(&self) -> (r: String)
        ensures
            r@ == self.host@ + seq![':'] + dec_int_seq(self.port as int),
    {
        let mut r = self.host.clone();
        push_char(&mut r, ':');
        let p = i64_to_string(self.port);
        r.append(p.as_str());
        r
    }
}

/// Where a placement rule reads its value.
pub enum RuleFrom {
    /// A header of the decoded upstream response (the literal `undefined`
    /// when absent).
    Header(String),
    /// A path into the decoded upstream response body, parsed at
    /// configuration time.
    Body(Vec<PathSeg>),
    /// A key of the per-request store (the previous value stands when
    /// absent).
    Store(String),
}

/// Where a placement rule writes its value.
pub enum RuleInto {
    /// Set a header on the outbound request.
    Header(String),
    /// Replace the outbound body with a JSON string literal of the value.
    Body,
    /// Upsert into the per-request store.
    Store(String),
}

/// One chain placement rule: exactly one source and one destination.
pub struct ChainComponentPlace {
    pub from: RuleFrom,
    pub into: RuleInto,
}

impl ChainComponentPlace {
    pub fn new(from: RuleFrom, into: RuleInto) -> (r: ChainComponentPlace)
        ensures
            r.from == from,
            r.into == into,
    {
        ChainComponentPlace { from, into }
    }
}

/// A component that proxies to a named service.
pub struct ProxyComponent {
    pub service_name: String,
}

/// The root marker carrying the listening endpoint.
pub struct ExposedComponent {
    pub host: String,
    pub port: i64,
}

/// A component piping `from`'s response into `to`'s request under `place`
/// rules.
pub struct ChainComponent {
    pub from: Box<Component>,
    pub to: Box<Component>,
    pub place: Vec<ChainComponentPlace>,
}

/// A component serving files under a directory (the file access itself is
/// outside the library).
pub struct StaticComponent {
    pub path: String,
    pub index: String,
}

/// A routed unit of request handling.
pub enum Component {
    Proxy(ProxyComponent),
    Exposed(ExposedComponent),
    Chain(ChainComponent),
    Static(StaticComponent),
}

impl Component {
    pub fn new_proxy(service_name: String) -> (r: Component)
        ensures
            r == Component::Proxy(ProxyComponent { service_name }),
    {
        Component::Proxy(ProxyComponent { service_name })
    }

    pub fn new_exposed(host: String, port: i64) -> (r: Component)
        ensures
            r == Component::Exposed(ExposedComponent { host, port }),
    {
        Component::Exposed(ExposedComponent { host, port })
    }

    pub fn new_chain(from: Box<Component>, to: Box<Component>, place: Vec<ChainComponentPlace>) -> (r:
        Component)
        ensures
            r == Component::Chain(ChainComponent { from, to, place }),
    {
        Component::Chain(ChainComponent { from, to, place })
    }
}

/// The named services of one configuration generation, looked up by name.
/// Entries keep their order; keys are unique.
pub struct ServiceMap {
    pub pairs: Vec<(String, Service)>,
}

impl ServiceMap {
    /// The service bound to `name`, if any (first binding).
    pub open spec fn spec_get(self, name: Seq<char>) -> Option<Service>
        decreases self.pairs@.len(),
    {
        spec_get_in(self.pairs@, name)
    }

    pub fn new() -> (r: ServiceMap)
        ensures
            r.pairs@.len() == 0,
            forall|name: Seq<char>| r.spec_get(name) is None,
    {
        ServiceMap { pairs: Vec::new() }
    }

    pub fn get(&self, name: &str) -> (r: Option<&Service>)
        ensures
            match r {
                Some(s) => self.spec_get(name@) == Some(*s),
                None => self.spec_get(name@) is None,
            },
    {
        let mut i: usize = 0;
        while i < self.pairs.len()
            invariant
                i <= self.pairs@.len(),
                forall|j: int| 0 <= j < i ==> (#[trigger] self.pairs@[j]).0@ != name@,
            decreases self.pairs@.len() - i,
        {
            if str_eq(self.pairs[i].0.as_str(), name) {
                proof {
                    lemma_spec_get_in_first(self.pairs@, name@);
                    assert(self.pairs@[i as int].0@ == name@);
                    assert(self.spec_get(name@) == Some(self.pairs@[i as int].1));
                }
                return Some(&self.pairs[i].1);
            }
            i += 1;
        }
        proof {
            lemma_spec_get_in_first(self.pairs@, name@);
        }
        None
    }

    /// Bind `name` to `service`: replace the first binding or append.
    pub fn insert(&mut self, name: String, service: Service)
        ensures
            final(self).spec_get(name@) == Some(service),
            forall|n2: Seq<char>|
                n2 != name@ ==> final(self).spec_get(n2) == old(self).spec_get(n2),
    {
        let ghost es = self.pairs@;
        let mut i: usize = 0;
        while i < self.pairs.len()
            invariant
                i <= self.pairs@.len(),
                es == self.pairs@,
                es == old(self).pairs@,
                forall|j: int| 0 <= j < i ==> (#[trigger] self.pairs@[j]).0@ != name@,
            decreases self.pairs@.len() - i,
        {
            if str_eq(self.pairs[i].0.as_str(), name.as_str()) {
                let ghost gi = i as int;
                let ghost p = (name, service);
                self.pairs.set(i, (name, service));
                proof {
                    assert(self.pairs@ == es.update(gi, p));
                    lemma_spec_get_in_first(self.pairs@, name@);
                    assert forall|j: int| 0 <= j < gi implies (#[trigger] self.pairs@[j]).0@
                        != name@ by {
                        assert(self.pairs@[j] == es[j]);
                    }
                    assert(self.pairs@[gi].0@ == name@);
                    assert(self.spec_get(name@) == Some(service));
                    assert forall|n2: Seq<char>| n2 != name@ implies self.spec_get(n2) == spec_get_in(
                        es,
                        n2,
                    ) by {
                        lemma_get_in_update_other(es, gi, p, n2);
                    }
                }
                return ;
            }
            i += 1;
        }
        self.pairs.push((name, service));
        proof {
            assert(self.pairs@ == es.push((name, service)));
            assert forall|n2: Seq<char>| true implies spec_get_in(es.push((name, service)), n2)
                == (match spec_get_in(es, n2) {
                Some(v) => Some(v),
                None => if name@ == n2 {
                    Some(service)
                } else {
                    None
                },
            }) by {
                lemma_get_in_push(es, (name, service), n2);
            }
            lemma_spec_get_in_first(es, name@);
            assert(spec_get_in(es, name@) is None);
        }
    }
}

/// Looking a name up after appending an entry: the old binding wins; the new
/// entry answers only names the old list did not bind.
proof fn lemma_get_in_push(es: Seq<(String, Service)>, p: (String, Service), n2: Seq<char>)
    ensures
        spec_get_in(es.push(p), n2) == (match spec_get_in(es, n2) {
            Some(v) => Some(v),
            None => if p.0@ == n2 {
                Some(p.1)
            } else {
                None
            },
        }),
    decreases es.len(),
{
    if es.len() == 0 {
        assert(es.push(p)[0] == p);
        assert(es.push(p).skip(1) =~= Seq::<(String, Service)>::empty());
        if p.0@ == n2 {
            assert(spec_get_in(es.push(p), n2) == Some(p.1));
        } else {
            assert(spec_get_in(es.push(p), n2) == spec_get_in(
                Seq::<(String, Service)>::empty(),
                n2,
            ));
        }
        assert(spec_get_in(es, n2) is None);
    } else {
        assert(es.push(p)[0] == es[0]);
        assert(es.push(p).skip(1) =~= es.skip(1).push(p));
        lemma_get_in_push(es.skip(1), p, n2);
        if es[0].0@ == n2 {
            assert(spec_get_in(es.push(p), n2) == Some(es[0].1));
            assert(spec_get_in(es, n2) == Some(es[0].1));
        } else {
            assert(spec_get_in(es.push(p), n2) == spec_get_in(es.skip(1).push(p), n2));
            assert(spec_get_in(es, n2) == spec_get_in(es.skip(1), n2));
        }
    }
}

/// Updating the first entry bound to a name leaves every other name's
/// binding unchanged.
proof fn lemma_get_in_update_other(
    es: Seq<(String, Service)>,
    i: int,
    p: (String, Service),
    n2: Seq<char>,
)
    requires
        0 <= i < es.len(),
        es[i].0@ == p.0@,
        n2 != p.0@,
    ensures
        spec_get_in(es.update(i, p), n2) == spec_get_in(es, n2),
    decreases es.len(),
{
    let up = es.update(i, p);
    if i == 0 {
        assert(up[0] == p);
        assert(up[0].0@ != n2);
        assert(es[0].0@ != n2);
        assert(up.skip(1) =~= es.skip(1));
    } else {
        assert(up[0] == es[0]);
        if es[0].0@ == n2 {
        } else {
            assert(up.skip(1) =~= es.skip(1).update(i - 1, p));
            assert(es.skip(1)[i - 1].0@ == p.0@);
            lemma_get_in_update_other(es.skip(1), i - 1, p, n2);
        }
    }
}

/// First-match lookup in a name/service list.
pub open spec fn spec_get_in(es: Seq<(String, Service)>, name: Seq<char>) -> Option<Service>
    decreases es.len(),
{
    if es.len() == 0 {
        None
    } else if es[0].0@ == name {
        Some(es[0].1)
    } else {
        spec_get_in(es.skip(1), name)
    }
}

proof fn lemma_spec_get_in_first(es: Seq<(String, Service)>, name: Seq<char>)
    ensures
        forall|i: int|
            (0 <= i < es.len() && (#[trigger] es[i]).0@ == name && (forall|j: int|
                0 <= j < i ==> (#[trigger] es[j]).0@ != name)) ==> spec_get_in(es, name) == Some(
                es[i].1,
            ),
        (forall|j: int| 0 <= j < es.len() ==> (#[trigger] es[j]).0@ != name) ==> spec_get_in(
            es,
            name,
        ) is None,
    decreases es.len(),
{
    if es.len() > 0 {
        lemma_spec_get_in_first(es.skip(1), name);
        assert forall|i: int|
            (0 <= i < es.len() && (#[trigger] es[i]).0@ == name && (forall|j: int|
                0 <= j < i ==> (#[trigger] es[j]).0@ != name)) implies spec_get_in(es, name)
            == Some(es[i].1) by {
            if i > 0 {
                assert(es[0].0@ != name);
                assert(es.skip(1)[i - 1].0@ == name);
                assert(forall|j: int| 0 <= j < i - 1 ==> (#[trigger] es.skip(1)[j]).0@ != name);
            }
        }
        if forall|j: int| 0 <= j < es.len() ==> (#[trigger] es[j]).0@ != name {
            assert(forall|j: int| 0 <= j < es.skip(1).len() ==> (#[trigger] es.skip(1)[j]).0@
                != name);
        }
    }
}

/// One configuration generation: the service registry and the exposed
/// listener, replaced as a unit on reload.
pub struct GlobalState {
    pub services: ServiceMap,
    pub exposed: Option<Exposed>,
}

impl GlobalState {
    /// A state with no services and no listener.
    pub fn blank() -> (r: GlobalState)
        ensures
            r.services.pairs@.len() == 0,
            r.exposed is None,
    {
        GlobalState { services: ServiceMap::new(), exposed: None }
    }

    /// A state with no services and no listener.
    pub fn empty() -> (r: GlobalState)
        ensures
            r.services.pairs@.len() == 0,
            r.exposed is None,
    {
        GlobalState { services: ServiceMap::new(), exposed: None }
    }
}

} // verus!
