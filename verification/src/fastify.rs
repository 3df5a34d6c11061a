//! The Fastify-style application: route table with its static-route index,
//! lifecycle hooks, error handler, plugins and server configuration.
use crate::nanbox::spec_box_pointer;
use crate::nanbox::box_pointer;
use crate::router::{
    law_query_string_ignored,
    all_static, lemma_static_parse, lemma_static_segments_match, match_spec,
    parse_segments, request_parts, RoutePattern, Segment,
};
use crate::string_map::StringMap;
use crate::text::{
    components, lemma_before_first_absent, lemma_before_first_trim,
    lemma_components_with_leading_slash, lemma_components_trim, lemma_key_parts, trim_leading,
    before_first, before_first_str, concat, push_char, str_eq, to_uppercase, with_leading_slash,
    with_leading_slash_str, str_to_uppercase,
};
use vstd::prelude::*;

verus! {

/// Closure pointer type (matches perry-runtime)
pub type ClosurePtr = i64;

/// Route definition
#[derive(Clone)]
pub struct Route {
    /// HTTP method (GET, POST, etc.)
    pub method: String,
    /// Route pattern with parameter extraction
    pub pattern: RoutePattern,
    /// Handler closure pointer
    pub handler: ClosurePtr,
}

/// Lifecycle hooks for request processing
#[derive(Clone)]
pub struct Hooks {
    /// Called when a request is received
    pub on_request: Vec<ClosurePtr>,
    /// Called before body parsing
    pub pre_parsing: Vec<ClosurePtr>,
    /// Called before validation
    pub pre_validation: Vec<ClosurePtr>,
    /// Called before the route handler
    pub pre_handler: Vec<ClosurePtr>,
    /// Called before serialization
    pub pre_serialization: Vec<ClosurePtr>,
    /// Called before sending response
    pub on_send: Vec<ClosurePtr>,
    /// Called after response is sent
    pub on_response: Vec<ClosurePtr>,
    /// Called when an error occurs
    pub on_error: Vec<ClosurePtr>,
}

impl Hooks {
    /// The eight hook lists, in lifecycle order.
    pub open spec fn lists(&self) -> Seq<Seq<ClosurePtr>> {
        seq![
            self.on_request@,
            self.pre_parsing@,
            self.pre_validation@,
            self.pre_handler@,
            self.pre_serialization@,
            self.on_send@,
            self.on_response@,
            self.on_error@,
        ]
    }
}

impl Default for Hooks {
    fn default() -> (h: Self)
        ensures
            h.lists() == Seq::new(8, |i: int| Seq::<ClosurePtr>::empty()),
    {
        let h = Hooks {
            on_request: Vec::new(),
            pre_parsing: Vec::new(),
            pre_validation: Vec::new(),
            pre_handler: Vec::new(),
            pre_serialization: Vec::new(),
            on_send: Vec::new(),
            on_response: Vec::new(),
            on_error: Vec::new(),
        };
        assert(h.lists() =~= Seq::new(8, |i: int| Seq::<ClosurePtr>::empty()));
        h
    }
}

/// Plugin registration
#[derive(Clone)]
pub struct Plugin {
    /// Plugin handler closure
    pub handler: ClosurePtr,
    /// URL prefix for all routes in this plugin
    pub prefix: String,
}

/// Server configuration options
#[derive(Clone)]
pub struct FastifyConfig {
    /// Enable request logging
    pub logger: bool,
    /// Trust proxy headers
    pub trust_proxy: bool,
    /// Maximum body size in bytes
    pub body_limit: Option<usize>,
}

impl Default for FastifyConfig {
    fn default() -> (c: Self)
        ensures
            !c.logger,
            !c.trust_proxy,
            c.body_limit is None,
    {
        FastifyConfig { logger: false, trust_proxy: false, body_limit: None }
    }
}

/// Main Fastify application instance
pub struct FastifyApp {
    /// Registered routes
    pub routes: Vec<Route>,
    /// Index over the routes whose pattern has no parameter or wildcard
    /// segment. Key format: `"{METHOD} {full_path}"`, the path with a leading
    /// slash. Value: the index into `routes`.
    pub static_index: StringMap<usize>,
    /// Lifecycle hooks
    pub hooks: Hooks,
    /// Custom error handler
    pub error_handler: Option<ClosurePtr>,
    /// Registered plugins
    pub plugins: Vec<Plugin>,
    /// Route prefix (for plugins)
    pub prefix: String,
    /// Server configuration
    pub config: FastifyConfig,
    /// Callbacks registered through `app.server.on("upgrade", cb)`; stored only.
    pub upgrade_handlers: Vec<ClosurePtr>,
}

/// The path a route is registered under: the prefix, when there is one, in front.
pub open spec fn full_path(prefix: Seq<char>, path: Seq<char>) -> Seq<char> {
    if prefix.len() == 0 {
        path
    } else {
        prefix + path
    }
}

/// The static-index key of a method and a path.
pub open spec fn index_key(method: Seq<char>, path: Seq<char>) -> Seq<char> {
    method + seq![' '] + with_leading_slash(path)
}

/// The static-index key a request looks up: its path without the query string.
pub open spec fn lookup_key(method: Seq<char>, path: Seq<char>) -> Seq<char> {
    index_key(method, before_first(path, '?'))
}

/// The route has `method` and its pattern matches `path`.
pub open spec fn route_matches(r: Route, method: Seq<char>, path: Seq<char>) -> bool {
    r.method@ == method && match_spec(r.pattern.segs(), path) is Some
}

/// Index of the first route at or after `i` that matches.
pub open spec fn scan_from(routes: Seq<Route>, method: Seq<char>, path: Seq<char>, i: int) -> Option<
    int,
>
    decreases routes.len() - i,
{
    if i < 0 || i >= routes.len() {
        None
    } else if route_matches(routes[i], method, path) {
        Some(i)
    } else {
        scan_from(routes, method, path, i + 1)
    }
}

/// An index entry `k` pointing at route `r` is one `add_route` made: `k` is
/// the key of `r`'s method and of a fully static path that `r`'s pattern was
/// parsed from.
pub open spec fn index_entry_ok(r: Route, k: Seq<char>) -> bool {
    exists|full: Seq<char>|
        #![trigger parse_segments(full)]
        k == index_key(r.method@, full) && r.pattern.segs() == parse_segments(full) && all_static(
            parse_segments(full),
        )
}

/// The slot of a hook name among the eight hook lists.
pub open spec fn hook_slot(name: Seq<char>) -> Option<int> {
    if name == "onRequest"@ {
        Some(0)
    } else if name == "preParsing"@ {
        Some(1)
    } else if name == "preValidation"@ {
        Some(2)
    } else if name == "preHandler"@ {
        Some(3)
    } else if name == "preSerialization"@ {
        Some(4)
    } else if name == "onSend"@ {
        Some(5)
    } else if name == "onResponse"@ {
        Some(6)
    } else if name == "onError"@ {
        Some(7)
    } else {
        None
    }
}

/// The words that pin the non-zero closures of `cbs`, in order.
pub open spec fn pinned(cbs: Seq<ClosurePtr>) -> Seq<u64>
    decreases cbs.len(),
{
    if cbs.len() == 0 {
        Seq::empty()
    } else if cbs.last() != 0 {
        pinned(cbs.drop_last()).push(spec_box_pointer(cbs.last()))
    } else {
        pinned(cbs.drop_last())
    }
}

/// A value occurs in a concatenation exactly when it occurs in either part.
pub broadcast proof fn lemma_concat_contains(a: Seq<ClosurePtr>, b: Seq<ClosurePtr>, v: ClosurePtr)
    ensures
        #[trigger] (a + b).contains(v) <==> (a.contains(v) || b.contains(v)),
{
    if a.contains(v) {
        let i = choose|i: int| 0 <= i < a.len() && a[i] == v;
        assert((a + b)[i] == v);
    }
    if b.contains(v) {
        let i = choose|i: int| 0 <= i < b.len() && b[i] == v;
        assert((a + b)[a.len() + i] == v);
    }
    if (a + b).contains(v) {
        let i = choose|i: int| 0 <= i < (a + b).len() && (a + b)[i] == v;
        if i < a.len() {
            assert(a[i] == v);
        } else {
            assert(b[i - a.len()] == v);
        }
    }
}

/// Every non-zero closure of `cbs` has its pinned word among `pinned(cbs)`.
pub proof fn lemma_pinned_contains(cbs: Seq<ClosurePtr>, v: ClosurePtr)
    requires
        cbs.contains(v),
        v != 0,
    ensures
        pinned(cbs).contains(spec_box_pointer(v)),
    decreases cbs.len(),
{
    let init = cbs.drop_last();
    let w = spec_box_pointer(v);
    if cbs.last() == v {
        assert(pinned(cbs) == pinned(init).push(w));
        assert(pinned(cbs)[pinned(init).len() as int] == w);
    } else {
        let i = choose|i: int| 0 <= i < cbs.len() && cbs[i] == v;
        assert(i < cbs.len() - 1);
        assert(init[i] == v);
        lemma_pinned_contains(init, v);
        let j = choose|j: int| 0 <= j < pinned(init).len() && pinned(init)[j] == w;
        if cbs.last() != 0 {
            assert(pinned(cbs)[j] == w);
        }
    }
}

/// The garbage-collector roots cover every non-zero closure of `cbs`.
pub open spec fn roots_cover(roots: Seq<u64>, cbs: Seq<ClosurePtr>) -> bool {
    forall|j: int|
        0 <= j < cbs.len() && cbs[j] != 0 ==> roots.contains(spec_box_pointer(#[trigger] cbs[j]))
}

/// The first matching route at or after `i`, when there is one, matches.
pub proof fn lemma_scan_from_sound(routes: Seq<Route>, method: Seq<char>, path: Seq<char>, i: int)
    ensures
        scan_from(routes, method, path, i) matches Some(j) ==> i <= j < routes.len()
            && route_matches(routes[j], method, path),
    decreases routes.len() - i,
{
    if 0 <= i < routes.len() && !route_matches(routes[i], method, path) {
        lemma_scan_from_sound(routes, method, path, i + 1);
    }
}

/// No character of `s` is a space.
pub open spec fn no_space(s: Seq<char>) -> bool {
    forall|j: int| 0 <= j < s.len() ==> s[j] != ' '
}

/// Dispatch is sound: the route `match_route` picks has the request's method,
/// its pattern matches the request path, and the parameters handed over are
/// the ones that pattern extracts. This holds when neither the request method
/// nor any registered method contains a space (the index key joins method and
/// path with one).
pub proof fn law_match_sound(app: FastifyApp, method: Seq<char>, path: Seq<char>)
    requires
        app.wf(),
        no_space(method),
        forall|i: int| 0 <= i < app.routes@.len() ==> no_space(#[trigger] app.routes@[i].method@),
    ensures
        app.match_index(method, path) matches Some(i) ==> {
            &&& 0 <= i < app.routes@.len()
            &&& route_matches(app.routes@[i], method, path)
            &&& match_spec(app.routes@[i].pattern.segs(), path) == Some(
                app.match_params(method, path),
            )
        },
{
    let key = lookup_key(method, path);
    if app.static_index@.contains_key(key) {
        let i = app.static_index@[key] as int;
        let r = app.routes@[i];
        assert(index_entry_ok(r, key));
        let full = choose|full: Seq<char>|
            #![trigger parse_segments(full)]
            key == index_key(r.method@, full) && r.pattern.segs() == parse_segments(full)
                && all_static(parse_segments(full));
        let bf = before_first(path, '?');
        lemma_key_parts(method, with_leading_slash(bf), r.method@, with_leading_slash(full));
        lemma_components_with_leading_slash(bf);
        lemma_components_with_leading_slash(full);
        lemma_before_first_trim(path);
        lemma_components_trim(bf);
        lemma_components_trim(full);
        assert(request_parts(path) == components(trim_leading(full, '/')));
        lemma_static_parse(full);
        lemma_static_segments_match(
            parse_segments(full),
            components(trim_leading(full, '/')),
            Map::empty(),
        );
    } else {
        lemma_scan_from_sound(app.routes@, method, path, 0);
    }
}

/// The scan finds a route whenever one at or after `i` matches.
pub proof fn lemma_scan_from_complete(
    routes: Seq<Route>,
    method: Seq<char>,
    path: Seq<char>,
    i: int,
    j: int,
)
    requires
        0 <= i <= j < routes.len(),
        route_matches(routes[j], method, path),
    ensures
        scan_from(routes, method, path, i) is Some,
    decreases j - i,
{
    if !route_matches(routes[i], method, path) {
        lemma_scan_from_complete(routes, method, path, i + 1, j);
    }
}

/// Dispatch finds a route exactly when some registered route has the
/// request's method and a pattern matching its path (when neither the request
/// method nor any registered method contains a space).
pub proof fn law_dispatch_complete(app: FastifyApp, method: Seq<char>, path: Seq<char>)
    requires
        app.wf(),
        no_space(method),
        forall|i: int| 0 <= i < app.routes@.len() ==> no_space(#[trigger] app.routes@[i].method@),
    ensures
        app.match_index(method, path) is Some <==> exists|i: int|
            0 <= i < app.routes@.len() && route_matches(#[trigger] app.routes@[i], method, path),
{
    law_match_sound(app, method, path);
    if exists|i: int|
        0 <= i < app.routes@.len() && route_matches(#[trigger] app.routes@[i], method, path) {
        let j = choose|i: int|
            0 <= i < app.routes@.len() && route_matches(#[trigger] app.routes@[i], method, path);
        if !app.static_index@.contains_key(lookup_key(method, path)) {
            lemma_scan_from_complete(app.routes@, method, path, 0, j);
        }
    }
}

/// Every index entry of a well-formed application points at an existing route
/// whose pattern has no parameter or wildcard segment.
pub proof fn law_index_points_at_static_routes(app: FastifyApp, k: Seq<char>)
    requires
        app.wf(),
        app.static_index@.contains_key(k),
    ensures
        (app.static_index@[k] as int) < app.routes@.len(),
        all_static(app.routes@[app.static_index@[k] as int].pattern.segs()),
{
    let r = app.routes@[app.static_index@[k] as int];
    assert(index_entry_ok(r, k));
}

/// The static index a sequence of registrations `(method, path, handler)`
/// on an application with `prefix` builds: each fully static registration
/// is indexed under its key with its position, a later one replacing an
/// earlier one with the same key (so each key maps to the last such position).
pub open spec fn index_of_registrations(
    prefix: Seq<char>,
    regs: Seq<(Seq<char>, Seq<char>, ClosurePtr)>,
) -> Map<Seq<char>, usize>
    decreases regs.len(),
{
    if regs.len() == 0 {
        Map::empty()
    } else {
        let earlier = index_of_registrations(prefix, regs.drop_last());
        let (method, path, _) = regs.last();
        let full = full_path(prefix, path);
        if all_static(parse_segments(full)) {
            earlier.insert(index_key(method, full), (regs.len() - 1) as usize)
        } else {
            earlier
        }
    }
}

/// Starting from an application without routes and with an empty index,
/// registering `regs` one after the other (through `add_route`, each method
/// upper-cased) yields one route per registration and exactly the index
/// `index_of_registrations` describes.
pub proof fn law_static_index_of_registrations(
    apps: Seq<FastifyApp>,
    regs: Seq<(Seq<char>, Seq<char>, ClosurePtr)>,
)
    requires
        apps.len() == regs.len() + 1,
        apps[0].routes@.len() == 0,
        apps[0].static_index@ == Map::<Seq<char>, usize>::empty(),
        forall|j: int|
            0 <= j < regs.len() ==> FastifyApp::route_registered(
                &apps[j],
                &#[trigger] apps[j + 1],
                regs[j].0,
                regs[j].1,
                regs[j].2,
            ),
    ensures
        apps.last().routes@.len() == regs.len(),
        apps.last().prefix == apps[0].prefix,
        apps.last().static_index@ == index_of_registrations(apps[0].prefix@, regs),
    decreases regs.len(),
{
    if regs.len() > 0 {
        let a2 = apps.drop_last();
        let r2 = regs.drop_last();
        assert forall|j: int| 0 <= j < r2.len() implies FastifyApp::route_registered(
            &a2[j],
            &#[trigger] a2[j + 1],
            r2[j].0,
            r2[j].1,
            r2[j].2,
        ) by {
            assert(a2[j + 1] == apps[j + 1]);
            assert(FastifyApp::route_registered(
                &apps[j],
                &apps[j + 1],
                regs[j].0,
                regs[j].1,
                regs[j].2,
            ));
        }
        law_static_index_of_registrations(a2, r2);
        let n = regs.len() - 1;
        assert(FastifyApp::route_registered(
            &apps[n],
            &apps[n + 1],
            regs[n].0,
            regs[n].1,
            regs[n].2,
        ));
        assert(a2.last() == apps[n]);
    }
}

/// Registration `j` of `regs` is fully static and indexed under key `k`.
pub open spec fn reg_indexed(
    prefix: Seq<char>,
    regs: Seq<(Seq<char>, Seq<char>, ClosurePtr)>,
    j: int,
    k: Seq<char>,
) -> bool {
    let full = full_path(prefix, regs[j].1);
    all_static(parse_segments(full)) && index_key(regs[j].0, full) == k
}

/// The index registrations build holds exactly the keys of their fully static
/// registrations, and each key points at the last registration indexed under
/// it.
pub proof fn law_static_index_last_registration(
    prefix: Seq<char>,
    regs: Seq<(Seq<char>, Seq<char>, ClosurePtr)>,
    k: Seq<char>,
)
    requires
        regs.len() <= usize::MAX,
    ensures
        index_of_registrations(prefix, regs).contains_key(k) <==> exists|j: int|
            0 <= j < regs.len() && #[trigger] reg_indexed(prefix, regs, j, k),
        index_of_registrations(prefix, regs).contains_key(k) ==> {
            let i = index_of_registrations(prefix, regs)[k] as int;
            &&& 0 <= i < regs.len()
            &&& reg_indexed(prefix, regs, i, k)
            &&& forall|j: int| i < j < regs.len() ==> !#[trigger] reg_indexed(prefix, regs, j, k)
        },
    decreases regs.len(),
{
    if regs.len() > 0 {
        let n = regs.len() - 1;
        let init = regs.drop_last();
        law_static_index_last_registration(prefix, init, k);
        assert forall|j: int| 0 <= j < n implies #[trigger] reg_indexed(prefix, init, j, k)
            == reg_indexed(prefix, regs, j, k) by {
            assert(init[j] == regs[j]);
        }
        let earlier = index_of_registrations(prefix, init);
        let m = index_of_registrations(prefix, regs);
        if exists|j: int| 0 <= j < regs.len() && #[trigger] reg_indexed(prefix, regs, j, k) {
            let j = choose|j: int| 0 <= j < regs.len() && #[trigger] reg_indexed(prefix, regs, j, k);
            if j < n {
                assert(reg_indexed(prefix, init, j, k));
            }
        }
        if earlier.contains_key(k) {
            let i = earlier[k] as int;
            assert(reg_indexed(prefix, init, i, k));
        }
        if m.contains_key(k) && !reg_indexed(prefix, regs, n, k) {
            assert(earlier.contains_key(k));
            let i = earlier[k] as int;
            assert(reg_indexed(prefix, init, i, k));
            assert forall|j: int| i < j < regs.len() implies !#[trigger] reg_indexed(
                prefix,
                regs,
                j,
                k,
            ) by {
                if j < n {
                    assert(!reg_indexed(prefix, init, j, k));
                }
            }
        }
    }
}

/// Starting from an application without routes and with an empty index,
/// registering `regs` one after the other (through `add_route`, each method
/// upper-cased) yields an index whose keys are those of the fully static
/// registrations, each pointing at the last registration under that key.
pub proof fn law_static_index_keys_last_registration(
    apps: Seq<FastifyApp>,
    regs: Seq<(Seq<char>, Seq<char>, ClosurePtr)>,
)
    requires
        apps.len() == regs.len() + 1,
        apps[0].routes@.len() == 0,
        apps[0].static_index@ == Map::<Seq<char>, usize>::empty(),
        forall|j: int|
            0 <= j < regs.len() ==> FastifyApp::route_registered(
                &apps[j],
                &#[trigger] apps[j + 1],
                regs[j].0,
                regs[j].1,
                regs[j].2,
            ),
        regs.len() <= usize::MAX,
    ensures
        forall|k: Seq<char>|
            #![trigger apps.last().static_index@.contains_key(k)]
            {
                &&& apps.last().static_index@.contains_key(k) <==> exists|j: int|
                    0 <= j < regs.len() && #[trigger] reg_indexed(apps[0].prefix@, regs, j, k)
                &&& apps.last().static_index@.contains_key(k) ==> {
                    let i = apps.last().static_index@[k] as int;
                    &&& 0 <= i < regs.len()
                    &&& reg_indexed(apps[0].prefix@, regs, i, k)
                    &&& forall|j: int|
                        i < j < regs.len() ==> !#[trigger] reg_indexed(apps[0].prefix@, regs, j, k)
                }
            },
{
    law_static_index_of_registrations(apps, regs);
    assert forall|k: Seq<char>| #![trigger apps.last().static_index@.contains_key(k)] {
        &&& apps.last().static_index@.contains_key(k) <==> exists|j: int|
            0 <= j < regs.len() && #[trigger] reg_indexed(apps[0].prefix@, regs, j, k)
        &&& apps.last().static_index@.contains_key(k) ==> {
            let i = apps.last().static_index@[k] as int;
            &&& 0 <= i < regs.len()
            &&& reg_indexed(apps[0].prefix@, regs, i, k)
            &&& forall|j: int|
                i < j < regs.len() ==> !#[trigger] reg_indexed(apps[0].prefix@, regs, j, k)
        }
    } by {
        law_static_index_last_registration(apps[0].prefix@, regs, k);
    }
}

/// An application with no routes and an empty index stays well formed while
/// routes are registered: every index entry names an existing, fully static
/// route registered under that key.
pub proof fn lemma_registered_keeps_wf(
    old: FastifyApp,
    new: FastifyApp,
    method: Seq<char>,
    path: Seq<char>,
    handler: ClosurePtr,
)
    requires
        old.wf(),
        FastifyApp::route_registered(&old, &new, method, path, handler),
        new.routes@.len() <= usize::MAX,
    ensures
        new.wf(),
{
    let n = old.routes@.len();
    let full = full_path(old.prefix@, path);
    assert forall|k: Seq<char>| #[trigger] new.static_index@.contains_key(k) implies {
        let i = new.static_index@[k] as int;
        &&& i < new.routes@.len()
        &&& index_entry_ok(new.routes@[i], k)
    } by {
        if all_static(parse_segments(full)) && k == index_key(method, full) {
            let r = new.routes@[n as int];
            assert(new.static_index@[k] as int == n);
            assert(k == index_key(r.method@, full) && r.pattern.segs() == parse_segments(full)
                && all_static(parse_segments(full)));
            assert(index_entry_ok(r, k));
        } else {
            let i = old.static_index@[k] as int;
            assert(old.static_index@.contains_key(k));
            assert(new.static_index@[k] == old.static_index@[k]);
            assert(new.routes@[i] == old.routes@[i]);
            assert(index_entry_ok(old.routes@[i], k));
        }
    }
}

/// Dispatch on an application built from an empty one by registering routes
/// is sound and complete: it finds a route exactly when some registered route
/// has the request's method and a pattern matching its path, and the route it
/// finds is such a route, with the parameters its pattern extracts (when
/// neither the request method nor any registered method contains a space).
pub proof fn law_dispatch_after_registrations(
    apps: Seq<FastifyApp>,
    regs: Seq<(Seq<char>, Seq<char>, ClosurePtr)>,
    method: Seq<char>,
    path: Seq<char>,
)
    requires
        apps.len() == regs.len() + 1,
        apps[0].static_index@ == Map::<Seq<char>, usize>::empty(),
        forall|j: int|
            0 <= j < regs.len() ==> FastifyApp::route_registered(
                &apps[j],
                &#[trigger] apps[j + 1],
                regs[j].0,
                regs[j].1,
                regs[j].2,
            ),
        apps.last().routes@.len() <= usize::MAX,
        no_space(method),
        forall|i: int|
            0 <= i < apps.last().routes@.len() ==> no_space(#[trigger] apps.last().routes@[i].method@),
    ensures
        apps.last().match_index(method, path) is Some <==> exists|i: int|
            0 <= i < apps.last().routes@.len() && route_matches(
                #[trigger] apps.last().routes@[i],
                method,
                path,
            ),
        apps.last().match_index(method, path) matches Some(i) ==> {
            &&& 0 <= i < apps.last().routes@.len()
            &&& route_matches(apps.last().routes@[i], method, path)
            &&& match_spec(apps.last().routes@[i].pattern.segs(), path) == Some(
                apps.last().match_params(method, path),
            )
        },
{
    lemma_chain_wf(apps, regs, regs.len() as int);
    law_match_sound(apps.last(), method, path);
    law_dispatch_complete(apps.last(), method, path);
}

proof fn lemma_chain_len(
    apps: Seq<FastifyApp>,
    regs: Seq<(Seq<char>, Seq<char>, ClosurePtr)>,
    j: int,
)
    requires
        apps.len() == regs.len() + 1,
        forall|j: int|
            0 <= j < regs.len() ==> FastifyApp::route_registered(
                &apps[j],
                &#[trigger] apps[j + 1],
                regs[j].0,
                regs[j].1,
                regs[j].2,
            ),
        0 <= j <= regs.len(),
    ensures
        apps[j].routes@.len() + (regs.len() - j) == apps.last().routes@.len(),
    decreases regs.len() - j,
{
    if j < regs.len() {
        assert(FastifyApp::route_registered(
            &apps[j],
            &apps[j + 1],
            regs[j].0,
            regs[j].1,
            regs[j].2,
        ));
        lemma_chain_len(apps, regs, j + 1);
    }
}

proof fn lemma_chain_wf(
    apps: Seq<FastifyApp>,
    regs: Seq<(Seq<char>, Seq<char>, ClosurePtr)>,
    j: int,
)
    requires
        apps.len() == regs.len() + 1,
        apps[0].static_index@ == Map::<Seq<char>, usize>::empty(),
        forall|j: int|
            0 <= j < regs.len() ==> FastifyApp::route_registered(
                &apps[j],
                &#[trigger] apps[j + 1],
                regs[j].0,
                regs[j].1,
                regs[j].2,
            ),
        apps.last().routes@.len() <= usize::MAX,
        0 <= j <= regs.len(),
    ensures
        apps[j].wf(),
    decreases j,
{
    if j > 0 {
        lemma_chain_wf(apps, regs, j - 1);
        lemma_chain_len(apps, regs, j);
        assert(FastifyApp::route_registered(
            &apps[j - 1],
            &apps[j],
            regs[j - 1].0,
            regs[j - 1].1,
            regs[j - 1].2,
        ));
        lemma_registered_keeps_wf(apps[j - 1], apps[j], regs[j - 1].0, regs[j - 1].1, regs[j - 1].2);
    }
}

/// A fully static route is found again by its method and full path (prefix
/// included, no query string) right after it is registered, even when an
/// earlier route would also match: the index answers first, and the latest
/// registration of a key wins.
pub proof fn law_static_route_found(
    old: FastifyApp,
    new: FastifyApp,
    method: Seq<char>,
    path: Seq<char>,
    handler: ClosurePtr,
)
    requires
        FastifyApp::route_registered(&old, &new, method, path, handler),
        all_static(parse_segments(full_path(old.prefix@, path))),
        forall|j: int|
            0 <= j < full_path(old.prefix@, path).len() ==> full_path(old.prefix@, path)[j]
                != '?',
    ensures
        new.match_index(method, full_path(old.prefix@, path)) == Some(old.routes@.len() as int),
        new.routes@[old.routes@.len() as int].handler == handler,
        new.match_params(method, full_path(old.prefix@, path)) == Map::<
            Seq<char>,
            Seq<char>,
        >::empty(),
{
    let full = full_path(old.prefix@, path);
    assert(new.routes.len() == new.routes@.len());
    lemma_before_first_absent(full, '?');
    assert(lookup_key(method, full) == index_key(method, full));
}

proof fn lemma_scan_from_same(
    routes: Seq<Route>,
    method: Seq<char>,
    p1: Seq<char>,
    p2: Seq<char>,
    i: int,
)
    requires
        forall|j: int| 0 <= j < routes.len() ==> route_matches(#[trigger] routes[j], method, p1)
            == route_matches(routes[j], method, p2),
    ensures
        scan_from(routes, method, p1, i) == scan_from(routes, method, p2, i),
    decreases routes.len() - i,
{
    if 0 <= i < routes.len() {
        assert(route_matches(routes[i], method, p1) == route_matches(routes[i], method, p2));
        lemma_scan_from_same(routes, method, p1, p2, i + 1);
    }
}

/// A query string on the request path changes neither the route a request
/// is dispatched to nor the parameters it gets.
pub proof fn law_dispatch_ignores_query(
    app: FastifyApp,
    method: Seq<char>,
    path: Seq<char>,
    query: Seq<char>,
)
    requires
        forall|j: int| 0 <= j < path.len() ==> path[j] != '?',
    ensures
        app.match_index(method, path + seq!['?'] + query) == app.match_index(method, path),
        app.match_params(method, path + seq!['?'] + query) == app.match_params(method, path),
{
    let full = path + seq!['?'] + query;
    assert forall|j: int| 0 <= j < path.len() implies full[j] != '?' by {
        assert(full[j] == path[j]);
    }
    crate::text::lemma_split_once_at(full, '?', path.len() as int);
    assert(full.take(path.len() as int) =~= path);
    lemma_before_first_absent(path, '?');
    assert(lookup_key(method, full) == lookup_key(method, path));
    assert forall|j: int| 0 <= j < app.routes@.len() implies route_matches(
        #[trigger] app.routes@[j],
        method,
        full,
    ) == route_matches(app.routes@[j], method, path) by {
        law_query_string_ignored(app.routes@[j].pattern.segs(), path, query);
    }
    lemma_scan_from_same(app.routes@, method, full, path, 0);
    if let Some(i) = scan_from(app.routes@, method, path, 0) {
        lemma_scan_from_sound(app.routes@, method, path, 0);
        law_query_string_ignored(app.routes@[i].pattern.segs(), path, query);
    }
}

/// `dst` followed by `src`.
fn extend_closures(dst: &mut Vec<ClosurePtr>, src: &Vec<ClosurePtr>)
    ensures
        final(dst)@ == old(dst)@ + src@,
{
    let ghost start = dst@;
    let mut i: usize = 0;
    while i < src.len()
        invariant
            i <= src@.len(),
            dst@ == start + src@.take(i as int),
        decreases src@.len() - i,
    {
        dst.push(src[i]);
        i = i + 1;
        assert(dst@ =~= start + src@.take(i as int));
    }
    assert(src@.take(src@.len() as int) =~= src@);
}

impl FastifyApp {
    /// Every index entry points at an existing route that it describes.
    pub open spec fn wf(&self) -> bool {
        forall|k: Seq<char>|
            #[trigger] self.static_index@.contains_key(k) ==> {
                let i = self.static_index@[k] as int;
                &&& i < self.routes@.len()
                &&& index_entry_ok(self.routes@[i], k)
            }
    }

    /// Every index entry points at an existing route (implied by `wf`).
    pub open spec fn index_in_bounds(&self) -> bool {
        forall|k: Seq<char>|
            #[trigger] self.static_index@.contains_key(k) ==> (self.static_index@[k] as int)
                < self.routes@.len()
    }

    /// Hooks, error handler, plugins, prefix, configuration and upgrade
    /// handlers are the same in `self` and `other`.
    pub open spec fn same_settings(&self, other: &FastifyApp) -> bool {
        &&& self.hooks == other.hooks
        &&& self.error_handler == other.error_handler
        &&& self.plugins == other.plugins
        &&& self.prefix == other.prefix
        &&& self.config == other.config
        &&& self.upgrade_handlers == other.upgrade_handlers
    }

    /// `new` is `old` with the route `method path → handler` registered: the
    /// route appended with its parsed pattern and, when the pattern is fully
    /// static, indexed under its key (a later registration of the same key
    /// wins).
    pub open spec fn route_registered(
        old: &FastifyApp,
        new: &FastifyApp,
        method: Seq<char>,
        path: Seq<char>,
        handler: ClosurePtr,
    ) -> bool {
        let full = full_path(old.prefix@, path);
        let segs = parse_segments(full);
        let n = old.routes@.len();
        &&& new.routes@.len() == n + 1
        &&& forall|i: int| 0 <= i < n ==> new.routes@[i] == old.routes@[i]
        &&& new.routes@[n as int].method@ == method
        &&& new.routes@[n as int].pattern.segs() == segs
        &&& new.routes@[n as int].pattern.raw@ == full
        &&& new.routes@[n as int].handler == handler
        &&& new.static_index@ == (if all_static(segs) {
            old.static_index@.insert(index_key(method, full), n as usize)
        } else {
            old.static_index@
        })
        &&& new.same_settings(old)
    }

    /// Which route a request is dispatched to: the indexed static route for
    /// its key if there is one, else the first registered route with the
    /// method whose pattern matches.
    pub open spec fn match_index(&self, method: Seq<char>, path: Seq<char>) -> Option<int> {
        let key = lookup_key(method, path);
        if self.static_index@.contains_key(key) {
            Some(self.static_index@[key] as int)
        } else {
            scan_from(self.routes@, method, path, 0)
        }
    }

    /// The parameters handed to the dispatched route: none on an index hit,
    /// else those its pattern extracts.
    pub open spec fn match_params(&self, method: Seq<char>, path: Seq<char>) -> Map<
        Seq<char>,
        Seq<char>,
    > {
        let key = lookup_key(method, path);
        if self.static_index@.contains_key(key) {
            Map::empty()
        } else {
            match scan_from(self.routes@, method, path, 0) {
                Some(i) => match match_spec(self.routes@[i].pattern.segs(), path) {
                    Some(m) => m,
                    None => Map::empty(),
                },
                None => Map::empty(),
            }
        }
    }

    /// The closures the garbage collector must keep alive, in order: route
    /// handlers, the hook lists, the error handler, plugin handlers, upgrade
    /// handlers.
    pub open spec fn gc_closures(&self) -> Seq<ClosurePtr> {
        self.routes@.map_values(|r: Route| r.handler) + self.hooks.on_request@
            + self.hooks.pre_parsing@ + self.hooks.pre_validation@ + self.hooks.pre_handler@
            + self.hooks.pre_serialization@ + self.hooks.on_send@ + self.hooks.on_response@
            + self.hooks.on_error@ + (match self.error_handler {
            Some(h) => seq![h],
            None => Seq::empty(),
        }) + self.plugins@.map_values(|p: Plugin| p.handler) + self.upgrade_handlers@
    }

    /// Every non-zero closure the application holds is a garbage-collector
    /// root: each route handler, each hook of all eight kinds, the error
    /// handler, each plugin handler and each upgrade handler has its pinned
    /// word among the roots `gc_root_words` lists.
    pub proof fn law_gc_roots_cover_all_closures(&self)
        ensures
            roots_cover(pinned(self.gc_closures()), self.routes@.map_values(|r: Route| r.handler)),
            roots_cover(pinned(self.gc_closures()), self.hooks.on_request@),
            roots_cover(pinned(self.gc_closures()), self.hooks.pre_parsing@),
            roots_cover(pinned(self.gc_closures()), self.hooks.pre_validation@),
            roots_cover(pinned(self.gc_closures()), self.hooks.pre_handler@),
            roots_cover(pinned(self.gc_closures()), self.hooks.pre_serialization@),
            roots_cover(pinned(self.gc_closures()), self.hooks.on_send@),
            roots_cover(pinned(self.gc_closures()), self.hooks.on_response@),
            roots_cover(pinned(self.gc_closures()), self.hooks.on_error@),
            match self.error_handler {
                Some(h) => h != 0 ==> pinned(self.gc_closures()).contains(spec_box_pointer(h)),
                None => true,
            },
            roots_cover(pinned(self.gc_closures()), self.plugins@.map_values(|p: Plugin| p.handler)),
            roots_cover(pinned(self.gc_closures()), self.upgrade_handlers@),
    {
        broadcast use lemma_concat_contains;

        let gc = self.gc_closures();
        let hs = self.routes@.map_values(|r: Route| r.handler);
        let ps = self.plugins@.map_values(|p: Plugin| p.handler);
        let eh: Seq<ClosurePtr> = match self.error_handler {
            Some(h) => seq![h],
            None => Seq::empty(),
        };
        let fields = seq![
            hs,
            self.hooks.on_request@,
            self.hooks.pre_parsing@,
            self.hooks.pre_validation@,
            self.hooks.pre_handler@,
            self.hooks.pre_serialization@,
            self.hooks.on_send@,
            self.hooks.on_response@,
            self.hooks.on_error@,
            eh,
            ps,
            self.upgrade_handlers@,
        ];
        assert forall|k: int, j: int|
            0 <= k < fields.len() && 0 <= j < fields[k].len() && fields[k][j] != 0 implies pinned(
                gc,
            ).contains(spec_box_pointer(#[trigger] fields[k][j])) by {
            let v = fields[k][j];
            assert(fields[k].contains(v));
            assert(gc.contains(v));
            lemma_pinned_contains(gc, v);
        }
        assert forall|j: int|
            0 <= j < hs.len() && hs[j] != 0 implies pinned(gc).contains(
                spec_box_pointer(#[trigger] hs[j]),
            ) by {
            assert(fields[0][j] == hs[j]);
        }
        assert forall|j: int|
            0 <= j < ps.len() && ps[j] != 0 implies pinned(gc).contains(
                spec_box_pointer(#[trigger] ps[j]),
            ) by {
            assert(fields[10][j] == ps[j]);
        }
        if let Some(h) = self.error_handler {
            if h != 0 {
                assert(fields[9][0] == h);
            }
        }
        assert forall|k: int, j: int|
            1 <= k <= 8 && 0 <= j < fields[k].len() && fields[k][j] != 0 implies pinned(
                gc,
            ).contains(spec_box_pointer(#[trigger] fields[k][j])) by {}
        assert(fields[1] == self.hooks.on_request@);
        assert(fields[6] == self.hooks.on_send@);
        assert(fields[11] == self.upgrade_handlers@);
    }

    /// Create a new Fastify application
    pub fn new() -> (app: Self)
        ensures
            app.routes@.len() == 0,
            app.static_index@ == Map::<Seq<char>, usize>::empty(),
            app.hooks.lists() == Seq::new(8, |i: int| Seq::<ClosurePtr>::empty()),
            app.error_handler is None,
            app.plugins@.len() == 0,
            app.prefix@ == Seq::<char>::empty(),
            !app.config.logger && !app.config.trust_proxy && app.config.body_limit is None,
            app.upgrade_handlers@.len() == 0,
            app.wf(),
    {
        FastifyApp::with_prefix(String::new())
    }

    /// Create a new Fastify application with a prefix (for plugins)
    pub fn with_prefix(prefix: String) -> (app: Self)
        ensures
            app.routes@.len() == 0,
            app.static_index@ == Map::<Seq<char>, usize>::empty(),
            app.hooks.lists() == Seq::new(8, |i: int| Seq::<ClosurePtr>::empty()),
            app.error_handler is None,
            app.plugins@.len() == 0,
            app.prefix == prefix,
            !app.config.logger && !app.config.trust_proxy && app.config.body_limit is None,
            app.upgrade_handlers@.len() == 0,
            app.wf(),
    {
        FastifyApp {
            routes: Vec::new(),
            static_index: StringMap::new(),
            hooks: Hooks::default(),
            error_handler: None,
            plugins: Vec::new(),
            prefix,
            config: FastifyConfig::default(),
            upgrade_handlers: Vec::new(),
        }
    }

    /// Add a route. The method is upper-cased; the rest is `register_route`.
    pub fn add_route(&mut self, method: &str, path: &str, handler: ClosurePtr)
        ensures
            FastifyApp::route_registered(
                &*old(self),
                &*final(self),
                str_to_uppercase(method@),
                path@,
                handler,
            ),
            old(self).wf() ==> final(self).wf(),
    {
        let method_upper = to_uppercase(method);
        self.register_route(method_upper, path, handler);
    }

    /// Add a route whose method is given as it is to be stored (upper-cased
    /// by `add_route`).
    pub fn register_route(&mut self, method: String, path: &str, handler: ClosurePtr)
        ensures
            FastifyApp::route_registered(&*old(self), &*final(self), method@, path@, handler),
            old(self).wf() ==> final(self).wf(),
    {
        let ghost old_app = *self;
        let ghost method_view = method@;
        let full = if self.prefix.as_str().is_empty() {
            path.to_owned()
        } else {
            concat(self.prefix.as_str(), path)
        };
        let pattern = RoutePattern::parse(full.as_str());
        let mut is_static = true;
        let mut i: usize = 0;
        while i < pattern.segments.len()
            invariant
                i <= pattern.segments@.len(),
                is_static == forall|j: int|
                    0 <= j < i ==> (#[trigger] pattern.segments@[j]) is Static,
            decreases pattern.segments@.len() - i,
        {
            match &pattern.segments[i] {
                Segment::Static(_) => {},
                _ => {
                    is_static = false;
                },
            }
            i = i + 1;
        }
        proof {
            assert(is_static == all_static(parse_segments(full@))) by {
                if is_static {
                    assert forall|j: int|
                        0 <= j < parse_segments(full@).len() implies (#[trigger] parse_segments(
                        full@,
                    )[j]) is Static by {
                        assert(pattern.segs()[j] == pattern.segments@[j]@);
                    }
                } else {
                    let j = choose|j: int|
                        0 <= j < pattern.segments@.len() && !((
                        #[trigger] pattern.segments@[j]) is Static);
                    assert(pattern.segs()[j] == pattern.segments@[j]@);
                }
            }
        }
        let mut key = method.clone();
        push_char(&mut key, ' ');
        let canon = with_leading_slash_str(full.as_str());
        key.append(canon.as_str());
        let new_idx = self.routes.len();
        self.routes.push(Route { method, pattern, handler });
        if is_static {
            self.static_index.insert(key, new_idx);
        }
        proof {
            let new_app = *self;
            assert(full@ == full_path(old_app.prefix@, path@));
            assert(key@ == index_key(method_view, full@));
            assert(FastifyApp::route_registered(&old_app, &new_app, method_view, path@, handler));
            assert forall|k: Seq<char>| #[trigger]
                new_app.static_index@.contains_key(k) && old_app.wf() implies {
                let i = new_app.static_index@[k] as int;
                &&& i < new_app.routes@.len()
                &&& index_entry_ok(new_app.routes@[i], k)
            } by {
                if is_static && k == key@ {
                    // the full path is the witness of `index_entry_ok`
                    assert(parse_segments(full@) == parse_segments(full@));
                } else {
                    assert(old_app.static_index@.contains_key(k));
                    let i = old_app.static_index@[k] as int;
                    assert(new_app.routes@[i] == old_app.routes@[i]);
                }
            }
        }
    }

    /// Add a hook. Returns whether `hook_name` names one of the eight hooks;
    /// an unknown name changes nothing.
    pub fn add_hook(&mut self, hook_name: &str, handler: ClosurePtr) -> (known: bool)
        ensures
            known == (hook_slot(hook_name@) is Some),
            final(self).hooks.lists() == (match hook_slot(hook_name@) {
                Some(k) => old(self).hooks.lists().update(k, old(self).hooks.lists()[k].push(handler)),
                None => old(self).hooks.lists(),
            }),
            final(self).routes == old(self).routes,
            final(self).static_index == old(self).static_index,
            final(self).error_handler == old(self).error_handler,
            final(self).plugins == old(self).plugins,
            final(self).prefix == old(self).prefix,
            final(self).config == old(self).config,
            final(self).upgrade_handlers == old(self).upgrade_handlers,
    {
        let ghost old_lists = self.hooks.lists();
        if str_eq(hook_name, "onRequest") {
            self.hooks.on_request.push(handler);
        } else if str_eq(hook_name, "preParsing") {
            self.hooks.pre_parsing.push(handler);
        } else if str_eq(hook_name, "preValidation") {
            self.hooks.pre_validation.push(handler);
        } else if str_eq(hook_name, "preHandler") {
            self.hooks.pre_handler.push(handler);
        } else if str_eq(hook_name, "preSerialization") {
            self.hooks.pre_serialization.push(handler);
        } else if str_eq(hook_name, "onSend") {
            self.hooks.on_send.push(handler);
        } else if str_eq(hook_name, "onResponse") {
            self.hooks.on_response.push(handler);
        } else if str_eq(hook_name, "onError") {
            self.hooks.on_error.push(handler);
        } else {
            return false;
        }
        proof {
            let k = hook_slot(hook_name@)->0;
            assert(self.hooks.lists() =~= old_lists.update(k, old_lists[k].push(handler)));
        }
        true
    }

    /// Set error handler
    pub fn set_error_handler(&mut self, handler: ClosurePtr)
        ensures
            final(self).error_handler == Some(handler),
            final(self).routes == old(self).routes,
            final(self).static_index == old(self).static_index,
            final(self).hooks == old(self).hooks,
            final(self).plugins == old(self).plugins,
            final(self).prefix == old(self).prefix,
            final(self).config == old(self).config,
            final(self).upgrade_handlers == old(self).upgrade_handlers,
    {
        self.error_handler = Some(handler);
    }

    /// Find matching route for a request
    pub fn match_route(&self, method: &str, path: &str) -> (r: Option<(&Route, StringMap<String>)>)
        requires
            self.index_in_bounds(),
        ensures
            match self.match_index(method@, path@) {
                Some(i) => r matches Some((route, params)) && 0 <= i < self.routes@.len()
                    && *route == self.routes@[i] && params@ == self.match_params(method@, path@),
                None => r is None,
            },
    {
        let lookup = before_first_str(path, '?');
        let canon = with_leading_slash_str(lookup.as_str());
        let mut key = method.to_owned();
        push_char(&mut key, ' ');
        key.append(canon.as_str());
        assert(key@ == lookup_key(method@, path@));
        match self.static_index.get(key.as_str()) {
            Some(idx) => {
                let idx = *idx;
                return Some((&self.routes[idx], StringMap::new()));
            },
            None => {},
        }
        let m = method.to_owned();
        let mut i: usize = 0;
        while i < self.routes.len()
            invariant
                m@ == method@,
                i <= self.routes@.len(),
                !self.static_index@.contains_key(lookup_key(method@, path@)),
                scan_from(self.routes@, method@, path@, 0) == scan_from(
                    self.routes@,
                    method@,
                    path@,
                    i as int,
                ),
            decreases self.routes@.len() - i,
        {
            if self.routes[i].method == m {
                match self.routes[i].pattern.match_path(path) {
                    Some(params) => {
                        return Some((&self.routes[i], params));
                    },
                    None => {},
                }
            }
            i = i + 1;
        }
        None
    }

    /// The pointer-tagged words of every non-zero closure the application
    /// holds, in the order of `gc_closures`, for the garbage collector's root
    /// scan.
    pub fn gc_root_words(&self) -> (r: Vec<u64>)
        ensures
            r@ == pinned(self.gc_closures()),
    {
        let mut all: Vec<ClosurePtr> = Vec::new();
        let mut i: usize = 0;
        while i < self.routes.len()
            invariant
                i <= self.routes@.len(),
                all@ == self.routes@.take(i as int).map_values(|r: Route| r.handler),
            decreases self.routes@.len() - i,
        {
            all.push(self.routes[i].handler);
            i = i + 1;
            assert(all@ =~= self.routes@.take(i as int).map_values(|r: Route| r.handler));
        }
        assert(self.routes@.take(self.routes@.len() as int) =~= self.routes@);
        extend_closures(&mut all, &self.hooks.on_request);
        extend_closures(&mut all, &self.hooks.pre_parsing);
        extend_closures(&mut all, &self.hooks.pre_validation);
        extend_closures(&mut all, &self.hooks.pre_handler);
        extend_closures(&mut all, &self.hooks.pre_serialization);
        extend_closures(&mut all, &self.hooks.on_send);
        extend_closures(&mut all, &self.hooks.on_response);
        extend_closures(&mut all, &self.hooks.on_error);
        let ghost before_eh = all@;
        match self.error_handler {
            Some(h) => {
                all.push(h);
            },
            None => {},
        }
        assert(all@ =~= before_eh + (match self.error_handler {
            Some(h) => seq![h],
            None => Seq::empty(),
        }));
        let ghost before_plugins = all@;
        let mut j: usize = 0;
        while j < self.plugins.len()
            invariant
                j <= self.plugins@.len(),
                all@ == before_plugins + self.plugins@.take(j as int).map_values(
                    |p: Plugin| p.handler,
                ),
            decreases self.plugins@.len() - j,
        {
            all.push(self.plugins[j].handler);
            j = j + 1;
            assert(all@ =~= before_plugins + self.plugins@.take(j as int).map_values(
                |p: Plugin| p.handler,
            ));
        }
        assert(self.plugins@.take(self.plugins@.len() as int) =~= self.plugins@);
        extend_closures(&mut all, &self.upgrade_handlers);
        assert(all@ =~= self.gc_closures());
        let mut out: Vec<u64> = Vec::new();
        let mut k: usize = 0;
        while k < all.len()
            invariant
                k <= all@.len(),
                out@ == pinned(all@.take(k as int)),
            decreases all@.len() - k,
        {
            let cb = all[k];
            let ghost next = all@.take(k + 1);
            assert(next.drop_last() =~= all@.take(k as int));
            if cb != 0 {
                out.push(box_pointer(cb));
            }
            k = k + 1;
        }
        assert(all@.take(all@.len() as int) =~= all@);
        out
    }
}

impl Default for FastifyApp {
    fn default() -> (app: Self)
        ensures
            app.routes@.len() == 0,
            app.static_index@ == Map::<Seq<char>, usize>::empty(),
            app.hooks.lists() == Seq::new(8, |i: int| Seq::<ClosurePtr>::empty()),
            app.error_handler is None,
            app.plugins@.len() == 0,
            app.prefix@ == Seq::<char>::empty(),
            !app.config.logger && !app.config.trust_proxy && app.config.body_limit is None,
            app.upgrade_handlers@.len() == 0,
            app.wf(),
    {
        Self::new()
    }
}

} // verus!
