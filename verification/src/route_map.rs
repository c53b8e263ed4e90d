//! The route map: bulk route registration and single-path resolution over a
//! plain exact-match table and a segment trie.

use vstd::prelude::*;
use vstd::string::*;
use crate::errors::{ConfigError, ResolveError};
use crate::handler::{HandlerType, KindV, method_kind};
use crate::leaf::{Leaf, LeafV, RouteShape, ShapeV, handler_lookup, leaf_applied};
use crate::paths::{clone_strings, contains_str, normalize, normalize_path, remove_first, remove_first_occurrence, seq_views, segments, split_path, str_eq};
use crate::trie::{
    Node, NodeV, WalkHit, WalkOutcome, assoc_lookup, assoc_upsert, empty_node,
    lemma_assoc_lookup_at, lemma_assoc_lookup_absent, lemma_assoc_upsert_at,
    lemma_assoc_upsert_absent, trie_applied, walk,
};

verus! {

/// One route descriptor handed to registration: its path, its declared
/// parameter names in order, and its protocol-specific shape.
#[derive(Debug)]
pub struct Route {
    pub path: String,
    pub path_parameters: Vec<String>,
    pub shape: RouteShape,
}

/// Ghost form of a route descriptor.
pub struct RouteV {
    pub path: Seq<char>,
    pub params: Seq<Seq<char>>,
    pub shape: ShapeV,
}

impl View for Route {
    type V = RouteV;

    open spec fn view(&self) -> RouteV {
        RouteV {
            path: self.path@,
            params: seq_views(self.path_parameters@),
            shape: self.shape@,
        }
    }
}

/// The views of a sequence of route descriptors.
pub open spec fn route_views(rs: Seq<Route>) -> Seq<RouteV> {
    Seq::new(rs.len(), |i: int| rs[i]@)
}

/// The request-scope record resolution works on: the raw path and the
/// protocol metadata. Resolution may rewrite `path` for static mounts; the
/// other fields are never touched.
#[derive(Debug)]
pub struct Scope {
    pub path: String,
    pub scope_type: String,
    pub method: String,
}

/// Ghost form of a request scope.
pub struct ScopeV {
    pub path: Seq<char>,
    pub scope_type: Seq<char>,
    pub method: Seq<char>,
}

impl View for Scope {
    type V = ScopeV;

    open spec fn view(&self) -> ScopeV {
        ScopeV { path: self.path@, scope_type: self.scope_type@, method: self.method@ }
    }
}

/// What a successful resolution yields: the handler reference, the matched
/// leaf's parameter schema, and the captured placeholder values in
/// left-to-right order, ready for the caller's parameter parser.
#[derive(Debug)]
pub struct Resolved {
    pub handler: u64,
    pub path_parameters: Vec<String>,
    pub captures: Vec<String>,
}

/// Ghost form of a resolution result.
pub struct ResolvedV {
    pub handler: u64,
    pub schema: Seq<Seq<char>>,
    pub captures: Seq<Seq<char>>,
}

impl View for Resolved {
    type V = ResolvedV;

    open spec fn view(&self) -> ResolvedV {
        ResolvedV {
            handler: self.handler,
            schema: seq_views(self.path_parameters@),
            captures: seq_views(self.captures@),
        }
    }
}

/// The route map: the plain exact-match table for parameter-free paths, the
/// segment trie for the rest, and the registered static mount roots.
#[derive(Debug)]
pub struct RouteMap {
    pub static_paths: Vec<String>,
    pub plain_routes: Vec<(String, Leaf)>,
    pub param_routes: Node,
}

/// Ghost form of a route map.
pub struct RouteMapV {
    pub static_paths: Seq<Seq<char>>,
    pub plain: Seq<(Seq<char>, LeafV)>,
    pub root: NodeV,
}

/// The ghost forms of the plain route table.
pub open spec fn plain_views(ps: Seq<(String, Leaf)>) -> Seq<(Seq<char>, LeafV)> {
    Seq::new(ps.len(), |i: int| (ps[i].0@, ps[i].1@))
}

impl View for RouteMap {
    type V = RouteMapV;

    open spec fn view(&self) -> RouteMapV {
        RouteMapV {
            static_paths: seq_views(self.static_paths@),
            plain: plain_views(self.plain_routes@),
            root: self.param_routes@,
        }
    }
}

/// One route registered: a route that declares a parameter or whose literal
/// path is a static mount root goes to the trie along its classified
/// segments; any other route goes to the plain table under its exact path
/// string. `Err` is the schema conflict at the route's own path; it leaves
/// the map unchanged.
pub open spec fn route_added(m: RouteMapV, r: RouteV) -> Result<RouteMapV, ConfigError> {
    let in_static = m.static_paths.contains(r.path);
    if r.params.len() > 0 || in_static {
        match trie_applied(m.root, segments(r.path), r.params, in_static, r.path, r.shape) {
            Ok(n2) => Ok(RouteMapV { root: n2, ..m }),
            Err(e) => Err(e),
        }
    } else {
        match leaf_applied(assoc_lookup(m.plain, r.path), r.params, false, r.path, r.shape) {
            Ok(l) => Ok(RouteMapV { plain: assoc_upsert(m.plain, r.path, l), ..m }),
            Err(e) => Err(e),
        }
    }
}

/// A batch registered in order, failing fast: `Err` carries the fault and
/// the map as it stood when the failing route was reached, with every route
/// before it applied.
pub open spec fn routes_added(m: RouteMapV, rs: Seq<RouteV>) -> Result<
    RouteMapV,
    (ConfigError, RouteMapV),
>
    decreases rs.len(),
{
    if rs.len() == 0 {
        Ok(m)
    } else {
        match route_added(m, rs[0]) {
            Ok(m2) => routes_added(m2, rs.subrange(1, rs.len() as int)),
            Err(e) => Err((e, m)),
        }
    }
}

/// The leaf a request path reaches: the plain table is tried first on the
/// normalized path, then the trie walk over its segments.
pub open spec fn lookup_hit(m: RouteMapV, np: Seq<char>) -> Option<WalkHit> {
    match assoc_lookup(m.plain, np) {
        Some(l) => Some(WalkHit { leaf: l, captures: Seq::empty(), static_stop: None }),
        None => walk(m.root, segments(np)),
    }
}

/// Handler selection at a matched leaf: a raw-protocol leaf takes the Asgi
/// handler; an HTTP request takes the handler of its verb, whose absence is
/// MethodNotAllowed; any other protocol takes the WebSocket handler. A
/// missing handler otherwise is NotFound.
pub open spec fn select_handler(l: LeafV, scope_type: Seq<char>, method: Seq<char>) -> Result<
    u64,
    ResolveError,
> {
    if l.is_asgi {
        match handler_lookup(l.handlers, KindV::Asgi) {
            Some(h) => Ok(h),
            None => Err(ResolveError::NotFound),
        }
    } else if scope_type == "http"@ {
        match handler_lookup(l.handlers, method_kind(method)) {
            Some(h) => Ok(h),
            None => Err(ResolveError::MethodNotAllowed),
        }
    } else {
        match handler_lookup(l.handlers, KindV::Websocket) {
            Some(h) => Ok(h),
            None => Err(ResolveError::NotFound),
        }
    }
}

/// The scope path after resolution: a walk cut short at a static mount whose
/// prefix is not the root has the first occurrence of the prefix removed
/// from the raw path; every other outcome leaves the path as it came.
pub open spec fn resolved_path(raw: Seq<char>, hit: WalkHit) -> Seq<char> {
    match hit.static_stop {
        Some(sp) => if sp == "/"@ {
            raw
        } else {
            remove_first(raw, sp)
        },
        None => raw,
    }
}

/// Full resolution of one request scope: the result and the scope path after
/// the call.
pub open spec fn resolved(m: RouteMapV, s: ScopeV) -> (Result<ResolvedV, ResolveError>, Seq<
    char,
>) {
    match lookup_hit(m, normalize(s.path)) {
        None => (Err(ResolveError::NotFound), s.path),
        Some(hit) => {
            let np = resolved_path(s.path, hit);
            match select_handler(hit.leaf, s.scope_type, s.method) {
                Ok(h) => (
                    Ok(
                        ResolvedV {
                            handler: h,
                            schema: hit.leaf.path_parameters,
                            captures: hit.captures,
                        },
                    ),
                    np,
                ),
                Err(e) => (Err(e), np),
            }
        },
    }
}

impl RouteMap {
    /// An empty route map that treats the given literal paths as registered
    /// static mount roots.
    pub fn new(static_paths: Vec<String>) -> (r: RouteMap)
        ensures
            r@ == (RouteMapV {
                static_paths: seq_views(static_paths@),
                plain: Seq::empty(),
                root: empty_node(),
            }),
    {
        let r = RouteMap {
            static_paths,
            plain_routes: Vec::new(),
            param_routes: Node::new(),
        };
        proof {
            assert(r@.plain =~= Seq::<(Seq<char>, LeafV)>::empty());
        }
        r
    }

    /// Whether the literal path is a registered static mount root.
    pub fn path_in_static(&self, path: &str) -> (r: bool)
        ensures
            r == self@.static_paths.contains(path@),
    {
        contains_str(&self.static_paths, path)
    }

    /// The index of the first plain entry keyed by `path`.
    fn find_plain_index(&self, path: &str) -> (r: Option<usize>)
        ensures
            match r {
                Some(i) => i < self.plain_routes@.len() && self.plain_routes@[i as int].0@ == path@
                    && (forall|j: int| 0 <= j < i ==> self.plain_routes@[j].0@ != path@),
                None => forall|j: int|
                    0 <= j < self.plain_routes@.len() ==> self.plain_routes@[j].0@ != path@,
            },
    {
        let mut i: usize = 0;
        while i < self.plain_routes.len()
            invariant
                i <= self.plain_routes@.len(),
                forall|j: int| 0 <= j < i ==> self.plain_routes@[j].0@ != path@,
            decreases self.plain_routes@.len() - i,
        {
            if str_eq(self.plain_routes[i].0.as_str(), path) {
                return Some(i);
            }
            i += 1;
        }
        None
    }

    /// Merges one parameter-free, non-mount route into the plain table; on a
    /// schema conflict nothing changes.
    fn apply_plain(&mut self, route: &Route) -> (r: Result<(), ConfigError>)
        ensures
            match leaf_applied(
                assoc_lookup(old(self)@.plain, route@.path),
                route@.params,
                false,
                route@.path,
                route@.shape,
            ) {
                Ok(l) => r is Ok && final(self)@ == (RouteMapV {
                    plain: assoc_upsert(old(self)@.plain, route@.path, l),
                    ..old(self)@
                }),
                Err(e) => r == Err::<(), ConfigError>(e) && final(self)@ == old(self)@,
            },
    {
        match self.find_plain_index(route.path.as_str()) {
            Some(i) => {
                proof {
                    lemma_assoc_lookup_at(old(self)@.plain, route@.path, i as int);
                }
                if !self.plain_routes[i].1.schema_matches(&route.path_parameters) {
                    return Err(ConfigError::ConflictingPathParameters);
                }
                let (key, mut l) = self.plain_routes.remove(i);
                crate::leaf::apply_shape(&mut l, false, route.path.as_str(), &route.shape);
                let ghost lv = l@;
                self.plain_routes.insert(i, (key, l));
                proof {
                    lemma_assoc_upsert_at(old(self)@.plain, route@.path, lv, i as int);
                    assert(plain_views(self.plain_routes@) =~= assoc_upsert(
                        old(self)@.plain,
                        route@.path,
                        lv,
                    ));
                }
                Ok(())
            },
            None => {
                proof {
                    lemma_assoc_lookup_absent(old(self)@.plain, route@.path);
                }
                let mut l = Leaf::new(clone_strings(&route.path_parameters));
                crate::leaf::apply_shape(&mut l, false, route.path.as_str(), &route.shape);
                let key = String::from_str(route.path.as_str());
                let ghost lv = l@;
                self.plain_routes.push((key, l));
                proof {
                    lemma_assoc_upsert_absent(old(self)@.plain, route@.path, lv);
                    assert(plain_views(self.plain_routes@) =~= assoc_upsert(
                        old(self)@.plain,
                        route@.path,
                        lv,
                    ));
                }
                Ok(())
            },
        }
    }

    /// Registers one route, as `route_added` states; on a conflict the map
    /// is unchanged.
    pub fn add_route(&mut self, route: &Route) -> (r: Result<(), ConfigError>)
        ensures
            match route_added(old(self)@, route@) {
                Ok(m2) => r is Ok && final(self)@ == m2,
                Err(e) => r == Err::<(), ConfigError>(e) && final(self)@ == old(self)@,
            },
    {
        let in_static = self.path_in_static(route.path.as_str());
        if route.path_parameters.len() > 0 || in_static {
            let segs = split_path(route.path.as_str());
            proof {
                assert(seq_views(segs@).subrange(0, segs@.len() as int) =~= segments(
                    route.path@,
                ));
            }
            let res = self.param_routes.apply_route(
                &segs,
                0,
                &route.path_parameters,
                in_static,
                route.path.as_str(),
                &route.shape,
            );
            res
        } else {
            self.apply_plain(route)
        }
    }

    /// Registers a batch of routes in order, failing fast on the first
    /// conflicting route, as `routes_added` states: the routes before the
    /// failing one stay applied.
    pub fn add_routes(&mut self, routes: &Vec<Route>) -> (r: Result<(), ConfigError>)
        ensures
            match routes_added(old(self)@, route_views(routes@)) {
                Ok(m2) => r is Ok && final(self)@ == m2,
                Err((e, ms)) => r == Err::<(), ConfigError>(e) && final(self)@ == ms,
            },
    {
        let ghost rv = route_views(routes@);
        let mut i: usize = 0;
        proof {
            assert(rv.subrange(0, rv.len() as int) =~= rv);
        }
        while i < routes.len()
            invariant
                i <= routes@.len(),
                rv == route_views(routes@),
                rv.len() == routes@.len(),
                routes_added(old(self)@, rv) == routes_added(
                    self@,
                    rv.subrange(i as int, rv.len() as int),
                ),
            decreases routes@.len() - i,
        {
            let ghost sub = rv.subrange(i as int, rv.len() as int);
            proof {
                assert(sub[0] == routes@[i as int]@);
                assert(sub.subrange(1, sub.len() as int) =~= rv.subrange(
                    i as int + 1,
                    rv.len() as int,
                ));
            }
            let res = self.add_route(&routes[i]);
            match res {
                Ok(()) => {},
                Err(e) => {
                    return Err(e);
                },
            }
            i += 1;
        }
        proof {
            assert(rv.subrange(i as int, rv.len() as int) =~= Seq::<RouteV>::empty());
        }
        Ok(())
    }

    /// Resolves one request scope to a handler reference, as `resolved`
    /// states: the normalized path is tried in the plain table, then walked
    /// through the trie; the scope's path is rewritten only when the walk
    /// stopped at a non-root static mount, and nothing else in the scope is
    /// touched.
    pub fn resolve_route(&self, scope: &mut Scope) -> (r: Result<Resolved, ResolveError>)
        ensures
            final(scope).scope_type == old(scope).scope_type,
            final(scope).method == old(scope).method,
            final(scope)@.path == resolved(self@, old(scope)@).1,
            (match (resolved(self@, old(scope)@).0, r) {
                (Ok(rv), Ok(res)) => res@ == rv,
                (Err(e1), Err(e2)) => e1 == e2,
                _ => false,
            }),
    {
        let np = normalize_path(scope.path.as_str());
        let outcome: WalkOutcome = match self.find_plain_index(np.as_str()) {
            Some(i) => {
                proof {
                    lemma_assoc_lookup_at(self@.plain, np@, i as int);
                }
                WalkOutcome::Found { leaf: &self.plain_routes[i].1, captures: Vec::new() }
            },
            None => {
                proof {
                    lemma_assoc_lookup_absent(self@.plain, np@);
                }
                let segs = split_path(np.as_str());
                self.param_routes.walk_path(&segs)
            },
        };
        match outcome {
            WalkOutcome::Miss => Err(ResolveError::NotFound),
            WalkOutcome::Found { leaf, captures } => {
                proof {
                    assert(seq_views(Seq::<String>::empty()) =~= Seq::<Seq<char>>::empty());
                }
                self.select_and_build(leaf, captures, scope)
            },
            WalkOutcome::StaticStop { leaf, captures } => {
                match &leaf.static_path {
                    Some(sp) => {
                        if !str_eq(sp.as_str(), "/") {
                            let rewritten = remove_first_occurrence(
                                scope.path.as_str(),
                                sp.as_str(),
                            );
                            scope.path = rewritten;
                        }
                    },
                    None => {
                        proof {
                            assert(false);
                        }
                    },
                }
                self.select_and_build(leaf, captures, scope)
            },
        }
    }

    /// A diagnostic structural dump of the router: the registered static
    /// mount roots, the plain route paths, and a sketch of the trie. The
    /// textual form carries no stability guarantee.
    pub fn repr(&self) -> String {
        let mut out = String::new();
        out.append("static:");
        let mut i: usize = 0;
        while i < self.static_paths.len()
            decreases self.static_paths.len() - i,
        {
            out.append(" ");
            out.append(self.static_paths[i].as_str());
            i += 1;
        }
        out.append("\nplain:");
        let mut j: usize = 0;
        while j < self.plain_routes.len()
            decreases self.plain_routes.len() - j,
        {
            out.append(" ");
            out.append(self.plain_routes[j].0.as_str());
            j += 1;
        }
        out.append("\ntrie: ");
        self.param_routes.dump(&mut out);
        out
    }

    /// Handler selection and result assembly for a matched leaf, as
    /// `select_handler` states; the scope is only read.
    fn select_and_build(&self, leaf: &Leaf, captures: Vec<String>, scope: &Scope) -> (r: Result<
        Resolved,
        ResolveError,
    >)
        ensures
            (match (select_handler(leaf@, scope@.scope_type, scope@.method), r) {
                (Ok(h), Ok(res)) => res@ == (ResolvedV {
                    handler: h,
                    schema: leaf@.path_parameters,
                    captures: seq_views(captures@),
                }),
                (Err(e1), Err(e2)) => e1 == e2,
                _ => false,
            }),
    {
        let selected: Result<u64, ResolveError> = if leaf.is_asgi {
            match leaf.get_handler(&HandlerType::Asgi) {
                Some(h) => Ok(h),
                None => Err(ResolveError::NotFound),
            }
        } else if str_eq(scope.scope_type.as_str(), "http") {
            let kind = HandlerType::from_http_method(scope.method.as_str());
            match leaf.get_handler(&kind) {
                Some(h) => Ok(h),
                None => Err(ResolveError::MethodNotAllowed),
            }
        } else {
            match leaf.get_handler(&HandlerType::Websocket) {
                Some(h) => Ok(h),
                None => Err(ResolveError::NotFound),
            }
        };
        match selected {
            Ok(h) => Ok(
                Resolved {
                    handler: h,
                    path_parameters: clone_strings(&leaf.path_parameters),
                    captures,
                },
            ),
            Err(e) => Err(e),
        }
    }
}

} // verus!
