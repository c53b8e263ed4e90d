//! Laws of the route map, proved over the ghost registration and resolution
//! interpreters that the executable functions are verified against.

use vstd::prelude::*;
use crate::errors::{ConfigError, ResolveError};
use crate::handler::{KindV, method_kind};
use crate::leaf::{
    LeafV, ShapeV, handler_lookup, handler_upsert, http_applied, leaf_applied, new_leaf,
    shape_applied,
};
use crate::paths::{is_placeholder, normalize, segments};
use crate::route_map::{
    ResolvedV, RouteMapV, RouteV, ScopeV, lookup_hit, resolved, route_added, routes_added,
    select_handler,
};
use crate::trie::{NodeV, WalkHit, assoc_lookup, assoc_upsert, empty_node, trie_applied, walk};

verus! {

/// Looking a kind up after an insertion finds the inserted handler under its
/// kind and is otherwise undisturbed.
pub proof fn lemma_handler_lookup_upsert(hs: Seq<(KindV, u64)>, k: KindV, h: u64, k2: KindV)
    ensures
        handler_lookup(handler_upsert(hs, k, h), k2) == (if k2 == k {
            Some(h)
        } else {
            handler_lookup(hs, k2)
        }),
    decreases hs.len(),
{
    let r = handler_upsert(hs, k, h);
    if hs.len() == 0 {
        assert(r =~= seq![(k, h)]);
        assert(r[0] == (k, h));
        assert(r.drop_first() =~= Seq::<(KindV, u64)>::empty());
        assert(handler_lookup(r.drop_first(), k2) is None);
    } else if hs[0].0 == k {
        assert(r[0] == (k, h));
        assert(r.drop_first() =~= hs.drop_first());
    } else {
        lemma_handler_lookup_upsert(hs.drop_first(), k, h, k2);
        assert(r.drop_first() =~= handler_upsert(hs.drop_first(), k, h));
        assert(r[0] == hs[0]);
    }
}

/// Looking a key up after an insertion finds the inserted value under its
/// key and is otherwise undisturbed.
pub proof fn lemma_assoc_lookup_upsert<T>(s: Seq<(Seq<char>, T)>, key: Seq<char>, v: T, k2: Seq<char>)
    ensures
        assoc_lookup(assoc_upsert(s, key, v), k2) == (if k2 == key {
            Some(v)
        } else {
            assoc_lookup(s, k2)
        }),
    decreases s.len(),
{
    let r = assoc_upsert(s, key, v);
    if s.len() == 0 {
        assert(r =~= seq![(key, v)]);
        assert(r[0] == (key, v));
        assert(r.subrange(1, r.len() as int) =~= Seq::<(Seq<char>, T)>::empty());
        assert(assoc_lookup(r.subrange(1, r.len() as int), k2) is None);
    } else if s[0].0 == key {
        assert(r[0] == (key, v));
        assert(r.subrange(1, r.len() as int) =~= s.subrange(1, s.len() as int));
    } else {
        lemma_assoc_lookup_upsert(s.subrange(1, s.len() as int), key, v, k2);
        assert(r.subrange(1, r.len() as int) =~= assoc_upsert(
            s.subrange(1, s.len() as int),
            key,
            v,
        ));
        assert(r[0] == s[0]);
    }
}

/// The handler of the last entry in an HTTP method table whose verb has kind
/// `k`, if any.
pub open spec fn method_table_lookup(ms: Seq<(Seq<char>, u64)>, k: KindV) -> Option<u64>
    decreases ms.len(),
{
    if ms.len() == 0 {
        None
    } else {
        match method_table_lookup(ms.subrange(1, ms.len() as int), k) {
            Some(h) => Some(h),
            None => if method_kind(ms[0].0) == k {
                Some(ms[0].1)
            } else {
                None
            },
        }
    }
}

/// Inserting an HTTP method table leaves, under each kind, the table's own
/// last entry of that kind, and otherwise what was there before.
pub proof fn lemma_http_applied_lookup(hs: Seq<(KindV, u64)>, ms: Seq<(Seq<char>, u64)>, k: KindV)
    ensures
        handler_lookup(http_applied(hs, ms), k) == (match method_table_lookup(ms, k) {
            Some(h) => Some(h),
            None => handler_lookup(hs, k),
        }),
    decreases ms.len(),
{
    if ms.len() > 0 {
        let hs1 = handler_upsert(hs, method_kind(ms[0].0), ms[0].1);
        assert(ms.drop_first() =~= ms.subrange(1, ms.len() as int));
        lemma_http_applied_lookup(hs1, ms.subrange(1, ms.len() as int), k);
        lemma_handler_lookup_upsert(hs, method_kind(ms[0].0), ms[0].1, k);
    }
}

/// An HTTP method table never stores a handler under the raw-protocol or
/// WebSocket kind: every verb maps to an HTTP kind.
pub proof fn lemma_method_table_no_protocol_kinds(ms: Seq<(Seq<char>, u64)>)
    ensures
        method_table_lookup(ms, KindV::Asgi) is None,
        method_table_lookup(ms, KindV::Websocket) is None,
    decreases ms.len(),
{
    if ms.len() > 0 {
        lemma_method_table_no_protocol_kinds(ms.subrange(1, ms.len() as int));
    }
}

/// Handler selection at a leaf holding exactly one route's handlers: a
/// raw-protocol route always serves its handler; a WebSocket route serves
/// its handler to non-HTTP requests and refuses HTTP requests with
/// MethodNotAllowed; an HTTP route serves an HTTP request the last handler
/// its table names for the request's verb, refuses an HTTP request of any
/// other verb with MethodNotAllowed, and refuses non-HTTP requests with
/// NotFound.
pub proof fn lemma_select_single_route(
    params: Seq<Seq<char>>,
    path: Seq<char>,
    shape: ShapeV,
    st: Seq<char>,
    m: Seq<char>,
)
    ensures
        ({
            let l = shape_applied(new_leaf(params), false, path, shape);
            match shape {
                ShapeV::Asgi(h) => select_handler(l, st, m) == Ok::<u64, ResolveError>(h),
                ShapeV::Websocket(h) => select_handler(l, st, m) == (if st == "http"@ {
                    Err::<u64, ResolveError>(ResolveError::MethodNotAllowed)
                } else {
                    Ok::<u64, ResolveError>(h)
                }),
                ShapeV::Http(ms) => select_handler(l, st, m) == (if st == "http"@ {
                    match method_table_lookup(ms, method_kind(m)) {
                        Some(h) => Ok::<u64, ResolveError>(h),
                        None => Err::<u64, ResolveError>(ResolveError::MethodNotAllowed),
                    }
                } else {
                    Err::<u64, ResolveError>(ResolveError::NotFound)
                }),
            }
        }),
{
    let l = shape_applied(new_leaf(params), false, path, shape);
    match shape {
        ShapeV::Asgi(h) => {
            lemma_handler_lookup_upsert(Seq::empty(), KindV::Asgi, h, KindV::Asgi);
        },
        ShapeV::Websocket(h) => {
            lemma_handler_lookup_upsert(
                Seq::empty(),
                KindV::Websocket,
                h,
                method_kind(m),
            );
            lemma_handler_lookup_upsert(Seq::empty(), KindV::Websocket, h, KindV::Websocket);
        },
        ShapeV::Http(ms) => {
            lemma_http_applied_lookup(Seq::empty(), ms, method_kind(m));
            lemma_http_applied_lookup(Seq::empty(), ms, KindV::Websocket);
            lemma_method_table_no_protocol_kinds(ms);
        },
    }
}

/// A parameter-free route at a path that is no static mount root lands in
/// the plain table, and a request whose path normalizes to that path
/// resolves to exactly what `select_handler` picks from the route's own
/// handlers for the request's protocol kind and verb, with no captures and
/// the scope path untouched.
pub proof fn lemma_plain_route_resolves(m0: RouteMapV, r: RouteV, s: ScopeV)
    requires
        m0.plain == Seq::<(Seq<char>, LeafV)>::empty(),
        r.params.len() == 0,
        !m0.static_paths.contains(r.path),
        normalize(s.path) == r.path,
    ensures
        route_added(m0, r) is Ok,
        resolved(route_added(m0, r)->Ok_0, s).1 == s.path,
        ({
            let m1 = route_added(m0, r)->Ok_0;
            let l = shape_applied(new_leaf(r.params), false, r.path, r.shape);
            resolved(m1, s).0 == (match select_handler(l, s.scope_type, s.method) {
                Ok(h) => Ok::<ResolvedV, ResolveError>(
                    ResolvedV { handler: h, schema: r.params, captures: Seq::empty() },
                ),
                Err(e) => Err::<ResolvedV, ResolveError>(e),
            })
        }),
{
    let l = shape_applied(new_leaf(r.params), false, r.path, r.shape);
    assert(leaf_applied(assoc_lookup(m0.plain, r.path), r.params, false, r.path, r.shape)
        == Ok::<LeafV, ConfigError>(l));
    let m1 = route_added(m0, r)->Ok_0;
    lemma_assoc_lookup_upsert(m0.plain, r.path, l, normalize(s.path));
    assert(lookup_hit(m1, normalize(s.path)) == Some(
        WalkHit { leaf: l, captures: Seq::empty(), static_stop: None },
    ));
}

/// Registering the same route a second time succeeds: the leaf the first
/// registration created is merged into, never conflicted with.
pub proof fn lemma_reregistration_ok(m0: RouteMapV, r: RouteV)
    requires
        route_added(m0, r) is Ok,
    ensures
        route_added(route_added(m0, r)->Ok_0, r) is Ok,
{
    let m1 = route_added(m0, r)->Ok_0;
    let in_static = m0.static_paths.contains(r.path);
    assert(m1.static_paths == m0.static_paths);
    if r.params.len() > 0 || in_static {
        lemma_trie_reapply(
            m0.root,
            segments(r.path),
            r.params,
            in_static,
            r.path,
            r.shape,
            r.params,
            in_static,
            r.path,
            r.shape,
        );
    } else {
        let l1 = leaf_applied(assoc_lookup(m0.plain, r.path), r.params, false, r.path, r.shape)
            ->Ok_0;
        lemma_assoc_lookup_upsert(m0.plain, r.path, l1, r.path);
        assert(l1.path_parameters == r.params);
    }
}

/// Two routes at the same path whose declared parameter sets differ, but
/// classify the path's segments alike, conflict: registering the second
/// after the first fails with the configuration error.
pub proof fn lemma_conflicting_schemas_fail(m0: RouteMapV, r1: RouteV, r2: RouteV)
    requires
        route_added(m0, r1) is Ok,
        r2.path == r1.path,
        r1.params.len() > 0 || m0.static_paths.contains(r1.path),
        r2.params.len() > 0 || m0.static_paths.contains(r1.path),
        r1.params != r2.params,
        forall|i: int|
            0 <= i < segments(r1.path).len() ==> is_placeholder(segments(r1.path)[i], r1.params)
                == is_placeholder(segments(r1.path)[i], r2.params),
    ensures
        route_added(route_added(m0, r1)->Ok_0, r2) == Err::<RouteMapV, ConfigError>(
            ConfigError::ConflictingPathParameters,
        ),
{
    let m1 = route_added(m0, r1)->Ok_0;
    let in_static = m0.static_paths.contains(r1.path);
    assert(m1.static_paths == m0.static_paths);
    lemma_trie_reapply(
        m0.root,
        segments(r1.path),
        r1.params,
        in_static,
        r1.path,
        r1.shape,
        r2.params,
        in_static,
        r2.path,
        r2.shape,
    );
}

/// Re-inserting along the same classified segments reaches the leaf the
/// first insertion created: it succeeds exactly when the schemas agree, and
/// fails with the schema conflict otherwise.
pub proof fn lemma_trie_reapply(
    n0: NodeV,
    segs: Seq<Seq<char>>,
    p1: Seq<Seq<char>>,
    st1: bool,
    path1: Seq<char>,
    sh1: ShapeV,
    p2: Seq<Seq<char>>,
    st2: bool,
    path2: Seq<char>,
    sh2: ShapeV,
)
    requires
        trie_applied(n0, segs, p1, st1, path1, sh1) is Ok,
        forall|i: int|
            0 <= i < segs.len() ==> is_placeholder(segs[i], p1) == is_placeholder(segs[i], p2),
    ensures
        p2 == p1 ==> trie_applied(
            trie_applied(n0, segs, p1, st1, path1, sh1)->Ok_0,
            segs,
            p2,
            st2,
            path2,
            sh2,
        ) is Ok,
        p2 != p1 ==> trie_applied(
            trie_applied(n0, segs, p1, st1, path1, sh1)->Ok_0,
            segs,
            p2,
            st2,
            path2,
            sh2,
        ) == Err::<NodeV, ConfigError>(ConfigError::ConflictingPathParameters),
    decreases segs.len(),
{
    let n1 = trie_applied(n0, segs, p1, st1, path1, sh1)->Ok_0;
    if segs.len() == 0 {
        let l1 = leaf_applied(n0.leaf, p1, st1, path1, sh1)->Ok_0;
        assert(l1.path_parameters == p1);
        assert(n1.leaf == Some(l1));
    } else {
        let seg = segs[0];
        let tail = segs.subrange(1, segs.len() as int);
        assert(forall|i: int|
            0 <= i < tail.len() ==> is_placeholder(tail[i], p1) == is_placeholder(tail[i], p2));
        if is_placeholder(seg, p1) {
            let child = match n0.placeholder {
                Some(c) => *c,
                None => empty_node(),
            };
            lemma_trie_reapply(child, tail, p1, st1, path1, sh1, p2, st2, path2, sh2);
        } else {
            let child = match assoc_lookup(n0.children, seg) {
                Some(c) => c,
                None => empty_node(),
            };
            let c1 = trie_applied(child, tail, p1, st1, path1, sh1)->Ok_0;
            lemma_assoc_lookup_upsert(n0.children, seg, c1, seg);
            lemma_trie_reapply(child, tail, p1, st1, path1, sh1, p2, st2, path2, sh2);
        }
    }
}

/// Trailing-slash normalization: a request path with one trailing slash
/// added resolves to the same result; the bare root path already is its own
/// normal form.
pub proof fn lemma_trailing_slash_irrelevant(m: RouteMapV, s1: ScopeV, s2: ScopeV)
    requires
        s2.path == s1.path.push('/'),
        s1.path.len() == 0 || s1.path[s1.path.len() - 1] != '/',
        s2.scope_type == s1.scope_type,
        s2.method == s1.method,
    ensures
        resolved(m, s2).0 == resolved(m, s1).0,
{
    assert(s2.path.drop_last() =~= s1.path);
    assert(normalize(s2.path) == normalize(s1.path));
}

/// Distinct keys in an association list: it denotes a mapping.
pub open spec fn distinct_keys<T>(s: Seq<(Seq<char>, T)>) -> bool {
    forall|i: int, j: int| 0 <= i < j < s.len() ==> s[i].0 != s[j].0
}

/// Whether some entry carries `key`.
pub open spec fn has_key<T>(s: Seq<(Seq<char>, T)>, key: Seq<char>) -> bool {
    exists|i: int| 0 <= i < s.len() && s[i].0 == key
}

/// A well-formed trie: every node's literal children carry distinct keys,
/// all the way down.
pub open spec fn node_wf(n: NodeV) -> bool
    decreases n,
{
    &&& distinct_keys(n.children)
    &&& children_wf(n.children)
    &&& match n.placeholder {
        Some(b) => node_wf(*b),
        None => true,
    }
}

/// Well-formedness of every child node in a children list.
pub open spec fn children_wf(cs: Seq<(Seq<char>, NodeV)>) -> bool
    decreases cs,
{
    cs.len() == 0 || (node_wf(cs[0].1) && children_wf(cs.subrange(1, cs.len() as int)))
}

/// A well-formed route map: the plain table and the trie denote mappings.
pub open spec fn map_wf(m: RouteMapV) -> bool {
    distinct_keys(m.plain) && node_wf(m.root)
}

/// The first value under a key of a well-formed children list is itself
/// well-formed.
proof fn lemma_assoc_lookup_wf(cs: Seq<(Seq<char>, NodeV)>, key: Seq<char>)
    requires
        children_wf(cs),
        assoc_lookup(cs, key) is Some,
    ensures
        node_wf(assoc_lookup(cs, key)->Some_0),
    decreases cs,
{
    if cs.len() > 0 && cs[0].0 != key {
        lemma_assoc_lookup_wf(cs.subrange(1, cs.len() as int), key);
    }
}

/// Insertion keeps the keys of an association list distinct, and adds no key
/// but the inserted one.
proof fn lemma_assoc_upsert_distinct<T>(s: Seq<(Seq<char>, T)>, key: Seq<char>, v: T)
    requires
        distinct_keys(s),
    ensures
        distinct_keys(assoc_upsert(s, key, v)),
        forall|j: int|
            0 <= j < assoc_upsert(s, key, v).len() ==> (#[trigger] assoc_upsert(s, key, v)[j].0
                == key || has_key(s, assoc_upsert(s, key, v)[j].0)),
    decreases s.len(),
{
    let r = assoc_upsert(s, key, v);
    if s.len() == 0 {
        assert(r =~= seq![(key, v)]);
    } else if s[0].0 == key {
        assert(r[0] == (key, v));
        assert(r.subrange(1, r.len() as int) =~= s.subrange(1, s.len() as int));
        assert forall|j: int| 0 <= j < r.len() implies (#[trigger] r[j].0 == key || has_key(
            s,
            r[j].0,
        )) by {
            if j > 0 {
                assert(s[j] == r[j]);
            }
        }
    } else {
        let sub = s.subrange(1, s.len() as int);
        lemma_assoc_upsert_distinct(sub, key, v);
        assert(r[0] == s[0]);
        assert(r.subrange(1, r.len() as int) =~= assoc_upsert(sub, key, v));
        assert forall|j: int| 0 <= j < r.len() implies (#[trigger] r[j].0 == key || has_key(
            s,
            r[j].0,
        )) by {
            if j > 0 {
                assert(r[j] == assoc_upsert(sub, key, v)[j - 1]);
                if r[j].0 != key {
                    let i = choose|i: int| 0 <= i < sub.len() && sub[i].0 == r[j].0;
                    assert(s[i + 1].0 == r[j].0);
                }
            }
        }
        assert forall|i: int, j: int| 0 <= i < j < r.len() implies r[i].0 != r[j].0 by {
            if i > 0 {
                assert(r[i] == assoc_upsert(sub, key, v)[i - 1]);
            }
            if i == 0 && r[j].0 == r[0].0 {
                assert(r[j] == assoc_upsert(sub, key, v)[j - 1]);
                if r[j].0 != key {
                    let w = choose|w: int| 0 <= w < sub.len() && sub[w].0 == r[j].0;
                    assert(s[w + 1].0 == s[0].0);
                }
            }
        }
    }
}

/// Well-formedness of the children survives an insertion of a well-formed
/// node.
proof fn lemma_children_wf_upsert(cs: Seq<(Seq<char>, NodeV)>, key: Seq<char>, v: NodeV)
    requires
        children_wf(cs),
        node_wf(v),
    ensures
        children_wf(assoc_upsert(cs, key, v)),
    decreases cs,
{
    let r = assoc_upsert(cs, key, v);
    if cs.len() == 0 {
        assert(r =~= seq![(key, v)]);
        assert(r.subrange(1, r.len() as int) =~= Seq::<(Seq<char>, NodeV)>::empty());
        assert(children_wf(Seq::<(Seq<char>, NodeV)>::empty()));
        assert(r[0].1 == v);
    } else if cs[0].0 == key {
        assert(r[0] == (key, v));
        assert(r.subrange(1, r.len() as int) =~= cs.subrange(1, cs.len() as int));
    } else {
        lemma_children_wf_upsert(cs.subrange(1, cs.len() as int), key, v);
        assert(r[0] == cs[0]);
        assert(r.subrange(1, r.len() as int) =~= assoc_upsert(
            cs.subrange(1, cs.len() as int),
            key,
            v,
        ));
    }
}

proof fn lemma_empty_node_wf()
    ensures
        node_wf(empty_node()),
{
    assert(children_wf(Seq::<(Seq<char>, NodeV)>::empty()));
}

/// Merging a route into a well-formed trie leaves it well-formed: literal
/// children keep distinct keys everywhere.
pub proof fn lemma_trie_applied_wf(
    n: NodeV,
    segs: Seq<Seq<char>>,
    params: Seq<Seq<char>>,
    in_static: bool,
    path: Seq<char>,
    shape: ShapeV,
)
    requires
        node_wf(n),
        trie_applied(n, segs, params, in_static, path, shape) is Ok,
    ensures
        node_wf(trie_applied(n, segs, params, in_static, path, shape)->Ok_0),
    decreases segs.len(),
{
    let n1 = trie_applied(n, segs, params, in_static, path, shape)->Ok_0;
    if segs.len() == 0 {
    } else {
        let seg = segs[0];
        let tail = segs.subrange(1, segs.len() as int);
        lemma_empty_node_wf();
        if is_placeholder(seg, params) {
            let child = match n.placeholder {
                Some(c) => *c,
                None => empty_node(),
            };
            lemma_trie_applied_wf(child, tail, params, in_static, path, shape);
        } else {
            let child = match assoc_lookup(n.children, seg) {
                Some(c) => c,
                None => empty_node(),
            };
            if assoc_lookup(n.children, seg) is Some {
                lemma_assoc_lookup_wf(n.children, seg);
            }
            lemma_trie_applied_wf(child, tail, params, in_static, path, shape);
            let c2 = trie_applied(child, tail, params, in_static, path, shape)->Ok_0;
            lemma_assoc_upsert_distinct(n.children, seg, c2);
            lemma_children_wf_upsert(n.children, seg, c2);
        }
    }
}

/// Registration preserves well-formedness: after any successful route
/// registration the plain table and every trie node still denote mappings
/// with distinct keys.
pub proof fn lemma_route_added_preserves_wf(m: RouteMapV, r: RouteV)
    requires
        map_wf(m),
        route_added(m, r) is Ok,
    ensures
        map_wf(route_added(m, r)->Ok_0),
{
    let in_static = m.static_paths.contains(r.path);
    if r.params.len() > 0 || in_static {
        lemma_trie_applied_wf(m.root, segments(r.path), r.params, in_static, r.path, r.shape);
    } else {
        let l = leaf_applied(assoc_lookup(m.plain, r.path), r.params, false, r.path, r.shape)
            ->Ok_0;
        lemma_assoc_upsert_distinct(m.plain, r.path, l);
    }
}

/// Bulk registration preserves well-formedness route by route.
pub proof fn lemma_routes_added_preserve_wf(m: RouteMapV, rs: Seq<RouteV>)
    requires
        map_wf(m),
        routes_added(m, rs) is Ok,
    ensures
        map_wf(routes_added(m, rs)->Ok_0),
    decreases rs.len(),
{
    if rs.len() > 0 {
        lemma_route_added_preserves_wf(m, rs[0]);
        lemma_routes_added_preserve_wf(
            route_added(m, rs[0])->Ok_0,
            rs.subrange(1, rs.len() as int),
        );
    }
}

/// A route map with nothing registered resolves nothing: every request, of
/// whatever path, fails with NotFound, and its scope path is left as it
/// came.
pub proof fn lemma_empty_map_not_found(m: RouteMapV, s: ScopeV)
    requires
        m.plain == Seq::<(Seq<char>, LeafV)>::empty(),
        m.root == empty_node(),
    ensures
        resolved(m, s).0 == Err::<ResolvedV, ResolveError>(ResolveError::NotFound),
        resolved(m, s).1 == s.path,
{
    let np = normalize(s.path);
    let segs = segments(np);
    if segs.len() > 0 {
        assert(assoc_lookup(m.root.children, segs[0]) is None);
    }
    assert(walk(m.root, segs) is None);
}

} // verus!
