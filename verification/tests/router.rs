use starlite_router::errors::{ConfigError, ResolveError};
use starlite_router::leaf::RouteShape;
use starlite_router::route_map::{Route, RouteMap, Scope};

fn strings(xs: &[&str]) -> Vec<String> {
    xs.iter().map(|s| s.to_string()).collect()
}

fn http_route(path: &str, params: &[&str], methods: &[(&str, u64)]) -> Route {
    Route {
        path: path.to_string(),
        path_parameters: strings(params),
        shape: RouteShape::Http(methods.iter().map(|(m, h)| (m.to_string(), *h)).collect()),
    }
}

fn ws_route(path: &str, params: &[&str], handler: u64) -> Route {
    Route {
        path: path.to_string(),
        path_parameters: strings(params),
        shape: RouteShape::Websocket(handler),
    }
}

fn asgi_route(path: &str, params: &[&str], handler: u64) -> Route {
    Route {
        path: path.to_string(),
        path_parameters: strings(params),
        shape: RouteShape::Asgi(handler),
    }
}

fn scope(path: &str, ty: &str, method: &str) -> Scope {
    Scope { path: path.to_string(), scope_type: ty.to_string(), method: method.to_string() }
}

fn map_with(routes: Vec<Route>) -> RouteMap {
    let mut m = RouteMap::new(Vec::new());
    m.add_routes(&routes).unwrap();
    m
}

#[test]
fn plain_route_resolves_to_method_handler() {
    let m = map_with(vec![http_route("/x", &[], &[("GET", 11), ("POST", 12)])]);
    let mut s = scope("/x", "http", "GET");
    let r = m.resolve_route(&mut s).unwrap();
    assert_eq!(r.handler, 11);
    assert!(r.captures.is_empty());
    assert!(r.path_parameters.is_empty());
    assert_eq!(s.path, "/x");

    let mut s2 = scope("/x", "http", "POST");
    assert_eq!(m.resolve_route(&mut s2).unwrap().handler, 12);
}

#[test]
fn trailing_slash_is_normalized() {
    let m = map_with(vec![http_route("/foo", &[], &[("GET", 1)])]);
    let mut a = scope("/foo", "http", "GET");
    let mut b = scope("/foo/", "http", "GET");
    assert_eq!(m.resolve_route(&mut a).unwrap().handler, 1);
    assert_eq!(m.resolve_route(&mut b).unwrap().handler, 1);
}

#[test]
fn root_path_is_preserved() {
    let m = map_with(vec![http_route("/", &[], &[("GET", 5)])]);
    let mut s = scope("/", "http", "GET");
    assert_eq!(m.resolve_route(&mut s).unwrap().handler, 5);
    assert_eq!(s.path, "/");
    // An empty request path normalizes to the root path too.
    let mut e = scope("", "http", "GET");
    assert_eq!(m.resolve_route(&mut e).unwrap().handler, 5);
}

#[test]
fn conflicting_schemas_fail() {
    let mut m = RouteMap::new(Vec::new());
    m.add_routes(&vec![http_route("/items/{id}", &["id"], &[("GET", 1)])]).unwrap();
    let err = m
        .add_routes(&vec![http_route("/items/{id}", &["id", "extra"], &[("GET", 2)])])
        .unwrap_err();
    assert_eq!(err, ConfigError::ConflictingPathParameters);
    // The route registered before the conflict still resolves.
    let mut s = scope("/items/7", "http", "GET");
    assert_eq!(m.resolve_route(&mut s).unwrap().handler, 1);
}

#[test]
fn identical_reregistration_succeeds() {
    let mut m = RouteMap::new(Vec::new());
    let r = || http_route("/items/{id}", &["id"], &[("GET", 1)]);
    m.add_routes(&vec![r()]).unwrap();
    m.add_routes(&vec![r()]).unwrap();
    let mut s = scope("/items/7", "http", "GET");
    assert_eq!(m.resolve_route(&mut s).unwrap().handler, 1);
}

#[test]
fn reregistration_overwrites_method_handler() {
    let mut m = RouteMap::new(Vec::new());
    m.add_routes(&vec![http_route("/x", &[], &[("GET", 1)])]).unwrap();
    m.add_routes(&vec![http_route("/x", &[], &[("GET", 2)])]).unwrap();
    let mut s = scope("/x", "http", "GET");
    assert_eq!(m.resolve_route(&mut s).unwrap().handler, 2);
}

#[test]
fn last_method_entry_wins() {
    let m = map_with(vec![http_route("/x", &[], &[("GET", 1), ("GET", 2)])]);
    let mut s = scope("/x", "http", "GET");
    assert_eq!(m.resolve_route(&mut s).unwrap().handler, 2);
}

#[test]
fn literal_beats_placeholder() {
    let m = map_with(vec![
        http_route("/items/{id}", &["id"], &[("GET", 1)]),
        http_route("/items/special", &[], &[("GET", 2)]),
    ]);
    let mut a = scope("/items/special", "http", "GET");
    assert_eq!(m.resolve_route(&mut a).unwrap().handler, 2);
    let mut b = scope("/items/42", "http", "GET");
    let r = m.resolve_route(&mut b).unwrap();
    assert_eq!(r.handler, 1);
    assert_eq!(r.captures, vec!["42".to_string()]);
    assert_eq!(r.path_parameters, vec!["id".to_string()]);
}

#[test]
fn literal_beats_placeholder_inside_trie() {
    let m = map_with(vec![
        http_route("/a/{id}/{x}", &["id", "x"], &[("GET", 1)]),
        http_route("/a/special/{x}", &["x"], &[("GET", 2)]),
    ]);
    let mut a = scope("/a/special/5", "http", "GET");
    let r = m.resolve_route(&mut a).unwrap();
    assert_eq!(r.handler, 2);
    assert_eq!(r.captures, vec!["5".to_string()]);
    let mut b = scope("/a/other/5", "http", "GET");
    let r2 = m.resolve_route(&mut b).unwrap();
    assert_eq!(r2.handler, 1);
    assert_eq!(r2.captures, vec!["other".to_string(), "5".to_string()]);
}

#[test]
fn static_mount_consumes_and_rewrites() {
    let mut m = RouteMap::new(vec!["/assets".to_string()]);
    m.add_routes(&vec![asgi_route("/assets", &[], 7)]).unwrap();
    let mut deep = scope("/assets/js/app.js", "http", "GET");
    assert_eq!(m.resolve_route(&mut deep).unwrap().handler, 7);
    assert_eq!(deep.path, "/js/app.js");
    // The mount root itself: the path stays as it came.
    let mut root = scope("/assets", "http", "GET");
    assert_eq!(m.resolve_route(&mut root).unwrap().handler, 7);
    assert_eq!(root.path, "/assets");
}

#[test]
fn static_mount_at_root_keeps_path() {
    let mut m = RouteMap::new(vec!["/".to_string()]);
    m.add_routes(&vec![asgi_route("/", &[], 9)]).unwrap();
    let mut s = scope("/anything/below", "http", "GET");
    assert_eq!(m.resolve_route(&mut s).unwrap().handler, 9);
    assert_eq!(s.path, "/anything/below");
}

#[test]
fn method_mismatch_is_method_not_allowed() {
    let m = map_with(vec![http_route("/x", &[], &[("GET", 1)])]);
    let mut s = scope("/x", "http", "POST");
    assert_eq!(m.resolve_route(&mut s).unwrap_err(), ResolveError::MethodNotAllowed);
    // An unregistered path is NotFound, not MethodNotAllowed.
    let mut t = scope("/y", "http", "POST");
    assert_eq!(m.resolve_route(&mut t).unwrap_err(), ResolveError::NotFound);
}

#[test]
fn unknown_paths_are_not_found() {
    let m = map_with(vec![
        http_route("/a/b", &[], &[("GET", 1)]),
        http_route("/c/{id}", &["id"], &[("GET", 2)]),
    ]);
    for p in ["", "/", "///", "/a", "/a/b/c", "/c", "/c/1/2", "/nope", "/a//b"] {
        let mut s = scope(p, "http", "GET");
        assert_eq!(m.resolve_route(&mut s).unwrap_err(), ResolveError::NotFound, "path {:?}", p);
    }
}

#[test]
fn repeated_slashes_collapse_in_trie_paths() {
    let m = map_with(vec![http_route("/c/{id}", &["id"], &[("GET", 2)])]);
    let mut s = scope("/c//5", "http", "GET");
    let r = m.resolve_route(&mut s).unwrap();
    assert_eq!(r.handler, 2);
    assert_eq!(r.captures, vec!["5".to_string()]);
}

#[test]
fn websocket_routes_dispatch_by_scope_type() {
    let m = map_with(vec![ws_route("/ws", &[], 3)]);
    let mut s = scope("/ws", "websocket", "");
    assert_eq!(m.resolve_route(&mut s).unwrap().handler, 3);
    // An HTTP request at a WebSocket-only path: the path exists, the verb
    // has no handler.
    let mut t = scope("/ws", "http", "GET");
    assert_eq!(m.resolve_route(&mut t).unwrap_err(), ResolveError::MethodNotAllowed);
}

#[test]
fn asgi_routes_ignore_method_and_type() {
    let m = map_with(vec![asgi_route("/raw", &[], 4)]);
    for (ty, me) in [("http", "DELETE"), ("websocket", ""), ("lifespan", "")] {
        let mut s = scope("/raw", ty, me);
        assert_eq!(m.resolve_route(&mut s).unwrap().handler, 4, "type {:?}", ty);
    }
}

#[test]
fn nonstandard_verbs_match_by_name() {
    let m = map_with(vec![http_route("/brew", &[], &[("BREW", 21), ("GET", 22)])]);
    let mut s = scope("/brew", "http", "BREW");
    assert_eq!(m.resolve_route(&mut s).unwrap().handler, 21);
    let mut t = scope("/brew", "http", "TRACE");
    assert_eq!(m.resolve_route(&mut t).unwrap_err(), ResolveError::MethodNotAllowed);
}

#[test]
fn undeclared_placeholder_is_literal() {
    // `{id}` is not declared as a parameter, so the route is parameter-free
    // and its segment stays literal.
    let m = map_with(vec![http_route("/v/{id}", &[], &[("GET", 6)])]);
    let mut lit = scope("/v/{id}", "http", "GET");
    assert_eq!(m.resolve_route(&mut lit).unwrap().handler, 6);
    let mut num = scope("/v/7", "http", "GET");
    assert_eq!(m.resolve_route(&mut num).unwrap_err(), ResolveError::NotFound);
}

#[test]
fn mixed_declaration_classifies_per_segment() {
    // Only `a` is declared: `{a}` captures, `{b}` is a literal segment.
    let m = map_with(vec![http_route("/w/{a}/{b}", &["a"], &[("GET", 8)])]);
    let mut hit = scope("/w/x/{b}", "http", "GET");
    let r = m.resolve_route(&mut hit).unwrap();
    assert_eq!(r.handler, 8);
    assert_eq!(r.captures, vec!["x".to_string()]);
    let mut miss = scope("/w/x/y", "http", "GET");
    assert_eq!(m.resolve_route(&mut miss).unwrap_err(), ResolveError::NotFound);
}

#[test]
fn multiple_captures_come_in_path_order() {
    let m = map_with(vec![http_route("/u/{x}/p/{y}", &["x", "y"], &[("GET", 1)])]);
    let mut s = scope("/u/alpha/p/beta", "http", "GET");
    let r = m.resolve_route(&mut s).unwrap();
    assert_eq!(r.captures, vec!["alpha".to_string(), "beta".to_string()]);
    assert_eq!(r.path_parameters, vec!["x".to_string(), "y".to_string()]);
}

#[test]
fn batch_registration_fails_fast() {
    let mut m = RouteMap::new(Vec::new());
    let err = m
        .add_routes(&vec![
            http_route("/ok", &[], &[("GET", 1)]),
            http_route("/p/{i}", &["i"], &[("GET", 2)]),
            http_route("/p/{i}", &["i", "j"], &[("GET", 3)]),
        ])
        .unwrap_err();
    assert_eq!(err, ConfigError::ConflictingPathParameters);
    // Routes before the failing one stay applied.
    let mut s = scope("/ok", "http", "GET");
    assert_eq!(m.resolve_route(&mut s).unwrap().handler, 1);
    let mut t = scope("/p/9", "http", "GET");
    assert_eq!(m.resolve_route(&mut t).unwrap().handler, 2);
}

#[test]
fn repr_sketches_the_structure() {
    let mut m = RouteMap::new(vec!["/assets".to_string()]);
    m.add_routes(&vec![
        http_route("/x", &[], &[("GET", 1)]),
        http_route("/items/{id}", &["id"], &[("GET", 2)]),
    ])
    .unwrap();
    let dump = m.repr();
    assert!(dump.contains("/assets"));
    assert!(dump.contains("/x"));
    assert!(dump.contains("items"));
    assert!(dump.contains("{*}"));
}

#[test]
fn deep_static_mount_rewrites_first_occurrence_only() {
    let mut m = RouteMap::new(vec!["/assets".to_string()]);
    m.add_routes(&vec![asgi_route("/assets", &[], 7)]).unwrap();
    let mut s = scope("/assets/assets/x", "http", "GET");
    assert_eq!(m.resolve_route(&mut s).unwrap().handler, 7);
    assert_eq!(s.path, "/assets/x");
}
