use perry_fastify::fastify::FastifyApp;

#[test]
fn test_add_routes() {
    let mut app = FastifyApp::new();

    app.add_route("GET", "/", 0);
    app.add_route("GET", "/users", 1);
    app.add_route("GET", "/users/:id", 2);
    app.add_route("POST", "/users", 3);

    assert_eq!(app.routes.len(), 4);
}

#[test]
fn test_route_matching() {
    let mut app = FastifyApp::new();

    app.add_route("GET", "/", 100);
    app.add_route("GET", "/users", 101);
    app.add_route("GET", "/users/:id", 102);
    app.add_route("POST", "/users", 103);
    app.add_route("PUT", "/users/:id", 104);

    let (route, params) = app.match_route("GET", "/").unwrap();
    assert_eq!(route.handler, 100);
    assert!(params.is_empty());

    let (route, params) = app.match_route("GET", "/users").unwrap();
    assert_eq!(route.handler, 101);
    assert!(params.is_empty());

    let (route, params) = app.match_route("GET", "/users/42").unwrap();
    assert_eq!(route.handler, 102);
    assert_eq!(params.get("id"), Some(&"42".to_string()));

    let (route, _) = app.match_route("POST", "/users").unwrap();
    assert_eq!(route.handler, 103);

    let (route, params) = app.match_route("PUT", "/users/99").unwrap();
    assert_eq!(route.handler, 104);
    assert_eq!(params.get("id"), Some(&"99".to_string()));

    assert!(app.match_route("DELETE", "/users").is_none());
    assert!(app.match_route("GET", "/posts").is_none());
}

#[test]
fn test_hooks() {
    let mut app = FastifyApp::new();

    app.add_hook("onRequest", 1);
    app.add_hook("preHandler", 2);
    app.add_hook("preHandler", 3);

    assert_eq!(app.hooks.on_request.len(), 1);
    assert_eq!(app.hooks.pre_handler.len(), 2);
}

#[test]
fn test_error_handler() {
    let mut app = FastifyApp::new();
    assert!(app.error_handler.is_none());

    app.set_error_handler(42);
    assert_eq!(app.error_handler, Some(42));
}

#[test]
fn test_plugin_prefix() {
    let scoped = FastifyApp::with_prefix("/api/v1".to_string());
    assert_eq!(scoped.prefix, "/api/v1");
}

#[test]
fn test_static_index_population_and_lookup() {
    let mut app = FastifyApp::new();
    app.add_route("GET", "/external_ping", 1);
    app.add_route("GET", "/users/:id", 2);
    app.add_route("POST", "/users", 3);
    app.add_route("GET", "/static/*", 4);
    app.add_route("GET", "/", 5);

    assert!(app.static_index.contains_key("GET /external_ping"));
    assert!(app.static_index.contains_key("POST /users"));
    assert!(app.static_index.contains_key("GET /"));
    assert!(!app.static_index.contains_key("GET /users/:id"));
    assert!(!app.static_index.contains_key("GET /static/*"));
    assert_eq!(app.static_index.len(), 3);

    let (route, params) = app.match_route("GET", "/external_ping").unwrap();
    assert_eq!(route.handler, 1);
    assert!(params.is_empty());

    let (route, _) = app.match_route("GET", "/external_ping?foo=bar").unwrap();
    assert_eq!(route.handler, 1);

    let (route, params) = app.match_route("GET", "/users/42").unwrap();
    assert_eq!(route.handler, 2);
    assert_eq!(params.get("id"), Some(&"42".to_string()));

    let (route, params) = app.match_route("GET", "/static/css/x.css").unwrap();
    assert_eq!(route.handler, 4);
    assert_eq!(params.get("*"), Some(&"css/x.css".to_string()));

    assert!(app.match_route("DELETE", "/external_ping").is_none());
}

#[test]
fn test_gc_pinned_roots_slab_population() {
    let mut app = FastifyApp::new();
    assert!(app.gc_root_words().is_empty(), "fresh app has empty slab");

    app.add_route("GET", "/a", 0x111);
    app.add_route("POST", "/b", 0x222);
    app.add_hook("onRequest", 0x333);
    app.add_hook("preHandler", 0x444);
    app.set_error_handler(0x555);

    let roots = app.gc_root_words();
    assert_eq!(roots.len(), 5, "slab should have one entry per non-zero ClosurePtr");

    for &bits in &roots {
        assert_eq!(
            bits & 0xFFFF_0000_0000_0000,
            0x7FFD_0000_0000_0000,
            "every slab entry must have NaN-boxed POINTER_TAG; got {:016x}",
            bits
        );
    }

    let extracted: std::collections::HashSet<i64> = roots
        .iter()
        .map(|b| (b & 0x0000_FFFF_FFFF_FFFF) as i64)
        .collect();
    for ptr in [0x111, 0x222, 0x333, 0x444, 0x555] {
        assert!(extracted.contains(&ptr), "expected ClosurePtr {:#x} in slab", ptr);
    }

    app.add_route("DELETE", "/c", 0x666);
    assert_eq!(app.gc_root_words().len(), 6);

    let mut zero_app = FastifyApp::new();
    zero_app.add_route("GET", "/", 0);
    assert!(
        zero_app.gc_root_words().is_empty(),
        "zero ClosurePtr must not enter the slab"
    );
}

#[test]
fn test_static_index_respects_prefix() {
    let mut app = FastifyApp::with_prefix("/api".to_string());
    app.add_route("GET", "/users", 10);

    assert!(app.static_index.contains_key("GET /api/users"));
    assert!(!app.static_index.contains_key("GET /users"));

    let (route, _) = app.match_route("GET", "/api/users").unwrap();
    assert_eq!(route.handler, 10);

    assert!(app.match_route("GET", "/users").is_none());
}

#[test]
fn test_route_with_prefix() {
    let mut app = FastifyApp::with_prefix("/api".to_string());
    app.add_route("GET", "/users", 1);

    let (route, _) = app.match_route("GET", "/api/users").unwrap();
    assert_eq!(route.handler, 1);

    assert!(app.match_route("GET", "/users").is_none());
}

#[test]
fn method_is_upper_cased_on_registration() {
    let mut app = FastifyApp::new();
    app.add_route("get", "/users/:id", 7);
    app.add_route("post", "/users", 8);
    assert_eq!(app.routes[0].method, "GET");
    assert!(app.static_index.contains_key("POST /users"));
    assert_eq!(app.match_route("GET", "/users/3").unwrap().0.handler, 7);
    assert!(app.match_route("get", "/users/3").is_none());
}

#[test]
fn path_without_leading_slash_is_indexed_with_one() {
    let mut app = FastifyApp::new();
    app.add_route("GET", "health", 9);
    assert!(app.static_index.contains_key("GET /health"));
    assert_eq!(app.match_route("GET", "health").unwrap().0.handler, 9);
    assert_eq!(app.match_route("GET", "/health").unwrap().0.handler, 9);
}

#[test]
fn latest_static_registration_wins_in_the_index() {
    let mut app = FastifyApp::new();
    app.add_route("GET", "/users/:id", 1);
    app.add_route("GET", "/users/me", 2);
    app.add_route("GET", "/users/me", 3);
    assert_eq!(app.match_route("GET", "/users/me").unwrap().0.handler, 3);
    assert_eq!(app.static_index.len(), 1);
    assert_eq!(app.routes.len(), 3);
}

#[test]
fn first_parametric_registration_wins_in_the_scan() {
    let mut app = FastifyApp::new();
    app.add_route("GET", "/a/:x", 1);
    app.add_route("GET", "/a/:y", 2);
    let (route, params) = app.match_route("GET", "/a/5").unwrap();
    assert_eq!(route.handler, 1);
    assert_eq!(params.get("x"), Some(&"5".to_string()));
    assert_eq!(params.get("y"), None);
}

#[test]
fn unknown_hook_is_reported_and_ignored() {
    let mut app = FastifyApp::new();
    assert!(!app.add_hook("onBogus", 5));
    assert!(app.add_hook("onError", 6));
    assert!(app.add_hook("preParsing", 7));
    assert!(app.add_hook("preValidation", 8));
    assert!(app.add_hook("preSerialization", 9));
    assert!(app.add_hook("onSend", 10));
    assert!(app.add_hook("onResponse", 11));
    assert_eq!(app.hooks.on_error, vec![6]);
    assert_eq!(app.hooks.pre_parsing, vec![7]);
    assert_eq!(app.hooks.pre_validation, vec![8]);
    assert_eq!(app.hooks.pre_serialization, vec![9]);
    assert_eq!(app.hooks.on_send, vec![10]);
    assert_eq!(app.hooks.on_response, vec![11]);
    assert!(app.hooks.on_request.is_empty());
}

#[test]
fn gc_roots_follow_registration_order() {
    let mut app = FastifyApp::new();
    app.add_route("GET", "/a", 1);
    app.add_hook("onError", 2);
    app.add_hook("onRequest", 3);
    app.set_error_handler(4);
    app.upgrade_handlers.push(5);
    let words: Vec<u64> = app.gc_root_words().iter().map(|w| w & 0xFFFF_FFFF_FFFF).collect();
    assert_eq!(words, vec![1, 3, 2, 4, 5]);
}

#[test]
fn default_app_is_empty() {
    let app = FastifyApp::default();
    assert!(app.routes.is_empty());
    assert!(app.static_index.is_empty());
    assert!(app.prefix.is_empty());
    assert!(!app.config.logger);
    assert!(app.config.body_limit.is_none());
}
