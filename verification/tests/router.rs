use perry_fastify::router::{RoutePattern, Segment};

#[test]
fn test_static_route() {
    let pattern = RoutePattern::parse("/users");
    assert!(pattern.match_path("/users").is_some());
    assert!(pattern.match_path("/users/").is_some());
    assert!(pattern.match_path("/posts").is_none());
    assert!(pattern.match_path("/users/123").is_none());
}

#[test]
fn test_param_route() {
    let pattern = RoutePattern::parse("/users/:id");

    let params = pattern.match_path("/users/123").unwrap();
    assert_eq!(params.get("id"), Some(&"123".to_string()));

    let params = pattern.match_path("/users/abc").unwrap();
    assert_eq!(params.get("id"), Some(&"abc".to_string()));

    assert!(pattern.match_path("/users").is_none());
    assert!(pattern.match_path("/users/123/posts").is_none());
}

#[test]
fn test_multiple_params() {
    let pattern = RoutePattern::parse("/posts/:postId/comments/:commentId");

    let params = pattern.match_path("/posts/1/comments/2").unwrap();
    assert_eq!(params.get("postId"), Some(&"1".to_string()));
    assert_eq!(params.get("commentId"), Some(&"2".to_string()));
}

#[test]
fn test_wildcard() {
    let pattern = RoutePattern::parse("/static/*");

    let params = pattern.match_path("/static/css/style.css").unwrap();
    assert_eq!(params.get("*"), Some(&"css/style.css".to_string()));

    let params = pattern.match_path("/static/").unwrap();
    assert_eq!(params.get("*"), Some(&"".to_string()));
}

#[test]
fn test_root_route() {
    let pattern = RoutePattern::parse("/");
    assert!(pattern.match_path("/").is_some());
    assert!(pattern.match_path("").is_some());
    assert!(pattern.match_path("/users").is_none());
}

#[test]
fn test_query_string_ignored() {
    let pattern = RoutePattern::parse("/users/:id");
    let params = pattern.match_path("/users/123?foo=bar").unwrap();
    assert_eq!(params.get("id"), Some(&"123".to_string()));
}

#[test]
fn test_nested_params() {
    let pattern = RoutePattern::parse("/api/v1/users/:userId/posts/:postId");
    let params = pattern.match_path("/api/v1/users/42/posts/99").unwrap();
    assert_eq!(params.get("userId"), Some(&"42".to_string()));
    assert_eq!(params.get("postId"), Some(&"99".to_string()));
}

#[test]
fn test_mixed_static_and_params() {
    let pattern = RoutePattern::parse("/users/:id/profile");
    assert!(pattern.match_path("/users/123/profile").is_some());
    assert!(pattern.match_path("/users/123/settings").is_none());
    assert!(pattern.match_path("/users/123").is_none());
}

#[test]
fn parse_splits_into_segments() {
    let p = RoutePattern::parse("//users/:id//*/x");
    assert_eq!(
        p.segments,
        vec![
            Segment::Static("users".to_string()),
            Segment::Param("id".to_string()),
            Segment::Wildcard,
            Segment::Static("x".to_string()),
        ]
    );
    assert_eq!(p.raw, "//users/:id//*/x");
}

#[test]
fn parse_keeps_the_pattern_string_as_raw() {
    let p = RoutePattern::parse("///");
    assert!(p.segments.is_empty());
    assert_eq!(p.raw, "///");
    assert_eq!(RoutePattern::parse("/users/:id").raw, "/users/:id");
    assert_eq!(RoutePattern::parse("/").raw, "/");
    let q = RoutePattern::parse("users");
    assert_eq!(q.raw, "users");
    assert_eq!(q.segments, vec![Segment::Static("users".to_string())]);
}

#[test]
fn later_param_with_same_name_wins() {
    let p = RoutePattern::parse("/a/:x/:x");
    let params = p.match_path("/a/1/2").unwrap();
    assert_eq!(params.get("x"), Some(&"2".to_string()));
    assert_eq!(params.len(), 1);
}

#[test]
fn wildcard_in_the_middle_takes_the_rest() {
    let p = RoutePattern::parse("/files/*/ignored");
    let params = p.match_path("/files/a/b/c").unwrap();
    assert_eq!(params.get("*"), Some(&"a/b/c".to_string()));
    let params = p.match_path("/files").unwrap();
    assert_eq!(params.get("*"), Some(&"".to_string()));
}

#[test]
fn leading_and_doubled_slashes_are_ignored_in_requests() {
    let p = RoutePattern::parse("/users/:id");
    let params = p.match_path("///users//7/").unwrap();
    assert_eq!(params.get("id"), Some(&"7".to_string()));
}

#[test]
fn query_string_does_not_reach_the_wildcard() {
    let p = RoutePattern::parse("/static/*");
    let params = p.match_path("/static/a.css?v=1").unwrap();
    assert_eq!(params.get("*"), Some(&"a.css".to_string()));
}

#[test]
fn static_pattern_matches_its_own_path() {
    for path in ["/users", "/api/v1/users", "/", "a/b/c"] {
        let p = RoutePattern::parse(path);
        let params = p.match_path(path).unwrap();
        assert!(params.is_empty());
    }
}

#[test]
fn trailing_slash_does_not_change_matching() {
    let p = RoutePattern::parse("/users/:id");
    assert_eq!(
        p.match_path("/users/5/").unwrap().get("id"),
        p.match_path("/users/5").unwrap().get("id")
    );
}

#[test]
fn unicode_segments_match() {
    let p = RoutePattern::parse("/caf\u{e9}/:name");
    let params = p.match_path("/caf\u{e9}/\u{1f600}").unwrap();
    assert_eq!(params.get("name"), Some(&"\u{1f600}".to_string()));
}

#[test]
fn written_pattern_parses_back_and_matches_filled_path() {
    let pattern = RoutePattern::parse("/shop/:shopId/items/:itemId");
    assert_eq!(
        pattern.segments,
        vec![
            Segment::Static("shop".to_string()),
            Segment::Param("shopId".to_string()),
            Segment::Static("items".to_string()),
            Segment::Param("itemId".to_string()),
        ]
    );
    let params = pattern.match_path("/shop/s1/items/i-42").unwrap();
    assert_eq!(params.len(), 2);
    assert_eq!(params.get("shopId"), Some(&"s1".to_string()));
    assert_eq!(params.get("itemId"), Some(&"i-42".to_string()));
}
