use phantom_frame::path_matcher::{
    matches_path_pattern, matches_pattern, matches_pattern_with_method, parse_pattern,
    should_cache_path,
};

#[test]
fn test_exact_match() {
    assert!(matches_pattern("/api/users", "/api/users"));
    assert!(!matches_pattern("/api/users", "/api/posts"));
}

#[test]
fn test_wildcard_at_end() {
    assert!(matches_pattern("/api/users", "/api/*"));
    assert!(matches_pattern("/api/users/123", "/api/*"));
    assert!(!matches_pattern("/apiv2/users", "/api/*"));
}

#[test]
fn test_wildcard_at_start() {
    assert!(matches_pattern("/api/users", "*/users"));
    assert!(matches_pattern("/v1/api/users", "*/users"));
    assert!(!matches_pattern("/api/posts", "*/users"));
}

#[test]
fn test_wildcard_in_middle() {
    assert!(matches_pattern("/api/v1/users", "/api/*/users"));
    assert!(matches_pattern("/api/v2/users", "/api/*/users"));
    assert!(!matches_pattern("/api/v1/posts", "/api/*/users"));
}

#[test]
fn test_multiple_wildcards() {
    assert!(matches_pattern("/api/v1/users/123", "/api/*/users/*"));
    assert!(matches_pattern("/api/v2/users/456", "/api/*/users/*"));
    assert!(!matches_pattern("/api/v1/posts/123", "/api/*/users/*"));
}

#[test]
fn test_wildcard_only() {
    assert!(matches_pattern("/anything", "*"));
    assert!(matches_pattern("/api/users/123", "*"));
}

#[test]
fn test_should_cache_path_empty_filters() {
    // Empty includes and excludes should cache everything
    assert!(should_cache_path("GET", "/api/users", &[], &[]));
    assert!(should_cache_path("POST", "/anything", &[], &[]));
}

#[test]
fn test_should_cache_path_include_only() {
    let includes = vec!["/api/*".to_string(), "/public/*".to_string()];
    let excludes = vec![];

    assert!(should_cache_path("GET", "/api/users", &includes, &excludes));
    assert!(should_cache_path("GET", "/public/index.html", &includes, &excludes));
    assert!(!should_cache_path("GET", "/private/data", &includes, &excludes));
}

#[test]
fn test_should_cache_path_exclude_only() {
    let includes = vec![];
    let excludes = vec!["/admin/*".to_string(), "/private/*".to_string()];

    assert!(should_cache_path("GET", "/api/users", &includes, &excludes));
    assert!(!should_cache_path("GET", "/admin/dashboard", &includes, &excludes));
    assert!(!should_cache_path("GET", "/private/data", &includes, &excludes));
}

#[test]
fn test_should_cache_path_exclude_overrides_include() {
    let includes = vec!["/api/*".to_string()];
    let excludes = vec!["/api/admin/*".to_string()];

    assert!(should_cache_path("GET", "/api/users", &includes, &excludes));
    assert!(!should_cache_path("GET", "/api/admin/users", &includes, &excludes));
}

#[test]
fn test_method_pattern_matching() {
    // Test exact method match
    assert!(matches_pattern_with_method(Some("POST"), "/api/users", "POST /api/users"));
    assert!(!matches_pattern_with_method(Some("GET"), "/api/users", "POST /api/users"));

    // Test method with wildcard
    assert!(matches_pattern_with_method(Some("POST"), "/api/users", "POST /api/*"));
    assert!(matches_pattern_with_method(Some("POST"), "/api/posts", "POST /api/*"));
    assert!(!matches_pattern_with_method(Some("POST"), "/not-api/posts", "POST /api/*"));
    assert!(!matches_pattern_with_method(Some("GET"), "/api/users", "POST /api/*"));

    // Test wildcard method matching (pattern without method should match any)
    assert!(matches_pattern_with_method(Some("GET"), "/api/users", "/api/*"));
    assert!(matches_pattern_with_method(Some("POST"), "/api/users", "/api/*"));

    // Test "POST *" pattern
    assert!(matches_pattern_with_method(Some("POST"), "/anything", "POST *"));
    assert!(matches_pattern_with_method(Some("POST"), "/api/users/123", "POST *"));
    assert!(!matches_pattern_with_method(Some("GET"), "/anything", "POST *"));
}

#[test]
fn test_should_cache_with_method_filters() {
    let includes = vec!["/api/*".to_string()];
    let excludes = vec!["POST /api/*".to_string(), "PUT /api/*".to_string()];

    // GET should be cached
    assert!(should_cache_path("GET", "/api/users", &includes, &excludes));
    // POST should not be cached (excluded)
    assert!(!should_cache_path("POST", "/api/users", &includes, &excludes));
    // PUT should not be cached (excluded)
    assert!(!should_cache_path("PUT", "/api/users", &includes, &excludes));
    // DELETE should be cached (not excluded)
    assert!(should_cache_path("DELETE", "/api/users", &includes, &excludes));
}

#[test]
fn test_exclude_all_posts() {
    let includes = vec![];
    let excludes = vec!["POST *".to_string()];

    // All POST requests should be excluded
    assert!(!should_cache_path("POST", "/api/users", &includes, &excludes));
    assert!(!should_cache_path("POST", "/anything", &includes, &excludes));

    // Other methods should be cached
    assert!(should_cache_path("GET", "/api/users", &includes, &excludes));
    assert!(should_cache_path("PUT", "/api/users", &includes, &excludes));
}

#[test]
fn test_include_only_get_requests() {
    let includes = vec!["GET *".to_string()];
    let excludes = vec![];

    // Only GET requests should be included
    assert!(should_cache_path("GET", "/api/users", &includes, &excludes));
    assert!(should_cache_path("GET", "/anything", &includes, &excludes));

    // Other methods should not be cached
    assert!(!should_cache_path("POST", "/api/users", &includes, &excludes));
    assert!(!should_cache_path("PUT", "/api/users", &includes, &excludes));
}

#[test]
fn test_parse_pattern_forms() {
    assert_eq!(parse_pattern("POST /api/*"), (Some("POST"), "/api/*"));
    assert_eq!(parse_pattern("/api/*"), (None, "/api/*"));
    assert_eq!(parse_pattern("GET *"), (Some("GET"), "*"));
    assert_eq!(parse_pattern("  DELETE \t /x"), (Some("DELETE"), "/x"));
    // A method token without following whitespace is part of the path glob
    assert_eq!(parse_pattern("GETX"), (None, "GETX"));
    assert_eq!(parse_pattern("TRACE /t"), (Some("TRACE"), "/t"));
    assert_eq!(parse_pattern("OPTIONS /o"), (Some("OPTIONS"), "/o"));
    assert_eq!(parse_pattern("CONNECT /c"), (Some("CONNECT"), "/c"));
    assert_eq!(parse_pattern("PATCH /p"), (Some("PATCH"), "/p"));
    assert_eq!(parse_pattern("HEAD /h"), (Some("HEAD"), "/h"));
    assert_eq!(parse_pattern("PUT /u"), (Some("PUT"), "/u"));
}

#[test]
fn test_glob_suffix_backtracking() {
    // The wildcard may consume an occurrence of the final segment that is
    // not at the end of the path.
    assert!(matches_path_pattern("abxb", "a*b"));
    assert!(matches_path_pattern("ab", "a*b"));
    assert!(!matches_path_pattern("a", "a*a"));
    assert!(!matches_path_pattern("aba", "ab*ba"));
    assert!(matches_path_pattern("abba", "ab*ba"));
    assert!(matches_path_pattern("", "*"));
    assert!(matches_path_pattern("", ""));
    assert!(!matches_path_pattern("x", ""));
    assert!(matches_path_pattern("abc", "a**c"));
}

#[test]
fn test_method_requires_method_argument() {
    // A method-bearing pattern never matches when no method is supplied.
    assert!(!matches_pattern("/api/users", "POST /api/*"));
    assert!(!matches_pattern("/api/users", "GET /api/users"));
}
