use phantom_frame::cache::{
    apply_refresh_message, matches_pattern, CacheStore, CachedResponse, RefreshMessage,
};

fn resp(status: u16, body: Vec<u8>) -> CachedResponse {
    CachedResponse { body, headers: Vec::new(), status }
}

#[test]
fn test_matches_pattern_exact() {
    assert!(matches_pattern("GET:/api/users", "GET:/api/users"));
    assert!(!matches_pattern("GET:/api/users", "GET:/api/posts"));
}

#[test]
fn test_matches_pattern_wildcard() {
    // Wildcard at end
    assert!(matches_pattern("GET:/api/users", "GET:/api/*"));
    assert!(matches_pattern("GET:/api/users/123", "GET:/api/*"));
    assert!(!matches_pattern("GET:/v2/users", "GET:/api/*"));

    // Wildcard at start
    assert!(matches_pattern("GET:/api/users", "*/users"));
    assert!(matches_pattern("POST:/v2/users", "*/users"));
    assert!(!matches_pattern("GET:/api/posts", "*/users"));

    // Wildcard in middle
    assert!(matches_pattern("GET:/api/v1/users", "GET:/api/*/users"));
    assert!(matches_pattern("GET:/api/v2/users", "GET:/api/*/users"));
    assert!(!matches_pattern("GET:/api/v1/posts", "GET:/api/*/users"));

    // Multiple wildcards
    assert!(matches_pattern("GET:/api/v1/users/123", "GET:*/users/*"));
    assert!(matches_pattern("POST:/v2/admin/users/456", "*/users/*"));
}

#[test]
fn test_matches_pattern_wildcard_only() {
    assert!(matches_pattern("GET:/api/users", "*"));
    assert!(matches_pattern("POST:/anything", "*"));
}

#[test]
fn test_404_cache_set_get_and_eviction() {
    // capacity 2 for quicker eviction
    let mut store = CacheStore::new(2);

    let resp1 = resp(404, vec![1]);
    let resp2 = resp(404, vec![2]);
    let resp3 = resp(404, vec![3]);

    // Set two 404 entries
    store.set_404("GET:/notfound1".to_string(), resp1.clone());
    store.set_404("GET:/notfound2".to_string(), resp2.clone());

    assert_eq!(store.size_404(), 2);
    assert_eq!(store.get_404("GET:/notfound1").unwrap().body, vec![1]);

    // Add third entry - should evict oldest (notfound1)
    store.set_404("GET:/notfound3".to_string(), resp3.clone());
    assert_eq!(store.size_404(), 2);
    assert!(store.get_404("GET:/notfound1").is_none());
    assert_eq!(store.get_404("GET:/notfound2").unwrap().body, vec![2]);
    assert_eq!(store.get_404("GET:/notfound3").unwrap().body, vec![3]);
}

#[test]
fn test_clear_by_pattern_removes_404_entries() {
    let mut store = CacheStore::new(10);

    let r = resp(404, vec![1]);
    store.set_404("GET:/api/notfound".to_string(), r.clone());
    store.set_404("GET:/api/another".to_string(), r.clone());
    assert_eq!(store.size_404(), 2);

    store.clear_by_pattern("GET:/api/*");
    assert_eq!(store.size_404(), 0);
}

#[test]
fn test_set_and_get_roundtrip() {
    let mut store = CacheStore::new(100);
    let mut headers: Vec<(String, String)> = Vec::new();
    headers.push(("content-type".to_string(), "text/plain".to_string()));
    let r = CachedResponse { body: b"hello".to_vec(), headers, status: 200 };
    store.set("GET:/x".to_string(), r);
    let got = store.get("GET:/x").unwrap();
    assert_eq!(got.body, b"hello".to_vec());
    assert_eq!(got.status, 200);
    assert_eq!(got.headers.len(), 1);
    assert_eq!(got.headers[0].0, "content-type");
    assert_eq!(got.headers[0].1, "text/plain");
    assert!(store.get("GET:/y").is_none());
    assert_eq!(store.size(), 1);
}

#[test]
fn test_set_replaces_existing_key() {
    let mut store = CacheStore::new(100);
    store.set("GET:/x".to_string(), resp(200, vec![1]));
    store.set("GET:/x".to_string(), resp(200, vec![2]));
    assert_eq!(store.size(), 1);
    assert_eq!(store.get("GET:/x").unwrap().body, vec![2]);
}

#[test]
fn test_set_404_moves_existing_key_to_back() {
    let mut store = CacheStore::new(2);
    store.set_404("GET:/a".to_string(), resp(404, vec![1]));
    store.set_404("GET:/b".to_string(), resp(404, vec![2]));
    // Re-inserting /a moves it to the most-recent end of the FIFO,
    // so the next eviction removes /b.
    store.set_404("GET:/a".to_string(), resp(404, vec![3]));
    store.set_404("GET:/c".to_string(), resp(404, vec![4]));
    assert_eq!(store.size_404(), 2);
    assert!(store.get_404("GET:/b").is_none());
    assert_eq!(store.get_404("GET:/a").unwrap().body, vec![3]);
    assert_eq!(store.get_404("GET:/c").unwrap().body, vec![4]);
}

#[test]
fn test_404_cache_capacity_zero_disables() {
    let mut store = CacheStore::new(0);
    store.set_404("GET:/a".to_string(), resp(404, vec![1]));
    assert_eq!(store.size_404(), 0);
    assert!(store.get_404("GET:/a").is_none());
}

#[test]
fn test_clear_empties_both_maps() {
    let mut store = CacheStore::new(10);
    store.set("GET:/a".to_string(), resp(200, vec![1]));
    store.set_404("GET:/b".to_string(), resp(404, vec![2]));
    store.clear();
    assert_eq!(store.size(), 0);
    assert_eq!(store.size_404(), 0);
}

#[test]
fn test_clear_by_pattern_spares_non_matching() {
    let mut store = CacheStore::new(10);
    store.set("GET:/api/a".to_string(), resp(200, vec![1]));
    store.set("GET:/api/b".to_string(), resp(200, vec![2]));
    store.set("GET:/other".to_string(), resp(200, vec![3]));
    store.clear_by_pattern("GET:/api/*");
    assert!(store.get("GET:/api/a").is_none());
    assert!(store.get("GET:/api/b").is_none());
    assert_eq!(store.get("GET:/other").unwrap().body, vec![3]);
    assert_eq!(store.size(), 1);
}

#[test]
fn test_apply_refresh_messages_in_order() {
    let mut store = CacheStore::new(10);
    store.set("GET:/api/a".to_string(), resp(200, vec![1]));
    store.set("GET:/other".to_string(), resp(200, vec![2]));
    apply_refresh_message(&mut store, &RefreshMessage::Pattern("GET:/api/*".to_string()));
    assert!(store.get("GET:/api/a").is_none());
    assert_eq!(store.get("GET:/other").unwrap().body, vec![2]);
    apply_refresh_message(&mut store, &RefreshMessage::All);
    assert_eq!(store.size(), 0);
    assert_eq!(store.size_404(), 0);
}
