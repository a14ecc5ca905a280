use phantom_frame::cache::{CacheStore, CachedResponse};
use phantom_frame::proxy::{
    dispatch_request, is_negative_response, is_upgrade_request, lookup_cached, origin_host_port,
    record_response, select_upgrade_headers, str_eq_ci, strip_hop_headers, target_url,
    RouteDecision,
};

fn resp(status: u16, body: Vec<u8>) -> CachedResponse {
    CachedResponse { body, headers: Vec::new(), status }
}

#[test]
fn test_upgrade_detection() {
    assert!(is_upgrade_request(None, true));
    assert!(is_upgrade_request(Some("Upgrade"), false));
    assert!(is_upgrade_request(Some("keep-alive, UPGRADE"), false));
    assert!(is_upgrade_request(Some("upgrade"), false));
    assert!(!is_upgrade_request(Some("keep-alive"), false));
    assert!(!is_upgrade_request(None, false));
}

#[test]
fn test_dispatch_routes() {
    assert_eq!(dispatch_request(true, false, true, "GET"), RouteDecision::Tunnel);
    assert_eq!(dispatch_request(false, false, true, "GET"), RouteDecision::UpgradeDisabled);
    assert_eq!(dispatch_request(true, true, false, "POST"), RouteDecision::MethodNotAllowed);
    assert_eq!(dispatch_request(true, true, false, "GET"), RouteDecision::Forward);
    assert_eq!(dispatch_request(true, false, false, "POST"), RouteDecision::Forward);
    // The upgrade check comes before the method gate
    assert_eq!(dispatch_request(true, true, true, "POST"), RouteDecision::Tunnel);
}

#[test]
fn test_negative_classification() {
    assert!(is_negative_response(404, &Vec::new(), false));
    assert!(is_negative_response(404, &Vec::new(), true));
    let marked = b"<html><meta name=\"phantom-404\" content=\"true\"></html>".to_vec();
    assert!(is_negative_response(200, &marked, true));
    assert!(!is_negative_response(200, &marked, false));
    assert!(!is_negative_response(200, &b"<html>ok</html>".to_vec(), true));
}

#[test]
fn test_record_and_lookup() {
    let mut store = CacheStore::new(100);
    record_response(&mut store, true, "GET:/x".to_string(), resp(200, b"hello".to_vec()), false);
    assert_eq!(store.size(), 1);
    assert_eq!(store.size_404(), 0);
    let hit = lookup_cached(&store, true, "GET:/x").unwrap();
    assert_eq!(hit.body, b"hello".to_vec());
    assert_eq!(hit.status, 200);
    // Non-cacheable requests see nothing
    assert!(lookup_cached(&store, false, "GET:/x").is_none());
    // Misses fall through
    assert!(lookup_cached(&store, true, "GET:/y").is_none());
}

#[test]
fn test_record_negative_goes_to_404_map() {
    let mut store = CacheStore::new(100);
    record_response(&mut store, true, "GET:/gone".to_string(), resp(404, vec![1]), false);
    assert_eq!(store.size(), 0);
    assert_eq!(store.size_404(), 1);
    // The lookup serves negative entries after missing the positive map
    assert_eq!(lookup_cached(&store, true, "GET:/gone").unwrap().status, 404);
}

#[test]
fn test_record_negative_capacity_zero_falls_back_to_positive() {
    let mut store = CacheStore::new(0);
    record_response(&mut store, true, "GET:/gone".to_string(), resp(404, vec![1]), false);
    assert_eq!(store.size(), 1);
    assert_eq!(store.size_404(), 0);
    assert_eq!(lookup_cached(&store, true, "GET:/gone").unwrap().status, 404);
}

#[test]
fn test_record_meta_marked_page_as_negative() {
    let mut store = CacheStore::new(100);
    let body = b"<meta name=\"phantom-404\" content=\"true\">".to_vec();
    record_response(&mut store, true, "GET:/p".to_string(), resp(200, body), true);
    assert_eq!(store.size(), 0);
    assert_eq!(store.size_404(), 1);
}

#[test]
fn test_record_not_cacheable_writes_nothing() {
    let mut store = CacheStore::new(100);
    record_response(&mut store, false, "GET:/x".to_string(), resp(200, vec![1]), false);
    assert_eq!(store.size(), 0);
    assert_eq!(store.size_404(), 0);
}

#[test]
fn test_origin_host_port_forms() {
    assert_eq!(origin_host_port("http://localhost:8080"), Some(("localhost".to_string(), 8080)));
    assert_eq!(origin_host_port("https://example.com"), Some(("example.com".to_string(), 443)));
    assert_eq!(origin_host_port("http://example.com"), Some(("example.com".to_string(), 80)));
    assert_eq!(origin_host_port("http://example.com/base"), Some(("example.com".to_string(), 80)));
    assert_eq!(origin_host_port("https://h:8443/x/y"), Some(("h".to_string(), 8443)));
    assert_eq!(origin_host_port("ws://h"), Some(("h".to_string(), 80)));
    assert_eq!(origin_host_port("localhost:3000"), None);
    assert_eq!(origin_host_port("http://"), None);
    assert_eq!(origin_host_port("http://:8080"), None);
    assert_eq!(origin_host_port("http://h:"), None);
    assert_eq!(origin_host_port("http://h:99999"), None);
    assert_eq!(origin_host_port("http://h:12ab"), None);
    assert_eq!(origin_host_port("http://h:65535"), Some(("h".to_string(), 65535)));
}

#[test]
fn test_target_url_concatenates() {
    assert_eq!(target_url("http://o:80", "/x?q=1"), "http://o:80/x?q=1".to_string());
    assert_eq!(target_url("http://o:80", ""), "http://o:80".to_string());
}

#[test]
fn test_strip_hop_headers_policy() {
    let headers: Vec<(String, String)> = vec![
        ("Host".to_string(), "example.com".to_string()),
        ("Accept".to_string(), "text/html".to_string()),
        ("CONNECTION".to_string(), "keep-alive".to_string()),
        ("Keep-Alive".to_string(), "timeout=5".to_string()),
        ("Transfer-Encoding".to_string(), "chunked".to_string()),
        ("TE".to_string(), "trailers".to_string()),
        ("Trailer".to_string(), "Expires".to_string()),
        ("Proxy-Authorization".to_string(), "SECRET-REDACTED".to_string()),
        ("Proxy-Authenticate".to_string(), "Basic".to_string()),
        ("Upgrade".to_string(), "websocket".to_string()),
        ("X-Custom".to_string(), "1".to_string()),
    ];
    let kept = strip_hop_headers(&headers);
    assert_eq!(kept.len(), 2);
    assert_eq!(kept[0].0, "Accept");
    assert_eq!(kept[1].0, "X-Custom");
}

#[test]
fn test_select_upgrade_headers_for_handshake() {
    let headers: Vec<(String, String)> = vec![
        ("Date".to_string(), "now".to_string()),
        ("Upgrade".to_string(), "websocket".to_string()),
        ("Connection".to_string(), "Upgrade".to_string()),
        ("Sec-WebSocket-Accept".to_string(), "abc123=".to_string()),
        ("Server".to_string(), "origin".to_string()),
    ];
    let kept = select_upgrade_headers(&headers);
    assert_eq!(kept.len(), 3);
    assert_eq!(kept[0].0, "Upgrade");
    assert_eq!(kept[0].1, "websocket");
    assert_eq!(kept[1].0, "Connection");
    assert_eq!(kept[2].0, "Sec-WebSocket-Accept");
    assert_eq!(kept[2].1, "abc123=");
}

#[test]
fn test_str_eq_ci_cases() {
    assert!(str_eq_ci("Host", "host"));
    assert!(str_eq_ci("UPGRADE", "upgrade"));
    assert!(str_eq_ci("", ""));
    assert!(!str_eq_ci("host", "hosts"));
    assert!(!str_eq_ci("h-st", "h_st"));
}
