use phantom_frame::config::{
    default_control_port, default_proxy_port, default_proxy_url, ServerConfig,
};
use phantom_frame::control::{control_authorized, control_response_status};
use phantom_frame::{default_cache_key, CreateProxyConfig, RequestInfo};

#[test]
fn test_server_config_defaults() {
    assert_eq!(default_control_port(), 17809);
    assert_eq!(default_proxy_port(), 3000);
    assert_eq!(default_proxy_url(), "http://localhost:8080".to_string());
    let c = ServerConfig::default();
    assert_eq!(c.control_port, 17809);
    assert_eq!(c.proxy_port, 3000);
    assert_eq!(c.proxy_url, "http://localhost:8080".to_string());
    assert!(c.include_paths.is_empty());
    assert!(c.exclude_paths.is_empty());
    assert!(c.enable_websocket);
    assert!(c.control_auth.is_none());
}

#[test]
fn test_create_proxy_config_builders() {
    let c = CreateProxyConfig::new("http://localhost:8080".to_string())
        .with_include_paths(vec!["/api/*".to_string()])
        .with_exclude_paths(vec!["POST *".to_string()])
        .with_websocket_enabled(false)
        .with_forward_get_only(true)
        .with_cache_404_capacity(7)
        .with_use_404_meta(true);
    assert_eq!(c.proxy_url, "http://localhost:8080".to_string());
    assert_eq!(c.include_paths, vec!["/api/*".to_string()]);
    assert_eq!(c.exclude_paths, vec!["POST *".to_string()]);
    assert!(!c.enable_websocket);
    assert!(c.forward_get_only);
    assert_eq!(c.cache_404_capacity, 7);
    assert!(c.use_404_meta);

    let d = CreateProxyConfig::new("http://o".to_string());
    assert!(d.enable_websocket);
    assert!(!d.forward_get_only);
    assert_eq!(d.cache_404_capacity, 100);
    assert!(!d.use_404_meta);
    assert!(d.include_paths.is_empty());
    assert!(d.exclude_paths.is_empty());
}

#[test]
fn test_control_authorization() {
    // No token configured: everything is authorized
    assert!(control_authorized(None, None));
    assert!(control_authorized(None, Some(&"anything".to_string())));

    let tok = "SECRET-REDACTED".to_string();
    let good = format!("Bearer {}", tok);
    assert!(control_authorized(Some(&tok), Some(&good)));
    assert!(!control_authorized(Some(&tok), None));
    assert!(!control_authorized(Some(&tok), Some(&tok)));
    assert!(!control_authorized(Some(&tok), Some(&"Bearer wrong".to_string())));
    assert!(!control_authorized(Some(&tok), Some(&format!("bearer {}", tok))));
}

#[test]
fn test_control_status_codes() {
    let tok = "t".to_string();
    assert_eq!(control_response_status(None, None), 200);
    assert_eq!(control_response_status(Some(&tok), Some(&"Bearer t".to_string())), 200);
    assert_eq!(control_response_status(Some(&tok), Some(&"Bearer x".to_string())), 401);
    assert_eq!(control_response_status(Some(&tok), None), 401);
}

fn info(method: &str, path: &str, query: &str) -> RequestInfo {
    RequestInfo {
        method: method.to_string(),
        path: path.to_string(),
        query: query.to_string(),
        headers: Vec::new(),
    }
}

#[test]
fn test_default_cache_key_forms() {
    assert_eq!(default_cache_key(&info("GET", "/x", "")), "GET:/x".to_string());
    assert_eq!(
        default_cache_key(&info("POST", "/api/users", "id=123&sort=asc")),
        "POST:/api/users?id=123&sort=asc".to_string()
    );
}

#[test]
fn test_default_cache_key_idempotent() {
    let a = default_cache_key(&info("GET", "/p", "q=1"));
    let b = default_cache_key(&info("GET", "/p", "q=1"));
    assert_eq!(a, b);
}
