//! A caching reverse proxy core: request dispatch, a bounded negative cache,
//! wildcard pattern matching with optional HTTP method prefixes, and
//! pattern-based invalidation.

use vstd::prelude::*;
use vstd::string::StringExecFns;

pub mod cache;
pub mod config;
pub mod control;
pub mod path_matcher;
pub mod proxy;

verus! {

/// Information about an incoming request, used for cache key generation.
pub struct RequestInfo {
    /// HTTP method (e.g., "GET", "POST", "PUT", "DELETE")
    pub method: String,
    /// Request path (e.g., "/api/users")
    pub path: String,
    /// Query string without the leading '?' (e.g., "id=123&sort=asc")
    pub query: String,
    /// Request headers, as (name, value) pairs
    pub headers: Vec<(String, String)>,
}

/// The default cache key: `METHOD:PATH` when the query string is empty,
/// else `METHOD:PATH?QUERY`.
pub open spec fn spec_default_cache_key(
    method: Seq<char>,
    path: Seq<char>,
    query: Seq<char>,
) -> Seq<char> {
    if query.len() == 0 {
        method + seq![':'] + path
    } else {
        method + seq![':'] + path + seq!['?'] + query
    }
}

/// Build the default cache key for a request.
pub fn default_cache_key(info: &RequestInfo) -> (r: String)
    ensures
        r@ == spec_default_cache_key(info.method@, info.path@, info.query@),
{
    proof {
        reveal_strlit(":");
        reveal_strlit("?");
        assert(":"@ =~= seq![':']);
        assert("?"@ =~= seq!['?']);
    }
    let mut key = info.method.clone();
    key.append(":");
    key.append(info.path.as_str());
    if !info.query.as_str().is_empty() {
        key.append("?");
        key.append(info.query.as_str());
    }
    key
}

/// The cache key function is a function of the request alone: two
/// requests with the same method, path and query always produce the same
/// key.
pub proof fn lemma_default_cache_key_idempotent(a: &RequestInfo, b: &RequestInfo)
    requires
        a.method@ == b.method@,
        a.path@ == b.path@,
        a.query@ == b.query@,
    ensures
        spec_default_cache_key(a.method@, a.path@, a.query@) == spec_default_cache_key(
            b.method@,
            b.path@,
            b.query@,
        ),
{
}

/// Configuration for creating a proxy. The cache key function is not part
/// of this core configuration: callers that replace the default key pass
/// the computed key to the pipeline themselves.
#[derive(Clone)]
pub struct CreateProxyConfig {
    /// The backend URL to proxy requests to
    pub proxy_url: String,
    /// Paths to include in caching (empty means include all); supports
    /// wildcards and method prefixes: `"/api/*"`, `"POST /api/*"`
    pub include_paths: Vec<String>,
    /// Paths to exclude from caching; exclude overrides include
    pub exclude_paths: Vec<String>,
    /// Enable WebSocket and protocol upgrade tunneling (default: true)
    pub enable_websocket: bool,
    /// Only allow GET requests; others get 405 (default: false)
    pub forward_get_only: bool,
    /// Capacity of the 404 cache; 0 disables negative caching
    pub cache_404_capacity: usize,
    /// Treat a response containing the phantom-404 meta tag as a 404
    pub use_404_meta: bool,
}

impl CreateProxyConfig {
    /// A configuration with default settings for the given origin URL.
    pub fn new(proxy_url: String) -> (r: CreateProxyConfig)
        ensures
            r.proxy_url@ == proxy_url@,
            r.include_paths@.len() == 0,
            r.exclude_paths@.len() == 0,
            r.enable_websocket == true,
            r.forward_get_only == false,
            r.cache_404_capacity == 100,
            r.use_404_meta == false,
    {
        CreateProxyConfig {
            proxy_url,
            include_paths: Vec::new(),
            exclude_paths: Vec::new(),
            enable_websocket: true,
            forward_get_only: false,
            cache_404_capacity: 100,
            use_404_meta: false,
        }
    }

    /// Set include paths.
    pub fn with_include_paths(self, paths: Vec<String>) -> (r: CreateProxyConfig)
        ensures
            r == (CreateProxyConfig { include_paths: paths, ..self }),
    {
        CreateProxyConfig { include_paths: paths, ..self }
    }

    /// Set exclude paths.
    pub fn with_exclude_paths(self, paths: Vec<String>) -> (r: CreateProxyConfig)
        ensures
            r == (CreateProxyConfig { exclude_paths: paths, ..self }),
    {
        CreateProxyConfig { exclude_paths: paths, ..self }
    }

    /// Enable or disable WebSocket and protocol upgrade support.
    pub fn with_websocket_enabled(self, enabled: bool) -> (r: CreateProxyConfig)
        ensures
            r == (CreateProxyConfig { enable_websocket: enabled, ..self }),
    {
        CreateProxyConfig { enable_websocket: enabled, ..self }
    }

    /// Only allow GET requests, rejecting all others.
    pub fn with_forward_get_only(self, enabled: bool) -> (r: CreateProxyConfig)
        ensures
            r == (CreateProxyConfig { forward_get_only: enabled, ..self }),
    {
        CreateProxyConfig { forward_get_only: enabled, ..self }
    }

    /// Set the 404 cache capacity; 0 disables negative caching.
    pub fn with_cache_404_capacity(self, capacity: usize) -> (r: CreateProxyConfig)
        ensures
            r == (CreateProxyConfig { cache_404_capacity: capacity, ..self }),
    {
        CreateProxyConfig { cache_404_capacity: capacity, ..self }
    }

    /// Treat pages that include the phantom-404 meta tag as 404 pages.
    pub fn with_use_404_meta(self, enabled: bool) -> (r: CreateProxyConfig)
        ensures
            r == (CreateProxyConfig { use_404_meta: enabled, ..self }),
    {
        CreateProxyConfig { use_404_meta: enabled, ..self }
    }
}

} // verus!
