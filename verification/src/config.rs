//! The configuration surface: the server settings read from a
//! configuration file, with their defaults.

use vstd::prelude::*;

verus! {

/// The default port of the control endpoint.
pub fn default_control_port() -> (r: u16)
    ensures
        r == 17809,
{
    17809
}

/// The default port the proxy listens on.
pub fn default_proxy_port() -> (r: u16)
    ensures
        r == 3000,
{
    3000
}

/// The default origin base URL.
pub fn default_proxy_url() -> (r: String)
    ensures
        r@ == "http://localhost:8080"@,
{
    "http://localhost:8080".to_owned()
}

/// The server settings: listening ports, origin URL, caching patterns,
/// upgrade support, and the optional control bearer token.
pub struct ServerConfig {
    pub control_port: u16,
    pub proxy_port: u16,
    /// The URL of the backend to proxy to
    pub proxy_url: String,
    /// Paths to include in caching (empty means include all)
    pub include_paths: Vec<String>,
    /// Paths to exclude from caching; exclude overrides include
    pub exclude_paths: Vec<String>,
    /// Whether WebSocket and other protocol upgrades are tunneled
    pub enable_websocket: bool,
    /// Bearer token required by the control endpoint, if any
    pub control_auth: Option<String>,
}

impl Default for ServerConfig {
    /// The settings a configuration file's missing fields fall back to.
    fn default() -> (r: ServerConfig)
        ensures
            r.control_port == 17809,
            r.proxy_port == 3000,
            r.proxy_url@ == "http://localhost:8080"@,
            r.include_paths@.len() == 0,
            r.exclude_paths@.len() == 0,
            r.enable_websocket == true,
            r.control_auth is None,
    {
        ServerConfig {
            control_port: default_control_port(),
            proxy_port: default_proxy_port(),
            proxy_url: default_proxy_url(),
            include_paths: Vec::new(),
            exclude_paths: Vec::new(),
            enable_websocket: true,
            control_auth: None,
        }
    }
}

/// The whole configuration document.
pub struct Config {
    pub server: ServerConfig,
}

} // verus!
