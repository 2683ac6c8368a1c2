//! The server's shared state, its configuration file, and the settings the
//! server starts with.

use vstd::prelude::*;

use std::sync::atomic::{AtomicU64, AtomicUsize, Ordering};
use std::sync::Arc;

verus! {

/// What every request handler shares: the storage root, the expected
/// `Authorization` value (`None`: no authentication), the number of requests
/// in progress, and the counter that names upload temporary files.
#[derive(Clone)]
pub struct AppState {
    pub storage_dir: Arc<String>,
    pub auth_token: Arc<Option<String>>,
    pub in_flight: Arc<AtomicUsize>,
    pub upload_counter: Arc<AtomicU64>,
}

/// The server configuration file (`sobj-server.json`); every entry is optional.
#[derive(Debug)]
pub struct ServerConfig {
    pub listen_addr: Option<String>,
    pub storage_dir: Option<String>,
    pub auth_token: Option<String>,
    pub tls_enabled: Option<bool>,
    pub tls: Option<TlsConfig>,
}

/// The certificate and key files for HTTPS.
#[derive(Debug)]
pub struct TlsConfig {
    pub cert_pem: String,
    pub key_pem: String,
}

/// The answer of the health endpoint.
#[derive(Debug)]
pub struct HealthzResponse {
    pub app: &'static str,
    pub version: &'static str,
    pub status: &'static str,
    pub in_flight: usize,
}

/// Draws the next upload number from the shared counter. Concurrent uploads
/// draw distinct numbers; which one a request gets depends on the others.
pub(crate) fn next_upload_id(state: &AppState) -> u64 {
    state.upload_counter.fetch_add(1, Ordering::Relaxed)
}

} // verus!
