use sobj::config::{config_path_arg, effective_auth_token, server_settings, tls_choice, StartupError, TlsChoice};
use sobj::state::{ServerConfig, TlsConfig};

fn args(a: &[&str]) -> Vec<String> {
    a.iter().map(|s| s.to_string()).collect()
}

fn empty_config() -> ServerConfig {
    ServerConfig { listen_addr: None, storage_dir: None, auth_token: None, tls_enabled: None, tls: None }
}

#[test]
fn config_argument() {
    assert_eq!(config_path_arg(&args(&["--config", "/etc/s.json"])).as_deref(), Some("/etc/s.json"));
    assert_eq!(config_path_arg(&args(&["--tls", "--config", "a", "--config", "b"])).as_deref(), Some("b"));
    assert_eq!(config_path_arg(&args(&["--config"])), None);
    assert_eq!(config_path_arg(&args(&[])), None);
    assert_eq!(config_path_arg(&args(&["--config", "--config", "x"])).as_deref(), Some("--config"));
}

#[test]
fn tls_flags() {
    assert!(matches!(tls_choice(&args(&[])), Ok(TlsChoice::Unset)));
    assert!(matches!(tls_choice(&args(&["--tls"])), Ok(TlsChoice::Enabled)));
    assert!(matches!(tls_choice(&args(&["--no-tls"])), Ok(TlsChoice::Disabled)));
    assert!(matches!(tls_choice(&args(&["--no-tls", "--tls"])), Err(StartupError::ConflictingTlsFlags)));
}

#[test]
fn token_is_trimmed_and_empty_disables() {
    assert_eq!(effective_auth_token(Some("  Bearer x \n".to_string())).as_deref(), Some("Bearer x"));
    assert_eq!(effective_auth_token(Some("   ".to_string())), None);
    assert_eq!(effective_auth_token(None), None);
}

#[test]
fn default_settings() {
    let s = server_settings(empty_config(), TlsChoice::Unset, "/opt/sobj").unwrap();
    assert_eq!(s.listen_addr, "0.0.0.0:9999");
    assert_eq!(s.storage_dir, "/opt/sobj/./data");
    assert!(s.auth_token.is_none());
    assert!(s.tls.is_none());
}

#[test]
fn settings_resolve_relative_paths() {
    let mut cfg = empty_config();
    cfg.storage_dir = Some("/var/lib/sobj".to_string());
    cfg.tls_enabled = Some(true);
    cfg.tls = Some(TlsConfig { cert_pem: "./tls/c.pem".to_string(), key_pem: "/k.pem".to_string() });
    let s = server_settings(cfg, TlsChoice::Unset, "/opt/sobj").unwrap();
    assert_eq!(s.storage_dir, "/var/lib/sobj");
    let tls = s.tls.unwrap();
    assert_eq!(tls.cert_pem, "/opt/sobj/./tls/c.pem");
    assert_eq!(tls.key_pem, "/k.pem");
}

#[test]
fn command_line_decides_tls() {
    let mut cfg = empty_config();
    cfg.tls_enabled = Some(true);
    assert!(server_settings(cfg, TlsChoice::Disabled, "").unwrap().tls.is_none());
    assert!(matches!(
        server_settings(empty_config(), TlsChoice::Enabled, ""),
        Err(StartupError::MissingTlsSection)
    ));
}
