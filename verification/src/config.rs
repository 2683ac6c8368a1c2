//! Start-up of the server: the command-line arguments it reads, and the
//! settings it derives from its configuration file.
//!
//! Relative paths in the configuration are resolved against the directory of
//! the configuration file.

use vstd::prelude::*;

use crate::key::{join_path, join_paths};
use crate::state::{ServerConfig, TlsConfig};
use crate::text::{str_eq, trim_whitespace, trimmed};

verus! {

/// The value of the last `--config <path>` pair in `args`, scanning from
/// position `i` with `found` so far. A `--config` consumes the argument after
/// it; a trailing `--config` is ignored.
pub open spec fn config_arg_from(args: Seq<String>, i: int, found: Option<Seq<char>>) -> Option<
    Seq<char>,
>
    decreases args.len() - i,
{
    if i < 0 || i >= args.len() {
        found
    } else if args[i]@ == "--config"@ {
        if i + 1 < args.len() {
            config_arg_from(args, i + 2, Some(args[i + 1]@))
        } else {
            found
        }
    } else {
        config_arg_from(args, i + 1, found)
    }
}

/// The configuration file named on the command line (arguments after the
/// program name), if any.
pub fn config_path_arg(args: &Vec<String>) -> (r: Option<String>)
    ensures
        match r {
            Some(p) => config_arg_from(args@, 0, None) == Some(p@),
            None => config_arg_from(args@, 0, None) is None,
        },
{
    let n = args.len();
    let mut i: usize = 0;
    let mut found: Option<String> = None;
    while i < n
        invariant
            n == args@.len(),
            i <= n + 1,
            config_arg_from(args@, 0, None) == config_arg_from(
                args@,
                i as int,
                match found {
                    Some(p) => Some(p@),
                    None => None,
                },
            ),
        decreases n + 1 - i,
    {
        if str_eq(args[i].as_str(), "--config") {
            if i + 1 < n {
                found = Some(args[i + 1].clone());
                i = i + 2;
            } else {
                i = n;
            }
        } else {
            i = i + 1;
        }
    }
    found
}

/// Whether `lit` is one of the arguments.
pub open spec fn has_arg(args: Seq<String>, lit: Seq<char>) -> bool {
    exists|i: int| 0 <= i < args.len() && (#[trigger] args[i])@ == lit
}

fn find_arg(args: &Vec<String>, lit: &str) -> (r: bool)
    ensures
        r == has_arg(args@, lit@),
{
    let n = args.len();
    let mut i: usize = 0;
    while i < n
        invariant
            n == args@.len(),
            i <= n,
            forall|j: int| 0 <= j < i ==> (#[trigger] args@[j])@ != lit@,
        decreases n - i,
    {
        if str_eq(args[i].as_str(), lit) {
            return true;
        }
        i = i + 1;
    }
    false
}

/// How the command line sets HTTPS.
#[derive(Debug)]
pub enum TlsChoice {
    /// Neither `--tls` nor `--no-tls`: the configuration decides.
    Unset,
    /// `--tls`.
    Enabled,
    /// `--no-tls`.
    Disabled,
}

/// Why the server cannot start.
#[derive(Debug)]
pub enum StartupError {
    /// Both `--tls` and `--no-tls` are given.
    ConflictingTlsFlags,
    /// HTTPS is enabled but the configuration has no `tls` section.
    MissingTlsSection,
}

/// Reads `--tls` and `--no-tls` from the arguments after the program name.
pub fn tls_choice(args: &Vec<String>) -> (r: Result<TlsChoice, StartupError>)
    ensures
        ({
            let on = has_arg(args@, "--tls"@);
            let off = has_arg(args@, "--no-tls"@);
            &&& (on && off) <==> (r matches Err(StartupError::ConflictingTlsFlags))
            &&& (on && !off) <==> (r matches Ok(TlsChoice::Enabled))
            &&& (!on && off) <==> (r matches Ok(TlsChoice::Disabled))
            &&& (!on && !off) <==> (r matches Ok(TlsChoice::Unset))
        }),
{
    let on = find_arg(args, "--tls");
    let off = find_arg(args, "--no-tls");
    if on && off {
        Err(StartupError::ConflictingTlsFlags)
    } else if on {
        Ok(TlsChoice::Enabled)
    } else if off {
        Ok(TlsChoice::Disabled)
    } else {
        Ok(TlsChoice::Unset)
    }
}

/// The settings the server runs with.
#[derive(Debug)]
pub struct ServerSettings {
    pub listen_addr: String,
    pub storage_dir: String,
    pub auth_token: Option<String>,
    /// The certificate and key files when HTTPS is enabled.
    pub tls: Option<TlsConfig>,
}

/// The configured token with surrounding whitespace removed; an empty token
/// disables authentication.
pub fn effective_auth_token(token: Option<String>) -> (r: Option<String>)
    ensures
        match token {
            None => r is None,
            Some(t) => if trimmed(t@).len() == 0 {
                r is None
            } else {
                r matches Some(x) && x@ == trimmed(t@)
            },
        },
{
    match token {
        None => None,
        Some(t) => {
            let trimmed_token = trim_whitespace(t.as_str());
            if trimmed_token.as_str().is_empty() {
                None
            } else {
                Some(trimmed_token)
            }
        },
    }
}

/// Whether HTTPS is on: the command line decides, then the configuration,
/// and it is off by default.
pub open spec fn tls_enabled(choice: TlsChoice, configured: Option<bool>) -> bool {
    match choice {
        TlsChoice::Enabled => true,
        TlsChoice::Disabled => false,
        TlsChoice::Unset => configured matches Some(b) && b,
    }
}

/// The command line decides HTTPS first: `--tls` turns it on and `--no-tls`
/// off whatever the configuration says; without either, it is on exactly
/// when the configuration sets `tls_enabled` to `true`.
pub proof fn lemma_command_line_decides_tls(configured: Option<bool>)
    ensures
        tls_enabled(TlsChoice::Enabled, configured),
        !tls_enabled(TlsChoice::Disabled, configured),
        tls_enabled(TlsChoice::Unset, configured) <==> configured == Some(true),
{
}

/// Derives the server's settings from its configuration, the command line's
/// HTTPS choice, and the directory of the configuration file: the listen
/// address (default `0.0.0.0:9999`), the storage root (default `./data`), the
/// token, and, when HTTPS is on, the certificate and key files, all relative
/// paths resolved against `config_dir`.
pub fn server_settings(cfg: ServerConfig, choice: TlsChoice, config_dir: &str) -> (r: Result<
    ServerSettings,
    StartupError,
>)
    ensures
        r is Err <==> tls_enabled(choice, cfg.tls_enabled) && cfg.tls is None,
        r matches Err(e) ==> e is MissingTlsSection,
        r matches Ok(s) ==> {
            &&& s.listen_addr@ == (match cfg.listen_addr {
                Some(a) => a@,
                None => "0.0.0.0:9999"@,
            })
            &&& s.storage_dir@ == join_path(
                config_dir@,
                match cfg.storage_dir {
                    Some(d) => d@,
                    None => "./data"@,
                },
            )
            &&& match cfg.auth_token {
                None => s.auth_token is None,
                Some(t) => if trimmed(t@).len() == 0 {
                    s.auth_token is None
                } else {
                    s.auth_token matches Some(x) && x@ == trimmed(t@)
                },
            }
            &&& (s.tls is Some <==> tls_enabled(choice, cfg.tls_enabled))
            &&& s.tls matches Some(t) ==> cfg.tls matches Some(c) && t.cert_pem@ == join_path(
                config_dir@,
                c.cert_pem@,
            ) && t.key_pem@ == join_path(config_dir@, c.key_pem@)
        },
{
    let enabled = match choice {
        TlsChoice::Enabled => true,
        TlsChoice::Disabled => false,
        TlsChoice::Unset => match cfg.tls_enabled {
            Some(b) => b,
            None => false,
        },
    };
    let tls = if enabled {
        match &cfg.tls {
            Some(c) => Some(
                TlsConfig {
                    cert_pem: join_paths(config_dir, c.cert_pem.as_str()),
                    key_pem: join_paths(config_dir, c.key_pem.as_str()),
                },
            ),
            None => {
                return Err(StartupError::MissingTlsSection);
            },
        }
    } else {
        None
    };
    let listen_addr = match cfg.listen_addr {
        Some(a) => a,
        None => String::from_str("0.0.0.0:9999"),
    };
    let storage_dir = match &cfg.storage_dir {
        Some(d) => join_paths(config_dir, d.as_str()),
        None => join_paths(config_dir, "./data"),
    };
    let auth_token = effective_auth_token(cfg.auth_token);
    Ok(ServerSettings { listen_addr, storage_dir, auth_token, tls })
}

} // verus!
