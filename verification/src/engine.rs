//! Start-up decisions of the search daemon and of its clients: effective
//! settings from flags and the config file, the lockfile guard, and the
//! health of a running daemon.

use vstd::prelude::*;
use crate::config::FffConfig;

verus! {

/// Settings the daemon runs with, after flags and the config file are merged.
pub struct EffectiveArgs {
    pub base_path: String,
    pub frecency_db_path: Option<String>,
    pub no_watch: bool,
    pub no_warmup: bool,
}

/// The characters of an optional string.
pub open spec fn opt_chars(s: Option<String>) -> Option<Seq<char>> {
    match s {
        Some(x) => Some(x@),
        None => None,
    }
}

fn clone_opt(s: &Option<String>) -> (r: Option<String>)
    ensures
        opt_chars(r) == opt_chars(*s),
{
    match s {
        Some(x) => Some(x.clone()),
        None => None,
    }
}

impl EffectiveArgs {
    /// Merge command-line settings with the config file: a flag given on
    /// either side switches the watcher or warmup off; the frecency database
    /// comes from the flag, else from the config file.
    pub fn merge(base_path: String, frecency_db_path: Option<String>, no_watch: bool, no_warmup: bool, config: &FffConfig) -> (r: Self)
        ensures
            r.base_path@ == base_path@,
            opt_chars(r.frecency_db_path) == match opt_chars(frecency_db_path) {
                Some(p) => Some(p),
                None => opt_chars(config.frecency.db),
            },
            r.no_watch == (no_watch || config.index.no_watch),
            r.no_warmup == (no_warmup || config.index.no_warmup),
    {
        let db = match frecency_db_path {
            Some(p) => Some(p),
            None => clone_opt(&config.frecency.db),
        };
        EffectiveArgs {
            base_path,
            frecency_db_path: db,
            no_watch: no_watch || config.index.no_watch,
            no_warmup: no_warmup || config.index.no_warmup,
        }
    }
}

/// The log file: the flag, else the config file, else the default.
pub fn choose_log_path(flag: Option<&str>, config: &FffConfig, default: &str) -> (r: String)
    ensures
        r@ == match flag {
            Some(f) => f@,
            None => match config.log.file {
                Some(c) => c@,
                None => default@,
            },
        },
{
    match flag {
        Some(f) => String::from_str(f),
        None => match &config.log.file {
            Some(c) => c.clone(),
            None => String::from_str(default),
        },
    }
}

/// The message a log-level change is refused with.
pub open spec fn log_level_refusal() -> Seq<char> {
    "dynamic log level change requires restart with --log-level <level>"@
}

/// Change the log level of a running daemon: not supported, always refused
/// with a message pointing to the start-up flag.
pub fn set_log_level(level: &str) -> (r: Result<(), String>)
    ensures
        r matches Err(m) && m@ == log_level_refusal(),
{
    Err(String::from_str("dynamic log level change requires restart with --log-level <level>"))
}

/// The lockfile a running daemon holds; the file goes away with the guard.
pub struct LockfileGuard {
    path: String,
}

impl LockfileGuard {
    pub closed spec fn spec_path(&self) -> Seq<char> {
        self.path@
    }

    /// A guard for the lockfile at `path`.
    pub fn new(path: String) -> (r: Self)
        ensures
            r.spec_path() == path@,
    {
        LockfileGuard { path }
    }

    /// The guarded lockfile.
    pub fn path(&self) -> (r: &str)
        ensures
            r@ == self.spec_path(),
    {
        self.path.as_str()
    }
}

/// Health of the search daemon as seen by a client.
pub enum HealthStatus {
    /// The daemon answers.
    Healthy,
    /// No daemon socket exists; the path is where the master's would be.
    NotStarted(String),
    /// A socket exists but connecting failed, for the reason given.
    ConnRefused(String),
}

/// The health check: with neither the master socket nor the legacy
/// per-root socket present the daemon is not started; otherwise the outcome
/// of connecting decides (`None` for a successful connection).
pub fn health_status(master_socket: String, master_exists: bool, legacy_socket_exists: bool, connect_error: Option<String>) -> (r: HealthStatus)
    ensures
        !master_exists && !legacy_socket_exists ==> (r matches HealthStatus::NotStarted(p) && p@ == master_socket@),
        master_exists || legacy_socket_exists ==> match connect_error {
            None => r is Healthy,
            Some(e) => r matches HealthStatus::ConnRefused(m) && m@ == e@,
        },
{
    if !master_exists && !legacy_socket_exists {
        return HealthStatus::NotStarted(master_socket);
    }
    match connect_error {
        None => HealthStatus::Healthy,
        Some(e) => HealthStatus::ConnRefused(e),
    }
}

/// Delay before the second handshake attempt of a recovery; it doubles
/// with each further attempt.
pub const BACKOFF_BASE_MS: u64 = 100;

/// Handshake attempts a recovery makes before it tries the per-root socket.
pub const MAX_ATTEMPTS: u32 = 3;

/// What a client recovering from a broken connection does next.
#[derive(Clone, Copy, PartialEq, Eq, Structural)]
pub enum RecoveryStep {
    /// Wait `delay_ms`, then run the master and worker handshake again.
    Handshake { delay_ms: u64 },
    /// Connect straight to the root's own socket.
    ConnectLegacy,
    /// Report the last handshake error.
    GiveUp,
}

/// The next step of a recovery after `failed` handshakes failed, the
/// per-root socket tried or not: up to [`MAX_ATTEMPTS`] handshakes, the
/// first at once and each later one after a doubled delay, then the
/// per-root socket once.
pub open spec fn recovery_step_spec(failed: u32, legacy_tried: bool) -> RecoveryStep {
    if failed < MAX_ATTEMPTS {
        RecoveryStep::Handshake {
            delay_ms: if failed == 0 { 0 } else { (BACKOFF_BASE_MS * vstd::arithmetic::power2::pow2((failed - 1) as nat)) as u64 },
        }
    } else if !legacy_tried {
        RecoveryStep::ConnectLegacy
    } else {
        RecoveryStep::GiveUp
    }
}

/// The next step of a recovery (see [`recovery_step_spec`]).
pub fn next_recovery_step(failed: u32, legacy_tried: bool) -> (r: RecoveryStep)
    ensures
        r == recovery_step_spec(failed, legacy_tried),
{
    if failed < MAX_ATTEMPTS {
        let delay_ms: u64 = if failed == 0 {
            0
        } else if failed == 1 {
            proof {
                vstd::arithmetic::power2::lemma2_to64();
            }
            BACKOFF_BASE_MS
        } else {
            proof {
                vstd::arithmetic::power2::lemma2_to64();
            }
            BACKOFF_BASE_MS * 2
        };
        RecoveryStep::Handshake { delay_ms }
    } else if !legacy_tried {
        RecoveryStep::ConnectLegacy
    } else {
        RecoveryStep::GiveUp
    }
}

} // verus!
