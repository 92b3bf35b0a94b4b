//! Shared configuration of the daemon and its clients, with the defaults
//! that apply when the config file omits a section.

use vstd::prelude::*;
use crate::text::{join_path, join_spec};

verus! {

/// Worker pool settings.
pub struct WorkerConfig {
    /// Minimum number of worker processes kept alive.
    pub n_min: u32,
    /// Maximum number of worker processes.
    pub n_max: u32,
    /// Roots a worker may hold before another worker is spawned.
    pub roots_per_worker_max: u32,
    /// Seconds an idle worker waits before it is stopped.
    pub idle_ttl_secs: u64,
}

impl Default for WorkerConfig {
    fn default() -> (r: Self)
        ensures
            r.n_min == 1,
            r.n_max == 4,
            r.roots_per_worker_max == 8,
            r.idle_ttl_secs == 300,
    {
        WorkerConfig { n_min: 1, n_max: 4, roots_per_worker_max: 8, idle_ttl_secs: 300 }
    }
}

impl Clone for WorkerConfig {
    fn clone(&self) -> (r: Self)
        ensures
            r == *self,
    {
        WorkerConfig { ..*self }
    }
}

/// Logging settings.
pub struct LogConfig {
    /// Log filter, in `RUST_LOG` syntax.
    pub level: String,
    /// Log file override.
    pub file: Option<String>,
}

impl Default for LogConfig {
    fn default() -> (r: Self)
        ensures
            r.level@ == "fff_engine=info,fff_mcp=info,warn"@,
            r.file is None,
    {
        LogConfig { level: String::from_str("fff_engine=info,fff_mcp=info,warn"), file: None }
    }
}

/// Indexing settings.
pub struct IndexConfig {
    /// Disable the background file-system watcher.
    pub no_watch: bool,
    /// Skip the content warmup after the initial scan.
    pub no_warmup: bool,
    /// Maximum number of files kept content-cached.
    pub max_cached_files: Option<usize>,
}

impl Default for IndexConfig {
    fn default() -> (r: Self)
        ensures
            !r.no_watch,
            !r.no_warmup,
            r.max_cached_files is None,
    {
        IndexConfig { no_watch: false, no_warmup: false, max_cached_files: None }
    }
}

/// Frecency database settings.
pub struct FrecencyConfig {
    /// Database directory override.
    pub db: Option<String>,
}

impl Default for FrecencyConfig {
    fn default() -> (r: Self)
        ensures
            r.db is None,
    {
        FrecencyConfig { db: None }
    }
}

/// The whole configuration file.
pub struct FffConfig {
    pub log: LogConfig,
    pub index: IndexConfig,
    pub frecency: FrecencyConfig,
    pub worker: WorkerConfig,
}

impl Default for FffConfig {
    fn default() -> (r: Self)
        ensures
            r.log.level@ == "fff_engine=info,fff_mcp=info,warn"@,
            r.log.file is None,
            !r.index.no_watch && !r.index.no_warmup && r.index.max_cached_files is None,
            r.frecency.db is None,
            r.worker.n_min == 1 && r.worker.n_max == 4 && r.worker.roots_per_worker_max == 8
                && r.worker.idle_ttl_secs == 300,
    {
        FffConfig {
            log: LogConfig::default(),
            index: IndexConfig::default(),
            frecency: FrecencyConfig::default(),
            worker: WorkerConfig::default(),
        }
    }
}

/// Config file location: `$XDG_CONFIG_HOME/fff/config.toml` when the
/// variable is set, else `<home>/.config/fff/config.toml` with the home
/// taken from `$HOME`, then `$USERPROFILE`, then `/tmp`.
pub open spec fn config_path_spec(xdg: Option<Seq<char>>, home: Option<Seq<char>>, userprofile: Option<Seq<char>>) -> Seq<char> {
    let base = match xdg {
        Some(x) => x,
        None => {
            let h = match home {
                Some(h) => h,
                None => match userprofile {
                    Some(u) => u,
                    None => "/tmp"@,
                },
            };
            join_spec(h, ".config"@)
        },
    };
    join_spec(join_spec(base, "fff"@), "config.toml"@)
}

/// Path of the config file.
pub fn config_path(xdg_config_home: Option<&str>, home: Option<&str>, userprofile: Option<&str>) -> (r: String)
    ensures
        r@ == config_path_spec(
            crate::paths::opt_view(xdg_config_home),
            crate::paths::opt_view(home),
            crate::paths::opt_view(userprofile),
        ),
{
    let base = match xdg_config_home {
        Some(x) => String::from_str(x),
        None => {
            let h = match home {
                Some(h) => h,
                None => match userprofile {
                    Some(u) => u,
                    None => "/tmp",
                },
            };
            join_path(h, ".config")
        },
    };
    let fff = join_path(base.as_str(), "fff");
    join_path(fff.as_str(), "config.toml")
}

} // verus!
