//! Configuration of the service.
use vstd::prelude::*;

verus! {

/// Configuration of the service.
pub struct AppConfig {
    pub bind_addr: String,
    pub data_dir: String,
    pub refresh_interval_secs: u64,
    pub flush_interval_secs: u64,
    pub merge_interval_secs: u64,
    pub retention_interval_secs: u64,
    pub max_indexes: Option<usize>,
    pub max_documents_per_index: Option<usize>,
    pub max_concurrent_background_ops: Option<usize>,
}

impl Default for AppConfig {
    fn default() -> (r: AppConfig)
        ensures
            r.bind_addr@ == "127.0.0.1:4000"@,
            r.data_dir@ == "./data"@,
            r.refresh_interval_secs == 1,
            r.flush_interval_secs == 30,
            r.merge_interval_secs == 60,
            r.retention_interval_secs == 60,
            r.max_indexes is None,
            r.max_documents_per_index is None,
            r.max_concurrent_background_ops is None,
    {
        AppConfig {
            bind_addr: "127.0.0.1:4000".to_owned(),
            data_dir: "./data".to_owned(),
            refresh_interval_secs: 1,
            flush_interval_secs: 30,
            merge_interval_secs: 60,
            retention_interval_secs: 60,
            max_indexes: None,
            max_documents_per_index: None,
            max_concurrent_background_ops: None,
        }
    }
}

/// The interval, or the default where it is zero.
pub open spec fn interval_or(secs: u64, default: u64) -> u64 {
    if secs == 0 {
        default
    } else {
        secs
    }
}

/// The configuration with the default in place of each interval of zero.
pub open spec fn normalized(config: AppConfig) -> AppConfig {
    AppConfig {
        refresh_interval_secs: interval_or(config.refresh_interval_secs, 1),
        flush_interval_secs: interval_or(config.flush_interval_secs, 30),
        merge_interval_secs: interval_or(config.merge_interval_secs, 60),
        retention_interval_secs: interval_or(config.retention_interval_secs, 60),
        ..config
    }
}

impl AppConfig {
    /// Puts the default in place of each interval of zero.
    pub fn normalize_intervals(&mut self)
        ensures
            *final(self) == normalized(*old(self)),
    {
        if self.refresh_interval_secs == 0 {
            self.refresh_interval_secs = 1;
        }
        if self.flush_interval_secs == 0 {
            self.flush_interval_secs = 30;
        }
        if self.merge_interval_secs == 0 {
            self.merge_interval_secs = 60;
        }
        if self.retention_interval_secs == 0 {
            self.retention_interval_secs = 60;
        }
    }
}

/// A normalized configuration has no interval of zero.
pub proof fn normalized_intervals_are_positive(config: AppConfig)
    ensures
        normalized(config).refresh_interval_secs > 0,
        normalized(config).flush_interval_secs > 0,
        normalized(config).merge_interval_secs > 0,
        normalized(config).retention_interval_secs > 0,
{
}

/// Normalizing a second time changes nothing.
pub proof fn normalizing_is_idempotent(config: AppConfig)
    ensures
        normalized(normalized(config)) == normalized(config),
{
}

} // verus!
