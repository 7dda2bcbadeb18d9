//! Configuration of the storage core.

use vstd::prelude::*;

verus! {

/// Number of buffered samples at which the batch writer commits.
pub const BATCH_SIZE: usize = 50;

/// Longest time, in milliseconds, that a non-empty buffer waits for a commit.
pub const BATCH_TIMEOUT_MS: u64 = 5000;

/// Capacity of the write queue.
pub const CHANNEL_CAPACITY: usize = 1000;

/// Samples kept in memory for each agent.
pub const CACHE_SIZE_PER_AGENT: usize = 100;

/// Rows kept on disk for each agent: one week at one sample a second.
pub const MAX_RECORDS_PER_AGENT: usize = 604_800;

/// Hours between two retention passes.
pub const CLEANUP_INTERVAL_HOURS: u64 = 6;

/// Options of the storage core.
#[derive(Debug, Clone)]
pub struct StorageConfig {
    /// Path of the database file; `None` selects memory-only mode.
    pub db_path: Option<String>,
    /// Samples kept in memory for each agent.
    pub cache_size_per_agent: usize,
    /// Number of buffered samples at which the batch writer commits.
    pub batch_size: usize,
    /// Longest time, in milliseconds, that a non-empty buffer waits.
    pub batch_timeout_ms: u64,
    /// Capacity of the write queue.
    pub channel_capacity: usize,
    /// Rows kept on disk for each agent.
    pub max_records_per_agent: usize,
    /// Age in days beyond which rows are deleted; 0 disables the age pass.
    pub retention_days: u64,
    /// Hours between two retention passes.
    pub cleanup_interval_hours: u64,
    /// Whether the retention cleaner runs at all.
    pub enable_cleanup: bool,
}

impl StorageConfig {
    /// The values a retention cleaner can run with: a positive interval and
    /// a positive row cap. `retention_days` may be zero.
    pub open spec fn cleanup_valid(&self) -> bool {
        self.cleanup_interval_hours > 0 && self.max_records_per_agent > 0
    }

    /// The values a batch writer can run with.
    pub open spec fn batch_valid(&self) -> bool {
        self.batch_size > 0 && self.batch_timeout_ms > 0 && self.channel_capacity > 0
    }

    /// Tests `cleanup_valid`.
    pub fn is_cleanup_valid(&self) -> (ok: bool)
        ensures
            ok == self.cleanup_valid(),
    {
        self.cleanup_interval_hours > 0 && self.max_records_per_agent > 0
    }

    /// Tests `batch_valid`.
    pub fn is_batch_valid(&self) -> (ok: bool)
        ensures
            ok == self.batch_valid(),
    {
        self.batch_size > 0 && self.batch_timeout_ms > 0 && self.channel_capacity > 0
    }
}

impl Default for StorageConfig {
    /// Memory-only mode with the documented defaults.
    fn default() -> (config: Self)
        ensures
            config.db_path is None,
            config.cache_size_per_agent == 100,
            config.batch_size == 50,
            config.batch_timeout_ms == 5000,
            config.channel_capacity == 1000,
            config.max_records_per_agent == 604_800,
            config.retention_days == 0,
            config.cleanup_interval_hours == 6,
            config.enable_cleanup,
            config.cleanup_valid(),
            config.batch_valid(),
    {
        StorageConfig {
            db_path: None,
            cache_size_per_agent: CACHE_SIZE_PER_AGENT,
            batch_size: BATCH_SIZE,
            batch_timeout_ms: BATCH_TIMEOUT_MS,
            channel_capacity: CHANNEL_CAPACITY,
            max_records_per_agent: MAX_RECORDS_PER_AGENT,
            retention_days: 0,
            cleanup_interval_hours: CLEANUP_INTERVAL_HOURS,
            enable_cleanup: true,
        }
    }
}

} // verus!
