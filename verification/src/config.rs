//! Broker configuration.
use vstd::prelude::*;

verus! {

broadcast use vstd::string::to_string_from_display_ensures_for_str;

/// Broker configuration.
#[derive(Debug, Clone)]
pub struct BrokerConfig {
    /// Port to listen on.
    pub port: u16,
    /// Bind address.
    pub host: String,
    /// Root directory for segment data storage.
    pub data_dir: String,
    /// Maximum segment size in bytes before rotation.
    pub segment_max_bytes: u64,
    /// Number of default partitions for new topics.
    pub default_partitions: u32,
    /// Sync level after each write.
    pub sync_level: SyncLevel,
    /// Capacity of each partition's command queue (backpressure limit).
    pub channel_capacity: usize,
}

/// Level of fsync guarantees after each write.
#[derive(Debug, Clone, Copy, PartialEq, Eq, Structural)]
pub enum SyncLevel {
    /// Never sync automatically.
    NoSync,
    /// Sync the `.log` file only.
    Log,
    /// Sync both `.log` and `.index`.
    LogAndIndex,
}

impl Default for SyncLevel {
    fn default() -> (r: SyncLevel)
        ensures
            r == SyncLevel::LogAndIndex,
    {
        SyncLevel::LogAndIndex
    }
}

impl SyncLevel {
    /// Whether the log file is synced after each write.
    pub open spec fn syncs_log(self) -> bool {
        self == SyncLevel::Log || self == SyncLevel::LogAndIndex
    }

    /// Whether the index file is synced after each write.
    pub open spec fn syncs_index(self) -> bool {
        self == SyncLevel::LogAndIndex
    }

    /// Whether the log file is synced after each write.
    pub fn sync_log(&self) -> (r: bool)
        ensures
            r == self.syncs_log(),
    {
        match self {
            SyncLevel::NoSync => false,
            _ => true,
        }
    }

    /// Whether the index file is synced after each write.
    pub fn sync_index(&self) -> (r: bool)
        ensures
            r == self.syncs_index(),
    {
        match self {
            SyncLevel::LogAndIndex => true,
            _ => false,
        }
    }
}

impl Default for BrokerConfig {
    fn default() -> (r: BrokerConfig)
        ensures
            r.port == 9092,
            r.host@ == "127.0.0.1"@,
            r.data_dir@ == "./data"@,
            r.segment_max_bytes == 10 * 1024 * 1024,
            r.default_partitions == 1,
            r.sync_level == SyncLevel::LogAndIndex,
            r.channel_capacity == 1024,
    {
        BrokerConfig {
            port: 9092,
            host: "127.0.0.1".to_string(),
            data_dir: "./data".to_string(),
            segment_max_bytes: 10 * 1024 * 1024,
            default_partitions: 1,
            sync_level: SyncLevel::LogAndIndex,
            channel_capacity: 1024,
        }
    }
}

} // verus!
