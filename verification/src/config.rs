//! Node configuration with fail-fast validation.

use vstd::prelude::*;

verus! {

/// Snapshot trigger threshold in MB of WAL where the config names none.
pub const DEFAULT_SNAPSHOT_WAL_MB: u64 = 128;

/// Virtual nodes per physical node where the config names none.
pub const DEFAULT_CONFIG_VNODES: u32 = 64;

/// Raft settings of a node.
#[derive(Debug, Clone)]
pub struct RaftConfig {
    /// Seed list of peer advertise addresses.
    pub peers: Vec<String>,
}

/// Top-level node config. Addresses are `host:port` strings.
#[derive(Debug, Clone)]
pub struct NodeConfig {
    /// Stable numeric id for this node.
    pub node_id: u64,
    /// Address the server binds to.
    pub listen_addr: String,
    /// Address other nodes use to reach this one (defaults to listen_addr).
    pub advertise_addr: Option<String>,
    /// Directory for shard data (WAL, snapshots). Created if missing.
    pub data_dir: String,
    /// Raft seed peers for the metadata plane.
    pub raft: RaftConfig,
    /// WAL sync batching window in ms; 0 = sync every record.
    pub wal_batch_ms: u64,
    /// Snapshot trigger threshold in MB of WAL.
    pub snapshot_wal_mb: u64,
    /// Virtual nodes per physical node on the hash ring.
    pub vnodes: u32,
}

/// What is wrong with a config.
#[derive(Debug, Clone, Copy, PartialEq, Eq, Structural)]
pub enum ConfigError {
    /// vnodes must be > 0.
    ZeroVnodes,
    /// snapshot_wal_mb must be > 0.
    ZeroSnapshotWalMb,
}

impl ConfigError {
    /// The error in words.
    pub fn message(self) -> (r: String)
        ensures
            r@ == match self {
                ConfigError::ZeroVnodes => "invalid config: vnodes must be > 0"@,
                ConfigError::ZeroSnapshotWalMb => "invalid config: snapshot_wal_mb must be > 0"@,
            },
    {
        match self {
            ConfigError::ZeroVnodes => "invalid config: vnodes must be > 0".to_owned(),
            ConfigError::ZeroSnapshotWalMb => {
                "invalid config: snapshot_wal_mb must be > 0".to_owned()
            },
        }
    }
}

pub fn default_snapshot_wal_mb() -> (r: u64)
    ensures
        r == DEFAULT_SNAPSHOT_WAL_MB,
{
    DEFAULT_SNAPSHOT_WAL_MB
}

pub fn default_vnodes() -> (r: u32)
    ensures
        r == DEFAULT_CONFIG_VNODES,
{
    DEFAULT_CONFIG_VNODES
}

impl NodeConfig {
    /// A config from the settings that a file gives; what it leaves out is defaulted.
    pub fn from_settings(
        node_id: u64,
        listen_addr: String,
        advertise_addr: Option<String>,
        data_dir: String,
        peers: Option<Vec<String>>,
        wal_batch_ms: Option<u64>,
        snapshot_wal_mb: Option<u64>,
        vnodes: Option<u32>,
    ) -> (r: Self)
        ensures
            r.node_id == node_id,
            r.listen_addr == listen_addr,
            r.advertise_addr == advertise_addr,
            r.data_dir == data_dir,
            match peers {
                Some(p) => r.raft.peers == p,
                None => r.raft.peers@.len() == 0,
            },
            r.wal_batch_ms == match wal_batch_ms {
                Some(ms) => ms,
                None => 0,
            },
            r.snapshot_wal_mb == match snapshot_wal_mb {
                Some(mb) => mb,
                None => DEFAULT_SNAPSHOT_WAL_MB,
            },
            r.vnodes == match vnodes {
                Some(n) => n,
                None => DEFAULT_CONFIG_VNODES,
            },
    {
        NodeConfig {
            node_id,
            listen_addr,
            advertise_addr,
            data_dir,
            raft: RaftConfig {
                peers: match peers {
                    Some(p) => p,
                    None => Vec::new(),
                },
            },
            wal_batch_ms: match wal_batch_ms {
                Some(ms) => ms,
                None => 0,
            },
            snapshot_wal_mb: match snapshot_wal_mb {
                Some(mb) => mb,
                None => default_snapshot_wal_mb(),
            },
            vnodes: match vnodes {
                Some(n) => n,
                None => default_vnodes(),
            },
        }
    }

    /// Fail-fast invariant checks.
    pub fn validate(&self) -> (r: Result<(), ConfigError>)
        ensures
            r == if self.vnodes == 0 {
                Err::<(), ConfigError>(ConfigError::ZeroVnodes)
            } else if self.snapshot_wal_mb == 0 {
                Err(ConfigError::ZeroSnapshotWalMb)
            } else {
                Ok(())
            },
    {
        if self.vnodes == 0 {
            return Err(ConfigError::ZeroVnodes);
        }
        if self.snapshot_wal_mb == 0 {
            return Err(ConfigError::ZeroSnapshotWalMb);
        }
        Ok(())
    }

    /// The advertise address, falling back to the listen address.
    pub fn advertise(&self) -> (r: &str)
        ensures
            r@ == match self.advertise_addr {
                Some(a) => a@,
                None => self.listen_addr@,
            },
    {
        match &self.advertise_addr {
            Some(a) => a.as_str(),
            None => self.listen_addr.as_str(),
        }
    }
}

} // verus!
