//! Sharded record storage and the byte cache.
pub mod qram;
pub mod cache;

use vstd::prelude::*;

verus! {

/// Storage sizing and policy.
#[derive(Debug, Clone)]
pub struct StorageEngineConfig {
    pub shard_max_bytes: usize,
    pub cache_max_bytes: usize,
    pub enforce_pqc_encryption: bool,
}

} // verus!
