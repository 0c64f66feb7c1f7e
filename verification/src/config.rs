//! Where the store keeps its data on disk.

use vstd::prelude::*;

verus! {

/// The two on-disk locations the store uses.
pub struct Config {
    /// The path to the key-value store's files, default `$DATA_PATH/rocksdb`.
    pub rocksdb_path: String,
    /// The path to the artifacts directory, default `$DATA_PATH/artifacts`.
    pub artifact_path: String,
}

} // verus!
