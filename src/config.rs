use vstd::prelude::*;

use crate::index::IndexType;

verus! {

/// The default rollover threshold: 64 MiB.
pub const DEFAULT_STORAGE_SIZE: u64 = 67108864;

/// How an engine is opened.
pub struct Config {
    /// The directory that holds the segment files.
    pub dir_path: String,
    /// The size in bytes past which the active segment is rolled over.
    pub storage_size: u64,
    pub index_type: IndexType,
    /// Whether every append is synced to disk.
    pub sync_write: bool,
}

impl Config {
    /// The default options, with segments kept in `dir_path`.
    pub fn new(dir_path: String) -> (r: Config)
        ensures
            r.dir_path@ == dir_path@,
            r.storage_size == DEFAULT_STORAGE_SIZE,
            r.index_type == IndexType::BTree,
            !r.sync_write,
    {
        Config { dir_path, storage_size: DEFAULT_STORAGE_SIZE, index_type: IndexType::BTree, sync_write: false }
    }
}

/// How an ordered scan runs: only keys that begin with `prefix`, in ascending
/// order or, with `reverse`, descending.
pub struct IteratorConfig {
    pub prefix: Vec<u8>,
    pub reverse: bool,
}

impl Default for IteratorConfig {
    fn default() -> (r: IteratorConfig)
        ensures
            r.prefix@ == Seq::<u8>::empty(),
            !r.reverse,
    {
        IteratorConfig { prefix: Vec::new(), reverse: false }
    }
}

/// Options of a write batch.
pub struct BatchConfig {
    pub max_batch_num: usize,
    pub sycn_write: bool,
}

impl Default for BatchConfig {
    fn default() -> (r: BatchConfig)
        ensures
            r.max_batch_num == 100,
            r.sycn_write,
    {
        BatchConfig { max_batch_num: 100, sycn_write: true }
    }
}

} // verus!
