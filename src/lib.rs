//! A Bitcask-style log-structured key/value store: the record codec, the
//! ordered in-memory index, segment naming and bookkeeping, recovery, and the
//! write/read planning of the engine. File handles and locks live with the
//! caller, which hands this library plain bytes.
pub mod config;
pub mod engine;
pub mod error;
pub mod index;
pub mod order;
pub mod record;
pub mod storage;

pub use config::{BatchConfig, Config, IteratorConfig};
pub use engine::{Append, EngineState};
pub use error::KvError;
pub use index::{BTree, BTreeIterator, IndexType};
pub use record::{Record, RecordPos, RecordType};
pub use storage::Storage;
