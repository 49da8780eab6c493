//! Storage core of an embedded log-structured merge key-value engine:
//! a write-ahead log codec, a sorted in-memory buffer (MemTable), an
//! immutable sorted segment format (SSTable) with sparse index and
//! membership filter, and a compaction merge.

use vstd::prelude::*;

pub mod keys;
pub mod record;
pub mod codec;
pub mod memtable;
pub mod wal;
pub mod filter;
pub mod sstable;
pub mod compact;

verus! {

/// Default MemTable capacity threshold, in bytes.
pub const MEM_TABLE_SIZE: usize = 4096;

/// Relies on std::time::SystemTime::now: milliseconds since the Unix epoch.
/// Nothing is promised of the clock's value.
#[verifier::external_body]
pub fn get_current_timestamp() -> u128 {
    match std::time::SystemTime::now().duration_since(std::time::UNIX_EPOCH) {
        Ok(d) => d.as_millis(),
        Err(_) => 0,
    }
}

} // verus!
