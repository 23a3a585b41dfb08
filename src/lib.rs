//! A log-structured key-value store in the style of Bitcask.
//!
//! The library holds the store's logic: the record format of the log, the
//! in-memory index from keys to record locations, the dead-byte accounting,
//! the recovery replay and the compaction plan. Reading and writing segment
//! files is left to the caller, who hands the library the bytes it read and
//! the lengths it wrote.
pub mod codec;
mod command;
mod error;
mod kv;
pub mod log;
mod segment;

pub use codec::{decode_record, decode_value, encode_remove, encode_set, frame_rm, frame_set};
pub use command::Commands;
pub use error::{KvErr, Result};
pub use kv::{KvEntry, KvStore, COMPACTION_THRESHOLD};
pub use segment::{data_file_ids, segment_id, stale_segments};
