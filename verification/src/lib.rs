//! A minimal embedded key-value store backed by a single append-only log.
//!
//! The log is a sequence of records packed back-to-back; each record carries
//! a CRC-32 checksum, the two payload lengths, and the raw key and value
//! bytes. An in-memory index maps each live key to the byte offset of its
//! most recent record. A record with an empty value is a tombstone: it marks
//! the key as deleted. The index is derived state: it is rebuilt from the
//! log bytes whenever a store is opened.

pub mod codec;
pub mod store;

pub use codec::DecodedRecord;
pub use codec::LogError;
pub use store::HyperonStore;
