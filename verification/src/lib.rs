//! A log-structured key-value store in the Bitcask style.
//!
//! Every write is appended to a segment file as one line of JSON, and an
//! in-memory index, the keydir, maps each live key to the bytes of its latest
//! record. This crate holds the engine's rules: the record format, the index,
//! the replay that rebuilds the index from the segments, the rotation policy
//! and the operations built on them. It touches no file itself: an operation
//! that needs the disk returns a description of the I/O to perform, and the
//! caller reports back once it is done.

pub mod command;
pub mod directory;
pub mod engine;
pub mod json;
pub mod keydir;
pub mod order;
pub mod record;
pub mod recovery;
pub mod replay;
pub mod text;
pub mod timestamp;

pub use engine::Bitcask;
pub use keydir::KeydirVal;
pub use record::Pair;
