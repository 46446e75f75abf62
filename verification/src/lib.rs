//! A log-structured key-value store: a verified command codec, an
//! index derived by replaying the log, compaction that never loses
//! live data, a second backend behind the same capability interface,
//! and a wire protocol for remote access.

pub mod codec;
pub mod command;
pub mod engine;
pub mod error;
pub mod ping;
pub mod protocol;
pub mod replay;
pub mod sled_engine;
pub mod store;
