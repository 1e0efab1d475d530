//! An append-only key-value store over a log of length-prefixed, checksummed
//! records, with an index that maps each key to the offset of its latest record.
//!
//! - [`codec`] frames one key-value pair and decodes a frame of a log.
//! - [`index`] is the map from keys to offsets.
//! - [`replay`] says what a pass over a log computes, and proves what holds of it.
//! - [`store`] is the store itself: the log's bytes and the index over them.
//!
//! Beside the store stand a few small pieces that programs around it share:
//! a simulated [`file`], a [`mailbox`] for messages, the [`protocol`] names of
//! a page fetcher, and the [`parity`] bit of a byte string.

pub mod codec;
pub mod file;
pub mod index;
pub mod mailbox;
pub mod parity;
pub mod protocol;
pub mod replay;
pub mod store;
