//! A compact list of byte strings kept in one contiguous, growable byte
//! arena.
//!
//! Entries are serialized back to back as a varint length prefix followed by
//! the raw payload bytes; a terminator byte marks the end of the live
//! region. Signed integers can be stored through a thin convention on top of
//! string entries: a one-byte width tag followed by a little-endian payload.

pub mod entries;
pub mod intcode;
pub mod iter;
pub mod laws;
pub mod listpack;
pub mod varint;

pub use iter::ListpackIter;
pub use listpack::Listpack;
