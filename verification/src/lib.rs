//! Frame ingestion for a stream-multiplexed protocol over a chunked transport.
//!
//! The transport delivers bytes in chunks whose boundaries are unrelated to
//! message boundaries.  This crate aggregates those chunks ([`chunks`]),
//! finds frame boundaries incrementally across them ([`wire`], [`codec`],
//! [`decoder`]), and drives both from a non-blocking receive handle
//! ([`stream`]), mapping every failure to a protocol error code
//! ([`errors`]).  What holds of all of it — chunking cannot change what is
//! decoded, truncation is always detected, unknown frames vanish silently —
//! is stated and proved once in [`laws`].

pub mod chunks;
pub mod codec;
pub mod decoder;
pub mod errors;
pub mod laws;
pub mod stream;
pub mod wire;
