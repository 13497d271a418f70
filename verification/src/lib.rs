//! An append-only log of opaque text entries, persisted as a length-prefixed
//! byte encoding inside an externally owned buffer.
//!
//! The log is an ordered sequence of UTF-8 strings. Its wire format is a
//! leading entry count (a little-endian `u32`), followed by that many entries,
//! each a little-endian `u32` byte length followed by the entry's bytes. The
//! empty log is encoded as the empty byte string. Encoding, decoding, and the
//! single state transition (append one entry) are verified against
//! specification-level encode and decode functions, together with round-trip
//! and exactness lemmas.

pub mod codec;
pub mod log;
pub mod utf8_check;
pub mod wire;
