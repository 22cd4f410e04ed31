//! Parsing, encoding, identifying and merging raw transactions for
//! multi-party ("CoinJoin") transaction construction.
//!
//! - `decoder`: the byte cursor and its tokens (fixed-width integers, compact
//!   integers, byte strings).
//! - `hash`: the little-endian encoders and the transaction identifier.
//! - `transaction`: the data model, the parser and the canonical encoding.
//! - `merge`: the signed and unsigned merges.
//! - `roundtrip`: what parsing and encoding guarantee of each other.
//! - `util`: hexadecimal text.

pub mod decoder;
pub mod hash;
pub mod merge;
pub mod roundtrip;
pub mod transaction;
pub mod util;
