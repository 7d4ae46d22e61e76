//! Typed, fixed-width binary decoding over byte streams.
//!
//! The [`reader::Reader`] trait extends any sequential byte source with one
//! decode operation per combination of signedness (unsigned or two's
//! complement), width (1, 2, 4 or 8 bytes) and byte order (big- or
//! little-endian). Each operation issues a single raw read of exactly the
//! requested width and either yields the fully decoded scalar or fails,
//! never a partial result.
//!
//! The numeric meaning of a byte sequence is pinned down by the spec
//! functions in [`endian`], together with proofs of the round-trip,
//! byte-order and bit-pattern laws. [`cursor::ByteCursor`] is an in-memory
//! byte source implementing the trait.

pub mod cursor;
pub mod endian;
pub mod reader;
