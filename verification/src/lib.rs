//! Least-significant-bit steganography over a raw pixel byte buffer.
//!
//! A payload is embedded into a carrier buffer by ORing, bit by bit, a 32-bit
//! length field and then the payload's bits into the least significant bit of
//! successive carrier bytes. Decoding reads the length field back out of the
//! first 32 least significant bits and then recovers that many payload bytes.
//!
//! The carrier is an opaque byte sequence; reading pixel bytes out of an image
//! container and writing them back is the caller's business.

pub mod bits;
pub mod codec;
pub mod laws;
