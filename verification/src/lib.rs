//! Transfer of a byte payload over a one-way, unreliable visual channel.
//!
//! The sender compresses a file, digests it, splits it into chunks and
//! renders each chunk as a short line of text meant to fit in one QR
//! symbol.  The receiver ingests such lines in any order, with duplicates,
//! and reassembles the file once every expected message has been seen,
//! checking the digest before releasing the bytes.

pub mod codec;
pub mod compress;
pub mod digits;
pub mod protocol;
pub mod receive;
pub mod send;
pub mod utils;
