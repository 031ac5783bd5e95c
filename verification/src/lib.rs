//! A single-file archive container with per-file compression and encryption,
//! together with the LZ77 and LZSS codecs it ships with.
//!
//! Every function in this crate is stated over a mathematical model of its
//! data (sequences of bytes and bits, maps of entries) and proved against it.

pub mod ar;
pub mod compress;
pub mod enc;
pub mod io;
