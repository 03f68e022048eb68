//! The binary frame protocol: variable-length integers, checksums, frames,
//! the incremental decoder and the typed payloads.

pub mod codec;
pub mod crc32;
pub mod error;
pub mod flags;
pub mod frame;
pub mod payload;
pub mod varint;

use vstd::prelude::*;

verus! {

/// The two bytes every frame starts with: ASCII "IM", big-endian.
pub const MAGIC: u16 = 0x494D;

/// The protocol version this library speaks.
pub const VERSION: u8 = 1;

} // verus!
