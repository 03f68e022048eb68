//! The flag bits of a frame, combined by bitwise or.

use vstd::prelude::*;

verus! {

/// The payload is compressed.
pub const COMPRESSED: u8 = 0b0000_0001;

/// The payload is encrypted.
pub const ENCRYPTED: u8 = 0b0000_0010;

} // verus!
