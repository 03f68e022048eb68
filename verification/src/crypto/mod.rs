//! End-to-end encryption: key agreement with pre-keys, the double ratchet, and
//! the certificates of the transport.

pub mod error;
pub mod primitives;
pub mod ratchet;
pub mod skipped;
pub mod tls;
pub mod x3dh;

use vstd::prelude::*;

verus! {

/// The length of every key, in bytes.
pub const KEY_LEN: usize = 32;

} // verus!
