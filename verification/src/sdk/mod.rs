//! What other languages see of the client: numbered errors, events one at a time
//! in one shape, and the checks at the border.

pub mod error;
pub mod events;
pub mod ffi;
pub mod jni;
pub mod native;

use vstd::prelude::*;

verus! {

/// The version that callers compare with theirs.
pub const SDK_VERSION: &'static str = "0.1.0";

} // verus!
