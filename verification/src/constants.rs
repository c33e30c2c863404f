//! Size limits shared by the whole stack.
use vstd::prelude::*;

verus! {

/// The largest packet this library writes, in bytes.
pub const MTU_SIZE_BYTES: usize = 430;

/// The largest packet this library writes, in bits (`8 * MTU_SIZE_BYTES`).
pub const MTU_SIZE_BITS: u32 = 3440;

/// Messages longer than this many bits are sent in fragments.
pub const FRAGMENTATION_LIMIT_BITS: u32 = 3200;

} // verus!
