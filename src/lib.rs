//! Hides a byte stream in the low bits of an image's channel values and
//! recovers it again.
use vstd::prelude::*;

pub mod capacity;
pub mod codec;
pub mod error;
pub mod frame;
pub mod size;

verus! {

/// Whether `k` is a supported number of low bits per channel.
pub open spec fn valid_depth(k: u8) -> bool {
    1 <= k <= 3
}

} // verus!
