//! How many bytes a carrier of a given size can hold.
use vstd::prelude::*;

use crate::valid_depth;

verus! {

/// Bytes that `n` channels carry at `k` bits each; leftover bits stay unused.
pub open spec fn capacity_of(n: int, k: int) -> int {
    (n * k) / 8
}

/// The largest number of bytes (length header included) that `channel_count`
/// channels can carry when `k` low bits of each are used.
pub fn capacity(channel_count: usize, k: u8) -> (r: usize)
    requires
        valid_depth(k),
    ensures
        r == capacity_of(channel_count as int, k as int),
{
    let whole = channel_count / 8;
    let rest = channel_count % 8;
    proof {
        let n = channel_count as int;
        let kk = k as int;
        assert(n == 8 * whole + rest);
        assert(n * kk == 8 * (whole * kk) + rest * kk) by (nonlinear_arith)
            requires
                n == 8 * whole + rest,
        ;
        assert(whole * kk <= 3 * whole) by (nonlinear_arith)
            requires
                kk <= 3,
                whole >= 0,
        ;
        assert(rest * kk < 64) by (nonlinear_arith)
            requires
                rest < 8,
                kk <= 3,
                rest >= 0,
        ;
        assert((8 * (whole * kk) + rest * kk) / 8 == whole * kk + (rest * kk) / 8);
    }
    whole * (k as usize) + rest * (k as usize) / 8
}

/// Whether a payload of `payload_len_with_header` bytes (length header
/// included) fits into `channel_count` channels at `k` bits each.
pub fn fits(payload_len_with_header: usize, channel_count: usize, k: u8) -> (r: bool)
    requires
        valid_depth(k),
    ensures
        r == (payload_len_with_header <= capacity_of(channel_count as int, k as int)),
{
    payload_len_with_header <= capacity(channel_count, k)
}

} // verus!
