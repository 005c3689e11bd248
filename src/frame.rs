//! The length framing around a payload, and embedding or extracting a whole
//! file in one call.
//!
//! Inside the carrier a payload of `L` bytes is preceded by `L` as four bytes,
//! least significant first; whatever follows the payload is padding.
use vstd::prelude::*;

use crate::capacity::{capacity, capacity_of};
use crate::codec::{
    lemma_packed_upper,
    lemma_unpack_packed,
    pack,
    packed,
    unpack,
    unpacked,
    upper_mask,
};
use crate::error::Error;
use crate::valid_depth;

verus! {

/// `n` as four bytes, least significant first.
pub open spec fn le32(n: u32) -> Seq<u8> {
    seq![(n & 0xff) as u8, ((n >> 8) & 0xff) as u8, ((n >> 16) & 0xff) as u8, (n >> 24) as u8]
}

/// The number that four bytes give, least significant first.
pub open spec fn read_le32(b0: u8, b1: u8, b2: u8, b3: u8) -> u32 {
    (b0 as u32) | ((b1 as u32) << 8) | ((b2 as u32) << 16) | ((b3 as u32) << 24)
}

/// `payload` preceded by its length header.
pub open spec fn framed(payload: Seq<u8>) -> Seq<u8> {
    le32(payload.len() as u32) + payload
}

/// The length that the header at the start of `raw` gives.
pub open spec fn header_length(raw: Seq<u8>) -> int {
    read_le32(raw[0], raw[1], raw[2], raw[3]) as int
}

/// The payload that `raw` frames, or `None` when `raw` is too short to hold
/// its header or the length that the header gives.
pub open spec fn unframed(raw: Seq<u8>) -> Option<Seq<u8>> {
    if raw.len() >= 4 && 4 + header_length(raw) <= raw.len() {
        Some(raw.subrange(4, 4 + header_length(raw)))
    } else {
        None
    }
}

/// Whether a payload of `len` bytes can be embedded into `n` channels at `k`
/// bits each: its length must fit the header and, with the header, the carrier.
pub open spec fn can_embed(len: int, n: int, k: u8) -> bool {
    len <= u32::MAX && 4 + len <= capacity_of(n, k as int)
}

proof fn lemma_le32_round_trip(n: u32)
    ensures
        read_le32(le32(n)[0], le32(n)[1], le32(n)[2], le32(n)[3]) == n,
{
    assert(read_le32(
        (n & 0xff) as u8,
        ((n >> 8) & 0xff) as u8,
        ((n >> 16) & 0xff) as u8,
        (n >> 24) as u8,
    ) == n) by (bit_vector);
}

/// The payload preceded by its length, four bytes least significant first.
pub fn frame(payload: &[u8]) -> (r: Vec<u8>)
    requires
        payload@.len() <= u32::MAX,
    ensures
        r@ == framed(payload@),
{
    let len = payload.len() as u32;
    let mut out: Vec<u8> = Vec::new();
    out.push((len & 0xff) as u8);
    out.push(((len >> 8u32) & 0xff) as u8);
    out.push(((len >> 16u32) & 0xff) as u8);
    out.push((len >> 24u32) as u8);
    let mut i: usize = 0;
    while i < payload.len()
        invariant
            i <= payload@.len(),
            out@ == le32(len) + payload@.subrange(0, i as int),
        decreases payload@.len() - i,
    {
        out.push(payload[i]);
        i = i + 1;
        assert(out@ =~= le32(len) + payload@.subrange(0, i as int));
    }
    assert(payload@.subrange(0, payload@.len() as int) =~= payload@);
    out
}

/// The payload that `raw` frames: the bytes after the length header, as many
/// as it gives. Fails when `raw` holds fewer.
pub fn read_frame(raw: &[u8]) -> (r: Result<Vec<u8>, Error>)
    ensures
        match r {
            Ok(v) => unframed(raw@) == Some(v@),
            Err(e) => unframed(raw@) is None && e == Error::BufEndedUnexpectedly,
        },
{
    if raw.len() < 4 {
        return Err(Error::BufEndedUnexpectedly);
    }
    let len: u32 = (raw[0] as u32) | ((raw[1] as u32) << 8u32) | ((raw[2] as u32) << 16u32) | ((
    raw[3] as u32) << 24u32);
    if raw.len() - 4 < len as usize {
        return Err(Error::BufEndedUnexpectedly);
    }
    let end = 4 + len as usize;
    let mut out: Vec<u8> = Vec::new();
    let mut i: usize = 4;
    while i < end
        invariant
            4 <= i <= end,
            end <= raw@.len(),
            out@ == raw@.subrange(4, i as int),
        decreases end - i,
    {
        out.push(raw[i]);
        i = i + 1;
        assert(out@ =~= raw@.subrange(4, i as int));
    }
    Ok(out)
}

/// Embeds `payload`, preceded by its length, into the low `k` bits of
/// `channels`. When it does not fit, fails with `NoFreeSpace` before any
/// value is changed.
pub fn embed(channels: &mut Vec<u8>, payload: &[u8], k: u8) -> (r: Result<(), Error>)
    requires
        valid_depth(k),
    ensures
        r is Ok <==> can_embed(payload@.len() as int, old(channels)@.len() as int, k),
        r is Ok ==> final(channels)@ == packed(old(channels)@, framed(payload@), k),
        r is Err ==> final(channels)@ == old(channels)@ && r == Err::<(), Error>(
            Error::NoFreeSpace,
        ),
{
    let room = capacity(channels.len(), k);
    if payload.len() > u32::MAX as usize || room < 4 || payload.len() > room - 4 {
        return Err(Error::NoFreeSpace);
    }
    let data = frame(payload);
    pack(channels, data.as_slice(), k);
    Ok(())
}

/// Recovers the payload embedded in the low `k` bits of `channels`. Fails
/// with `BufEndedUnexpectedly` when the channels carry fewer bytes than the
/// length header and the length it gives.
pub fn extract(channels: &[u8], k: u8) -> (r: Result<Vec<u8>, Error>)
    requires
        valid_depth(k),
    ensures
        match r {
            Ok(v) => unframed(unpacked(channels@, k)) == Some(v@),
            Err(e) => unframed(unpacked(channels@, k)) is None && e == Error::BufEndedUnexpectedly,
        },
{
    let raw = unpack(channels, k);
    read_frame(raw.as_slice())
}

/// A stream that starts with `payload` framed frames that payload, whatever
/// follows it.
proof fn lemma_unframed_prefix(raw: Seq<u8>, payload: Seq<u8>)
    requires
        payload.len() <= u32::MAX,
        4 + payload.len() <= raw.len(),
        raw.subrange(0, 4 + payload.len() as int) == framed(payload),
    ensures
        unframed(raw) == Some(payload),
{
    let data = framed(payload);
    assert(raw[0] == raw.subrange(0, 4 + payload.len() as int)[0]);
    assert(raw[1] == raw.subrange(0, 4 + payload.len() as int)[1]);
    assert(raw[2] == raw.subrange(0, 4 + payload.len() as int)[2]);
    assert(raw[3] == raw.subrange(0, 4 + payload.len() as int)[3]);
    lemma_le32_round_trip(payload.len() as u32);
    assert(header_length(raw) == payload.len());
    assert forall|j: int| 0 <= j < payload.len() implies raw.subrange(
        4,
        4 + payload.len() as int,
    )[j] == payload[j] by {
        assert(raw.subrange(0, 4 + payload.len() as int)[4 + j] == data[4 + j]);
    }
    assert(raw.subrange(4, 4 + payload.len() as int) =~= payload);
}

/// Extracting what was embedded gives back the payload, and embedding
/// changes no channel value above its low `k` bits.
#[verifier::spinoff_prover]
pub proof fn lemma_round_trip(buffer: Seq<u8>, payload: Seq<u8>, k: u8)
    requires
        valid_depth(k),
        buffer.len() >= 1,
        4 + payload.len() <= capacity_of(buffer.len() as int, k as int),
        payload.len() <= u32::MAX,
    ensures
        unframed(unpacked(packed(buffer, framed(payload), k), k)) == Some(payload),
        forall|i: int|
            0 <= i < buffer.len() ==> #[trigger] packed(buffer, framed(payload), k)[i]
                & upper_mask(k) == buffer[i] & upper_mask(k),
{
    let data = framed(payload);
    let raw = unpacked(packed(buffer, data, k), k);
    assert(4 + payload.len() <= raw.len() && raw.subrange(0, 4 + payload.len() as int) == data)
        by {
        lemma_unpack_packed(buffer, data, k);
    }
    assert(unframed(raw) == Some(payload)) by {
        lemma_unframed_prefix(raw, payload);
    }
    lemma_packed_upper(buffer, data, k);
}

/// Embedding succeeds exactly up to the carrier's capacity, the boundary
/// included: a payload whose length fits the header is accepted if and only
/// if it and its four-byte header take at most `(n * k) / 8` bytes.
pub proof fn lemma_embed_boundary(len: int, n: int, k: u8)
    requires
        valid_depth(k),
        0 <= len <= u32::MAX,
        0 <= n,
    ensures
        can_embed(len, n, k) <==> 4 + len <= (n * k) / 8,
        4 + len == (n * k) / 8 ==> can_embed(len, n, k),
        4 + len == (n * k) / 8 + 1 ==> !can_embed(len, n, k),
{
}

/// A carrier whose stream is too short for a header, or whose header gives
/// a length beyond the bytes that follow it, frames no payload: extracting
/// from it fails.
pub proof fn lemma_length_beyond_carrier(channels: Seq<u8>, k: u8)
    requires
        valid_depth(k),
        unpacked(channels, k).len() < 4 || header_length(unpacked(channels, k)) > unpacked(
            channels,
            k,
        ).len() - 4,
    ensures
        unframed(unpacked(channels, k)) is None,
{
}

} // verus!
