//! The bit codec: writes a byte stream into the low bits of channel values
//! and reads it back out.
//!
//! The stream is read least significant bit first within each byte. Channel
//! `i` carries stream bits `i * k .. i * k + k`, stream bit `i * k + s` being
//! bit `s` of the channel value. A stream bit may thus share a channel with
//! bits of the next byte when `k` does not divide 8.
use vstd::prelude::*;

use crate::capacity::capacity_of;
use crate::valid_depth;

verus! {

/// Bit `t` (0 is the least significant) of `v`.
pub open spec fn bit(v: u8, t: u8) -> bool {
    (v >> t) & 1 == 1
}

/// The byte whose only set bit, if any, is bit `t`, set when `b` holds.
pub open spec fn bit_value(b: bool, t: u8) -> u8 {
    if b {
        1u8 << t
    } else {
        0
    }
}

/// Mask of the bits of a channel value that the codec never changes.
pub open spec fn upper_mask(k: u8) -> u8 {
    0xffu8 << k
}

/// The byte whose low `k` bits are `b0`, `b1`, `b2` (from the least
/// significant up) and whose other bits are clear.
pub open spec fn low_bits(b0: bool, b1: bool, b2: bool, k: u8) -> u8 {
    bit_value(b0, 0) | (if k >= 2 {
        bit_value(b1, 1)
    } else {
        0
    }) | (if k >= 3 {
        bit_value(b2, 2)
    } else {
        0
    })
}

/// Bit `p` of the stream that `data` forms; past its end the stream is zero.
pub open spec fn stream_bit(data: Seq<u8>, p: int) -> bool {
    0 <= p < data.len() * 8 && bit(data[p / 8], (p % 8) as u8)
}

/// The `k` stream bits from position `p` on, as the low bits of a byte.
pub open spec fn chunk(data: Seq<u8>, p: int, k: u8) -> u8 {
    low_bits(stream_bit(data, p), stream_bit(data, p + 1), stream_bit(data, p + 2), k)
}

/// The channel values after `data` has been written into `channels`: the low
/// `k` bits of each value replaced by the stream bits that fall to it.
pub open spec fn packed(channels: Seq<u8>, data: Seq<u8>, k: u8) -> Seq<u8> {
    Seq::new(
        channels.len(),
        |i: int| (channels[i] & upper_mask(k)) | chunk(data, i * k, k),
    )
}

/// The stream bits that `channels` carry at `k` bits each, in order.
pub open spec fn carried(channels: Seq<u8>, k: u8) -> Seq<bool> {
    Seq::new((channels.len() * k) as nat, |p: int| bit(channels[p / (k as int)], (p % (k as int)) as u8))
}

/// The byte made of `bits[s .. s + 8]`, least significant bit first.
pub open spec fn byte_of(bits: Seq<bool>, s: int) -> u8 {
    bit_value(bits[s], 0) | bit_value(bits[s + 1], 1) | bit_value(bits[s + 2], 2) | bit_value(
        bits[s + 3],
        3,
    ) | bit_value(bits[s + 4], 4) | bit_value(bits[s + 5], 5) | bit_value(bits[s + 6], 6)
        | bit_value(bits[s + 7], 7)
}

/// The whole bytes that `channels` carry at `k` bits each.
pub open spec fn unpacked(channels: Seq<u8>, k: u8) -> Seq<u8> {
    Seq::new(
        capacity_of(channels.len() as int, k as int) as nat,
        |j: int| byte_of(carried(channels, k), 8 * j),
    )
}

/// A byte is the sum of its bits.
proof fn lemma_byte_from_bits(v: u8)
    ensures
        v == bit_value(bit(v, 0), 0) | bit_value(bit(v, 1), 1) | bit_value(bit(v, 2), 2)
            | bit_value(bit(v, 3), 3) | bit_value(bit(v, 4), 4) | bit_value(bit(v, 5), 5)
            | bit_value(bit(v, 6), 6) | bit_value(bit(v, 7), 7),
{
    assert(v == bit_value(bit(v, 0), 0) | bit_value(bit(v, 1), 1) | bit_value(bit(v, 2), 2)
        | bit_value(bit(v, 3), 3) | bit_value(bit(v, 4), 4) | bit_value(bit(v, 5), 5)
        | bit_value(bit(v, 6), 6) | bit_value(bit(v, 7), 7)) by (bit_vector);
}

/// A byte whose bits are `bits[s .. s + 8]` is `byte_of(bits, s)`.
proof fn lemma_byte_of(v: u8, bits: Seq<bool>, s: int)
    requires
        0 <= s,
        s + 8 <= bits.len(),
        forall|t: u8| t < 8 ==> bit(v, t) == bits[s + t],
    ensures
        byte_of(bits, s) == v,
{
    lemma_byte_from_bits(v);
    assert(bit(v, 0) == bits[s + 0]);
    assert(bit(v, 1) == bits[s + 1]);
    assert(bit(v, 2) == bits[s + 2]);
    assert(bit(v, 3) == bits[s + 3]);
    assert(bit(v, 4) == bits[s + 4]);
    assert(bit(v, 5) == bits[s + 5]);
    assert(bit(v, 6) == bits[s + 6]);
    assert(bit(v, 7) == bits[s + 7]);
}

/// Writing low bits into a channel value keeps its upper bits and sets its
/// low bits as given.
proof fn lemma_low_bits(v: u8, b0: bool, b1: bool, b2: bool, k: u8)
    requires
        1 <= k <= 3,
    ensures
        ((v & upper_mask(k)) | low_bits(b0, b1, b2, k)) & upper_mask(k) == v & upper_mask(k),
        bit((v & upper_mask(k)) | low_bits(b0, b1, b2, k), 0) == b0,
        k >= 2 ==> bit((v & upper_mask(k)) | low_bits(b0, b1, b2, k), 1) == b1,
        k >= 3 ==> bit((v & upper_mask(k)) | low_bits(b0, b1, b2, k), 2) == b2,
{
    assert(((v & upper_mask(k)) | low_bits(b0, b1, b2, k)) & upper_mask(k) == v & upper_mask(k))
        by (bit_vector)
        requires
            1 <= k <= 3,
    ;
    assert(bit((v & upper_mask(k)) | low_bits(b0, b1, b2, k), 0) == b0) by (bit_vector)
        requires
            1 <= k <= 3,
    ;
    assert(k >= 2 ==> bit((v & upper_mask(k)) | low_bits(b0, b1, b2, k), 1) == b1)
        by (bit_vector)
        requires
            1 <= k <= 3,
    ;
    assert(k >= 3 ==> bit((v & upper_mask(k)) | low_bits(b0, b1, b2, k), 2) == b2)
        by (bit_vector)
        requires
            1 <= k <= 3,
    ;
}

/// Bit `q` of the sixteen-bit window whose low byte is `lo` and whose high
/// byte is `hi`.
pub open spec fn window_bit(lo: u8, hi: u8, q: u8) -> bool {
    if q < 8 {
        bit(lo, q)
    } else {
        bit(hi, (q - 8) as u8)
    }
}

/// Reading `k` bits at offset `o` of a two-byte window.
proof fn lemma_window(lo: u8, hi: u8, o: u8, k: u8)
    requires
        o < 8,
        1 <= k <= 3,
    ensures
        ((((lo as u16) | ((hi as u16) << 8u16)) >> (o as u16)) as u8) & !upper_mask(k) == low_bits(
            window_bit(lo, hi, o),
            window_bit(lo, hi, (o + 1) as u8),
            window_bit(lo, hi, (o + 2) as u8),
            k,
        ),
{
    assert(((((lo as u16) | ((hi as u16) << 8u16)) >> (o as u16)) as u8) & !upper_mask(k)
        == low_bits(
        window_bit(lo, hi, o),
        window_bit(lo, hi, (o + 1) as u8),
        window_bit(lo, hi, (o + 2) as u8),
        k,
    )) by (bit_vector)
        requires
            o < 8,
            1 <= k <= 3,
    ;
}

/// The stream bits at byte `b`, offset `o + t`, are those of the window over
/// bytes `b` and `b + 1` of `data`.
proof fn lemma_stream_window(data: Seq<u8>, b: int, o: u8, t: u8, lo: u8, hi: u8)
    requires
        0 <= b,
        o < 8,
        t < 3,
        lo == (if b < data.len() {
            data[b]
        } else {
            0u8
        }),
        hi == (if b + 1 < data.len() {
            data[b + 1]
        } else {
            0u8
        }),
    ensures
        stream_bit(data, b * 8 + o + t) == window_bit(lo, hi, (o + t) as u8),
{
    let q = (o + t) as u8;
    assert(forall|x: u8| x < 8 ==> !bit(0u8, x)) by (bit_vector);
    let p = b * 8 + o + t;
    if q < 8 {
        assert(p / 8 == b && p % 8 == q as int);
    } else {
        assert(p / 8 == b + 1 && p % 8 == q - 8);
    }
}

/// Writes `data` into the low `k` bits of each value of `channels`, in order,
/// from the first value to the last. Once `data` runs out the remaining low
/// bits are cleared; stream bits beyond the last channel are not written.
pub fn pack(channels: &mut Vec<u8>, data: &[u8], k: u8)
    requires
        valid_depth(k),
    ensures
        final(channels)@ == packed(old(channels)@, data@, k),
        forall|i: int|
            0 <= i < final(channels)@.len() ==> #[trigger] final(channels)@[i] & upper_mask(k)
                == old(channels)@[i] & upper_mask(k),
{
    let n = channels.len();
    let ghost start = channels@;
    let keep: u8 = 0xffu8 << k;
    let mut i: usize = 0;
    let mut b: usize = 0;
    let mut o: u8 = 0;
    while i < n
        invariant
            valid_depth(k),
            keep == upper_mask(k),
            n == channels@.len(),
            n == start.len(),
            i <= n,
            o < 8,
            b * 8 + o == i * k,
            forall|j: int| 0 <= j < i ==> channels@[j] == packed(start, data@, k)[j],
            forall|j: int| i <= j < n ==> channels@[j] == start[j],
        decreases n - i,
    {
        assert(b * 8 <= i * 3) by (nonlinear_arith)
            requires
                b * 8 + o == i * k,
                k <= 3,
                o >= 0,
        ;
        let lo: u8 = if b < data.len() {
            data[b]
        } else {
            0
        };
        let hi: u8 = if b < data.len() && data.len() - b > 1 {
            data[b + 1]
        } else {
            0
        };
        let window: u16 = (lo as u16) | ((hi as u16) << 8u16);
        let low: u8 = ((window >> (o as u16)) as u8) & !keep;
        let old_value = channels[i];
        let value: u8 = (old_value & keep) | low;
        proof {
            lemma_window(lo, hi, o, k);
            lemma_stream_window(data@, b as int, o, 0, lo, hi);
            lemma_stream_window(data@, b as int, o, 1, lo, hi);
            lemma_stream_window(data@, b as int, o, 2, lo, hi);
            assert(low == chunk(data@, i * k, k));
        }
        channels.set(i, value);
        o = o + k;
        if o >= 8 {
            o = o - 8;
            b = b + 1;
        }
        assert((i + 1) * k == i * k + k) by (nonlinear_arith);
        i = i + 1;
    }
    proof {
        assert(channels@ =~= packed(start, data@, k));
        lemma_packed_upper(start, data@, k);
    }
}

/// Packing keeps every bit of each channel value above its low `k` bits.
pub proof fn lemma_packed_upper(channels: Seq<u8>, data: Seq<u8>, k: u8)
    requires
        valid_depth(k),
    ensures
        forall|i: int|
            0 <= i < channels.len() ==> #[trigger] packed(channels, data, k)[i] & upper_mask(k)
                == channels[i] & upper_mask(k),
{
    assert forall|i: int| 0 <= i < channels.len() implies #[trigger] packed(channels, data, k)[i]
        & upper_mask(k) == channels[i] & upper_mask(k) by {
        lemma_low_bits(
            channels[i],
            stream_bit(data, i * k),
            stream_bit(data, i * k + 1),
            stream_bit(data, i * k + 2),
            k,
        );
    }
}

/// Bit `t` of a sixteen-bit value.
pub open spec fn bit16(v: u16, t: u16) -> bool {
    (v >> t) & 1 == 1
}

/// Adding the low `k` bits of `c` above the `n` bits held in `acc`.
proof fn lemma_accumulate(acc: u16, n: u16, c: u8, k: u8, t: u16)
    requires
        n < 8,
        1 <= k <= 3,
        acc >> n == 0,
        t < 16,
    ensures
        (acc | (((c & !upper_mask(k)) as u16) << n)) >> (n + k as u16) == 0,
        t < n ==> bit16(acc | (((c & !upper_mask(k)) as u16) << n), t) == bit16(acc, t),
        n <= t < n + k as u16 ==> bit16(acc | (((c & !upper_mask(k)) as u16) << n), t) == bit(
            c,
            (t - n) as u8,
        ),
{
    assert((acc | (((c & !upper_mask(k)) as u16) << n)) >> (n + k as u16) == 0) by (bit_vector)
        requires
            n < 8,
            1 <= k <= 3,
            acc >> n == 0,
    ;
    assert(t < n ==> bit16(acc | (((c & !upper_mask(k)) as u16) << n), t) == bit16(acc, t))
        by (bit_vector)
        requires
            n < 8,
            1 <= k <= 3,
            acc >> n == 0,
            t < 16,
    ;
    assert(n <= t < n + k as u16 ==> bit16(acc | (((c & !upper_mask(k)) as u16) << n), t) == bit(
        c,
        (t - n) as u8,
    )) by (bit_vector)
        requires
            n < 8,
            1 <= k <= 3,
            acc >> n == 0,
            t < 16,
    ;
}

/// Taking the low byte off a value of up to eleven bits.
proof fn lemma_take_byte(acc: u16, n: u16, t: u16)
    requires
        8 <= n < 11,
        acc >> n == 0,
        t < 8,
    ensures
        bit(acc as u8, t as u8) == bit16(acc, t),
        bit16(acc >> 8u16, t) == bit16(acc, (t + 8) as u16),
        (acc >> 8u16) >> ((n - 8) as u16) == 0,
{
    assert(bit(acc as u8, t as u8) == bit16(acc, t)) by (bit_vector)
        requires
            t < 8,
    ;
    assert(bit16(acc >> 8u16, t) == bit16(acc, (t + 8) as u16)) by (bit_vector)
        requires
            t < 8,
    ;
    assert((acc >> 8u16) >> ((n - 8) as u16) == 0) by (bit_vector)
        requires
            8 <= n < 11,
            acc >> n == 0,
    ;
}

/// Stream bit `i * k + s` sits in bit `s` of channel `i`.
proof fn lemma_carried_index(channels: Seq<u8>, k: u8, i: int, s: int)
    requires
        valid_depth(k),
        0 <= i < channels.len(),
        0 <= s < k,
    ensures
        i * k + s < channels.len() * k,
        carried(channels, k)[i * k + s] == bit(channels[i], s as u8),
{
    let p = i * k + s;
    if k == 1 {
        assert(p / 1 == i && p % 1 == s);
    } else if k == 2 {
        assert(p / 2 == i && p % 2 == s);
    } else {
        assert(p / 3 == i && p % 3 == s);
    }
    assert(i * k + s < channels.len() * k) by (nonlinear_arith)
        requires
            0 <= i < channels.len(),
            0 <= s < k,
    ;
}

/// Reads the low `k` bits of each value of `channels`, in order, as a byte
/// stream, and returns the whole bytes of it; bits that do not fill a last
/// byte are dropped.
pub fn unpack(channels: &[u8], k: u8) -> (r: Vec<u8>)
    requires
        valid_depth(k),
    ensures
        r@ == unpacked(channels@, k),
        r@.len() == capacity_of(channels@.len() as int, k as int),
{
    let n = channels.len();
    let ghost bits = carried(channels@, k);
    let keep: u8 = 0xffu8 << k;
    let mut out: Vec<u8> = Vec::new();
    let mut acc: u16 = 0;
    let mut held: u16 = 0;
    let mut i: usize = 0;
    assert(0u16 >> 0u16 == 0) by (bit_vector);
    while i < n
        invariant
            valid_depth(k),
            keep == upper_mask(k),
            n == channels@.len(),
            bits == carried(channels@, k),
            i <= n,
            held < 8,
            acc >> held == 0,
            out@.len() * 8 + held == i * k,
            forall|t: u16| t < held ==> bit16(acc, t) == bits[out@.len() * 8 + t],
            forall|j: int| 0 <= j < out@.len() ==> out@[j] == byte_of(bits, 8 * j),
        decreases n - i,
    {
        let c = channels[i];
        let next: u16 = acc | (((c & !keep) as u16) << held);
        proof {
            assert forall|t: u16| t < held + k implies bit16(next, t) == bits[out@.len() * 8
                + t] by {
                lemma_accumulate(acc, held, c, k, t);
                if t >= held {
                    lemma_carried_index(channels@, k, i as int, (t - held) as int);
                }
            }
            lemma_accumulate(acc, held, c, k, 0);
        }
        acc = next;
        held = held + k as u16;
        if held >= 8 {
            proof {
                let byte = acc as u8;
                let s: int = (out@.len() * 8) as int;
                assert forall|t: u8| t < 8 implies bit(byte, t) == bits[s + t] by {
                    lemma_take_byte(acc, held, t as u16);
                }
                assert(s + 8 <= bits.len()) by (nonlinear_arith)
                    requires
                        s + held == i * k + k,
                        held >= 8,
                        bits.len() == n * k,
                        i < n,
                ;
                lemma_byte_of(byte, bits, s);
                assert forall|t: u16| t < held - 8 implies bit16(acc >> 8u16, t) == bits[s + 8
                    + t] by {
                    lemma_take_byte(acc, held, t);
                }
                lemma_take_byte(acc, held, 0);
            }
            out.push(acc as u8);
            acc = acc >> 8u16;
            held = held - 8;
        }
        assert((i + 1) * k == i * k + k) by (nonlinear_arith);
        i = i + 1;
    }
    proof {
        assert(out@.len() == (n * k) / 8);
        assert(out@ =~= unpacked(channels@, k));
    }
    out
}

/// The bits that packed channels carry are the stream bits of the data.
proof fn lemma_packed_carried(channels: Seq<u8>, data: Seq<u8>, k: u8, p: int)
    requires
        valid_depth(k),
        0 <= p < channels.len() * k,
    ensures
        carried(packed(channels, data, k), k)[p] == stream_bit(data, p),
{
    let kk = k as int;
    let i = p / kk;
    let s = p % kk;
    if k == 1 {
        assert(i == p && s == 0);
    } else if k == 2 {
        assert(p == i * 2 + s && 0 <= s < 2);
    } else {
        assert(p == i * 3 + s && 0 <= s < 3);
    }
    assert(0 <= i < channels.len()) by (nonlinear_arith)
        requires
            0 <= p < channels.len() * kk,
            i == p / kk,
            kk >= 1,
    ;
    lemma_low_bits(
        channels[i],
        stream_bit(data, i * k),
        stream_bit(data, i * k + 1),
        stream_bit(data, i * k + 2),
        k,
    );
}

/// Reading back packed channels gives the data written, followed by zero
/// bytes up to the carrier's capacity.
pub proof fn lemma_unpack_packed(channels: Seq<u8>, data: Seq<u8>, k: u8)
    requires
        valid_depth(k),
        data.len() <= capacity_of(channels.len() as int, k as int),
    ensures
        unpacked(packed(channels, data, k), k).len() == capacity_of(
            channels.len() as int,
            k as int,
        ),
        unpacked(packed(channels, data, k), k).subrange(0, data.len() as int) == data,
        forall|j: int|
            data.len() <= j < capacity_of(channels.len() as int, k as int) ==> #[trigger] unpacked(
                packed(channels, data, k),
                k,
            )[j] == 0,
{
    let after = packed(channels, data, k);
    let out = unpacked(after, k);
    let bits = carried(after, k);
    let cap = capacity_of(channels.len() as int, k as int);
    assert forall|j: int| 0 <= j < cap implies #[trigger] out[j] == (if j < data.len() {
        data[j]
    } else {
        0u8
    }) by {
        let v = if j < data.len() {
            data[j]
        } else {
            0u8
        };
        assert(8 * j + 8 <= channels.len() * k);
        assert forall|t: u8| t < 8 implies bit(v, t) == bits[8 * j + t] by {
            lemma_packed_carried(channels, data, k, 8 * j + t);
            assert((8 * j + t) / 8 == j && (8 * j + t) % 8 == t as int);
            assert(forall|x: u8| x < 8 ==> !bit(0u8, x)) by (bit_vector);
        }
        lemma_byte_of(v, bits, 8 * j);
    }
    assert(out.subrange(0, data.len() as int) =~= data);
}

/// Writes `data` into the two low bits of each value of `bytes`.
pub fn write_bits_to_bytes(bytes: &mut Vec<u8>, data: &[u8])
    ensures
        final(bytes)@ == packed(old(bytes)@, data@, 2),
{
    pack(bytes, data, 2);
}

/// Reads the whole bytes carried in the two low bits of each value of `bytes`.
pub fn read_bits_from_bytes(bytes: &Vec<u8>) -> (r: Vec<u8>)
    ensures
        r@ == unpacked(bytes@, 2),
{
    unpack(bytes.as_slice(), 2)
}

} // verus!
