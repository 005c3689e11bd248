use secret::capacity::capacity;
use secret::codec::{pack, unpack};
use secret::error::Error;
use secret::frame::{embed, extract, frame, read_frame};

fn sample_channels(n: usize, seed: u32) -> Vec<u8> {
    let mut state = seed;
    let mut out = Vec::new();
    for _ in 0..n {
        state = state.wrapping_mul(22_695_477).wrapping_add(1);
        out.push((state >> 16) as u8);
    }
    out
}

#[test]
fn frame_prepends_little_endian_length() {
    assert_eq!(frame(&[1, 2, 3]), vec![3, 0, 0, 0, 1, 2, 3]);
    assert_eq!(frame(&[]), vec![0, 0, 0, 0]);
    let long = vec![9u8; 300];
    let framed = frame(&long);
    assert_eq!(&framed[..4], &[44, 1, 0, 0]);
    assert_eq!(&framed[4..], &long[..]);
}

#[test]
fn read_frame_takes_exactly_the_given_length() {
    assert_eq!(read_frame(&[1, 0, 0, 0, 0xab, 7, 7]), Ok(vec![0xab]));
    assert_eq!(read_frame(&[0, 0, 0, 0]), Ok(vec![]));
    assert_eq!(read_frame(&[2, 0, 0, 0, 5, 6]), Ok(vec![5, 6]));
}

#[test]
fn read_frame_rejects_short_streams() {
    assert_eq!(read_frame(&[]), Err(Error::BufEndedUnexpectedly));
    assert_eq!(read_frame(&[0, 0, 0]), Err(Error::BufEndedUnexpectedly));
    assert_eq!(read_frame(&[2, 0, 0, 0, 5]), Err(Error::BufEndedUnexpectedly));
    assert_eq!(read_frame(&[0, 1, 0, 0, 5]), Err(Error::BufEndedUnexpectedly));
    assert_eq!(read_frame(&[0xff, 0xff, 0xff, 0xff, 1, 2, 3]), Err(Error::BufEndedUnexpectedly));
}

#[test]
fn two_bit_scenario_with_one_payload_byte() {
    let mut channels = vec![0b1111_1100u8; 20];
    assert_eq!(embed(&mut channels, &[0xab], 2), Ok(()));
    let mut expected = vec![0b1111_1100u8; 20];
    // The length's low byte 0x01 in two-bit groups 01, 00, 00, 00.
    expected[0] = 0b1111_1101;
    // The payload 0xab in two-bit groups 11, 10, 10, 10.
    expected[16] = 0b1111_1111;
    expected[17] = 0b1111_1110;
    expected[18] = 0b1111_1110;
    expected[19] = 0b1111_1110;
    assert_eq!(channels, expected);
    assert_eq!(extract(&channels, 2), Ok(vec![0xab]));
}

#[test]
fn eight_channels_cannot_hold_header_and_byte_at_two_bits() {
    let mut channels = vec![0b1111_1100u8; 8];
    assert_eq!(embed(&mut channels, &[0xab], 2), Err(Error::NoFreeSpace));
    assert_eq!(channels, vec![0b1111_1100u8; 8]);
}

#[test]
fn embed_fails_without_room_and_changes_nothing() {
    for k in 1..=3u8 {
        let n = 40usize;
        let before = sample_channels(n, k as u32);
        let room = capacity(n, k) - 4;
        let mut channels = before.clone();
        assert_eq!(embed(&mut channels, &vec![1u8; room + 1], k), Err(Error::NoFreeSpace));
        assert_eq!(channels, before);
        assert_eq!(embed(&mut channels, &vec![1u8; room], k), Ok(()));
        assert_eq!(extract(&channels, k), Ok(vec![1u8; room]));
    }
}

#[test]
fn embed_fails_when_header_does_not_fit() {
    let mut channels = vec![7u8; 31];
    assert_eq!(embed(&mut channels, &[], 1), Err(Error::NoFreeSpace));
    assert_eq!(channels, vec![7u8; 31]);
    let mut enough = vec![7u8; 32];
    assert_eq!(embed(&mut enough, &[], 1), Ok(()));
}

#[test]
fn round_trip_for_every_depth() {
    for k in 1..=3u8 {
        for n in [11usize, 32, 64, 100, 257] {
            let before = sample_channels(n, 5 * n as u32 + k as u32);
            let cap = capacity(n, k);
            if cap < 4 {
                continue;
            }
            for len in [0usize, 1, (cap - 4) / 2, cap - 4] {
                if len > cap - 4 {
                    continue;
                }
                let payload = sample_channels(len, 17 + len as u32);
                let mut channels = before.clone();
                assert_eq!(embed(&mut channels, &payload, k), Ok(()));
                let keep = 0xffu8 << k;
                for (a, b) in channels.iter().zip(before.iter()) {
                    assert_eq!(a & keep, b & keep);
                }
                assert_eq!(extract(&channels, k), Ok(payload));
            }
        }
    }
}

#[test]
fn empty_payload_uses_only_the_header() {
    for k in 1..=3u8 {
        let before = sample_channels(60, 99 + k as u32);
        let mut channels = before.clone();
        assert_eq!(embed(&mut channels, &[], k), Ok(()));
        assert_eq!(extract(&channels, k), Ok(vec![]));
        let keep = 0xffu8 << k;
        for (a, b) in channels.iter().zip(before.iter()) {
            assert_eq!(*a, b & keep);
        }
        assert_eq!(&unpack(&channels, k)[..4], &[0, 0, 0, 0]);
    }
}

#[test]
fn extract_rejects_a_length_beyond_the_carrier() {
    let mut channels = vec![0x80u8; 24];
    pack(&mut channels, &[10, 0, 0, 0, 1, 2], 2);
    assert_eq!(unpack(&channels, 2), vec![10, 0, 0, 0, 1, 2]);
    assert_eq!(extract(&channels, 2), Err(Error::BufEndedUnexpectedly));

    let mut huge = vec![0u8; 48];
    pack(&mut huge, &[0xff, 0xff, 0xff, 0xff], 2);
    assert_eq!(extract(&huge, 2), Err(Error::BufEndedUnexpectedly));
}

#[test]
fn extract_rejects_a_carrier_too_small_for_a_header() {
    assert_eq!(extract(&[1, 2, 3], 1), Err(Error::BufEndedUnexpectedly));
    assert_eq!(extract(&[], 3), Err(Error::BufEndedUnexpectedly));
    assert_eq!(extract(&[0u8; 15], 2), Err(Error::BufEndedUnexpectedly));
    assert_eq!(extract(&[0u8; 16], 2), Ok(vec![]));
}

#[test]
fn extract_ignores_padding_after_the_payload() {
    let mut channels = vec![0u8; 40];
    pack(&mut channels, &[2, 0, 0, 0, 0x11, 0x22, 0x33, 0x44], 2);
    assert_eq!(extract(&channels, 2), Ok(vec![0x11, 0x22]));
}

#[test]
fn embed_accepts_payload_at_exact_capacity() {
    // 20 channels at two bits hold 5 bytes: the header and one payload byte.
    let mut channels = vec![0x40u8; 20];
    assert_eq!(capacity(20, 2), 5);
    assert_eq!(embed(&mut channels, &[0x5a], 2), Ok(()));
    assert_eq!(extract(&channels, 2), Ok(vec![0x5a]));

    // One channel fewer leaves room for the header only.
    let mut fewer = vec![0x40u8; 19];
    assert_eq!(capacity(19, 2), 4);
    assert_eq!(embed(&mut fewer, &[0x5a], 2), Err(Error::NoFreeSpace));
    assert_eq!(fewer, vec![0x40u8; 19]);
    assert_eq!(embed(&mut fewer, &[], 2), Ok(()));
}
