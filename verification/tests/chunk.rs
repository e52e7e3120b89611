//! The integers of the packet table.

use opus_pure::caf::chunk::{read_varint, write_varint};

#[test]
fn varints_round_trip_at_every_width() {
    for &v in &[
        0u64,
        1,
        15,
        127,
        128,
        960,
        16_383,
        16_384,
        1 << 21,
        (1 << 35) - 1,
        u64::MAX >> 1,
        u64::MAX,
    ] {
        let mut out = Vec::new();
        write_varint(&mut out, v);
        let mut pos = 0;
        assert_eq!(read_varint(&out, &mut pos).unwrap(), v, "value {v}");
        assert_eq!(pos, out.len(), "value {v} left bytes unread");
    }
}

/// 960, the frame count Apple writes, is the two bytes FFmpeg reads it as.
#[test]
fn varints_match_the_mp4_descriptor_encoding() {
    let mut out = Vec::new();
    write_varint(&mut out, 960);
    assert_eq!(out, [0x87, 0x40]);
    let mut out = Vec::new();
    write_varint(&mut out, 15);
    assert_eq!(out, [15]);
}

#[test]
fn a_varint_that_never_terminates_is_rejected() {
    let bytes = [0xffu8; 12];
    let mut pos = 0;
    assert!(read_varint(&bytes, &mut pos).is_err());
    let mut pos = 0;
    assert!(read_varint(&[0x80, 0x80], &mut pos).is_err());
}
