//! Packets taken apart and put together.

use opus_pure::error::IoError;
use opus_pure::framing::split_frames;
use opus_pure::packet::samples_48k;
use opus_pure::repacketizer::take_self_delimited_into;
use opus_pure::toc::{
    channels_from_toc, frame_duration_ms_from_toc, frame_samples_from_toc, mode_from_toc,
};
use opus_pure::{Error, OpusMode, Repacketizer};

#[test]
fn every_configuration_has_a_length() {
    let lengths: Vec<usize> = (0..32).map(|c| frame_samples_from_toc(c * 8)).collect();
    let mut expected = Vec::new();
    for _ in 0..3 {
        expected.extend([480, 960, 1920, 2880]);
    }
    for _ in 0..2 {
        expected.extend([480, 960]);
    }
    for _ in 0..4 {
        expected.extend([120, 240, 480, 960]);
    }
    assert_eq!(lengths, expected);
    assert_eq!(mode_from_toc(0x60), OpusMode::Hybrid);
    assert_eq!((channels_from_toc(0xf8), channels_from_toc(0xfc)), (1, 2));
    assert_eq!(frame_duration_ms_from_toc(0x18), 60);
}

#[test]
fn packets_say_how_long_they_are() {
    assert_eq!(samples_48k(&[0xfc]).unwrap(), 960);
    assert_eq!(samples_48k(&[0xfd, 1]).unwrap(), 1920);
    assert_eq!(samples_48k(&[0xff, 6]).unwrap(), 5760);
    for (packet, why) in [
        (&[][..], "packet is empty"),
        (&[0xff][..], "packet has no frame count byte"),
        (&[0xff, 0][..], "packet has no frames"),
        (&[0xff, 7][..], "packet is longer than 120 ms"),
    ] {
        assert!(matches!(samples_48k(packet), Err(Error::InvalidPacket(w)) if w == why));
    }
}

#[test]
fn the_four_codes_hold_frames() {
    let one = split_frames(&[0xfc, 1, 2], false).unwrap();
    assert_eq!(one.frames, [vec![1, 2]]);
    let two = split_frames(&[0xfd, 1, 2, 3, 4], false).unwrap();
    assert_eq!(two.frames, [vec![1, 2], vec![3, 4]]);
    assert!(split_frames(&[0xfd, 1, 2, 3], false).is_err());
    let unequal = split_frames(&[0xfe, 1, 7, 8, 9], false).unwrap();
    assert_eq!(unequal.frames, [vec![7], vec![8, 9]]);
    assert!(split_frames(&[0xfe, 5, 7], false).is_err());
    // Three frames with lengths, and two bytes of padding.
    let three = split_frames(&[0xff, 0xc3, 2, 1, 0, 5, 6, 7, 0, 0], false).unwrap();
    assert_eq!(three.frames, [vec![5], vec![], vec![6, 7]]);
    assert_eq!((three.toc, three.consumed), (0xfc, 10));
    assert!(split_frames(&[0xff, 0], false).is_err());
    assert!(split_frames(&[0xff, 0x41, 9], false).is_err());
    // A frame is at most 1275 bytes.
    assert!(split_frames(&vec![0xfc; 1276], false).is_ok());
    assert!(split_frames(&vec![0xfc; 1277], false).is_err());
}

#[test]
fn frames_are_put_together_and_taken_apart() {
    let mut rp = Repacketizer::new();
    assert!(matches!(
        rp.out_range_impl(0, 1, None),
        Err(Error::InvalidArgument(_))
    ));
    rp.cat(&[0xf4, 1, 2]).unwrap();
    rp.cat(&[0xf5, 3, 4]).unwrap();
    assert_eq!(rp.nb_frames(), 3);
    // Another configuration does not fit.
    assert!(matches!(rp.cat(&[0xfc]), Err(Error::InvalidPacket(_))));
    let all = rp.out_range_impl(0, 3, None).unwrap();
    assert_eq!(all, [0xf7, 0x83, 2, 1, 1, 2, 3, 4]);
    assert_eq!(rp.out_range_impl(1, 3, None).unwrap(), [0xf5, 3, 4]);
    assert_eq!(rp.out_range_impl(0, 2, None).unwrap(), [0xf6, 2, 1, 2, 3]);
    assert_eq!(rp.out_range_impl(0, 1, None).unwrap(), [0xf4, 1, 2]);
    for total in 8..600 {
        let padded = rp.out_range_impl(0, 3, Some(total)).unwrap();
        assert_eq!(padded.len(), total);
        assert_eq!(
            split_frames(&padded, false).unwrap().frames,
            [vec![1, 2], vec![3], vec![4]]
        );
    }
    assert!(matches!(
        rp.out_range_impl(0, 3, Some(7)),
        Err(Error::BufferTooSmall {
            needed: 8,
            provided: 7,
            ..
        })
    ));
    rp.clear();
    assert_eq!(rp.nb_frames(), 0);
    // 120 ms is the most.
    for _ in 0..6 {
        rp.cat(&[0xfc]).unwrap();
    }
    assert!(matches!(rp.cat(&[0xfc]), Err(Error::InvalidPacket(_))));
}

#[test]
fn self_delimited_packets_say_where_they_end() {
    let mut rp = Repacketizer::new();
    rp.cat(&[0xfc, 1, 2, 3]).unwrap();
    let mut out = vec![];
    rp.out_self_delimited_into(&mut out).unwrap();
    assert_eq!(out, [0xfc, 3, 1, 2, 3]);
    out.extend([9, 9]);
    let mut plain = vec![];
    assert_eq!(take_self_delimited_into(&out, &mut plain).unwrap(), 5);
    assert_eq!(plain, [0xfc, 1, 2, 3]);
    // Long lengths take two bytes.
    rp.clear();
    rp.cat(&vec![0xfc; 1000]).unwrap();
    let mut out = vec![];
    rp.out_self_delimited_into(&mut out).unwrap();
    assert_eq!(&out[..3], &[0xfc, 255, 186]);
    assert_eq!(
        take_self_delimited_into(&out, &mut plain).unwrap(),
        out.len()
    );
    assert_eq!(plain.len(), 1000);
}

#[test]
fn errors_say_what_is_wrong() {
    assert_eq!(
        Error::InvalidArgument("no").message(),
        "invalid argument: no"
    );
    assert_eq!(
        Error::buffer_too_small(1276, 40).message(),
        "buffer too small: need 1276, got 40"
    );
    assert_eq!(Error::buffer_too_small(0, 9).message(), "buffer too small: need 0, got 9");
    assert_eq!(Error::InvalidPacket("x").message(), "invalid packet: x");
    assert_eq!(Error::InvalidStream("y").message(), "invalid stream: y");
    assert_eq!(Error::Internal("z").message(), "internal codec error: z");
    assert_eq!(
        Error::Io(IoError::UnexpectedEof).message(),
        "io error: failed to fill whole buffer"
    );
    assert_eq!(
        Error::Io(IoError::TooLarge).message(),
        "io error: the sink is full"
    );
}
