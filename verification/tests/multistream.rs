//! Several streams behind a channel mapping.

use opus_pure::multistream::channels::{gather, remux, silence_unmapped};
use opus_pure::multistream::packet::{MultiPacket, StreamWalk};
use opus_pure::repacketizer::take_self_delimited_into;
use opus_pure::{
    Application, Bandwidth, ChannelLayout, Error, OpusHead, OpusMSDecoder, OpusMSEncoder,
};

#[test]
fn standard_layouts() {
    let l = ChannelLayout::surround(6, 1).unwrap();
    assert_eq!((l.nb_streams, l.nb_coupled_streams), (4, 2));
    assert_eq!(l.mapping, [0, 4, 1, 2, 3, 5]);
    let l = ChannelLayout::surround(8, 1).unwrap();
    assert_eq!((l.nb_streams, l.nb_coupled_streams), (5, 3));
    assert_eq!(l.mapping, [0, 6, 1, 2, 3, 4, 5, 7]);
    for channels in 1..=8 {
        let l = ChannelLayout::surround(channels, 1).unwrap();
        let mut sorted = l.mapping.clone();
        sorted.sort();
        let all: Vec<u8> = (0..channels as u8).collect();
        assert_eq!(sorted, all);
        assert_eq!(l.nb_streams + l.nb_coupled_streams, channels);
    }
    assert!(matches!(
        ChannelLayout::surround(3, 0),
        Err(Error::InvalidArgument("family 0 supports only 1-2 channels"))
    ));
    assert!(matches!(
        ChannelLayout::surround(9, 1),
        Err(Error::InvalidArgument("family 1 supports 1-8 channels"))
    ));
    assert!(matches!(
        ChannelLayout::surround(2, 2),
        Err(Error::InvalidArgument("unsupported mapping family"))
    ));
}

#[test]
fn targets_find_their_channels() {
    let l = ChannelLayout::surround(6, 1).unwrap();
    assert_eq!(l.channels_for(ChannelLayout::left_target(1)), [3]);
    assert_eq!(l.channels_for(ChannelLayout::right_target(0)), [2]);
    assert_eq!(l.channels_for(l.mono_target(3)), [5]);
    assert_eq!(l.first_channel_for(99), None);
    let mut l = l;
    l.mapping = vec![0, 0, 1, 255, 3, 0];
    assert_eq!(l.channels_for(0), [0, 1, 5]);
    assert_eq!(l.first_channel_for(0), Some(0));
}

#[test]
fn channels_come_back_where_they_were() {
    for channels in 1..=8usize {
        let l = ChannelLayout::surround(channels, 1).unwrap();
        let input: Vec<i32> = (0..5 * channels as i32).collect();
        let mut out = vec![-1; input.len()];
        for s in 0..l.nb_streams {
            let stream = gather(&l, &input, 5, s, 0);
            let sc = if s < l.nb_coupled_streams { 2 } else { 1 };
            assert_eq!(stream.len(), 5 * sc);
            remux(&l, s, &stream, 5, &mut out);
        }
        silence_unmapped(&l, 5, 0, &mut out);
        assert_eq!(out, input);
    }
}

/// A channel that no stream feeds is silent, and one that feeds none is coded as
/// silence.
#[test]
fn unmapped_channels_are_silent() {
    let l = ChannelLayout {
        mapping_family: 1,
        nb_channels: 3,
        nb_streams: 1,
        nb_coupled_streams: 1,
        mapping: vec![0, 255, 0],
    };
    let stream = gather(&l, &[1, 2, 3, 4, 5, 6], 2, 0, 9);
    assert_eq!(stream, [1, 9, 4, 9]);
    let mut out = vec![7; 6];
    remux(&l, 0, &stream, 2, &mut out);
    silence_unmapped(&l, 2, 0, &mut out);
    assert_eq!(out, [1, 0, 1, 4, 0, 4]);
}

#[test]
fn streams_come_apart_again() {
    let packets: Vec<Vec<u8>> = vec![
        vec![0xfc, 1, 2, 3],
        // Two frames, then one with padding.
        vec![0xfd, 1, 2, 3, 4],
        vec![0xff, 0x41, 2, 9, 9, 0, 0],
        vec![0xfc; 300],
    ];
    let mut p = MultiPacket::new(4);
    for packet in &packets {
        p.add_stream(packet).unwrap();
    }
    let mut out = vec![0u8; 1000];
    let n = p.finish(&mut out).unwrap();
    let mut small = vec![0u8; n - 1];
    assert!(matches!(
        p.finish(&mut small),
        Err(Error::BufferTooSmall { needed, provided, .. }) if needed == n && provided == n - 1
    ));
    let mut walk = StreamWalk::new(&out[..n], 4);
    assert_eq!(walk.next_packet().unwrap(), packets[0]);
    assert_eq!(walk.next_packet().unwrap(), packets[1]);
    // The padding is gone.
    assert_eq!(walk.next_packet().unwrap(), [0xfc, 9, 9]);
    assert_eq!(walk.next_packet().unwrap(), packets[3]);
}

#[test]
fn broken_streams_are_refused() {
    let mut p = MultiPacket::new(2);
    assert!(matches!(p.add_stream(&[]), Err(Error::InvalidPacket(_))));
    let mut walk = StreamWalk::new(&[0xfc, 200, 1], 2);
    assert!(matches!(walk.next_packet(), Err(Error::InvalidPacket(_))));
    let mut out = vec![1, 2];
    assert!(take_self_delimited_into(&[], &mut out).is_err());
    assert_eq!(out, [1, 2]);
}

#[test]
fn the_bitrate_is_split_by_channel() {
    let mut e = OpusMSEncoder::new(48_000, 6, 1, Application::Audio).unwrap();
    assert_eq!(e.bitrate_bps(), 384_000);
    assert_eq!((e.nb_streams(), e.channels(), e.sample_rate()), (4, 6, 48_000));
    let rates: Vec<i32> = e.streams().iter().map(|s| s.bitrate_bps).collect();
    assert_eq!(rates, [128_000, 128_000, 64_000, 64_000]);
    e.set_bitrate(100_000);
    let rates: Vec<i32> = e.streams().iter().map(|s| s.bitrate_bps).collect();
    assert_eq!(rates, [33_332, 33_332, 16_666, 16_666]);
    for s in e.streams_mut() {
        s.use_inband_fec = true;
        s.packet_loss_perc = 10;
    }
    e.set_max_bandwidth(Bandwidth::Wideband);
    assert!(e
        .streams()
        .iter()
        .all(|s| s.use_inband_fec && s.max_bandwidth == Bandwidth::Wideband));
    e.reset_state().unwrap();
    assert!(e.streams().iter().all(|s| s.packet_loss_perc == 10));
    let channels: Vec<usize> = e.streams().iter().map(|s| s.channels()).collect();
    assert_eq!(channels, [2, 2, 1, 1]);
    let input: Vec<i32> = (0..12).collect();
    assert_eq!(e.stream_input(&input, 2, 0, 0).unwrap(), [0, 2, 6, 8]);
    assert!(matches!(
        e.stream_input(&input[..11], 2, 0, 0),
        Err(Error::InvalidArgument(_))
    ));
    assert!(OpusMSEncoder::new(44_100, 6, 1, Application::Audio).is_err());
    assert!(OpusMSEncoder::new(48_000, 9, 1, Application::Audio).is_err());
}

#[test]
fn decoders_check_their_output() {
    let d = OpusMSDecoder::new(48_000, 6, 1).unwrap();
    assert_eq!((d.nb_streams(), d.channels(), d.sample_rate()), (4, 6, 48_000));
    assert_eq!((d.stream_channels(0), d.stream_channels(3)), (2, 1));
    assert_eq!(d.layout().mapping, [0, 4, 1, 2, 3, 5]);
    assert!(matches!(
        d.begin(&[], 960, 960 * 6 - 1),
        Err(Error::BufferTooSmall {
            needed: 960,
            provided: 959,
            ..
        })
    ));
    // The sizes are samples per channel.
    let stereo = OpusMSDecoder::new(48_000, 2, 0).unwrap();
    assert!(matches!(
        stereo.begin(&[], 960, 960),
        Err(Error::BufferTooSmall {
            needed: 960,
            provided: 480,
            ..
        })
    ));
    assert!(d.begin(&[0], 960, 5760).is_ok());
    assert!(OpusMSDecoder::new(7, 6, 1).is_err());
    assert!(OpusMSDecoder::new(48_000, 6, 0).is_err());
}

#[test]
fn headers_describe_the_layout() {
    let l = ChannelLayout::surround(6, 1).unwrap();
    let h = OpusHead::for_layout(&l, 44_100);
    assert!(h.is_valid());
    assert_eq!((h.channel_count, h.stream_count, h.coupled_count), (6, 4, 2));
    assert_eq!(OpusHead::parse(&h.to_bytes()).unwrap(), h);
    let stereo = ChannelLayout::surround(2, 0).unwrap();
    assert_eq!(
        OpusHead::for_layout(&stereo, 48_000),
        OpusHead::new(2, 48_000).unwrap()
    );
}
