//! The byte that says what a packet holds.

use opus_pure::toc::{
    channels_from_toc, frame_duration_ms_from_toc, frame_rate_from_params, gen_toc, mode_from_toc,
};
use opus_pure::{Application, Bandwidth, OpusEncoder, OpusMode, RateControl};

fn frame_size_from_toc(toc: u8, sampling_rate: i32) -> Option<usize> {
    let mode = mode_from_toc(toc);
    match mode {
        OpusMode::CeltOnly => {
            let period = ((toc >> 3) & 0x03) as i32;
            let frame_rate = 400 >> period;
            if frame_rate == 0 || sampling_rate % frame_rate != 0 {
                return None;
            }
            Some((sampling_rate / frame_rate) as usize)
        }
        OpusMode::SilkOnly => {
            let duration_ms = frame_duration_ms_from_toc(toc);
            Some((sampling_rate as i64 * duration_ms as i64 / 1000) as usize)
        }
        OpusMode::Hybrid => {
            let duration_ms = frame_duration_ms_from_toc(toc);
            Some((sampling_rate as i64 * duration_ms as i64 / 1000) as usize)
        }
    }
}

#[test]
fn gen_toc_matches_celt_reference_values() {
    let sampling_rate = 48_000;
    let cases = [
        (120usize, 0xE0u8),
        (240usize, 0xE8u8),
        (480usize, 0xF0u8),
        (960usize, 0xF8u8),
    ];

    for (frame_size, expected_toc) in cases {
        let frame_rate = frame_rate_from_params(sampling_rate, frame_size).unwrap();
        let toc = gen_toc(OpusMode::CeltOnly, frame_rate, Bandwidth::Fullband, 1);
        assert_eq!(
            toc, expected_toc,
            "frame_size {} expected TOC {:02X} got {:02X}",
            frame_size, expected_toc, toc
        );
        let decoded_size = frame_size_from_toc(toc, sampling_rate).unwrap();
        assert_eq!(decoded_size, frame_size);
    }

    let stereo_toc = gen_toc(
        OpusMode::CeltOnly,
        frame_rate_from_params(sampling_rate, 960).unwrap(),
        Bandwidth::Fullband,
        2,
    );
    assert_eq!(channels_from_toc(stereo_toc), 2);
}

/// The SILK TOC configurations, including the 60 ms one that no sample rate
/// divides evenly.
///
/// `gen_toc` finds the duration by doubling the frame rate until it reaches
/// 400, which needs `frame_rate_from_params` to hand it the *truncated*
/// 48000/2880 = 16 rather than a rounded 17: 16 doubles to 512 in five
/// steps and lands on config 3, and 17 lands on the same config only by
/// accident at 48 kHz and on the wrong one at 8 kHz.
#[test]
fn gen_toc_covers_every_silk_duration() {
    for &(rate, ms, frame_size) in &[
        (48_000i32, 10i32, 480usize),
        (48_000, 20, 960),
        (48_000, 40, 1920),
        (48_000, 60, 2880),
        (8_000, 10, 80),
        (8_000, 20, 160),
        (8_000, 40, 320),
        (8_000, 60, 480),
    ] {
        let frame_rate = frame_rate_from_params(rate, frame_size)
            .unwrap_or_else(|| panic!("{rate} Hz / {ms} ms rejected"));
        let toc = gen_toc(OpusMode::SilkOnly, frame_rate, Bandwidth::Wideband, 1);
        assert_eq!(
            frame_duration_ms_from_toc(toc),
            ms,
            "{rate} Hz / {ms} ms produced TOC {toc:02X}"
        );
        assert_eq!(mode_from_toc(toc), OpusMode::SilkOnly);
        assert_eq!(frame_size_from_toc(toc, rate).unwrap(), frame_size);
    }
}

/// `frame_rate_from_params` answers for one coded *frame*, so the durations
/// Opus can only express by packing several frames into one packet have no
/// answer here. The encoder reaches them through `PacketDuration::layout`,
/// which splits them into frames this function does recognise.
#[test]
fn frame_rate_rejects_durations_that_need_multi_frame_packets() {
    for &(rate, frame_size) in &[
        (48_000i32, 3840usize), // 80 ms
        (48_000, 4800),         // 100 ms
        (48_000, 5760),         // 120 ms
        (16_000, 1280),         // 80 ms
        (8_000, 640),           // 80 ms
    ] {
        assert!(
            frame_rate_from_params(rate, frame_size).is_none(),
            "{rate} Hz / {frame_size} samples was accepted"
        );
    }
    // And nothing that is not a frame duration at all.
    assert!(frame_rate_from_params(48_000, 0).is_none());
    assert!(frame_rate_from_params(48_000, 333).is_none());
    assert!(frame_rate_from_params(48_000, usize::MAX).is_none());
}

#[test]
fn test_invalid_small_frame_size_returns_error_not_panic() {
    let mut enc = OpusEncoder::new(48000, 2, Application::Voip).unwrap();
    enc.bitrate_bps = 64000;
    enc.complexity = 5;
    enc.rate_control = RateControl::Cbr;

    // 48 samples at 48kHz = 1ms → frame_rate=1000, invalid for Hybrid mode.
    let input = vec![0.0f32; 48 * 2]; // stereo interleaved
    let output = [0u8; 256];

    let result = enc.begin_packet(48, input.len(), output.len(), 24);
    assert!(
        result.is_err(),
        "encode with invalid frame_size=48 should return Err, not panic"
    );
}

// Also verify that the Audio application path (always Hybrid at 48 kHz) rejects
// the same bad frame size.
#[test]
fn test_invalid_small_frame_size_audio_application_returns_error() {
    let mut enc = OpusEncoder::new(48000, 1, Application::Audio).unwrap();
    let input = vec![0.0f32; 48];
    let output = [0u8; 256];

    let result = enc.begin_packet(48, input.len(), output.len(), 24);
    assert!(
        result.is_err(),
        "Audio/48kHz encoder with frame_size=48 should return Err"
    );
}
