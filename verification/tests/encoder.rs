//! What the encoder decides, packet by packet and frame by frame.

use opus_pure::encoder::coding::{payload_len, CodedFrame, FrameInput, SilkState};
use opus_pure::encoder::control::{Content, MusicProbability};
use opus_pure::encoder::duration::{max_header_bytes, PacketDuration};
use opus_pure::encoder::emit::emit_one_frame_packet;
use opus_pure::encoder::frame::{
    celt_budget, celt_endband_for_bandwidth, dtx_step, frame_budget, has_redundancy_flag,
    is_codable, lbrr_gain_increases, silk_internal_khz, smooth_hp, FrameBudget, SilkFrame,
};
use opus_pure::encoder::input::{deinterleave, silk_tail, AnalysisUse};
use opus_pure::encoder::rates::{
    bits_to_bitrate, bitrate_to_bits, celt_can_code_frame, celt_delay_samples,
    celt_prefill_samples, celt_upsample, clamp_bandwidth_to_rate, compute_equiv_rate,
    compute_mode_threshold, decide_fec,
};
use opus_pure::encoder::split::{SplitBudget, SplitPacket};
use opus_pure::encoder::timeline::Timeline;
use opus_pure::framing::split_frames;
use opus_pure::toc::{frame_samples_from_toc, mode_from_toc};
use opus_pure::{
    Application, Bandwidth, Error, OpusEncoder, OpusMode, RateControl, Signal, MAX_PACKET_BYTES,
};

fn encoder(rate: i32, channels: usize, application: Application) -> OpusEncoder {
    OpusEncoder::new(rate, channels, application).unwrap()
}

/// Decide one packet of nothing in particular.
fn decide(e: &mut OpusEncoder, frame_size: usize) -> opus_pure::encoder::control::PacketPlan {
    let n = frame_size * e.channels();
    let d = e.begin_packet(frame_size, n, 4000, 24).unwrap();
    e.observe(false, None);
    e.decide_packet(d, frame_size)
}

#[test]
fn new_encoders_check_their_arguments() {
    for rate in [8000, 12000, 16000, 24000, 48000] {
        for channels in [1, 2] {
            let e = encoder(rate, channels, Application::Audio);
            assert_eq!(e.sample_rate(), rate);
            assert_eq!(e.channels(), channels);
            assert_eq!(e.bitrate_bps, 64_000);
            assert_eq!(e.final_range(), 0);
        }
    }
    assert!(matches!(
        OpusEncoder::new(44_100, 2, Application::Audio),
        Err(Error::InvalidArgument("Invalid sampling rate"))
    ));
    assert!(matches!(
        OpusEncoder::new(48_000, 3, Application::Audio),
        Err(Error::InvalidArgument("Invalid number of channels"))
    ));
}

#[test]
fn lookahead_depends_on_the_application() {
    assert_eq!(encoder(48_000, 2, Application::Audio).lookahead(), 312);
    assert_eq!(encoder(48_000, 2, Application::Voip).lookahead(), 312);
    assert_eq!(
        encoder(48_000, 2, Application::RestrictedLowDelay).lookahead(),
        120
    );
    assert_eq!(encoder(16_000, 1, Application::Audio).lookahead(), 104);
}

#[test]
fn packets_are_checked_before_anything_advances() {
    let mut e = encoder(48_000, 2, Application::Audio);
    e.bitrate_bps = -1000;
    assert!(matches!(
        e.begin_packet(960, 1920, 4000, 24),
        Err(Error::InvalidArgument(_))
    ));
    e.bitrate_bps = 1;
    e.complexity = 99;
    e.packet_loss_perc = -3;
    e.lsb_depth = 40;
    assert!(matches!(
        e.begin_packet(960, 1920, 1, 24),
        Err(Error::BufferTooSmall {
            needed: 2,
            provided: 1,
            ..
        })
    ));
    assert_eq!(
        (e.bitrate_bps, e.complexity, e.packet_loss_perc, e.lsb_depth),
        (500, 10, 0, 24)
    );
    assert!(matches!(
        e.begin_packet(961, 1922, 4000, 24),
        Err(Error::InvalidArgument("Invalid frame size for sampling rate"))
    ));
    assert!(matches!(
        e.begin_packet(960, 1919, 4000, 24),
        Err(Error::InvalidArgument("input is shorter than frame_size * channels"))
    ));
    assert_eq!(e.begin_packet(960, 1920, 4000, 24).unwrap().tenths_ms, 200);
    e.bitrate_bps = i32::MAX;
    e.begin_packet(960, 1920, 4000, 24).unwrap();
    assert_eq!(e.bitrate_bps, 600_000);
}

#[test]
fn music_at_a_high_rate_is_celt() {
    let mut e = encoder(48_000, 2, Application::Audio);
    let plan = decide(&mut e, 960);
    assert_eq!(plan.mode, OpusMode::CeltOnly);
    assert_eq!(plan.bandwidth, Bandwidth::Fullband);
    assert_eq!(
        (plan.layout.enc_frame_size, plan.layout.nb_frames, plan.layout.frame_rate),
        (960, 1, 50)
    );
}

#[test]
fn speech_at_a_low_rate_is_silk_or_hybrid() {
    let mut e = encoder(48_000, 1, Application::Voip);
    e.bitrate_bps = 24_000;
    let plan = decide(&mut e, 960);
    assert_eq!((plan.mode, plan.bandwidth), (OpusMode::Hybrid, Bandwidth::Fullband));

    let mut e = encoder(48_000, 1, Application::Voip);
    e.bitrate_bps = 12_000;
    let plan = decide(&mut e, 960);
    assert_eq!((plan.mode, plan.bandwidth), (OpusMode::SilkOnly, Bandwidth::Wideband));
    // 60 ms is one frame for SILK, and three for CELT.
    let plan = decide(&mut e, 2880);
    assert_eq!((plan.layout.nb_frames, plan.layout.frame_rate), (1, 16));
    let mut e = encoder(48_000, 2, Application::Audio);
    let plan = decide(&mut e, 2880);
    assert_eq!((plan.layout.nb_frames, plan.layout.enc_frame_size), (3, 960));
}

#[test]
fn short_packets_and_low_delay_are_celt() {
    let mut e = encoder(48_000, 1, Application::Voip);
    e.bitrate_bps = 12_000;
    assert_eq!(decide(&mut e, 120).mode, OpusMode::CeltOnly);
    let mut e = encoder(16_000, 1, Application::RestrictedLowDelay);
    e.bitrate_bps = 8_000;
    assert_eq!(decide(&mut e, 320).mode, OpusMode::CeltOnly);
}

#[test]
fn content_and_overrides_steer_the_decision() {
    let mut e = encoder(48_000, 1, Application::Audio);
    e.bitrate_bps = 32_000;
    assert_eq!(e.music_probability(), MusicProbability::Plain);
    e.signal_type = Some(Signal::Voice);
    assert_eq!(e.compute_voice_est(), 127);
    assert_eq!(decide(&mut e, 960).mode, OpusMode::Hybrid);
    e.signal_type = Some(Signal::Music);
    assert_eq!(e.compute_voice_est(), 0);
    e.signal_type = None;
    e.observe(
        false,
        Some(Content {
            voice_ratio: 100,
            bandwidth: 12,
        }),
    );
    assert_eq!(e.compute_voice_est(), 115);
    e.force_bandwidth = Some(Bandwidth::Narrowband);
    e.signal_type = Some(Signal::Voice);
    assert_eq!(decide(&mut e, 960).bandwidth, Bandwidth::Narrowband);
    // A cap keeps wideband for speech above 16 kHz input.
    e.force_bandwidth = None;
    e.max_bandwidth = Bandwidth::Narrowband;
    assert_eq!(decide(&mut e, 960).bandwidth, Bandwidth::Wideband);
}

#[test]
fn resetting_keeps_the_settings() {
    let mut e = encoder(48_000, 1, Application::Voip);
    e.bitrate_bps = 20_000;
    e.use_dtx = true;
    decide(&mut e, 960);
    e.reset_state().unwrap();
    assert_eq!(e.bitrate_bps, 20_000);
    assert!(e.use_dtx);
    assert_eq!(e.music_probability(), MusicProbability::Plain);
}

#[test]
fn durations_are_the_nine_there_are() {
    for (size, tenths) in [
        (120, 25),
        (240, 50),
        (480, 100),
        (960, 200),
        (1920, 400),
        (2880, 600),
        (3840, 800),
        (4800, 1000),
        (5760, 1200),
    ] {
        assert_eq!(
            PacketDuration::classify(48_000, size).unwrap().tenths_ms,
            tenths
        );
    }
    assert!(PacketDuration::classify(48_000, 0).is_none());
    assert!(PacketDuration::classify(48_000, 48).is_none());
    let d = PacketDuration::classify(8_000, 960).unwrap();
    let silk = d.layout(8_000, OpusMode::SilkOnly);
    assert_eq!((silk.enc_frame_size, silk.nb_frames), (480, 2));
    let celt = d.layout(8_000, OpusMode::CeltOnly);
    assert_eq!((celt.enc_frame_size, celt.nb_frames), (160, 6));
    assert_eq!(max_header_bytes(2), 3);
    assert_eq!(max_header_bytes(6), 12);
}

#[test]
fn rates_and_thresholds() {
    assert_eq!(compute_equiv_rate(64_000, 2, 50, true, 9, 0), 63_360);
    assert_eq!(compute_equiv_rate(24_000, 1, 50, true, 9, 0), 23_760);
    assert_eq!(compute_equiv_rate(24_000, 1, 100, false, 10, 10), 17_875);
    assert_eq!(
        compute_mode_threshold(Application::Audio, 2, false, false, 48),
        14_781
    );
    assert_eq!(
        compute_mode_threshold(Application::Voip, 1, false, false, 115),
        61_588
    );
    assert_eq!(
        compute_mode_threshold(Application::Audio, 1, true, true, 48),
        13_593
    );
    assert_eq!(
        compute_mode_threshold(Application::RestrictedLowDelay, 1, true, true, 48),
        0
    );
    assert_eq!(bits_to_bitrate(392, 48_000, 960), 19_600);
    assert_eq!(bitrate_to_bits(20_000, 48_000, 960), 400);
    assert_eq!(bitrate_to_bits(20_000, 48_000, 2880), 1200);
    assert_eq!(celt_upsample(8_000), 6);
    assert_eq!(celt_prefill_samples(16_000), 40);
    assert_eq!(celt_delay_samples(48_000, Application::Audio), 192);
    assert!(celt_can_code_frame(960) && !celt_can_code_frame(360) && !celt_can_code_frame(48));
    assert_eq!(
        clamp_bandwidth_to_rate(Bandwidth::Fullband, 16_000),
        Bandwidth::Wideband
    );
}

#[test]
fn redundancy_is_bought_with_bandwidth() {
    let mut bw = 1105;
    assert!(!decide_fec(false, 20, false, OpusMode::SilkOnly, &mut bw, 50_000));
    assert!(!decide_fec(true, 0, false, OpusMode::SilkOnly, &mut bw, 50_000));
    assert!(!decide_fec(true, 20, false, OpusMode::CeltOnly, &mut bw, 50_000));
    assert!(decide_fec(true, 20, false, OpusMode::SilkOnly, &mut bw, 50_000));
    assert_eq!(bw, 1105);
    // Fullband costs 23000 * 1.05, wideband 17000 * 1.05.
    assert!(decide_fec(true, 20, false, OpusMode::SilkOnly, &mut bw, 18_000));
    assert_eq!(bw, 1103);
    let mut bw = 1105;
    assert!(!decide_fec(true, 5, false, OpusMode::SilkOnly, &mut bw, 18_000));
    assert_eq!(bw, 1105);
    assert!(!decide_fec(true, 20, false, OpusMode::SilkOnly, &mut bw, 1_000));
    assert_eq!(bw, 1105);
    assert_eq!(lbrr_gain_increases(false, 50), 7);
    assert_eq!(lbrr_gain_increases(true, 0), 7);
    assert_eq!(lbrr_gain_increases(true, 10), 6);
    assert_eq!(lbrr_gain_increases(true, 100), 3);

    let mut e = encoder(16_000, 1, Application::Voip);
    e.bitrate_bps = 24_000;
    e.packet_loss_perc = 20;
    decide(&mut e, 320);
    assert_eq!(e.redundancy_gain(true), None);
    e.use_inband_fec = true;
    decide(&mut e, 320);
    assert_eq!(e.redundancy_gain(true), Some(4));
    assert_eq!(e.redundancy_gain(false), Some(7));
}

fn input(mode: OpusMode, frame_rate: i32, frame_size: usize) -> FrameInput {
    FrameInput {
        mode,
        frame_rate,
        frame_size,
        is_silence: false,
        active: None,
        room: 1500,
    }
}

#[test]
fn frames_that_cannot_be_coded_are_refused() {
    let mut e = encoder(48_000, 1, Application::Audio);
    decide(&mut e, 960);
    let tight = FrameInput {
        room: 1,
        ..input(OpusMode::CeltOnly, 50, 960)
    };
    assert!(matches!(
        e.begin_frame(tight),
        Err(Error::BufferTooSmall { needed: 2, .. })
    ));
    assert!(matches!(
        e.begin_frame(input(OpusMode::CeltOnly, 25, 1920)),
        Err(Error::Internal("frame size is not codable in this mode"))
    ));
    assert!(matches!(
        e.begin_frame(input(OpusMode::CeltOnly, 50, 961)),
        Err(Error::Internal(
            "frame size is not codable by the CELT layer at this sampling rate"
        ))
    ));
    assert!(is_codable(OpusMode::SilkOnly, 16) && !is_codable(OpusMode::Hybrid, 25));
}

#[test]
fn a_change_of_mode_starts_the_layers_over() {
    let mut e = encoder(16_000, 1, Application::Audio);
    e.force_bandwidth = Some(Bandwidth::Wideband);
    decide(&mut e, 320);
    let start = e.begin_frame(input(OpusMode::CeltOnly, 50, 320)).unwrap();
    assert!(!start.restart_celt);
    let budget = start.budget.unwrap();
    let bytes = [9u8; 1500];
    let coded = CodedFrame {
        bytes: &bytes,
        storage: 40,
        bits: 0,
        range: 77,
    };
    let mut out = [0u8; 1500];
    let n = e.finish_frame(&mut out, start.toc, OpusMode::CeltOnly, budget, &coded);
    assert_eq!(n, 41);
    assert_eq!(e.final_range(), 77);
    assert_eq!(mode_from_toc(out[0]), OpusMode::CeltOnly);
    assert_eq!(e.music_probability(), MusicProbability::Most);

    // Into the speech layer: that one is set up and warmed up.
    let start = e.begin_frame(input(OpusMode::SilkOnly, 50, 320)).unwrap();
    assert!(!start.restart_celt);
    let now = SilkState {
        khz: 16,
        channels: 1,
        tail_len: 160,
    };
    let setup = e.enter_silk(OpusMode::SilkOnly, 320, now);
    assert_eq!((setup.khz, setup.frame_ms), (16, 20));
    assert!(setup.rebuild_resamplers && setup.prefill && !setup.add_channel);
    let again = e.enter_silk(OpusMode::SilkOnly, 320, now);
    assert!(!again.rebuild_resamplers && !again.prefill);
    let coded = CodedFrame {
        bytes: &[1, 2, 3, 0, 0, 0],
        storage: 6,
        bits: 45,
        range: 5,
    };
    let small = FrameBudget {
        n_bytes: 7,
        frame_bytes: 7,
    };
    // Trailing zeros are left off.
    let n = e.finish_frame(&mut out, start.toc, OpusMode::SilkOnly, small, &coded);
    assert_eq!(&out[..n], &[start.toc, 1, 2, 3]);
    // And back out of it.
    assert!(
        e.begin_frame(input(OpusMode::CeltOnly, 50, 320))
            .unwrap()
            .restart_celt
    );
}

/// After 200 ms of silence nothing is sent, but for a frame every 400 ms.
#[test]
fn silence_is_not_sent_for_long() {
    let mut e = encoder(48_000, 1, Application::Voip);
    e.use_dtx = true;
    e.bitrate_bps = 24_000;
    let mut sent = Vec::new();
    for i in 0..60 {
        let plan = decide(&mut e, 960);
        let f = FrameInput {
            is_silence: true,
            ..input(plan.mode, 50, 960)
        };
        if e.begin_frame(f).unwrap().budget.is_some() {
            sent.push(i);
        }
    }
    let mut expected: Vec<i32> = (0..10).collect();
    expected.extend([30, 51]);
    assert_eq!(sent, expected);
    // Activity resets the count.
    let plan = decide(&mut e, 960);
    let f = FrameInput {
        active: Some(true),
        ..input(plan.mode, 50, 960)
    };
    assert!(e.begin_frame(f).unwrap().budget.is_some());
    assert_eq!(dtx_step(390, 40), (true, 430));
    assert_eq!(dtx_step(1180, 40), (false, 400));
    assert_eq!(dtx_step(0, 40), (false, 40));
}

#[test]
fn fixed_rate_packets_have_their_size() {
    assert_eq!(
        frame_budget(64_000, 960, 48_000, true, 4000),
        FrameBudget {
            n_bytes: 160,
            frame_bytes: 160
        }
    );
    assert_eq!(
        frame_budget(64_000, 960, 48_000, true, 100),
        FrameBudget {
            n_bytes: 100,
            frame_bytes: 100
        }
    );
    assert_eq!(
        frame_budget(600_000, 2880, 48_000, true, 9000),
        FrameBudget {
            n_bytes: 4500,
            frame_bytes: 1276
        }
    );
    assert_eq!(
        frame_budget(64_000, 960, 48_000, false, 2),
        FrameBudget {
            n_bytes: 3,
            frame_bytes: 3
        }
    );
    let mut out = [0xaau8; 600];
    let n = emit_one_frame_packet(&mut out, 0xfc, &[1, 2, 3], 500);
    assert_eq!(n, 500);
    let back = split_frames(&out[..n], false).unwrap();
    assert_eq!((back.toc, back.frames), (0xfc, vec![vec![1, 2, 3]]));
    assert_eq!(out[n], 0xaa);
    let n = emit_one_frame_packet(&mut out, 0xfc, &[1, 2, 3], 5);
    assert_eq!(&out[..n], &[0xff, 0x01, 1, 2, 3]);
    let n = emit_one_frame_packet(&mut out, 0xfc, &[1, 2, 3], 3);
    assert_eq!(&out[..n], &[0xfc, 1, 2]);
}

#[test]
fn the_layers_share_a_frame() {
    let silk = SilkFrame {
        mode: OpusMode::Hybrid,
        bandwidth: Bandwidth::Fullband,
        bitrate_bps: 20_000,
        cbr: false,
        fec: false,
        channels: 1,
        rate: 48_000,
        frame_size: 960,
    };
    let room = FrameBudget {
        n_bytes: 1276,
        frame_bytes: 1276,
    };
    // 400 bits less the TOC's eight are 19600 b/s: 16000 at 20000 and 13500 at
    // 16000, interpolated.
    let b = silk.budget(room);
    assert_eq!(b.bitrate, 15_750);
    assert!(!b.use_cbr);
    // The most: 10200 bits are 510 kb/s, and above the table half is the speech
    // layer's.
    assert_eq!(b.max_bits, (38_000 + (510_000 - 64_000) / 2) / 50);
    let fixed = SilkFrame { cbr: true, ..silk };
    let b = fixed.budget(FrameBudget {
        n_bytes: 50,
        frame_bytes: 50,
    });
    assert_eq!(b.bitrate, 15_850);
    // 317 bits of 392, and a quarter of what is left.
    assert_eq!(b.max_bits, 392 - (392 - 317) * 3 / 4);
    assert!(!b.use_cbr);
    let speech = SilkFrame {
        mode: OpusMode::SilkOnly,
        bandwidth: Bandwidth::Narrowband,
        cbr: true,
        ..silk
    };
    let b = speech.budget(FrameBudget {
        n_bytes: 50,
        frame_bytes: 50,
    });
    assert_eq!((b.bitrate, b.max_bits, b.use_cbr), (19_600, 392, true));
    assert_eq!(silk_internal_khz(OpusMode::Hybrid, Bandwidth::Fullband, 24_000), 16);
    assert_eq!(silk_internal_khz(OpusMode::SilkOnly, Bandwidth::Mediumband, 8_000), 8);

    let celt = celt_budget(
        OpusMode::Hybrid,
        Bandwidth::Superwideband,
        RateControl::ConstrainedVbr,
        20_000,
        15_750,
        48_000,
        960,
    );
    assert_eq!((celt.start_band, celt.end_band), (17, 19));
    assert!(!celt.constrained_vbr);
    assert_eq!(celt.vbr_rate, 680);
    let celt = celt_budget(
        OpusMode::CeltOnly,
        Bandwidth::Fullband,
        RateControl::Cbr,
        64_000,
        0,
        48_000,
        960,
    );
    assert_eq!((celt.start_band, celt.vbr_rate), (0, 0));
    assert!(celt.constrained_vbr);
    assert_eq!(celt_endband_for_bandwidth(Bandwidth::Narrowband), 13);
    assert!(has_redundancy_flag(OpusMode::Hybrid, 355, 50));
    assert!(!has_redundancy_flag(OpusMode::Hybrid, 356, 50));
    assert!(!has_redundancy_flag(OpusMode::CeltOnly, 1, 50));
    assert_eq!(smooth_hp(0, 65_536), 984);
    assert_eq!(smooth_hp(0, -1), -1);
    let coded = CodedFrame {
        bytes: &[0; 100],
        storage: 30,
        bits: 0,
        range: 0,
    };
    assert_eq!(payload_len(&coded, OpusMode::CeltOnly, true, 50), 49);
    assert_eq!(payload_len(&coded, OpusMode::CeltOnly, false, 50), 30);
}

/// A packet of six frames, each within its room, fits and comes apart again.
#[test]
fn split_packets_fit_the_buffer() {
    let mut e = encoder(48_000, 2, Application::Audio);
    e.bitrate_bps = 96_000;
    for cbr in [false, true] {
        e.rate_control = if cbr {
            RateControl::Cbr
        } else {
            RateControl::Vbr
        };
        let plan = decide(&mut e, 5760);
        assert_eq!(plan.layout.nb_frames, 6);
        let budget = e.begin_split(plan.layout, 2000);
        assert!(!budget.is_starved());
        assert_eq!(budget.repacketize_len, if cbr { 1440 } else { 2000 });
        assert_eq!(budget.per_frame, 240);
        let mut p = SplitPacket::new(budget);
        let mut out = vec![0u8; 2000];
        let mut frames = Vec::new();
        while !p.is_complete() {
            let room = p.room();
            assert!(room >= 3);
            let f = FrameInput {
                room,
                ..input(plan.mode, 50, 960)
            };
            let start = e.begin_frame(f).unwrap();
            let b = start.budget.unwrap();
            let body = vec![frames.len() as u8 + 1; 1500];
            let coded = CodedFrame {
                bytes: &body,
                storage: b.frame_bytes - 1,
                bits: 0,
                range: 1,
            };
            let mut frame = vec![0u8; room];
            let n = e.finish_frame(&mut frame, start.toc, plan.mode, b, &coded);
            p.add_frame(&frame[..n]).unwrap();
            frames.push(body[..b.frame_bytes - 1].to_vec());
        }
        let n = p.finish(&mut out).unwrap();
        assert!(n <= budget.repacketize_len);
        if cbr {
            assert_eq!(n, 1440);
        }
        assert_eq!(split_frames(&out[..n], false).unwrap().frames, frames);
    }
}

#[test]
fn no_packet_is_longer_than_the_largest() {
    let mut e = encoder(48_000, 2, Application::Audio);
    e.bitrate_bps = 600_000;
    e.rate_control = RateControl::Cbr;
    let plan = decide(&mut e, 5760);
    assert_eq!(plan.layout.nb_frames, 6);
    // The rate asks for 9000 bytes.
    let budget = e.begin_split(plan.layout, 20_000);
    assert_eq!(budget.repacketize_len, MAX_PACKET_BYTES);
    let mut p = SplitPacket::new(budget);
    while !p.is_complete() {
        assert!(p.room() >= 1276);
        let mut frame = vec![7u8; 1276];
        frame[0] = 0xfc;
        p.add_frame(&frame).unwrap();
    }
    let mut out = vec![0u8; 20_000];
    assert_eq!(p.finish(&mut out).unwrap(), 7662);
    // A shorter packet has its size.
    let plan = decide(&mut e, 4800);
    assert_eq!(e.begin_split(plan.layout, 20_000).repacketize_len, 7500);
}

#[test]
fn starved_packets_still_say_how_long_they_are() {
    let mut e = encoder(48_000, 1, Application::Audio);
    let plan = decide(&mut e, 2880);
    assert_eq!(plan.layout.nb_frames, 3);
    // The smallest buffer there is still holds a packet.
    let budget = e.begin_split(plan.layout, 2);
    assert!(budget.is_starved());
    assert_eq!(budget.max_len_sum, 0);
    let mut out = [0u8; 8];
    assert_eq!(
        e.emit_starved(plan.mode, plan.layout, budget, &mut out)
            .unwrap(),
        2
    );
    let budget = e.begin_split(plan.layout, 8);
    assert!(budget.is_starved());
    let n = e
        .emit_starved(plan.mode, plan.layout, budget, &mut out)
        .unwrap();
    assert_eq!(n, 2);
    let back = split_frames(&out[..n], false).unwrap();
    assert_eq!(back.frames, vec![Vec::<u8>::new(); 3]);
    assert_eq!(frame_samples_from_toc(out[0]), 960);
    // At a fixed rate it is padded.
    e.rate_control = RateControl::Cbr;
    let padded = SplitBudget {
        pad: true,
        ..budget
    };
    let n = e
        .emit_starved(plan.mode, plan.layout, padded, &mut out)
        .unwrap();
    assert_eq!(n, 8);
    assert_eq!(split_frames(&out[..n], false).unwrap().frames.len(), 3);
}

/// Frames that were all dropped are not padded, and one that does not belong is
/// refused.
#[test]
fn dropped_frames_are_not_padded() {
    let budget = SplitBudget {
        nb_frames: 2,
        repacketize_len: 100,
        max_len_sum: 99,
        per_frame: 50,
        pad: true,
    };
    let mut p = SplitPacket::new(budget);
    p.add_frame(&[0xfc]).unwrap();
    assert!(matches!(p.add_frame(&[0x08]), Err(Error::InvalidPacket(_))));
    p.add_frame(&[0xfc]).unwrap();
    let mut out = [0u8; 100];
    assert_eq!(p.finish(&mut out).unwrap(), 1);
    assert_eq!(out[0], 0xfd);
    // Without all of its frames there is no packet.
    let mut p = SplitPacket::new(budget);
    p.add_frame(&[0xfc, 1]).unwrap();
    assert!(matches!(p.finish(&mut out), Err(Error::InvalidArgument(_))));
    // Nor where the buffer is smaller than what is owed.
    let mut p = SplitPacket::new(budget);
    p.add_frame(&[0xfc, 1]).unwrap();
    p.add_frame(&[0xfc, 2]).unwrap();
    assert!(matches!(
        p.finish(&mut out[..50]),
        Err(Error::BufferTooSmall {
            needed: 100,
            provided: 50,
            ..
        })
    ));
}

/// The transform layer reads the input late, and all of it.
#[test]
fn the_timeline_loses_nothing() {
    let mut line = Timeline::new(2, 3, 2, 0);
    assert!(line.tail().is_none());
    let input: Vec<i32> = (1..=20).collect();
    let first = line.advance(&input[..10], 5);
    assert_eq!(first, [0, 0, 0, 1, 3, 0, 0, 0, 2, 4]);
    assert_eq!(line.tail().unwrap(), &[1, 3, 2, 4]);
    let second = line.advance(&input[10..], 5);
    assert_eq!(second, [5, 7, 9, 11, 13, 6, 8, 10, 12, 14]);
    // A frame shorter than the tail leaves none.
    line.advance(&[21, 22], 1);
    assert!(line.tail().is_none());
}

#[test]
fn input_is_looked_at_before_it_is_coded() {
    let mut e = encoder(48_000, 2, Application::Audio);
    assert_eq!(e.analysis_use(false), AnalysisUse::Run);
    e.complexity = 6;
    assert_eq!(e.analysis_use(true), AnalysisUse::Reset);
    assert_eq!(e.analysis_use(false), AnalysisUse::Skip);
    assert!(e.check_s16(1920, 960).is_ok());
    assert!(matches!(
        e.check_s16(1919, 960),
        Err(Error::InvalidArgument(_))
    ));
    e.begin_packet(960, 1920, 100, 16).unwrap();
    assert!(e.is_digital_silence(&[0; 10]));
    assert!(!e.is_digital_silence(&[0, 1]));
    e.lsb_depth = 8;
    e.begin_packet(960, 1920, 100, 16).unwrap();
    assert!(e.is_digital_silence(&[128, -128]));
    assert!(!e.is_digital_silence(&[0, -129]));
    assert_eq!(deinterleave(&[1, 2, 3, 4], 2), (vec![1, 3], vec![2, 4]));
    let mono: Vec<i16> = (0..160).collect();
    assert_eq!(silk_tail(&mono, 160, 8_000).unwrap(), &mono[80..]);
    assert!(silk_tail(&mono, 40, 8_000).is_none());
}

#[test]
fn the_cap_is_kept() {
    for cap in [
        Bandwidth::Narrowband,
        Bandwidth::Wideband,
        Bandwidth::Superwideband,
        Bandwidth::Fullband,
    ] {
        let mut e = encoder(48_000, 2, Application::RestrictedLowDelay);
        e.max_bandwidth = cap;
        assert_eq!(decide(&mut e, 960).bandwidth, cap);
    }
    // The speech layer is not wired below wideband for inputs above 16 kHz.
    let mut e = encoder(48_000, 1, Application::Voip);
    e.bitrate_bps = 12_000;
    e.max_bandwidth = Bandwidth::Narrowband;
    let plan = decide(&mut e, 960);
    assert_eq!((plan.mode, plan.bandwidth), (OpusMode::SilkOnly, Bandwidth::Wideband));
}

#[test]
fn every_fixed_rate_packet_has_its_size() {
    for rate in [8_000, 12_000, 16_000, 24_000, 48_000] {
        for bitrate in [6_000, 24_000, 64_000] {
            let mut e = encoder(rate, 1, Application::Audio);
            e.rate_control = RateControl::Cbr;
            e.bitrate_bps = bitrate;
            let size = (rate / 50) as usize;
            let plan = decide(&mut e, size);
            assert_eq!(plan.layout.nb_frames, 1);
            let mut out = vec![0u8; MAX_PACKET_BYTES];
            let start = e
                .begin_frame(FrameInput {
                    mode: plan.mode,
                    frame_rate: plan.layout.frame_rate,
                    frame_size: size,
                    is_silence: true,
                    active: Some(false),
                    room: out.len(),
                })
                .unwrap();
            let budget = start.budget.unwrap();
            let bytes = vec![0u8; budget.frame_bytes - 1];
            let coded = CodedFrame {
                bytes: &bytes,
                storage: bytes.len(),
                bits: 9,
                range: 1,
            };
            let n = e.finish_frame(&mut out, start.toc, plan.mode, budget, &coded);
            assert_eq!(n, (bitrate / 50 + 4) as usize / 8);
        }
    }
}
