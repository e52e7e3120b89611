//! What the transform layer spells out and carries from frame to frame.

use opus_pure::celt::bands::{cap_of, e_band, frame_lm, lm_for, width_of, NB_EBANDS};
use opus_pure::celt::decisions::{
    anti_collapse_rsv, caps_of, decode_spread, decode_trim, encode_spread, encode_trim,
    equiv_rate_of, hysteresis_decision, intensity_decision, plan_spread, plan_tf,
    prefilter_enabled, SpreadPlan, TfPlan, SPREAD_NONE, SPREAD_NORMAL, TRIM_DEFAULT,
};
use opus_pure::celt::decoder::{lcg, CeltDecoder, FrameType};
use opus_pure::celt::dynalloc::{decode_boosts, encode_boosts, limit_boosts, quanta};
use opus_pure::celt::encoder::CeltEncoder;
use opus_pure::celt::header::{
    decode_header, encode_header, CodedHeader, FrameHeader, Postfilter,
};
use opus_pure::celt::hints::{decode_hints, encode_hints, HintFrame};
use opus_pure::celt::history::{repeat_period, slide, slide_in, zero_stuff};
use opus_pure::celt::pitch::{
    candidates, full_rate_lag, gain_halvings, halve, near_coarse, period_from_search, Continuity,
};
use opus_pure::celt::tf::{tf_decode, tf_encode, tf_select_table};
use opus_pure::celt::tf_search::{tf_choose, tf_metric};
use opus_pure::celt::vbr::{
    shift_down, vbr_base, vbr_bins, vbr_boosted, vbr_deep, vbr_final, vbr_hybrid_target, VbrFrame,
    VbrState,
};
use opus_pure::range_coder::decoder::RangeDecoder;
use opus_pure::range_coder::encoder::RangeEncoder;

#[test]
fn bands_and_frame_sizes() {
    let edges: Vec<i32> = (0..=NB_EBANDS).map(e_band).collect();
    assert_eq!(
        edges,
        [0, 1, 2, 3, 4, 5, 6, 7, 8, 10, 12, 14, 16, 20, 24, 28, 34, 40, 48, 60, 78, 100]
    );
    assert_eq!(width_of(20, 3, 2), 22 * 8 * 2);
    assert_eq!(cap_of(224, 0, 3, 1), (224 + 64) * 8 / 4);
    for (n, lm) in [(120, 0), (240, 1), (480, 2), (960, 3)] {
        assert_eq!(lm_for(n), lm);
        assert_eq!(frame_lm(n), lm);
    }
    assert_eq!(lm_for(48), 3);
    assert_eq!(frame_lm(48), 0);
    let entries: Vec<u8> = (0..168).map(|i| i as u8).collect();
    let caps = caps_of(&entries, 1, 2);
    assert_eq!(caps.len(), 21);
    assert_eq!(caps[0], (63 + 64) * 2 * 2 / 4);
    assert_eq!(caps[20], (83 + 64) * 2 * 22 * 2 / 4);
}

#[test]
fn time_frequency_flags_come_back() {
    for lm in 0..4usize {
        for transient in [false, true] {
            for select in [0usize, 1] {
                for bytes in [1usize, 2, 4, 40] {
                    let wanted: Vec<i32> = (0..21).map(|i| ((i * 5 + lm) % 3 == 1) as i32).collect();
                    let mut written = wanted.clone();
                    let mut e = RangeEncoder::new_encoder(bytes);
                    tf_encode(0, 21, transient, &mut written, lm, select, &mut e);
                    let tell = e.tell();
                    if let Some(data) = e.done() {
                        let mut d = RangeDecoder::new_decoder(&data);
                        let mut read = vec![9; 21];
                        tf_decode(0, 21, transient, &mut read, lm, &mut d);
                        assert_eq!(read, written);
                        assert_eq!(d.tell(), tell);
                    }
                }
            }
        }
    }
}

/// With room to spare every flag gets through, and stands for its change.
#[test]
fn time_frequency_changes_are_the_tables() {
    let mut res = vec![7, 1, 0, 0, 1, 7];
    let mut e = RangeEncoder::new_encoder(100);
    assert!(tf_encode(1, 5, true, &mut res, 3, 1, &mut e));
    // Once a flag is set the two tables differ, so the choice is spelled out.
    assert_eq!(res, [7, -1, 1, 1, -1, 7]);
    assert_eq!(tf_select_table(3, true, 0, 0), 3);
    assert_eq!(tf_select_table(3, false, 1, 1), -3);
    assert_eq!(tf_select_table(2, false, 0, 1), -2);
    assert_eq!(tf_select_table(1, false, 0, 1), -1);
    assert_eq!(tf_select_table(0, true, 1, 1), -1);
}

#[test]
fn boosts_come_back() {
    let caps = vec![1000; 21];
    for total in [20, 60, 200, 2000] {
        let mut wanted: Vec<i32> = (0..21).map(|i| (i % 4) as i32).collect();
        let mut e = RangeEncoder::new_encoder(400);
        let boosted = encode_boosts(0, 21, &mut wanted, &caps, total, 3, 2, &mut e);
        let tell = e.tell_frac();
        let data = e.done().unwrap();
        let mut d = RangeDecoder::new_decoder(&data);
        let mut read = vec![0; 21];
        assert_eq!(
            decode_boosts(0, 21, &mut read, &caps, total, 3, 2, &mut d),
            boosted
        );
        assert_eq!(read, wanted);
        assert_eq!(d.tell_frac(), tell);
        assert_eq!(boosted, wanted.iter().sum::<i32>());
    }
}

/// A band's boost is so many of its quanta.
#[test]
fn boosts_are_quanta() {
    assert_eq!(quanta(1), 8);
    assert_eq!(quanta(16), 48);
    assert_eq!(quanta(352), 352);
    let caps = vec![100_00; 21];
    let mut wanted = vec![0; 21];
    wanted[3] = 2;
    let mut e = RangeEncoder::new_encoder(100);
    let boosted = encode_boosts(0, 21, &mut wanted, &caps, 800, 0, 1, &mut e);
    assert_eq!(wanted[3], 16);
    assert_eq!(boosted, 16);
}

#[test]
fn boosts_leave_a_third_of_the_frame() {
    // Six bins or fewer take the boost in full bits.
    let wants = vec![4; 21];
    let limited = limit_boosts(&wants, 0, 3, 2, true, 60);
    assert_eq!(limited.len(), 21);
    // The first bands are granted in full: 16 bins each, 6 bits a boost.
    assert_eq!(limited[0], 4);
    let mut total = 0;
    let mut stopped_at = 21;
    for i in 0..21 {
        let width = width_of(i, 3, 2);
        let bits = if width > 48 {
            4 * width
        } else {
            4 * 48
        };
        if (total + bits) / 64 > 40 {
            stopped_at = i;
            break;
        }
        total += bits;
    }
    assert_eq!(limited[stopped_at], 64 * 40 - total);
    assert!(limited[stopped_at + 1..].iter().all(|&x| x == 0));
    assert_eq!(limit_boosts(&wants, 0, 3, 2, false, 60), wants);
}

fn header(silence: bool, postfilter: Option<Postfilter>, transient: bool) -> FrameHeader {
    FrameHeader {
        silence,
        postfilter,
        transient,
    }
}

#[test]
fn headers_come_back() {
    for pitch in [15usize, 16, 30, 31, 62, 63, 100, 500, 1022] {
        let pf = Postfilter {
            pitch_index: pitch,
            gain_index: (pitch % 8) as u32,
            tapset: (pitch % 3) as u32,
        };
        for transient in [false, true] {
            let h = header(false, Some(pf), transient);
            let mut e = RangeEncoder::new_encoder(100);
            let coded = CodedHeader {
                silent: false,
                short: transient,
                bits: 800,
            };
            assert_eq!(encode_header(h, 0, 3, 800, true, &mut e), coded);
            let tell = e.tell();
            let data = e.done().unwrap();
            let mut d = RangeDecoder::new_decoder(&data);
            assert_eq!(decode_header(0, 3, 800, &mut d), h);
            assert_eq!(d.tell(), tell);
        }
    }
}

/// A silent frame is two bytes under VBR, and both sides are out of bits.
#[test]
fn silent_frames_are_short() {
    let h = header(true, None, false);
    let mut e = RangeEncoder::new_encoder(100);
    let coded = encode_header(h, 0, 3, 800, true, &mut e);
    assert!(coded.silent && !coded.short);
    assert_eq!(coded.bits, 32);
    assert_eq!(e.tell(), 32);
    let data = e.done().unwrap();
    assert_eq!(data, [0xff, 0xfe, 0, 0]);
    let mut d = RangeDecoder::new_decoder(&data);
    assert_eq!(decode_header(0, 3, 32, &mut d), h);
    assert_eq!(d.tell(), 32);

    // At a fixed rate it keeps its size.
    let mut e = RangeEncoder::new_encoder(100);
    let coded = encode_header(h, 0, 3, 800, false, &mut e);
    assert_eq!((coded.silent, coded.bits), (true, 800));
    // A silent transient cannot be said to be one: it is not cut into blocks.
    let mut e = RangeEncoder::new_encoder(100);
    assert!(!encode_header(header(true, None, true), 0, 3, 800, false, &mut e).short);
    // Nor has the shortest frame any blocks to be cut into.
    let mut e = RangeEncoder::new_encoder(100);
    assert!(!encode_header(header(false, None, true), 0, 0, 800, false, &mut e).short);
}

/// A frame without bits is silent, and one that follows another layer has no
/// silence flag.
#[test]
fn silence_needs_a_flag_of_its_own() {
    let mut d = RangeDecoder::new_decoder(&[]);
    assert!(decode_header(0, 3, 0, &mut d).silence);

    let mut e = RangeEncoder::new_encoder(100);
    e.encode(opus_pure::range_coder::alphabet::Alphabet::Spread, 1);
    let coded = encode_header(header(true, None, true), 17, 3, 800, true, &mut e);
    assert!(!coded.silent && coded.short);
    assert_eq!(coded.bits, 800);
}

#[test]
fn spread_and_trim_come_back() {
    let mut e = RangeEncoder::new_encoder(20);
    encode_spread(3, 160, &mut e);
    assert_eq!(encode_trim(8, 160, 0, &mut e), 8);
    let data = e.done().unwrap();
    let mut d = RangeDecoder::new_decoder(&data);
    assert_eq!(decode_spread(160, &mut d), 3);
    assert_eq!(decode_trim(160, 0, &mut d), 8);

    // Without the bits both sides take what is usual.
    let mut e = RangeEncoder::new_encoder(20);
    encode_spread(SPREAD_NORMAL, 4, &mut e);
    assert_eq!(encode_trim(8, 6, 0, &mut e), TRIM_DEFAULT);
    assert_eq!(e.tell(), 1);
    let data = e.done().unwrap();
    let mut d = RangeDecoder::new_decoder(&data);
    assert_eq!(decode_spread(4, &mut d), SPREAD_NORMAL);
    assert_eq!(decode_trim(6, 0, &mut d), TRIM_DEFAULT);
}

#[test]
fn intensity_follows_the_rate_with_a_margin() {
    assert_eq!(equiv_rate_of(1280, 960), 64_000);
    // 64 kb/s is past fifteen thresholds.
    assert_eq!(intensity_decision(64_000, 0, 0, 21), 15);
    // A little above the next threshold it stays.
    assert_eq!(intensity_decision(69_000, 15, 0, 21), 15);
    assert_eq!(intensity_decision(71_000, 15, 0, 21), 16);
    // And a little below it.
    assert_eq!(intensity_decision(65_000, 16, 0, 21), 16);
    assert_eq!(intensity_decision(63_000, 16, 0, 21), 15);
    // A hybrid frame codes it between its own bands.
    assert_eq!(intensity_decision(64_000, 0, 17, 21), 17);
    assert_eq!(hysteresis_decision(5, &[3, 6], &[1, 1], 0), 1);
    assert_eq!(hysteresis_decision(3, &[3, 6], &[1, 1], 0), 0);
}

#[test]
fn frames_are_planned_by_their_bytes() {
    assert_eq!(prefilter_enabled(0, 9, 800, 1, 1), (true, 100));
    assert_eq!(prefilter_enabled(0, 4, 800, 1, 1), (false, 100));
    assert_eq!(prefilter_enabled(17, 9, 800, 1, 1), (false, 100));
    assert_eq!(prefilter_enabled(0, 9, 96, 1, 1), (false, 12));
    assert_eq!(
        plan_tf(100, 2, false, 9, false, true, 0),
        TfPlan::Analyse { lambda: 206 }
    );
    assert_eq!(
        plan_tf(100, 2, true, 9, true, true, 0),
        TfPlan::Uniform { flag: 1, select: 0 }
    );
    assert_eq!(
        plan_tf(10, 1, true, 9, false, true, 0),
        TfPlan::Uniform { flag: 0, select: 1 }
    );
    assert_eq!(
        plan_tf(10, 1, true, 9, false, true, 2),
        TfPlan::Uniform { flag: 1, select: 0 }
    );
    assert_eq!(
        plan_spread(1, 800, 0, false, 100, 1),
        SpreadPlan::Known { spread: SPREAD_NONE }
    );
    assert_eq!(plan_spread(1, 800, 9, false, 100, 1), SpreadPlan::Analyse);
    assert_eq!(
        plan_spread(1, 800, 9, true, 100, 1),
        SpreadPlan::Known {
            spread: SPREAD_NORMAL
        }
    );
    assert_eq!(anti_collapse_rsv(true, 3, 100, 100), 8);
    assert_eq!(anti_collapse_rsv(true, 1, 100, 100), 0);
    assert_eq!(anti_collapse_rsv(true, 3, 5, 1), 0);
    assert_eq!(anti_collapse_rsv(false, 3, 100, 100), 0);
}

#[test]
fn vbr_targets() {
    assert_eq!(shift_down(-1, 3), -1);
    assert_eq!(shift_down(-16, 3), -2);
    assert_eq!(shift_down(17, 3), 2);
    // 64 kb/s, 20 ms: 1280 bits.
    assert_eq!(vbr_base(10_240, 2, false, None, 3), 10_240 - 800);
    assert_eq!(vbr_base(10_240, 2, true, None, 3), 10_240 - 176);
    assert_eq!(vbr_base(100, 2, true, None, 3), 0);
    assert_eq!(vbr_base(10_240, 1, false, Some(-3), 2), 10_240 - 480 - 2);
    assert_eq!(vbr_hybrid_target(1000, 32, 3, 0, false), 1096);
    assert_eq!(vbr_hybrid_target(1000, 240, 2, -20, false), 1000 - 72 - 20);
    assert_eq!(vbr_hybrid_target(0, 100, 3, 0, true), 400);
    assert_eq!(vbr_bins(0, 15, 3, 2), (8 * (100 + 28), 8 * 28 - 15));
    assert_eq!(vbr_bins(10, 15, 0, 1), (12, 12 - 10));
    assert_eq!(vbr_boosted(1000, 50, 100, 3), 1000 - 50 + 100 - 152);
    assert_eq!(vbr_deep(1000, 100), 250);
    assert_eq!(vbr_deep(1000, 700), 700);
    assert_eq!(vbr_deep(1000, 7000), 1000);
    assert_eq!(vbr_final(5000, 1000, None), 2000);
    assert_eq!(vbr_final(5000, 1000, Some(670)), 1670);
}

fn frame(target: i32) -> VbrFrame {
    VbrFrame {
        target,
        tell_frac: 400,
        tell0_frac: 8,
        total_boost: 0,
        total_bits: 10_000,
        lm: 3,
        hybrid: false,
    }
}

#[test]
fn vbr_frames_are_what_they_aim_at() {
    let mut s = VbrState::new();
    assert_eq!(s.settle(frame(9000), 10_240, false, 0), (9400 + 32) / 64);
    assert_eq!(s.count, 1);
    assert_eq!(s.reservoir, 0);
    // Never less than what is coded and two bytes more.
    assert_eq!(s.settle(frame(-5000), 10_240, false, 0), (400 + 63) / 64 + 2);
    // A hybrid frame keeps 37 bits beyond the speech layer's.
    let hybrid = VbrFrame {
        hybrid: true,
        tell0_frac: 390,
        ..frame(-5000)
    };
    assert_eq!(s.settle(hybrid, 10_240, false, 0), (390 + 296 + 63) / 64);
    // Never more than a frame may be.
    assert_eq!(s.settle(frame(100_000), 10_240, false, 0), 10_000 / 8);
    let short = VbrFrame {
        lm: 0,
        ..frame(100_000)
    };
    assert_eq!(s.settle(short, 10_240, false, 0), 1275 / 8);
}

#[test]
fn constrained_vbr_uses_up_what_was_left() {
    let mut s = VbrState::new();
    // The first frame takes more than the rate and fills the reservoir.
    let first = s.settle(frame(20_000), 10_240, true, 40) as i64;
    assert_eq!(s.reservoir, 64 * first - 10_240);
    assert_eq!(s.drift, 40);
    assert_eq!(s.offset, -40);
    // An empty reservoir makes a small frame larger.
    let mut s = VbrState::new();
    let own = (400 + 63) / 64 + 2;
    let bytes = s.settle(frame(-5000), 10_240, true, 0);
    assert_eq!(bytes as i64, own + (10_240 - 64 * own) / 64);
    assert_eq!(s.reservoir, 0);
    assert_eq!(s.error(frame(9840), 10_240), (0, 2));
}

#[test]
fn encoder_state_follows_the_frames() {
    let mut e = CeltEncoder::new(2);
    e.set_upsample(0);
    assert_eq!(e.upsample, 1);
    e.set_upsample(2);
    let plan = e.begin_frame(480, 0, 1280, 1);
    assert_eq!(plan.frame_size, 960);
    assert_eq!(plan.lm, 3);
    assert!(plan.prefilter && !plan.weak_transients && plan.look_for_transients);
    assert_eq!(
        e.plan_resolution(0, 1280, false, false),
        TfPlan::Analyse { lambda: 130 }
    );
    e.settle_intensity(1280, 960, 0, 21);
    assert_eq!(e.intensity, 15);
    assert_eq!(e.settle_spread(1, 1280, false, 3), 3);
    assert_eq!(e.settle_spread(1, 1280, true, 3), SPREAD_NORMAL);
    assert_eq!(e.settle_size(frame(9000), 0), 10_000);
    e.vbr_rate = 10_240;
    e.constrained_vbr = false;
    assert_eq!(e.settle_size(frame(9000), 0), 8 * ((9400 + 32) / 64));
    let pf = Postfilter {
        pitch_index: 100,
        gain_index: 3,
        tapset: 1,
    };
    for on in [true, true, false, false] {
        assert_eq!(e.anti_collapse_on(), on);
        e.finish_frame(Some(pf), plan, 20, true);
    }
    assert_eq!(e.prefilter_period, 100);
    e.finish_frame(None, plan, 19, false);
    assert_eq!(e.prefilter_period, 15);
    assert!(e.anti_collapse_on());
    assert!(e.theta_rdo(false) && !e.theta_rdo(true));
}

#[test]
fn losses_repeat_the_pitch_then_become_noise() {
    let mut d = CeltDecoder::new(1);
    // A new decoder has nothing to repeat.
    assert!(d.plan_concealment(960, 0, 21).noise);
    for _ in 0..2 {
        let p = d.begin_frame(960, 0, 21);
        d.finish_frame(None, p.lm, 7);
    }
    // Five frames of 20 ms are 100 ms.
    for i in 0..5 {
        let c = d.plan_concealment(960, 0, 21);
        assert!(!c.noise, "frame {i}");
        assert_eq!(c.search, i == 0);
        assert_eq!(c.first, i == 0);
        d.finish_concealment(c, 300 + i, 0);
        assert_eq!(d.last_frame_type, FrameType::PlcPeriodic);
    }
    assert_eq!(d.extrapolation(), (300, 600));
    assert_eq!(d.missing_frames(3), Some(5));
    assert_eq!(d.background_rise(3), 48);
    let c = d.plan_concealment(960, 0, 21);
    assert!(c.noise && c.fold);
    d.finish_concealment(c, 0, 99);
    assert_eq!(d.rng, 99);
    // One good packet is not enough.
    let p = d.begin_frame(960, 0, 21);
    d.finish_frame(None, p.lm, 1);
    assert!(d.plan_concealment(960, 0, 21).noise);
    let p = d.begin_frame(960, 0, 21);
    d.finish_frame(None, p.lm, 1);
    assert!(!d.plan_concealment(960, 0, 21).noise);
    // The high band of a hybrid frame always becomes noise.
    assert!(d.plan_concealment(960, 17, 21).noise);
    d.reset();
    assert_eq!(d, CeltDecoder::new(1));
}

/// The time that a burst has lasted is not forgotten over one good frame.
#[test]
fn a_single_good_frame_keeps_the_burst() {
    let mut d = CeltDecoder::new(2);
    for _ in 0..2 {
        let p = d.begin_frame(960, 0, 21);
        d.finish_frame(None, p.lm, 0);
    }
    for _ in 0..3 {
        let c = d.plan_concealment(960, 0, 21);
        d.finish_concealment(c, 200, 0);
    }
    let p = d.begin_frame(960, 0, 21);
    d.finish_frame(None, p.lm, 0);
    assert_eq!((d.loss_duration, d.plc_duration), (0, 24));
    let p = d.begin_frame(960, 0, 21);
    d.finish_frame(None, p.lm, 0);
    assert_eq!((d.loss_duration, d.plc_duration), (0, 0));
}

#[test]
fn the_postfilter_fades_over_a_short_frame() {
    let pf = Postfilter {
        pitch_index: 77,
        gain_index: 2,
        tapset: 1,
    };
    let mut d = CeltDecoder::new(2);
    d.set_stream_channels(9);
    assert_eq!(d.stream_channels, 2);
    d.set_stream_channels(0);
    d.set_downsample(0);
    let p = d.begin_frame(120, 0, 30);
    assert_eq!((p.lm, p.channels, p.end_band), (0, 1, 21));
    assert!(!d.filters(&header(false, None, false)));
    assert!(d.filters(&header(false, Some(pf), false)));
    d.finish_frame(Some(pf), p.lm, 0);
    assert_eq!((d.comb.period, d.comb.gain, d.comb.tapset), (77, 3, 1));
    assert_eq!(d.comb_old.gain, 0);
    d.finish_frame(Some(pf), 0, 0);
    assert_eq!(d.comb_old.gain, 3);
    // A hybrid frame switches it off.
    d.begin_frame(960, 17, 21);
    assert_eq!(d.comb.gain, 0);
}

#[test]
fn pitch_candidates_are_parts_of_a_lag() {
    let h = halve(1024, 15, 400, 200);
    assert_eq!((h.max_period, h.min_period, h.t0, h.prev_period), (512, 7, 200, 100));
    let found = candidates(h);
    // From a half to a fifteenth, none of them too short.
    assert_eq!(found.len(), 14);
    assert_eq!((found[0].t1, found[0].t1b), (100, 300));
    assert_eq!(found[0].continuity, Continuity::Close);
    assert_eq!((found[1].t1, found[1].t1b), (67, 133));
    assert_eq!(found[1].continuity, Continuity::Apart);
    assert_eq!((found[13].t1, found[13].short), (13, true));
    // A short lag has few parts.
    assert_eq!(candidates(halve(1024, 15, 60, 0)).len(), 3);
    assert_eq!(full_rate_lag(50, -1, 15), 99);
    assert_eq!(full_rate_lag(7, -1, 15), 15);
    assert!(near_coarse(102, 50, 10) && near_coarse(18, 50, 10) && !near_coarse(103, 50, 10));
    assert_eq!(period_from_search(1024, 0), 1022);
    assert_eq!(period_from_search(1024, 900), 124);
    assert_eq!(gain_halvings(2), Some(0));
    assert_eq!(gain_halvings(3), Some(1));
    assert_eq!(gain_halvings(5), Some(2));
    assert_eq!(gain_halvings(9), None);
}

#[test]
fn histories_slide() {
    let mut buf = vec![0, 1, 2, 3, 4, 5, 6, 7];
    slide(&mut buf, 2, 5, 2);
    assert_eq!(buf, [0, 1, 4, 5, 6, 5, 6, 7]);
    let mut buf = vec![0, 1, 2, 3, 4, 5, 6, 7];
    slide_in(&mut buf, 1, 4, &[8, 9]);
    assert_eq!(buf, [0, 3, 4, 8, 9, 5, 6, 7]);
    slide_in(&mut buf, 1, 4, &[1, 2, 3, 4, 5, 6]);
    assert_eq!(buf, [0, 3, 4, 5, 6, 5, 6, 7]);
    assert_eq!(zero_stuff(&[5, 6], 3, 0), [5, 0, 0, 6, 0, 0]);
    assert_eq!(
        repeat_period(&['x', 'a', 'b', 'c'], 3, 7),
        [('a', 0), ('b', 0), ('c', 0), ('a', 1), ('b', 1), ('c', 1), ('a', 2)]
    );
}

/// The table and the cost of flags, against trying them all.
#[test]
fn the_search_finds_the_least_cost() {
    let metric = [2, -2, 4, 0, 6, -1];
    let importance = [13, 20, 13, 40, 13, 13];
    let lambda = 17;
    let lm = 3usize;
    for transient in [false, true] {
        let cost = |flags: u32, select: usize| {
            let mut total = 0;
            for i in 0..6 {
                let flag = ((flags >> i) & 1) as usize;
                let change = tf_select_table(lm, transient, select, flag);
                total += importance[i] * (metric[i] - 2 * change as i32).abs();
                let before = if i == 0 {
                    if transient {
                        flag
                    } else {
                        0
                    }
                } else {
                    ((flags >> (i - 1)) & 1) as usize
                };
                if flag != before {
                    total += lambda;
                }
            }
            total
        };
        let best: Vec<i32> = (0..2)
            .map(|s| (0..64u32).map(|f| cost(f, s)).min().unwrap())
            .collect();
        let (select, flags) = tf_choose(&metric, &importance, lambda, lm, transient);
        assert_eq!(select, (transient && best[1] < best[0]) as usize);
        assert_eq!(flags.len(), 6);
    }
    assert_eq!(tf_metric(2, true, false, 3), 4);
    assert_eq!(tf_metric(2, false, false, 3), -4);
    assert_eq!(tf_metric(0, false, true, 3), -1);
    assert_eq!(tf_metric(3, false, true, 3), -7);
}

/// Everything between the energies and the allocation, in one go.
#[test]
fn hints_come_back() {
    let caps = vec![800; 21];
    for (start, bits, lm) in [(0usize, 800, 3usize), (0, 40, 3), (17, 160, 2), (0, 12, 0)] {
        let f = HintFrame {
            start,
            end: 21,
            lm,
            transient: lm == 2,
            channels: 2,
            total_bits: bits,
        };
        let mut e = RangeEncoder::new_encoder(bits as usize / 8);
        let mut tf_res: Vec<i32> = (0..21).map(|i| i % 2).collect();
        let mut offsets: Vec<i32> = (0..21).map(|i| i % 3).collect();
        let spread = if bits > 100 { 1 } else { SPREAD_NORMAL };
        let (boosted, trim) =
            encode_hints(f, &mut tf_res, 1, spread, &mut offsets, &caps, 7, &mut e);
        let tell = e.tell_frac();
        let data = e.done().unwrap();
        let mut d = RangeDecoder::new_decoder(&data);
        let mut tf_back = vec![0; 21];
        let mut offsets_back = vec![0; 21];
        let read = decode_hints(f, &mut tf_back, &mut offsets_back, &caps, &mut d);
        assert_eq!(read, (spread, boosted, trim));
        assert_eq!(&tf_back[start..], &tf_res[start..]);
        assert_eq!(&offsets_back[start..], &offsets[start..]);
        assert_eq!(d.tell_frac(), tell);
    }
}

#[test]
fn noise_goes_on_from_its_seed() {
    assert_eq!(lcg(0), 1_013_904_223);
    assert_eq!(lcg(1), 1_015_568_748);
    assert_eq!(lcg(u32::MAX), 1_012_239_698);
    assert_eq!(lcg(lcg(0)), 1_196_435_762);
}

#[test]
fn short_blocks_are_measured_whole_with_time_to() {
    let mut e = CeltEncoder::new(1);
    for (complexity, short, yes) in [(9, true, true), (8, true, true), (7, true, false), (9, false, false)] {
        e.complexity = complexity;
        assert_eq!(e.measures_whole_frame(short), yes);
    }
}
