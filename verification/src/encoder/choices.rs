//! What the encoder's choices mean: how the layer, the bandwidth, the redundancy
//! and the silence of a packet follow from its rate, its content and what came
//! before it.

use vstd::prelude::*;

use crate::celt::bands::band_edge;
use crate::config::{Application, Bandwidth, OpusMode, RateControl, Signal};
use crate::encoder::coding::FrameInput;
use crate::encoder::control::{
    blank_memory, default_settings, rate_buys, told, widest_bought, Content, EncoderModel, Settings,
};
use crate::encoder::duration::{
    is_duration, law_layout_covers_the_packet, lemma_whole_samples, opus_rate, packet_layout,
    PacketDuration,
};
use crate::encoder::frame::{end_band, internal_khz, lbrr_gain, packet_budget};
use crate::encoder::rates::{
    affordable_bandwidth, delay_samples, equiv_rate, fec_decision, fec_rate, mode_threshold,
    numbered_bandwidth, widest_at, within_rate,
};

verus! {

/// The mode in use is kept against changes of up to 4 kb/s of equivalent rate:
/// leaving the transform layer takes 4 kb/s less than entering it did without a
/// mode in use, and leaving the others 4 kb/s more.
pub proof fn law_mode_hysteresis(
    application: Application,
    channels: int,
    voice_est: int,
    either: bool,
)
    requires
        application != Application::RestrictedLowDelay,
    ensures
        mode_threshold(application, channels, true, true, voice_est) == mode_threshold(
            application,
            channels,
            either,
            false,
            voice_est,
        ) - 4_000,
        mode_threshold(application, channels, false, true, voice_est) == mode_threshold(
            application,
            channels,
            either,
            false,
            voice_est,
        ) + 4_000,
{
}

/// What the transform layer takes grows with the square of how sure the encoder
/// is of having speech: 10 kb/s for music, and at full confidence 64 kb/s in mono
/// and 44 kb/s in stereo, to within a hundredth. A voice application adds 8 kb/s,
/// and the low-delay one takes nothing.
pub proof fn law_voice_raises_the_threshold(channels: int, voice_est: int, surer: int)
    requires
        channels == 1 || channels == 2,
        0 <= voice_est <= surer <= 127,
    ensures
        ({
            let t = |v: int| mode_threshold(Application::Audio, channels, false, false, v);
            let full = if channels == 1 {
                64_000int
            } else {
                44_000
            };
            &&& t(0) == 10_000
            &&& full - 1_000 <= t(127) <= full
            &&& t(voice_est) <= t(surer)
            &&& 10_000 <= t(voice_est) <= full
            &&& 2 * voice_est <= 127 ==> 4 * (t(voice_est) - 10_000) <= t(2 * voice_est) - 10_000
                <= 4 * (t(voice_est) - 10_000) + 4
            &&& mode_threshold(Application::Voip, channels, false, false, voice_est) == t(voice_est)
                + 8_000
            &&& mode_threshold(Application::RestrictedLowDelay, channels, true, true, voice_est)
                <= 0
        }),
{
    let w = if channels == 1 {
        54_000int
    } else {
        34_000
    };
    let a = voice_est * voice_est;
    let b = surer * surer;
    assert(0 <= a <= b <= 16_129) by (nonlinear_arith)
        requires
            a == voice_est * voice_est,
            b == surer * surer,
            0 <= voice_est <= surer <= 127,
    ;
    assert(a * w <= b * w) by (nonlinear_arith)
        requires
            a <= b,
            0 <= w,
    ;
    assert(0 <= a * w && b * w <= 16_129 * w) by (nonlinear_arith)
        requires
            0 <= a,
            b <= 16_129,
            0 <= w,
    ;
    let c = (2 * voice_est) * (2 * voice_est);
    assert(c * w == 4 * (a * w)) by (nonlinear_arith)
        requires
            c == (2 * voice_est) * (2 * voice_est),
            a == voice_est * voice_est,
    ;
    assert(127int * 127 == 16_129);
    assert(0int * 0 * w == 0);
}

/// Whatever was in use before, an equivalent rate of 76 kb/s is the transform
/// layer's, and one below 6 kb/s is not, outside the low-delay application.
pub proof fn law_rate_settles_the_layer(m: EncoderModel, packet_rate: int)
    requires
        m.wf(),
        m.application != Application::RestrictedLowDelay,
        packet_rate <= 100,
    ensures
        m.equivalent_rate(packet_rate) >= 76_000 ==> m.decision(packet_rate).0
            == OpusMode::CeltOnly,
        m.equivalent_rate(packet_rate) < 6_000 && m.settings.bitrate_bps <= 28_000 ==> m.decision(
            packet_rate,
        ).0 != OpusMode::CeltOnly,
{
    law_voice_estimate(m);
    let v = m.voice_estimate();
    law_voice_raises_the_threshold(m.channels, v, v);
    law_mode_hysteresis(m.application, m.channels, v, false);
}

/// A rate that is the transform layer's stays so when it rises, and when the
/// content turns out to be less of a voice.
pub proof fn law_layer_follows_the_rate(m: EncoderModel, n: EncoderModel, a: int, b: int)
    requires
        m.wf(),
        n.wf(),
        m.application == n.application,
        m.channels == n.channels,
        m.memory.prev_enc_mode == n.memory.prev_enc_mode,
        m.equivalent_rate(a) <= n.equivalent_rate(b),
        n.voice_estimate() <= m.voice_estimate(),
        m.first_mode(a) == OpusMode::CeltOnly,
    ensures
        n.first_mode(b) == OpusMode::CeltOnly,
{
    law_voice_estimate(m);
    law_voice_estimate(n);
    law_voice_raises_the_threshold(m.channels, n.voice_estimate(), m.voice_estimate());
    if m.application != Application::RestrictedLowDelay {
        law_mode_hysteresis(m.application, m.channels, m.voice_estimate(), false);
        law_mode_hysteresis(m.application, m.channels, n.voice_estimate(), false);
    }
}

/// The caller's word on the signal stands above everything; the analysis's
/// percentage is taken in proportion, though audio is never taken for more than
/// nine tenths speech; and without either the voice application expects speech
/// more than audio does, and audio more than the low-delay one.
pub proof fn law_voice_estimate(m: EncoderModel)
    requires
        m.wf(),
    ensures
        ({
            let v = m.voice_estimate();
            let r = m.memory.voice_ratio;
            &&& 0 <= v <= 127
            &&& m.settings.signal_type == Some(Signal::Voice) ==> v == 127
            &&& m.settings.signal_type == Some(Signal::Music) ==> v == 0
            &&& m.settings.signal_type is None && r >= 0 ==> {
                &&& 100 * v <= 128 * r
                &&& m.application != Application::Audio ==> 127 * r < 100 * v + 100
                &&& m.application == Application::Audio && r <= 90 ==> 127 * r < 100 * v + 100
                &&& m.application == Application::Audio ==> v <= 115
                &&& m.application == Application::Audio && r > 90 ==> v >= 114
            }
            &&& m.settings.signal_type is None && r < 0 ==> {
                &&& m.application == Application::Voip ==> v == 115
                &&& m.application == Application::Audio ==> v == 48
                &&& m.application == Application::RestrictedLowDelay ==> v == 0
            }
        }),
{
}

/// A packet with a verdict is judged by it; one without keeps the last voice
/// percentage if it is silent, and none otherwise. The detected bandwidth is one
/// that holds the highest band with anything in it, and no wider.
pub proof fn law_content_is_heard(m: EncoderModel, is_silence: bool, content: Option<Content>)
    ensures
        ({
            let after = told(m, is_silence, content).memory;
            match content {
                Some(c) => {
                    &&& after.voice_ratio == c.voice_ratio
                    &&& (after.detected_bandwidth == 1101) == (c.bandwidth <= 12)
                    &&& (after.detected_bandwidth == 1102) == (12 < c.bandwidth <= 14)
                    &&& (after.detected_bandwidth == 1103) == (14 < c.bandwidth <= 16)
                    &&& (after.detected_bandwidth == 1104) == (16 < c.bandwidth <= 18)
                    &&& (after.detected_bandwidth == 1105) == (18 < c.bandwidth)
                },
                None => {
                    &&& after.detected_bandwidth == 0
                    &&& after.voice_ratio == (if is_silence {
                        m.memory.voice_ratio
                    } else {
                        -1
                    })
                },
            }
        }),
        told(m, is_silence, content).settings == m.settings,
{
}

/// A 20 ms stream of variable rate at full complexity and without loss is worth
/// its own bitrate, and so is a longer one.
pub proof fn law_plain_rate_is_itself(bitrate: int, channels: int, frame_rate: int)
    requires
        0 <= bitrate,
        frame_rate <= 50,
    ensures
        equiv_rate(bitrate, channels, frame_rate, true, 10, 0) == bitrate,
{
}

/// Every packet a second beyond fifty costs 60 bits a second in mono and 100 in
/// stereo: a short frame repeats its overhead more often.
pub proof fn law_short_frames_cost(
    bitrate: int,
    channels: int,
    frame_rate: int,
    vbr: bool,
    complexity: int,
    loss: int,
)
    requires
        channels == 1 || channels == 2,
        50 <= frame_rate,
    ensures
        equiv_rate(
            bitrate + (frame_rate - 50) * (if channels == 1 {
                60int
            } else {
                100
            }),
            channels,
            frame_rate,
            vbr,
            complexity,
            loss,
        ) == equiv_rate(bitrate, channels, 50, vbr, complexity, loss),
{
    if channels == 1 {
        assert(40 * channels + 20 == 60);
    } else {
        assert(40 * channels + 20 == 100);
    }
}

/// A fixed size costs a twelfth of the rate, every step of complexity given up a
/// hundredth, and reported loss a share of `loss / (12 loss + 20)`, which is never
/// more than a twelfth: each to within one bit a second.
pub proof fn law_what_the_rest_costs(bitrate: int, channels: int, complexity: int, loss: int)
    requires
        0 <= bitrate,
        0 <= complexity <= 10,
        0 < loss <= 100,
    ensures
        ({
            let cbr = equiv_rate(bitrate, channels, 50, false, 10, 0);
            let quick = equiv_rate(bitrate, channels, 50, true, complexity, 0);
            let lossy = equiv_rate(bitrate, channels, 50, true, 10, loss);
            let taken = bitrate - lossy;
            &&& 11 * bitrate <= 12 * cbr <= 11 * bitrate + 12
            &&& 100 * quick <= (90 + complexity) * bitrate < 100 * quick + 100
            &&& taken * (12 * loss + 20) <= bitrate * loss < (taken + 1) * (12 * loss + 20)
            &&& 12 * taken <= bitrate
        }),
{
    assert(bitrate * (90 + complexity) >= 0) by (nonlinear_arith)
        requires
            0 <= bitrate,
            0 <= complexity,
    ;
    assert((90 + complexity) * bitrate == bitrate * (90 + complexity)) by (nonlinear_arith);
    let d = 12 * loss + 20;
    let p = bitrate * loss;
    assert(p >= 0) by (nonlinear_arith)
        requires
            p == bitrate * loss,
            0 <= bitrate,
            0 < loss,
    ;
    let q = p / d;
    assert(q * d <= p < (q + 1) * d) by (nonlinear_arith)
        requires
            q == p / d,
            0 < d,
            0 <= p,
    ;
    assert(equiv_rate(bitrate, channels, 50, true, 10, loss) == bitrate - q);
    assert(12 * q <= bitrate) by (nonlinear_arith)
        requires
            q * d <= p,
            p == bitrate * loss,
            d == 12 * loss + 20,
            0 < loss,
            0 <= bitrate,
            q >= 0 || q < 0,
    ;
}

/// The bandwidths' upper ends in hertz.
pub open spec fn top_hz(bandwidth: Bandwidth) -> int {
    match bandwidth {
        Bandwidth::Narrowband => 4_000,
        Bandwidth::Mediumband => 6_000,
        Bandwidth::Wideband => 8_000,
        Bandwidth::Superwideband => 12_000,
        Bandwidth::Fullband => 20_000,
    }
}

/// An input carries a bandwidth when it is sampled at twice its upper end or
/// more. A bandwidth that the input carries is kept, and any other becomes the
/// widest that it does carry.
pub proof fn law_inputs_carry_half_their_rate(bandwidth: Bandwidth, rate: int)
    requires
        opus_rate(rate),
    ensures
        2 * top_hz(within_rate(bandwidth, rate)) <= rate,
        2 * top_hz(bandwidth) <= rate ==> within_rate(bandwidth, rate) == bandwidth,
        2 * top_hz(bandwidth) > rate ==> within_rate(bandwidth, rate) == widest_at(rate),
        2 * top_hz(bandwidth) <= rate ==> top_hz(bandwidth) <= top_hz(widest_at(rate)),
{
}

/// What a bandwidth takes is kept to with a margin: 700 b/s up to wideband, 1 kb/s
/// for superwideband and 2 kb/s for fullband, below while it is in use and above
/// while it is not. The first packet has no margin.
pub proof fn law_bandwidth_hysteresis(number: int, equiv: int, voice_est: int, last: int, other: int)
    requires
        1102 <= number <= 1105,
        last >= number,
        other < number,
    ensures
        ({
            let margin = if number <= 1103 {
                700int
            } else if number == 1104 {
                1_000
            } else {
                2_000
            };
            &&& rate_buys(number, equiv, voice_est, true, other) == rate_buys(
                number,
                equiv - margin,
                voice_est,
                false,
                last,
            )
            &&& rate_buys(number, equiv, voice_est, true, last) == rate_buys(
                number,
                equiv + margin,
                voice_est,
                false,
                other,
            )
        }),
{
}

/// What each bandwidth takes on the first packet: 9 kb/s for wideband, 11 kb/s for
/// superwideband and 12 kb/s for fullband of music, and up to 13.5 and 14 kb/s of
/// those two of speech, to within fifty bits a second.
pub proof fn law_what_bandwidths_take(equiv: int, voice_est: int)
    requires
        0 <= voice_est <= 127,
    ensures
        rate_buys(1103, equiv, voice_est, true, 0) <==> equiv >= 9_000,
        rate_buys(1102, equiv, voice_est, true, 0) <==> equiv >= 9_000,
        rate_buys(1104, equiv, 0, true, 0) <==> equiv >= 11_000,
        rate_buys(1105, equiv, 0, true, 0) <==> equiv >= 12_000,
        equiv < 11_000 ==> !rate_buys(1104, equiv, voice_est, true, 0),
        equiv < 12_000 ==> !rate_buys(1105, equiv, voice_est, true, 0),
        equiv >= 13_500 ==> rate_buys(1104, equiv, voice_est, true, 0),
        equiv >= 14_000 ==> rate_buys(1105, equiv, voice_est, true, 0),
        equiv < 13_450 ==> !rate_buys(1104, equiv, 127, true, 0),
        equiv < 13_950 ==> !rate_buys(1105, equiv, 127, true, 0),
{
    let a = voice_est * voice_est;
    assert(0 <= a <= 16_129) by (nonlinear_arith)
        requires
            a == voice_est * voice_est,
            0 <= voice_est <= 127,
    ;
    assert(127int * 127 == 16_129);
    assert(0int * 0 == 0);
}

/// The rate buys the widest bandwidth that it is enough for: none wider is bought,
/// and a higher rate never buys less. From 16 kb/s on it is always fullband, and
/// below 8.3 kb/s always narrowband. Mediumband is never bought.
pub proof fn law_rate_buys_the_widest(m: EncoderModel, packet_rate: int, number: int)
    requires
        m.wf(),
        1102 <= number <= 1105,
    ensures
        ({
            let bought = m.bought_bandwidth(packet_rate);
            let equiv = m.equivalent_rate(packet_rate);
            let buys = rate_buys(
                number,
                equiv,
                m.voice_estimate(),
                m.memory.first_frame,
                m.memory.auto_bandwidth,
            );
            &&& bought == 1101 || 1103 <= bought <= 1105
            &&& buys ==> bought >= number
            &&& number == bought && bought != 1103 ==> buys
            &&& equiv >= 16_000 ==> bought == 1105
            &&& equiv < 8_300 ==> bought == 1101
        }),
{
    law_voice_estimate(m);
    let e = m.equivalent_rate(packet_rate);
    let v = m.voice_estimate();
    let last = m.memory.auto_bandwidth;
    law_what_bandwidths_take(e, v);
    law_what_bandwidths_take(e - 2_000, v);
    law_what_bandwidths_take(e + 700, v);
    law_what_bandwidths_take(e + 1_000, v);
    law_what_bandwidths_take(e + 2_000, v);
    reveal_with_fuel(widest_bought, 6);
}

/// Content is narrowed to what it holds only where the rate is short: never below
/// wideband, not below superwideband above 30 kb/s a channel, and not at all above
/// 44 kb/s a channel, nor in the transform layer, nor where the caller forces a
/// bandwidth.
pub proof fn law_content_narrows_with_care(m: EncoderModel, packet_rate: int)
    requires
        m.wf(),
        m.rate == 48_000,
        m.settings.rate_control != RateControl::Cbr,
    ensures
        ({
            let equiv = m.equivalent_rate(packet_rate);
            let allowed = m.allowed_bandwidth(packet_rate);
            let bought = m.bought_bandwidth(packet_rate);
            let speech = m.first_mode(packet_rate) != OpusMode::CeltOnly;
            let detected = m.memory.detected_bandwidth;
            let heeded = speech && detected != 0 && m.settings.force_bandwidth is None;
            &&& !speech ==> allowed == bought
            &&& speech && !heeded ==> allowed == (if bought < 1103 {
                1103
            } else {
                bought
            })
            &&& speech ==> allowed >= 1103
            &&& heeded && equiv > 44_000 * m.channels && bought == 1105 ==> allowed == 1105
            &&& heeded && 30_000 * m.channels < equiv <= 44_000 * m.channels && bought == 1105
                && detected < 1105 ==> allowed == 1104
            &&& heeded && equiv <= 30_000 * m.channels && detected <= 1103 ==> allowed == 1103
            &&& heeded && equiv <= 30_000 * m.channels && detected == 1104 && bought >= 1104
                ==> allowed == 1104
        }),
{
    lemma_bought_range(m, packet_rate);
}

/// The rate buys one of the bandwidths.
proof fn lemma_bought_range(m: EncoderModel, packet_rate: int)
    ensures
        m.bought_bandwidth(packet_rate) == 1101 || 1103 <= m.bought_bandwidth(packet_rate) <= 1105,
{
    reveal_with_fuel(widest_bought, 6);
}

/// At a fixed rate under 15 kb/s speech is never coded as a hybrid.
pub proof fn law_low_fixed_rates_stay_speech(m: EncoderModel, packet_rate: int)
    requires
        m.wf(),
        m.settings.rate_control == RateControl::Cbr,
        m.settings.bitrate_bps < 15_000,
        m.settings.force_bandwidth is None,
    ensures
        m.decision(packet_rate).0 != OpusMode::Hybrid,
{
    lemma_bought_range(m, packet_rate);
    lemma_fec_narrows(m, packet_rate);
}

/// In-band redundancy never widens a packet.
proof fn lemma_fec_narrows(m: EncoderModel, packet_rate: int)
    ensures
        1101 <= m.redundancy(packet_rate).1 <= 1101 + m.chosen_bandwidth(packet_rate).rank(),
{
    lemma_affordable(
        1101 + m.chosen_bandwidth(packet_rate).rank(),
        m.memory.lbrr_coded,
        m.settings.packet_loss_perc as int,
        m.equivalent_rate(packet_rate),
    );
}

/// Narrowing ends at a bandwidth where redundancy pays, and at the widest such.
proof fn lemma_affordable(bandwidth: int, last_fec: bool, loss: int, rate: int)
    requires
        1101 <= bandwidth <= 1105,
    ensures
        affordable_bandwidth(bandwidth, last_fec, loss, rate) matches Some(b) ==> {
            &&& 1101 <= b <= bandwidth
            &&& rate > fec_rate(b, last_fec, loss)
            &&& forall|w: int| b < w <= bandwidth ==> rate <= #[trigger] fec_rate(w, last_fec, loss)
        },
        affordable_bandwidth(bandwidth, last_fec, loss, rate) is None ==> forall|w: int|
            1101 <= w <= bandwidth ==> rate <= #[trigger] fec_rate(w, last_fec, loss),
    decreases bandwidth,
{
    if bandwidth > 1101 {
        lemma_affordable(bandwidth - 1, last_fec, loss, rate);
    }
}

/// The layers keep to their widths: the hybrid codes superwideband and fullband,
/// the speech layer what is narrower, packets of 5 ms or less are the transform
/// layer's, and so is stereo above 28 kb/s that would be a hybrid. Anything else
/// keeps the layer that its rate buys.
pub proof fn law_layers_keep_to_their_widths(m: EncoderModel, packet_rate: int)
    requires
        m.wf(),
    ensures
        ({
            let (mode, bandwidth) = m.decision(packet_rate);
            let wide = bandwidth == Bandwidth::Superwideband || bandwidth == Bandwidth::Fullband;
            let first = m.first_mode(packet_rate);
            &&& mode == OpusMode::Hybrid ==> wide
            &&& mode == OpusMode::SilkOnly ==> !wide
            &&& packet_rate == 400 || packet_rate == 200 ==> mode == OpusMode::CeltOnly
            &&& first == OpusMode::CeltOnly ==> mode == OpusMode::CeltOnly
            &&& mode == OpusMode::CeltOnly ==> bandwidth != Bandwidth::Mediumband
            &&& m.channels == 2 && m.settings.bitrate_bps > 28_000 ==> mode != OpusMode::Hybrid
            &&& first == OpusMode::SilkOnly && packet_rate <= 100 && (m.channels == 1
                || m.settings.bitrate_bps <= 28_000) ==> mode == (if wide {
                OpusMode::Hybrid
            } else {
                OpusMode::SilkOnly
            })
        }),
{
    lemma_fec_narrows(m, packet_rate);
}

/// A forced bandwidth is what a mono packet is coded at, as far as the input
/// carries it, where no redundancy is asked for; but the transform layer has no
/// mediumband and takes wideband.
pub proof fn law_forced_bandwidth_stands(m: EncoderModel, packet_rate: int, forced: Bandwidth)
    requires
        m.wf(),
        m.channels == 1,
        !m.settings.use_inband_fec,
        m.settings.force_bandwidth == Some(forced),
    ensures
        ({
            let (mode, bandwidth) = m.decision(packet_rate);
            let carried = within_rate(forced, m.rate);
            bandwidth == (if mode == OpusMode::CeltOnly && carried == Bandwidth::Mediumband {
                Bandwidth::Wideband
            } else {
                carried
            })
        }),
{
}

/// Numbers name the bandwidths from narrowband, 1101, to fullband, 1105.
pub proof fn law_bandwidth_numbers(bandwidth: Bandwidth)
    ensures
        numbered_bandwidth(1101) == Bandwidth::Narrowband,
        numbered_bandwidth(1102) == Bandwidth::Mediumband,
        numbered_bandwidth(1103) == Bandwidth::Wideband,
        numbered_bandwidth(1104) == Bandwidth::Superwideband,
        numbered_bandwidth(1105) == Bandwidth::Fullband,
        numbered_bandwidth(1101 + bandwidth.rank()) == bandwidth,
{
}

/// Redundancy is carried only where it is asked for, where loss is reported, and
/// where the speech layer takes part. Up to 5% loss it never narrows the packet;
/// above that it narrows it as little as makes it affordable, and leaves it alone
/// where nothing does.
pub proof fn law_redundancy_is_worth_it(
    asked: bool,
    loss: int,
    last_fec: bool,
    mode: OpusMode,
    bandwidth: int,
    rate: int,
)
    requires
        0 <= loss <= 100,
        1101 <= bandwidth <= 1105,
    ensures
        ({
            let (fec, coded) = fec_decision(asked, loss, last_fec, mode, bandwidth, rate);
            &&& fec ==> asked && loss > 0 && mode != OpusMode::CeltOnly
            &&& fec ==> rate > fec_rate(coded, last_fec, loss)
            &&& 1101 <= coded <= bandwidth
            &&& coded != bandwidth ==> fec && loss > 5
            &&& forall|w: int|
                coded < w <= bandwidth ==> rate <= #[trigger] fec_rate(w, last_fec, loss)
            &&& asked && loss > 0 && mode != OpusMode::CeltOnly && rate > fec_rate(
                bandwidth,
                last_fec,
                loss,
            ) ==> fec && coded == bandwidth
            &&& asked && loss > 5 && mode != OpusMode::CeltOnly && !fec ==> forall|w: int|
                1101 <= w <= bandwidth ==> rate <= #[trigger] fec_rate(w, last_fec, loss)
        }),
{
    lemma_affordable(bandwidth, last_fec, loss, rate);
}

/// The rate from which redundancy pays is the bandwidth's own at 25% loss: 12, 14,
/// 16, 20 and 22 kb/s from narrowband to fullband, a kilobit less while it is
/// carried and a kilobit more while it is not. It rises by a hundredth for every
/// percent less, and not at all beyond.
pub proof fn law_what_redundancy_takes(bandwidth: int, last_fec: bool, loss: int)
    requires
        1101 <= bandwidth <= 1105,
        0 <= loss <= 100,
    ensures
        ({
            let own = if bandwidth == 1101 {
                12_000int
            } else if bandwidth == 1102 {
                14_000
            } else if bandwidth == 1103 {
                16_000
            } else if bandwidth == 1104 {
                20_000
            } else {
                22_000
            };
            let base = own + if last_fec {
                -1_000int
            } else {
                1_000
            };
            let t = fec_rate(bandwidth, last_fec, loss);
            &&& loss >= 25 ==> base - 20 <= t <= base
            &&& loss < 25 ==> base * (125 - loss) - 2_000 <= 100 * t <= base * (125 - loss)
        }),
{
    let x = 125 - (if loss < 25 {
        loss
    } else {
        25
    });
    let own = if bandwidth == 1101 {
        12_000int
    } else if bandwidth == 1102 {
        14_000
    } else if bandwidth == 1103 {
        16_000
    } else if bandwidth == 1104 {
        20_000
    } else {
        22_000
    };
    let base = own + if last_fec {
        -1_000int
    } else {
        1_000
    };
    let y = base * x;
    assert(1_100_000 <= y <= 2_875_000) by (nonlinear_arith)
        requires
            y == base * x,
            11_000 <= base <= 23_000,
            100 <= x <= 125,
    ;
    assert(fec_rate(bandwidth, last_fec, loss) == y * 655 / 65_536);
    if loss >= 25 {
        assert(y == 100 * base) by (nonlinear_arith)
            requires
                y == base * x,
                x == 100,
        ;
    }
}

/// The steps that make the redundant copy cheap are seven on the first packet that
/// has one, and after that one fewer for every five percent of loss, but never
/// fewer than three.
pub proof fn law_redundant_copies_are_cheap(loss: int)
    requires
        0 <= loss <= 100,
    ensures
        lbrr_gain(false, loss) == 7,
        3 <= lbrr_gain(true, loss) <= 7,
        loss <= 20 ==> 7 - loss / 5 <= lbrr_gain(true, loss) <= 7 - (loss - 1) / 5,
        loss > 20 ==> lbrr_gain(true, loss) == 3,
{
}

/// Real audio is always sent: a frame that is not silent, and that the analysis
/// has not called inactive, is sent and starts the inactive time anew. So is every
/// frame where dropping was not asked for.
pub proof fn law_real_audio_is_sent(m: EncoderModel, f: FrameInput)
    requires
        !m.settings.use_dtx || (!f.is_silence && f.active != Some(false)),
    ensures
        m.frame_start(f).budget is Some,
        m.frame_started(f).memory.nb_no_activity_ms_q1 == 0,
{
}

/// Inactivity is dropped once it has lasted 200 ms, and until it has lasted 600:
/// then one frame is sent, and another 400 ms are dropped. A dropped frame leaves
/// the final range at zero and counts as one of its mode.
pub proof fn law_inactivity_is_dropped(m: EncoderModel, f: FrameInput)
    requires
        m.settings.use_dtx,
        f.is_silence || f.active == Some(false),
        0 <= m.memory.nb_no_activity_ms_q1 <= 1200,
        opus_rate(m.rate),
    ensures
        ({
            // In half milliseconds.
            let idle = m.memory.nb_no_activity_ms_q1 + 2_000 * f.frame_size as int / m.rate;
            let after = m.frame_started(f).memory;
            &&& m.frame_start(f).budget is None <==> 400 < idle <= 1200
            &&& idle <= 1200 ==> after.nb_no_activity_ms_q1 == idle
            &&& idle > 1200 ==> after.nb_no_activity_ms_q1 == 400
            &&& 400 < idle <= 1200 ==> after.range_final == 0 && after.prev_enc_mode == Some(f.mode)
        }),
{
}

/// Changing the layer starts over what the decoder will start over: the transform
/// layer whenever it takes part in a packet of another mode than the last, and the
/// speech layer whenever it comes after a packet without it.
pub proof fn law_changes_start_over(m: EncoderModel, f: FrameInput, before: OpusMode)
    requires
        m.memory.prev_enc_mode == Some(before),
    ensures
        m.frame_start(f).restart_celt <==> before != f.mode && f.mode != OpusMode::SilkOnly,
        ({
            let after = m.frame_started(f).memory;
            let anew = before == OpusMode::CeltOnly && f.mode != OpusMode::CeltOnly;
            &&& anew ==> !after.silk_initialized && after.silk_prefill_pending
            &&& !anew ==> after.silk_initialized == m.memory.silk_initialized
        }),
{
}

/// Settings are held to what the encoder can honour, each to the nearest value
/// that it can: 500 b/s to 300 kb/s a channel, complexity 0 to 10, loss 0 to 100%,
/// and 8 to 24 bits. The others stay as they are.
pub proof fn law_settings_are_held(s: Settings, channels: int)
    requires
        channels == 1 || channels == 2,
    ensures
        ({
            let n = s.normalized(channels);
            let most = 300_000 * channels;
            &&& n.bitrate_bps == (if s.bitrate_bps < 500 {
                500
            } else if s.bitrate_bps > most {
                most
            } else {
                s.bitrate_bps as int
            })
            &&& n.complexity == (if s.complexity < 0 {
                0
            } else if s.complexity > 10 {
                10
            } else {
                s.complexity
            })
            &&& n.packet_loss_perc == (if s.packet_loss_perc < 0 {
                0
            } else if s.packet_loss_perc > 100 {
                100
            } else {
                s.packet_loss_perc
            })
            &&& n.lsb_depth == (if s.lsb_depth < 8 {
                8
            } else if s.lsb_depth > 24 {
                24
            } else {
                s.lsb_depth
            })
            &&& n == (Settings {
                bitrate_bps: n.bitrate_bps,
                complexity: n.complexity,
                packet_loss_perc: n.packet_loss_perc,
                lsb_depth: n.lsb_depth,
                ..s
            })
        }),
{
}

/// A new encoder codes 64 kb/s at complexity 9 and a constrained variable rate,
/// fullband and 24 bits deep, with neither redundancy nor dropping, and knows
/// nothing of its input.
pub proof fn law_new_encoders(rate: int)
    requires
        opus_rate(rate),
    ensures
        ({
            let s = default_settings();
            &&& s.bitrate_bps == 64_000 && s.complexity == 9 && s.lsb_depth == 24
            &&& s.rate_control == RateControl::ConstrainedVbr
            &&& !s.use_inband_fec && !s.use_dtx && s.packet_loss_perc == 0
            &&& s.force_bandwidth is None && s.signal_type is None
            &&& s.max_bandwidth == Bandwidth::Fullband
            &&& s.in_range(1) && s.in_range(2)
        }),
        ({
            let m = blank_memory(rate);
            &&& m.prev_enc_mode is None && m.first_frame && m.voice_ratio < 0
            &&& m.nb_no_activity_ms_q1 == 0 && m.detected_bandwidth == 0 && !m.lbrr_coded
            &&& !m.silk_initialized && !m.silk_prefill_pending && m.range_final == 0
            &&& 2 * top_hz(m.bandwidth) <= rate
        }),
{
}

/// The transform layer's input trails the caller's by 4 ms, so that both layers
/// line up; but not for the low-delay application.
pub proof fn law_layers_line_up(rate: int, application: Application)
    requires
        opus_rate(rate),
    ensures
        application != Application::RestrictedLowDelay ==> 1_000 * delay_samples(rate, application)
            == 4 * rate,
        application == Application::RestrictedLowDelay ==> delay_samples(rate, application) == 0,
{
}

/// A packet of up to 20 ms is one frame. A longer one is frames of 20 ms, but for
/// the speech layer, which keeps 40 and 60 ms whole and makes two of each of 80 and
/// 120 ms. The frames together last as long as the packet.
pub proof fn law_long_packets_are_split(d: PacketDuration, rate: int, mode: OpusMode)
    requires
        is_duration(d.tenths_ms as int),
        opus_rate(rate),
    ensures
        ({
            let l = packet_layout(d, rate, mode);
            let silk = mode == OpusMode::SilkOnly;
            let n = l.nb_frames as int;
            &&& d.tenths_ms <= 200 ==> n == 1
            &&& d.tenths_ms > 200 && !silk ==> 200 * n == d.tenths_ms
            &&& silk && (d.tenths_ms == 400 || d.tenths_ms == 600) ==> n == 1
            &&& silk && (d.tenths_ms == 800 || d.tenths_ms == 1200) ==> n == 2
            &&& silk && d.tenths_ms == 1000 ==> n == 5
            &&& l.enc_frame_size * n * 10_000 == rate * d.tenths_ms
        }),
{
    let t = d.tenths_ms as int;
    let l = packet_layout(d, rate, mode);
    law_layout_covers_the_packet(d, rate, mode);
    lemma_whole_samples(rate, t);
    assert(l.enc_frame_size * l.nb_frames == rate * t / 10_000);
    assert(l.enc_frame_size * l.nb_frames * 10_000 == rate * t);
}

/// The speech layer runs at twice the bandwidth it codes, as far as the input is
/// sampled at that, and at 16 kHz in the hybrid.
pub proof fn law_speech_runs_at_twice_the_bandwidth(
    mode: OpusMode,
    bandwidth: Bandwidth,
    rate: int,
)
    requires
        opus_rate(rate),
        mode != OpusMode::CeltOnly,
    ensures
        mode == OpusMode::Hybrid ==> internal_khz(mode, bandwidth, rate) == 16,
        mode == OpusMode::SilkOnly && top_hz(bandwidth) <= 8_000 && 2 * top_hz(bandwidth) <= rate
            ==> internal_khz(mode, bandwidth, rate) * 1_000 == 2 * top_hz(bandwidth),
        mode == OpusMode::SilkOnly && top_hz(bandwidth) <= 8_000 && 2 * top_hz(bandwidth) > rate
            ==> internal_khz(mode, bandwidth, rate) * 1_000 == rate,
{
}

/// A fixed rate gives a packet its share of the bitrate in bytes, rounded, as far
/// as the buffer has them; otherwise it may have all of the buffer.
pub proof fn law_packets_get_their_share(bitrate: int, frame_size: int, rate: int, room: int)
    requires
        0 <= bitrate,
        0 < frame_size,
        0 < rate,
        3 <= room,
    ensures
        ({
            let bits = bitrate * frame_size / rate;
            let fixed = packet_budget(bitrate, frame_size, rate, true, room);
            &&& 4 <= bits && bits + 4 < 8 * room ==> 8 * fixed - 4 <= bits < 8 * fixed + 4
            &&& bits + 4 >= 8 * room ==> fixed == room
            &&& packet_budget(bitrate, frame_size, rate, false, room) == room
        }),
{
}

/// The band after the last one that each bandwidth codes begins where its range
/// ends, in steps of 200 Hz; mediumband is coded as wideband.
pub proof fn law_bands_end_with_the_bandwidth(bandwidth: Bandwidth)
    ensures
        ({
            let top = band_edge(end_band(bandwidth)) * 200;
            match bandwidth {
                Bandwidth::Mediumband => top == 8_000,
                _ => top == top_hz(bandwidth),
            }
        }),
{
}

} // verus!
