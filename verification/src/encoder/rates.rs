//! Rates, thresholds and the widths they buy.

use vstd::prelude::*;

use crate::config::{Application, Bandwidth, OpusMode};
use crate::encoder::duration::opus_rate;
use crate::math::{div_trunc, least};

verus! {

/// One short MDCT block, in 48 kHz samples.
pub const SHORT_MDCT_SIZE: usize = 120;

/// The bandwidth with the number `v`; wideband for any other number.
pub open spec fn numbered_bandwidth(v: int) -> Bandwidth {
    if v == 1101 {
        Bandwidth::Narrowband
    } else if v == 1102 {
        Bandwidth::Mediumband
    } else if v == 1104 {
        Bandwidth::Superwideband
    } else if v == 1105 {
        Bandwidth::Fullband
    } else {
        Bandwidth::Wideband
    }
}

/// The bandwidth with the number `v`; wideband for any other number.
pub fn bandwidth_from_i32(v: i32) -> (bw: Bandwidth)
    ensures
        bw == numbered_bandwidth(v as int),
{
    if v == 1101 {
        Bandwidth::Narrowband
    } else if v == 1102 {
        Bandwidth::Mediumband
    } else if v == 1104 {
        Bandwidth::Superwideband
    } else if v == 1105 {
        Bandwidth::Fullband
    } else {
        Bandwidth::Wideband
    }
}

/// The widest bandwidth an input at a rate can carry.
pub open spec fn widest_at(rate: int) -> Bandwidth {
    if rate <= 8000 {
        Bandwidth::Narrowband
    } else if rate <= 12000 {
        Bandwidth::Mediumband
    } else if rate <= 16000 {
        Bandwidth::Wideband
    } else if rate <= 24000 {
        Bandwidth::Superwideband
    } else {
        Bandwidth::Fullband
    }
}

/// A bandwidth, or the widest that the rate carries if that is narrower.
pub open spec fn within_rate(bw: Bandwidth, rate: int) -> Bandwidth {
    if bw.rank() > widest_at(rate).rank() {
        widest_at(rate)
    } else {
        bw
    }
}

/// Hold a bandwidth to the widest an input at `sampling_rate` can actually
/// carry: coding above the input's Nyquist rate asks the encoder for bands that
/// hold no signal.
pub fn clamp_bandwidth_to_rate(bw: Bandwidth, sampling_rate: i32) -> (r: Bandwidth)
    ensures
        r == within_rate(bw, sampling_rate as int),
        r.rank() <= widest_at(sampling_rate as int).rank(),
{
    let max = if sampling_rate <= 8000 {
        Bandwidth::Narrowband
    } else if sampling_rate <= 12000 {
        Bandwidth::Mediumband
    } else if sampling_rate <= 16000 {
        Bandwidth::Wideband
    } else if sampling_rate <= 24000 {
        Bandwidth::Superwideband
    } else {
        Bandwidth::Fullband
    };
    if bw.number() > max.number() {
        max
    } else {
        bw
    }
}

/// Whether the CELT layer can code a frame of that many 48 kHz samples.
///
/// The CELT layer always runs the 48 kHz mode regardless of the API rate, so the
/// only frame sizes it can transform are one, two, four or eight short blocks:
/// 120, 240, 480 and 960 samples.
pub fn celt_can_code_frame(frame_size_48k: usize) -> (yes: bool)
    ensures
        yes == (frame_size_48k == 120 || frame_size_48k == 240 || frame_size_48k == 480
            || frame_size_48k == 960),
{
    let blocks: usize = frame_size_48k / SHORT_MDCT_SIZE;
    frame_size_48k % SHORT_MDCT_SIZE == 0 && (blocks == 1 || blocks == 2 || blocks == 4 || blocks
        == 8)
}

/// 48 kHz samples per input sample at `sampling_rate`. The CELT layer only has
/// the 48 kHz mode, so a lower API rate is coded by zero-stuffing up to 48 kHz.
pub fn celt_upsample(sampling_rate: i32) -> (n: usize)
    requires
        opus_rate(sampling_rate as int),
    ensures
        n * sampling_rate == 48_000,
        1 <= n <= 6,
{
    (48_000 / sampling_rate) as usize
}

/// Input samples per channel used to prefill a freshly-reset CELT encoder: one
/// short MDCT block, 2.5 ms, expressed at the API rate. Scaled by
/// [`celt_upsample`] it is always exactly one short block at 48 kHz, which is
/// the only frame size a fresh CELT encoder can transform.
pub fn celt_prefill_samples(sampling_rate: i32) -> (n: usize)
    requires
        opus_rate(sampling_rate as int),
    ensures
        n * 400 == sampling_rate,
        n * 48_000 == SHORT_MDCT_SIZE * sampling_rate,
{
    let upsample: usize = celt_upsample(sampling_rate);
    proof {
        if sampling_rate == 8000 {
            assert(upsample == 6);
        } else if sampling_rate == 12000 {
            assert(upsample == 4);
        } else if sampling_rate == 16000 {
            assert(upsample == 3);
        } else if sampling_rate == 24000 {
            assert(upsample == 2);
        } else {
            assert(upsample == 1);
        }
    }
    SHORT_MDCT_SIZE / upsample
}

/// Samples the CELT layer's input trails the caller's.
///
/// CELT has a shorter algorithmic delay than SILK, so an encoder that fed both
/// the same samples would emit a stream whose timeline jumps by the difference
/// every time the mode changes. Handing CELT input that lags by 4 ms closes
/// that: the two layers then line up at the decoder.
///
/// Zero for [`Application::RestrictedLowDelay`], which trades the mode switch
/// away for the lower delay.
pub fn celt_delay_samples(sampling_rate: i32, application: Application) -> (n: usize)
    requires
        opus_rate(sampling_rate as int),
    ensures
        n == delay_samples(sampling_rate as int, application),
{
    match application {
        Application::RestrictedLowDelay => 0,
        _ => (sampling_rate / 250) as usize,
    }
}

/// Samples the CELT layer's input trails the caller's: 4 ms, or none.
pub open spec fn delay_samples(rate: int, application: Application) -> int {
    if application == Application::RestrictedLowDelay {
        0
    } else {
        rate / 250
    }
}

/// The rate above which in-band redundancy is worth its bits at a bandwidth,
/// without the loss scaling.
pub open spec fn fec_base_rate(bandwidth: int) -> int {
    if bandwidth == 1101 {
        12000
    } else if bandwidth == 1102 {
        14000
    } else if bandwidth == 1103 {
        16000
    } else if bandwidth == 1104 {
        20000
    } else {
        22000
    }
}

/// The rate above which in-band redundancy is worth its bits: the bandwidth's
/// own, a little lower when it was in use and higher when it was not, and
/// scaled down as the reported loss rises.
pub open spec fn fec_rate(bandwidth: int, last_fec: bool, loss: int) -> int {
    (fec_base_rate(bandwidth) + if last_fec {
        -1000int
    } else {
        1000
    }) * (125 - least(loss, 25)) * 655 / 65_536
}

/// The widest bandwidth from `bandwidth` down at which in-band redundancy is
/// affordable.
pub open spec fn affordable_bandwidth(bandwidth: int, last_fec: bool, loss: int, rate: int) -> Option<
    int,
>
    decreases bandwidth,
{
    if rate > fec_rate(bandwidth, last_fec, loss) {
        Some(bandwidth)
    } else if bandwidth <= 1101 {
        None
    } else {
        affordable_bandwidth(bandwidth - 1, last_fec, loss, rate)
    }
}

/// Whether a packet carries in-band redundancy, and the bandwidth it is then
/// coded at.
pub open spec fn fec_decision(
    use_inband_fec: bool,
    loss: int,
    last_fec: bool,
    mode: OpusMode,
    bandwidth: int,
    rate: int,
) -> (bool, int) {
    if !use_inband_fec || loss == 0 || mode == OpusMode::CeltOnly {
        (false, bandwidth)
    } else if loss <= 5 {
        (rate > fec_rate(bandwidth, last_fec, loss), bandwidth)
    } else {
        match affordable_bandwidth(bandwidth, last_fec, loss, rate) {
            Some(narrowed) => (true, narrowed),
            None => (false, bandwidth),
        }
    }
}

/// Decide whether a packet carries in-band redundancy.
///
/// In-band FEC is not free: the redundant copy has to come out of the same
/// budget as the primary stream, so below a bitrate threshold enabling it costs
/// more quality than the loss it insures against. There is a threshold per
/// bandwidth with hysteresis, scaled down as the reported loss rises (at high
/// loss FEC is worth more), and above 5% loss the coded bandwidth is narrowed to
/// find room rather than give FEC up, which is why `bandwidth` is in/out.
pub fn decide_fec(
    use_inband_fec: bool,
    packet_loss_perc: i32,
    last_fec: bool,
    mode: OpusMode,
    bandwidth: &mut i32,
    rate: i32,
) -> (fec: bool)
    requires
        0 <= packet_loss_perc,
    ensures
        (fec, *final(bandwidth) as int) == fec_decision(
            use_inband_fec,
            packet_loss_perc as int,
            last_fec,
            mode,
            *old(bandwidth) as int,
            rate as int,
        ),
{
    if !use_inband_fec || packet_loss_perc == 0 || mode == OpusMode::CeltOnly {
        return false;
    }
    let loss: i32 = if packet_loss_perc < 25 {
        packet_loss_perc
    } else {
        25
    };
    let original: i32 = *bandwidth;
    let ghost whole = affordable_bandwidth(
        original as int,
        last_fec,
        packet_loss_perc as int,
        rate as int,
    );
    loop
        invariant_except_break
            original == *old(bandwidth),
            0 < packet_loss_perc,
            use_inband_fec,
            mode != OpusMode::CeltOnly,
            loss == least(packet_loss_perc as int, 25),
            packet_loss_perc <= 5 ==> *bandwidth == original,
            whole == affordable_bandwidth(
                original as int,
                last_fec,
                packet_loss_perc as int,
                rate as int,
            ),
            whole == affordable_bandwidth(
                *bandwidth as int,
                last_fec,
                packet_loss_perc as int,
                rate as int,
            ),
        ensures
            packet_loss_perc > 5,
            whole is None,
        decreases *bandwidth,
    {
        let base: i32 = match *bandwidth {
            1101 => 12000,
            1102 => 14000,
            1103 => 16000,
            1104 => 20000,
            _ => 22000,
        };
        let with_hysteresis: i32 = if last_fec {
            base - 1000
        } else {
            base + 1000
        };
        assert(0 <= with_hysteresis * (125 - loss) <= 23000 * 125) by (nonlinear_arith)
            requires
                11000 <= with_hysteresis <= 23000,
                0 <= loss <= 25,
        ;
        let scaled: i64 = with_hysteresis as i64 * (125 - loss) as i64;
        let threshold: i64 = scaled * 655 / 65_536;
        assert(threshold == fec_rate(*bandwidth as int, last_fec, packet_loss_perc as int));
        if rate as i64 > threshold {
            return true;
        }
        if packet_loss_perc <= 5 {
            return false;
        }
        if *bandwidth > 1101 {
            *bandwidth = *bandwidth - 1;
        } else {
            break;
        }
    }
    // No bandwidth left that makes FEC affordable; keep what was asked for.
    *bandwidth = original;
    false
}

/// The bitrate that a 20 ms VBR stream at full complexity without loss would
/// need for the same quality.
pub open spec fn equiv_rate(
    bitrate: int,
    channels: int,
    frame_rate: int,
    vbr: bool,
    complexity: int,
    loss: int,
) -> int {
    let short = if frame_rate > 50 {
        bitrate - (40 * channels + 20) * (frame_rate - 50)
    } else {
        bitrate
    };
    let sized = if vbr {
        short
    } else {
        short - div_trunc(short, 12)
    };
    let worked = div_trunc(sized * (90 + complexity), 100);
    if loss > 0 {
        worked - div_trunc(worked * loss, 12 * loss + 20)
    } else {
        worked
    }
}

/// Bitrates that the encoder's arithmetic holds.
pub open spec fn workable_rate(bitrate: int) -> bool {
    0 <= bitrate <= 10_000_000
}

/// The bitrate that a 20 ms VBR stream at full complexity without loss would
/// need for the same quality: short frames repeat their overhead more often, a
/// fixed size costs a twelfth, lower complexity does less with each bit, and
/// loss takes its share.
pub fn compute_equiv_rate(
    bitrate: i32,
    channels: usize,
    frame_rate: i32,
    vbr: bool,
    complexity: i32,
    loss: i32,
) -> (equiv: i32)
    requires
        workable_rate(bitrate as int),
        1 <= channels <= 2,
        0 <= frame_rate <= 400,
        0 <= complexity <= 10,
        0 <= loss <= 100,
    ensures
        equiv == equiv_rate(
            bitrate as int,
            channels as int,
            frame_rate as int,
            vbr,
            complexity as int,
            loss as int,
        ),
        -35_000 <= equiv <= bitrate,
{
    let mut equiv: i32 = bitrate;
    if frame_rate > 50 {
        assert((40 * channels + 20) * (frame_rate - 50) <= 35_000 && (40 * channels + 20) * (
        frame_rate - 50) >= 0) by (nonlinear_arith)
            requires
                1 <= channels <= 2,
                50 < frame_rate <= 400,
        ;
        equiv = equiv - (40 * channels as i32 + 20) * (frame_rate - 50);
    }
    if !vbr {
        equiv = equiv - equiv / 12;
    }
    let ghost sized = equiv as int;
    assert(-35_000 * 100 <= sized * (90 + complexity) <= 10_000_000 * 100) by (nonlinear_arith)
        requires
            -35_000 <= sized <= 10_000_000,
            0 <= complexity <= 10,
    ;
    assert(sized >= 0 ==> 0 <= sized * (90 + complexity) <= sized * 100) by (nonlinear_arith)
        requires
            0 <= complexity <= 10,
    ;
    assert(sized < 0 ==> sized * 100 <= sized * (90 + complexity) <= 0) by (nonlinear_arith)
        requires
            0 <= complexity <= 10,
    ;
    equiv = equiv * (90 + complexity) / 100;
    if loss > 0 {
        let ghost worked = equiv as int;
        assert(-35_000 * 100 <= worked * loss <= 10_000_000 * 100) by (nonlinear_arith)
            requires
                -35_000 <= worked <= 10_000_000,
                0 < loss <= 100,
        ;
        let product: i64 = equiv as i64 * loss as i64;
        let part: i64 = product / (12 * loss + 20) as i64;
        assert(worked >= 0 ==> 0 <= part <= worked) by (nonlinear_arith)
            requires
                product == worked * loss,
                0 < loss,
                part == div_trunc(product as int, 12 * loss + 20),
        ;
        assert(worked < 0 ==> worked <= part <= 0) by (nonlinear_arith)
            requires
                product == worked * loss,
                0 < loss,
                part == div_trunc(product as int, 12 * loss + 20),
        ;
        equiv = (equiv as i64 - part) as i32;
    }
    equiv
}

/// The equivalent rate from which the transform layer codes a packet: between
/// the music and the voice threshold by the square of the voice estimate,
/// higher for a voice application, and with hysteresis around the mode in use.
pub open spec fn mode_threshold(
    application: Application,
    channels: int,
    prev_was_celt: bool,
    has_prev_mode: bool,
    voice_est: int,
) -> int {
    let voice = if channels == 1 {
        64_000int
    } else {
        44_000
    };
    let between = 10_000 + voice_est * voice_est * (voice - 10_000) / 16_384;
    if application == Application::RestrictedLowDelay {
        0
    } else {
        between + (if application == Application::Voip {
            8_000int
        } else {
            0
        }) + (if !has_prev_mode {
            0int
        } else if prev_was_celt {
            -4_000
        } else {
            4_000
        })
    }
}

/// The equivalent rate from which the transform layer codes a packet.
pub fn compute_mode_threshold(
    application: Application,
    channels: usize,
    prev_was_celt: bool,
    has_prev_mode: bool,
    voice_est: i32,
) -> (threshold: i32)
    requires
        0 <= voice_est <= 127,
    ensures
        threshold == mode_threshold(
            application,
            channels as int,
            prev_was_celt,
            has_prev_mode,
            voice_est as int,
        ),
{
    let mode_voice: i32 = if channels == 1 {
        64_000
    } else {
        44_000
    };
    let mode_music: i32 = 10_000;
    let diff: i32 = mode_voice - mode_music;
    assert(0 <= voice_est * voice_est <= 16_129) by (nonlinear_arith)
        requires
            0 <= voice_est <= 127,
    ;
    let square: i32 = voice_est * voice_est;
    assert(0 <= square * diff <= 16_129 * 54_000) by (nonlinear_arith)
        requires
            0 <= square <= 16_129,
            0 <= diff <= 54_000,
    ;
    let offset: i32 = square * diff / 16_384;
    let mut threshold: i32 = mode_music + offset;
    if application == Application::Voip {
        threshold = threshold + 8_000;
    }
    if has_prev_mode {
        if prev_was_celt {
            threshold = threshold - 4_000;
        } else {
            threshold = threshold + 4_000;
        }
    }
    if application == Application::RestrictedLowDelay {
        threshold = 0;
    }
    threshold
}

/// Six times the frames per second, rounded down. The factor of six carries the
/// one frame duration whose rate is not an integer: at 60 ms there are 16.67
/// frames per second.
pub open spec fn sixth_frames(fs: int, frame_size: int) -> int {
    6 * fs / frame_size
}

/// Bits per frame as bits per second.
pub fn bits_to_bitrate(bits: i32, fs: i32, frame_size: i32) -> (rate: i32)
    requires
        0 < fs <= 48_000,
        0 < frame_size,
        -800_000 <= bits <= 800_000,
        6 * fs >= frame_size,
        sixth_frames(fs as int, frame_size as int) <= 2400,
    ensures
        rate == div_trunc(bits * sixth_frames(fs as int, frame_size as int), 6),
        bits >= 0 ==> rate >= 0,
        bits >= -8 ==> rate >= -3200,
{
    let frames: i64 = (6 * fs / frame_size) as i64;
    assert(-800_000 * 2400 <= bits * frames <= 800_000 * 2400) by (nonlinear_arith)
        requires
            -800_000 <= bits <= 800_000,
            0 <= frames <= 2400,
    ;
    assert(bits >= -8 ==> bits * frames >= -8 * 2400) by (nonlinear_arith)
        requires
            0 <= frames <= 2400,
    ;
    assert(bits >= 0 ==> bits * frames >= 0) by (nonlinear_arith)
        requires
            0 <= frames <= 2400,
    ;
    (bits as i64 * frames / 6) as i32
}

/// Bits per second as bits per frame.
pub fn bitrate_to_bits(bitrate: i32, fs: i32, frame_size: i32) -> (bits: i32)
    requires
        0 < fs <= 48_000,
        0 < frame_size <= fs,
    ensures
        bits == div_trunc(bitrate * 6, sixth_frames(fs as int, frame_size as int)),
{
    let frames: i64 = (6 * fs / frame_size) as i64;
    assert(frames >= 6) by (nonlinear_arith)
        requires
            frames == 6 * fs / frame_size as int,
            0 < frame_size <= fs,
    ;
    let product: i64 = bitrate as i64 * 6;
    let q: i64 = product / frames;
    assert(product >= 0 ==> 0 <= 6 * q <= product) by (nonlinear_arith)
        requires
            frames >= 6,
            q == div_trunc(product as int, frames as int),
    ;
    assert(product < 0 ==> product <= 6 * q <= 0) by (nonlinear_arith)
        requires
            frames >= 6,
            q == div_trunc(product as int, frames as int),
    ;
    q as i32
}

/// The total rates of the hybrid split's table.
pub open spec fn table_total(row: int) -> int {
    if row <= 0 {
        0
    } else if row == 1 {
        12_000
    } else if row == 2 {
        16_000
    } else if row == 3 {
        20_000
    } else if row == 4 {
        24_000
    } else if row == 5 {
        32_000
    } else {
        64_000
    }
}

/// The speech layer's share at each of those rates, without in-band redundancy
/// and with it. Redundancy costs the speech layer real bits, so it is given a
/// wider share to spend.
pub open spec fn table_share(row: int, fec: bool) -> int {
    if row <= 0 {
        0
    } else if row == 1 {
        if fec {
            11_000
        } else {
            10_000
        }
    } else if row == 2 {
        if fec {
            15_000
        } else {
            13_500
        }
    } else if row == 3 {
        if fec {
            18_000
        } else {
            16_000
        }
    } else if row == 4 {
        if fec {
            21_000
        } else {
            18_000
        }
    } else if row == 5 {
        if fec {
            28_000
        } else {
            22_000
        }
    } else {
        if fec {
            50_000
        } else {
            38_000
        }
    }
}

/// The first row of the table above a rate, or 7.
pub open spec fn row_above(rate: int) -> int {
    if rate < 12_000 {
        1
    } else if rate < 16_000 {
        2
    } else if rate < 20_000 {
        3
    } else if rate < 24_000 {
        4
    } else if rate < 32_000 {
        5
    } else if rate < 64_000 {
        6
    } else {
        7
    }
}

/// One channel's share of a rate: interpolated between the table's rows, and
/// above the table half of whatever the rate adds.
pub open spec fn channel_share(rate: int, fec: bool) -> int {
    let i = row_above(rate);
    if i == 7 {
        table_share(6, fec) + (rate - 64_000) / 2
    } else {
        let x0 = table_total(i - 1);
        let x1 = table_total(i);
        div_trunc(
            table_share(i - 1, fec) * (x1 - rate) + table_share(i, fec) * (rate - x0),
            x1 - x0,
        )
    }
}

/// The speech layer's share of a hybrid packet's rate.
pub open spec fn hybrid_silk_rate(
    rate: int,
    bandwidth: Bandwidth,
    vbr: bool,
    fec: bool,
    channels: int,
) -> int {
    let each = div_trunc(rate, channels);
    let per_channel = channel_share(each, fec) + (if vbr {
        0int
    } else {
        100
    }) + (if bandwidth == Bandwidth::Superwideband {
        300int
    } else {
        0
    });
    per_channel * channels - (if channels == 2 && each >= 12_000 {
        1000int
    } else {
        0
    })
}

/// One row of the hybrid split's table: the total rate, then the share without
/// in-band redundancy and with it.
fn table_row(row: usize) -> (r: (i32, i32, i32))
    requires
        row <= 6,
    ensures
        r.0 == table_total(row as int),
        r.1 == table_share(row as int, false),
        r.2 == table_share(row as int, true),
{
    match row {
        0 => (0, 0, 0),
        1 => (12_000, 10_000, 11_000),
        2 => (16_000, 13_500, 15_000),
        3 => (20_000, 16_000, 18_000),
        4 => (24_000, 18_000, 21_000),
        5 => (32_000, 22_000, 28_000),
        _ => (64_000, 38_000, 50_000),
    }
}

/// One channel's share of a rate.
fn share_of_rate(rate: i32, fec: bool) -> (share: i32)
    requires
        rate >= -190_000,
    ensures
        share == channel_share(rate as int, fec),
        rate >= 0 ==> 0 <= share <= rate + 1,
        rate >= 64_000 ==> share <= 50_000 + (rate - 64_000) / 2,
        rate < 0 ==> rate <= share <= 0,
{
    let mut i: usize = 1;
    while i < 7 && table_row(i).0 <= rate
        invariant
            1 <= i <= 7,
            i <= row_above(rate as int),
        ensures
            i == row_above(rate as int),
        decreases 7 - i,
    {
        i = i + 1;
    }
    if i == 7 {
        let last: (i32, i32, i32) = table_row(6);
        return (if fec {
            last.2
        } else {
            last.1
        }) + (rate - last.0) / 2;
    }
    let lo: (i32, i32, i32) = table_row(i - 1);
    let hi: (i32, i32, i32) = table_row(i);
    let lo_share: i64 = (if fec {
        lo.2
    } else {
        lo.1
    }) as i64;
    let hi_share: i64 = (if fec {
        hi.2
    } else {
        hi.1
    }) as i64;
    proof {
        lemma_row_share(rate as int, fec);
    }
    let sum: i64 = lo_share * (hi.0 as i64 - rate as i64) + hi_share * (rate as i64 - lo.0 as i64);
    let width: i64 = hi.0 as i64 - lo.0 as i64;
    (sum / width) as i32
}

/// What interpolating between two rows stays between: where neither row gives the
/// speech layer more than there is, nor does what lies between them.
proof fn lemma_between_rows(rate: int, x0: int, x1: int, s0: int, s1: int)
    requires
        0 <= s0 <= x0 < x1,
        0 <= s1 <= x1,
        x0 <= rate <= x1,
    ensures
        0 <= div_trunc(s0 * (x1 - rate) + s1 * (rate - x0), x1 - x0) <= rate,
{
    let sum = s0 * (x1 - rate) + s1 * (rate - x0);
    assert(0 <= sum <= rate * (x1 - x0)) by (nonlinear_arith)
        requires
            sum == s0 * (x1 - rate) + s1 * (rate - x0),
            0 <= s0 <= x0 < x1,
            0 <= s1 <= x1,
            x0 <= rate <= x1,
    ;
    let width = x1 - x0;
    assert(0 <= sum / width <= rate) by (nonlinear_arith)
        requires
            0 < width,
            0 <= sum <= rate * width,
    ;
}

/// What the first row gives below nothing.
proof fn lemma_below_rows(rate: int, x1: int, s1: int)
    requires
        0 <= s1 <= x1,
        0 < x1,
        rate < 0,
    ensures
        rate <= div_trunc(s1 * rate, x1) <= 0,
{
    let less = -rate;
    let sum = s1 * less;
    assert(s1 * rate == -sum) by (nonlinear_arith)
        requires
            sum == s1 * less,
            less == -rate,
    ;
    assert(0 <= sum <= less * x1) by (nonlinear_arith)
        requires
            sum == s1 * less,
            0 <= s1 <= x1,
            0 < less,
    ;
    assert(0 <= sum / x1 <= less) by (nonlinear_arith)
        requires
            0 < x1,
            0 <= sum <= less * x1,
    ;
}

/// What interpolating within a row stays between.
proof fn lemma_row_share(rate: int, fec: bool)
    requires
        -190_000 <= rate < 64_000,
    ensures
        ({
            let i = row_above(rate);
            let x0 = table_total(i - 1);
            let x1 = table_total(i);
            let low = table_share(i - 1, fec) * (x1 - rate);
            let high = table_share(i, fec) * (rate - x0);
            &&& 1 <= i <= 6
            &&& 0 <= low <= 900_000_000
            &&& -2_100_000_000 <= high <= 1_600_000_000
            &&& x1 - x0 >= 4_000
            &&& rate >= 0 ==> 0 <= channel_share(rate, fec) <= rate
            &&& rate < 0 ==> rate <= channel_share(rate, fec) <= 0
        }),
{
    let i = row_above(rate);
    let x0 = table_total(i - 1);
    let x1 = table_total(i);
    let s0 = table_share(i - 1, fec);
    let s1 = table_share(i, fec);
    assert(1 <= i <= 6);
    assert(0 <= s0 <= x0 && s0 <= 28_000 && x0 + 4_000 <= x1 <= x0 + 32_000);
    assert(0 <= s1 <= x1 && s1 <= 50_000 && rate < x1);
    let low = s0 * (x1 - rate);
    let high = s1 * (rate - x0);
    assert(channel_share(rate, fec) == div_trunc(low + high, x1 - x0));
    if rate >= 0 {
        assert(x0 <= rate);
        lemma_between_rows(rate, x0, x1, s0, s1);
        assert(0 <= low <= 28_000 * 32_000) by (nonlinear_arith)
            requires
                low == s0 * (x1 - rate),
                0 <= s0 <= 28_000,
                0 <= x1 - rate <= 32_000,
        ;
        assert(0 <= high <= 50_000 * 32_000) by (nonlinear_arith)
            requires
                high == s1 * (rate - x0),
                0 <= s1 <= 50_000,
                0 <= rate - x0 <= 32_000,
        ;
    } else {
        assert(i == 1 && x0 == 0 && s0 == 0 && s1 <= 11_000);
        assert(low == 0) by (nonlinear_arith)
            requires
                low == s0 * (x1 - rate),
                s0 == 0,
        ;
        lemma_below_rows(rate, x1, s1);
        assert(-2_100_000_000 <= high <= 0) by (nonlinear_arith)
            requires
                high == s1 * rate,
                0 <= s1 <= 11_000,
                -190_000 <= rate < 0,
        ;
    }
}

/// The SILK share of a hybrid packet's rate.
///
/// The allocation is per channel: the total is divided down, the table is read
/// at the single-channel rate, and the result is scaled back up. Reading the
/// table at the *total* rate lands in a higher row and hands SILK far more than
/// its share of a stereo packet. The two frame durations that hybrid has share
/// one column.
pub fn compute_silk_rate_for_hybrid(
    rate_bps: i32,
    bandwidth: Bandwidth,
    frame20ms: bool,
    vbr: bool,
    fec: bool,
    channels: usize,
) -> (silk_rate: i32)
    requires
        channels == 1 || channels == 2,
        rate_bps >= -190_000,
    ensures
        silk_rate == hybrid_silk_rate(
            rate_bps as int,
            bandwidth,
            vbr,
            fec,
            channels as int,
        ),
        rate_bps <= 5_000_000 ==> -200_000 <= silk_rate <= 5_000_000,
{
    let rate: i32 = rate_bps / channels as i32;
    let mut silk_rate: i32 = share_of_rate(rate, fec);
    if !vbr {
        silk_rate = silk_rate + 100;
    }
    if bandwidth == Bandwidth::Superwideband {
        silk_rate = silk_rate + 300;
    }
    silk_rate = silk_rate * channels as i32;
    if channels == 2 && rate >= 12_000 {
        silk_rate = silk_rate - 1000;
    }
    silk_rate
}

/// More than a whole divisor's difference shows after dividing.
proof fn lemma_quotients_apart(p: int, q: int, d: int)
    requires
        0 <= q,
        0 < d,
        q + d <= p,
    ensures
        p / d > q / d,
{
    assert((q + d) / d == q / d + 1) by (nonlinear_arith)
        requires
            d > 0,
    ;
    assert(p / d >= (q + d) / d) by (nonlinear_arith)
        requires
            d > 0,
            q + d <= p,
    ;
}

/// In-band redundancy widens the speech layer's share, at every rate that has
/// something to share.
pub proof fn law_fec_widens_the_share(rate: int, bandwidth: Bandwidth, vbr: bool, channels: int)
    requires
        channels == 1 || channels == 2,
        rate >= 7 * channels,
    ensures
        hybrid_silk_rate(rate, bandwidth, vbr, true, channels) > hybrid_silk_rate(
            rate,
            bandwidth,
            vbr,
            false,
            channels,
        ),
{
    let each = div_trunc(rate, channels);
    assert(each >= 7);
    assert(channel_share(each, true) > channel_share(each, false)) by {
        if each < 12_000 {
            assert(row_above(each) == 1);
            assert(channel_share(each, true) == 11_000 * each / 12_000);
            assert(channel_share(each, false) == 10_000 * each / 12_000);
        } else if each < 16_000 {
            assert(row_above(each) == 2);
            lemma_quotients_apart(
                11_000 * (16_000 - each) + 15_000 * (each - 12_000),
                10_000 * (16_000 - each) + 13_500 * (each - 12_000),
                4_000,
            );
        } else if each < 20_000 {
            assert(row_above(each) == 3);
            lemma_quotients_apart(
                15_000 * (20_000 - each) + 18_000 * (each - 16_000),
                13_500 * (20_000 - each) + 16_000 * (each - 16_000),
                4_000,
            );
        } else if each < 24_000 {
            assert(row_above(each) == 4);
            lemma_quotients_apart(
                18_000 * (24_000 - each) + 21_000 * (each - 20_000),
                16_000 * (24_000 - each) + 18_000 * (each - 20_000),
                4_000,
            );
        } else if each < 32_000 {
            assert(row_above(each) == 5);
            lemma_quotients_apart(
                21_000 * (32_000 - each) + 28_000 * (each - 24_000),
                18_000 * (32_000 - each) + 22_000 * (each - 24_000),
                8_000,
            );
        } else if each < 64_000 {
            assert(row_above(each) == 6);
            lemma_quotients_apart(
                28_000 * (64_000 - each) + 50_000 * (each - 32_000),
                22_000 * (64_000 - each) + 38_000 * (each - 32_000),
                32_000,
            );
        }
    }
}

/// A stereo packet is allocated channel by channel.
pub proof fn law_stereo_allocates_per_channel(rate: int, bandwidth: Bandwidth, vbr: bool, fec: bool)
    requires
        rate >= 0,
    ensures
        hybrid_silk_rate(rate, bandwidth, vbr, fec, 2) == 2 * hybrid_silk_rate(
            rate / 2,
            bandwidth,
            vbr,
            fec,
            1,
        ) - (if rate / 2 >= 12_000 {
            1000int
        } else {
            0
        }),
{
}

} // verus!
