//! How many bytes a frame may take, and how its layers share them.

use vstd::prelude::*;

use crate::config::{Bandwidth, OpusMode, RateControl};
use crate::encoder::duration::opus_rate;
use crate::encoder::emit::MAX_ONE_FRAME_PACKET;
use crate::encoder::rates::{
    bitrate_to_bits, bits_to_bitrate, compute_silk_rate_for_hybrid, hybrid_silk_rate, sixth_frames,
};
use crate::math::{
    div_trunc, greatest, least, max_i32, max_usize, min_i32, min_usize,
};

verus! {

/// Inactive time after which nothing is sent, in half milliseconds: 200 ms.
pub const DTX_AFTER: i32 = 400;

/// Inactive time after which something is sent once more: 600 ms.
pub const DTX_UNTIL: i32 = 1200;

/// Whether a layer has a configuration for frames that come at a rate. 60 ms is
/// 16 because the frame rate is truncated.
pub open spec fn layer_codes(mode: OpusMode, frame_rate: int) -> bool {
    match mode {
        OpusMode::CeltOnly => frame_rate == 400 || frame_rate == 200 || frame_rate == 100
            || frame_rate == 50,
        OpusMode::Hybrid => frame_rate == 100 || frame_rate == 50,
        OpusMode::SilkOnly => frame_rate == 100 || frame_rate == 50 || frame_rate == 25
            || frame_rate == 16,
    }
}

/// Whether a layer has a configuration for frames that come at a rate.
pub fn is_codable(mode: OpusMode, frame_rate: i32) -> (yes: bool)
    ensures
        yes == layer_codes(mode, frame_rate as int),
{
    match mode {
        OpusMode::CeltOnly => frame_rate == 400 || frame_rate == 200 || frame_rate == 100
            || frame_rate == 50,
        OpusMode::Hybrid => frame_rate == 100 || frame_rate == 50,
        OpusMode::SilkOnly => frame_rate == 100 || frame_rate == 50 || frame_rate == 25
            || frame_rate == 16,
    }
}

/// The inactive time after one more inactive frame, and whether the frame is
/// dropped: after 200 ms without activity, and for 400 ms at a time, before one
/// frame goes out again.
pub open spec fn dtx_after(idle: int, frame: int) -> (bool, int) {
    if idle + frame > DTX_UNTIL {
        (false, DTX_AFTER as int)
    } else {
        (idle + frame > DTX_AFTER, idle + frame)
    }
}

/// The inactive time after one more inactive frame, and whether the frame is
/// dropped. Times are in half milliseconds.
pub fn dtx_step(idle: i32, frame: i32) -> (r: (bool, i32))
    requires
        0 <= idle <= DTX_UNTIL,
        0 <= frame <= DTX_UNTIL,
    ensures
        (r.0, r.1 as int) == dtx_after(idle as int, frame as int),
        0 <= r.1 <= DTX_UNTIL,
{
    let now: i32 = idle + frame;
    if now > DTX_AFTER {
        if now <= DTX_UNTIL {
            (true, now)
        } else {
            (false, DTX_AFTER)
        }
    } else {
        (false, now)
    }
}

/// The bytes of a packet and of the one frame in it.
#[derive(Debug, Clone, Copy, PartialEq, Eq, Structural)]
pub struct FrameBudget {
    /// The packet the caller asked for.
    pub n_bytes: usize,
    /// What a single coded frame is allowed to occupy, its TOC byte counted in.
    pub frame_bytes: usize,
}

/// The bits that a bitrate gives a frame.
pub open spec fn target_bits(bitrate: int, frame_size: int, rate: int) -> int {
    bitrate * frame_size / rate
}

/// The bytes of a packet of one frame. Under a fixed rate the packet is exactly
/// the target size; otherwise the only bound that matters is the caller's
/// buffer.
pub open spec fn packet_budget(
    bitrate: int,
    frame_size: int,
    rate: int,
    cbr: bool,
    max_data_bytes: int,
) -> int {
    if cbr {
        greatest(least((target_bits(bitrate, frame_size, rate) + 4) / 8, max_data_bytes), 1)
    } else {
        greatest(max_data_bytes, 3)
    }
}

/// The bytes of a packet of one frame, and of the frame. They diverge only when
/// the packet is larger than a frame is allowed to be.
pub fn frame_budget(
    bitrate: i32,
    frame_size: usize,
    rate: i32,
    cbr: bool,
    max_data_bytes: usize,
) -> (budget: FrameBudget)
    requires
        0 <= bitrate <= 10_000_000,
        0 < frame_size <= 5760,
        opus_rate(rate as int),
        frame_size <= rate,
    ensures
        budget.n_bytes == packet_budget(
            bitrate as int,
            frame_size as int,
            rate as int,
            cbr,
            max_data_bytes as int,
        ),
        budget.frame_bytes == least(budget.n_bytes as int, MAX_ONE_FRAME_PACKET as int),
        1 <= budget.frame_bytes <= budget.n_bytes,
{
    let bits: i64 = frame_bits(bitrate, frame_size, rate);
    let cbr_bytes: usize = ((bits + 4) / 8) as usize;
    let n_bytes: usize = if cbr {
        max_usize(min_usize(cbr_bytes, max_data_bytes), 1)
    } else {
        max_usize(max_data_bytes, 3)
    };
    FrameBudget { n_bytes, frame_bytes: min_usize(n_bytes, MAX_ONE_FRAME_PACKET) }
}

/// The bits that a bitrate gives a frame.
pub fn frame_bits(bitrate: i32, frame_size: usize, rate: i32) -> (bits: i64)
    requires
        0 <= bitrate <= 10_000_000,
        0 < frame_size <= 5760,
        opus_rate(rate as int),
        frame_size <= rate,
    ensures
        bits == target_bits(bitrate as int, frame_size as int, rate as int),
        0 <= bits <= bitrate,
{
    assert(0 <= bitrate * frame_size <= 10_000_000 * 5760) by (nonlinear_arith)
        requires
            0 <= bitrate <= 10_000_000,
            0 < frame_size <= 5760,
    ;
    assert(bitrate * frame_size / (rate as int) <= bitrate) by (nonlinear_arith)
        requires
            0 <= bitrate,
            0 < frame_size <= rate,
    ;
    assert(0 <= bitrate * frame_size / (rate as int)) by (nonlinear_arith)
        requires
            0 <= bitrate,
            0 < frame_size <= rate,
    ;
    bitrate as i64 * frame_size as i64 / rate as i64
}

/// The speech layer's internal rate, in kHz: it follows the coded bandwidth, and
/// the hybrid always runs it at 16.
pub open spec fn internal_khz(mode: OpusMode, bandwidth: Bandwidth, rate: int) -> int {
    if mode == OpusMode::Hybrid {
        16
    } else {
        least(
            match bandwidth {
                Bandwidth::Narrowband => 8,
                Bandwidth::Mediumband => 12,
                _ => 16,
            },
            rate / 1000,
        )
    }
}

/// The speech layer's internal rate, in kHz.
///
/// Deriving it from the API rate instead would make the TOC advertise a
/// bandwidth the encoder had not actually coded, and the decoder would then run
/// SILK at a different rate than the encoder did.
pub fn silk_internal_khz(mode: OpusMode, bandwidth: Bandwidth, rate: i32) -> (khz: i32)
    requires
        opus_rate(rate as int),
    ensures
        khz == internal_khz(mode, bandwidth, rate as int),
        khz == 8 || khz == 12 || khz == 16,
{
    if mode == OpusMode::Hybrid {
        return 16;
    }
    let by_bandwidth: i32 = match bandwidth {
        Bandwidth::Narrowband => 8,
        Bandwidth::Mediumband => 12,
        _ => 16,
    };
    min_i32(by_bandwidth, rate / 1000)
}

/// Samples of a frame at the speech layer's internal rate.
pub open spec fn internal_samples(frame_size: int, khz: int, rate: int) -> int {
    frame_size * khz / (rate / 1000)
}

/// What the speech layer is given to work with.
#[derive(Debug, Clone, Copy, PartialEq, Eq, Structural)]
pub struct SilkBudget {
    /// The rate it aims at.
    pub bitrate: i32,
    /// The most bits it may take.
    pub max_bits: i32,
    /// Whether it has to fill them.
    pub use_cbr: bool,
}

/// What the speech layer's budget depends on.
#[derive(Debug, Clone, Copy, PartialEq, Eq, Structural)]
pub struct SilkFrame {
    /// The packet's mode, with the speech layer in it.
    pub mode: OpusMode,
    /// The packet's bandwidth.
    pub bandwidth: Bandwidth,
    /// The encoder's bitrate.
    pub bitrate_bps: i32,
    /// Whether every packet has the same size.
    pub cbr: bool,
    /// Whether the packet carries in-band redundancy.
    pub fec: bool,
    /// One or two.
    pub channels: usize,
    /// The rate of the input.
    pub rate: i32,
    /// Samples per channel in the frame.
    pub frame_size: usize,
}

impl SilkFrame {
    /// Whether this is a frame that the speech layer takes part in.
    pub open spec fn wf(self) -> bool {
        &&& self.mode != OpusMode::CeltOnly
        &&& 500 <= self.bitrate_bps <= 600_000
        &&& self.channels == 1 || self.channels == 2
        &&& opus_rate(self.rate as int)
        &&& self.rate <= self.frame_size * 100
        &&& self.frame_size * 50 <= self.rate * 3
    }

    /// The bits of the frame that the hybrid's two layers share: capped by the
    /// frame, less the TOC byte.
    pub open spec fn shared_bits(self, frame_bytes: int) -> int {
        least(
            8 * frame_bytes,
            div_trunc(
                self.bitrate_bps * 6,
                sixth_frames(self.rate as int, self.frame_size as int),
            ),
        ) - 8
    }

    /// The speech layer's share of a number of bits, as a rate.
    pub open spec fn share(self, bits: int) -> int {
        hybrid_silk_rate(
            div_trunc(bits * sixth_frames(self.rate as int, self.frame_size as int), 6),
            self.bandwidth,
            !self.cbr,
            self.fec,
            self.channels as int,
        )
    }

    /// The rate that the speech layer aims at.
    pub open spec fn silk_rate(self, budget: FrameBudget) -> int {
        let khz = internal_khz(self.mode, self.bandwidth, self.rate as int);
        if self.mode == OpusMode::Hybrid {
            self.share(self.shared_bits(budget.frame_bytes as int))
        } else if self.cbr {
            8 * (budget.n_bytes - 1) * (khz * 1000) / internal_samples(
                self.frame_size as int,
                khz,
                self.rate as int,
            )
        } else {
            self.bitrate_bps as int
        }
    }

    /// The most bits that the speech layer may take.
    pub open spec fn silk_max_bits(self, budget: FrameBudget) -> int {
        let total = (budget.frame_bytes - 1) * 8;
        let khz = internal_khz(self.mode, self.bandwidth, self.rate as int);
        if self.mode != OpusMode::Hybrid {
            total
        } else if self.cbr {
            let silk_bits = div_trunc(
                self.silk_rate(budget) * internal_samples(
                    self.frame_size as int,
                    khz,
                    self.rate as int,
                ),
                khz * 1000,
            );
            greatest(0, total - greatest(0, total - silk_bits) * 3 / 4)
        } else {
            div_trunc(self.share(total) * self.frame_size, self.rate as int)
        }
    }

    /// Samples of the frame at the speech layer's internal rate.
    fn internal_len(self, khz: i32) -> (n: i64)
        requires
            self.wf(),
            khz == 8 || khz == 12 || khz == 16,
        ensures
            n == internal_samples(self.frame_size as int, khz as int, self.rate as int),
            80 <= n <= 3000,
    {
        let per_ms: i64 = (self.rate / 1000) as i64;
        let ghost samples = self.frame_size as int;
        assert(10 * khz * per_ms <= samples * khz <= 60 * khz * per_ms) by (nonlinear_arith)
            requires
                10 * per_ms <= samples <= 60 * per_ms,
                khz > 0,
        ;
        assert(10 * khz <= samples * khz / (per_ms as int) <= 60 * khz) by (nonlinear_arith)
            requires
                per_ms > 0,
                10 * khz * per_ms <= samples * khz <= 60 * khz * per_ms,
        ;
        self.frame_size as i64 * khz as i64 / per_ms
    }

    /// The speech layer's share of a number of bits, as a rate.
    fn share_of(self, bits: i32) -> (silk_rate: i32)
        requires
            self.wf(),
            -8 <= bits <= 11_000,
        ensures
            silk_rate == self.share(bits as int),
            -200_000 <= silk_rate <= 5_000_000,
    {
        let ghost frames = sixth_frames(self.rate as int, self.frame_size as int);
        assert(0 <= frames <= 600) by (nonlinear_arith)
            requires
                frames == 6 * self.rate / (self.frame_size as int),
                0 < self.rate <= self.frame_size * 100,
        ;
        let rate: i32 = bits_to_bitrate(bits, self.rate, self.frame_size as i32);
        assert(bits * frames <= 11_000 * 600) by (nonlinear_arith)
            requires
                bits <= 11_000,
                0 <= frames <= 600,
        ;
        compute_silk_rate_for_hybrid(
            rate,
            self.bandwidth,
            self.frame_size * 50 >= self.rate as usize,
            !self.cbr,
            self.fec,
            self.channels,
        )
    }

    /// What the speech layer may spend on the frame. The hybrid distributes the
    /// *frame's* budget between its layers, not the configured bitrate.
    pub fn budget(self, budget: FrameBudget) -> (r: SilkBudget)
        requires
            self.wf(),
            1 <= budget.frame_bytes <= MAX_ONE_FRAME_PACKET,
            1 <= budget.n_bytes,
            self.cbr ==> budget.n_bytes <= 100_000,
        ensures
            r.bitrate == self.silk_rate(budget),
            r.max_bits == self.silk_max_bits(budget),
            r.use_cbr == (self.cbr && self.mode != OpusMode::Hybrid),
            self.mode == OpusMode::Hybrid ==> -200_000 <= r.bitrate <= 5_000_000,
    {
        let khz: i32 = silk_internal_khz(self.mode, self.bandwidth, self.rate);
        let len: i64 = self.internal_len(khz);
        let total: i32 = ((budget.frame_bytes - 1) * 8) as i32;
        if self.mode == OpusMode::Hybrid {
            let fits: i32 = bitrate_to_bits(self.bitrate_bps, self.rate, self.frame_size as i32);
            proof {
                let frames = sixth_frames(self.rate as int, self.frame_size as int);
                assert(0 < frames) by (nonlinear_arith)
                    requires
                        frames == 6 * self.rate / (self.frame_size as int),
                        0 < self.frame_size <= self.rate,
                ;
                assert(self.bitrate_bps * 6 / frames >= 0) by (nonlinear_arith)
                    requires
                        self.bitrate_bps >= 0,
                        frames > 0,
                ;
            }
            let bits: i32 = min_i32(8 * budget.frame_bytes as i32, fits) - 8;
            let bitrate: i32 = self.share_of(bits);
            let max_bits: i32 = if self.cbr {
                assert(-200_000 * 3000 <= bitrate * len <= 5_000_000 * 3000) by (nonlinear_arith)
                    requires
                        -200_000 <= bitrate <= 5_000_000,
                        80 <= len <= 3000,
                ;
                let silk_bits: i32 = (bitrate as i64 * len / 16_000) as i32;
                let other: i32 = max_i32(0, total - silk_bits);
                max_i32(0, total - other * 3 / 4)
            } else {
                let most: i32 = self.share_of(total);
                let ghost samples = self.frame_size as int;
                assert(-200_000 * 3000 <= most * samples <= 5_000_000 * 3000) by (nonlinear_arith)
                    requires
                        -200_000 <= most <= 5_000_000,
                        0 <= samples <= 3000,
                ;
                (most as i64 * self.frame_size as i64 / self.rate as i64) as i32
            };
            SilkBudget { bitrate, max_bits, use_cbr: false }
        } else if self.cbr {
            let bits: i64 = 8 * (budget.n_bytes - 1) as i64;
            let hz: i64 = khz as i64 * 1000;
            assert(0 <= bits * hz <= 800_000 * 16_000) by (nonlinear_arith)
                requires
                    0 <= bits <= 800_000,
                    0 <= hz <= 16_000,
            ;
            let ghost product = bits * hz;
            assert(0 <= product / (len as int) <= product / 80) by (nonlinear_arith)
                requires
                    0 <= product,
                    80 <= len,
            ;
            SilkBudget { bitrate: (bits * hz / len) as i32, max_bits: total, use_cbr: true }
        } else {
            SilkBudget { bitrate: self.bitrate_bps, max_bits: total, use_cbr: false }
        }
    }
}

/// The gain steps that make the redundant copy cheap. They shrink as loss rises,
/// so the copy stays decodable when it is most needed; a stream that had none in
/// the packet before gets the full seven.
pub open spec fn lbrr_gain(in_previous_packet: bool, loss: int) -> int {
    if in_previous_packet {
        greatest(7 - loss * 13_107 / 65_536, 3)
    } else {
        7
    }
}

/// The gain steps that make the redundant copy cheap.
pub fn lbrr_gain_increases(in_previous_packet: bool, packet_loss_perc: i32) -> (gain: i32)
    requires
        0 <= packet_loss_perc <= 100,
    ensures
        gain == lbrr_gain(in_previous_packet, packet_loss_perc as int),
        3 <= gain <= 7,
{
    if !in_previous_packet {
        7
    } else {
        max_i32(7 - packet_loss_perc * 13_107 / 65_536, 3)
    }
}

/// Whether a frame has room for the redundancy flag.
pub open spec fn flags_redundancy(mode: OpusMode, tell: int, frame_bytes: int) -> bool {
    mode == OpusMode::Hybrid && tell + 37 <= (frame_bytes - 1) * 8
}

/// Whether a hybrid frame has room for the redundancy flag: 37 bits have to be
/// left. The decoder gates its read identically.
pub fn has_redundancy_flag(mode: OpusMode, tell: i32, frame_bytes: usize) -> (yes: bool)
    requires
        1 <= frame_bytes <= MAX_ONE_FRAME_PACKET,
        tell <= 0x7fff_0000,
    ensures
        yes == flags_redundancy(mode, tell as int, frame_bytes as int),
{
    mode == OpusMode::Hybrid && tell + 37 <= ((frame_bytes - 1) * 8) as i32
}

/// What the transform layer is given to work with.
#[derive(Debug, Clone, Copy, PartialEq, Eq, Structural)]
pub struct CeltBudget {
    /// The first band it codes.
    pub start_band: usize,
    /// The band after the last it codes.
    pub end_band: usize,
    /// Whether the rate holds over time.
    pub constrained_vbr: bool,
    /// The target in eighth-bits per frame; 0 is a fixed rate.
    pub vbr_rate: i32,
}

/// The band after the last one that a bandwidth codes.
pub open spec fn end_band(bandwidth: Bandwidth) -> int {
    match bandwidth {
        Bandwidth::Narrowband => 13,
        Bandwidth::Mediumband => 17,
        Bandwidth::Wideband => 17,
        Bandwidth::Superwideband => 19,
        Bandwidth::Fullband => 21,
    }
}

/// The band after the last one that a bandwidth codes.
pub fn celt_endband_for_bandwidth(bandwidth: Bandwidth) -> (end: usize)
    ensures
        end == end_band(bandwidth),
{
    match bandwidth {
        Bandwidth::Narrowband => 13,
        Bandwidth::Mediumband => 17,
        Bandwidth::Wideband => 17,
        Bandwidth::Superwideband => 19,
        Bandwidth::Fullband => 21,
    }
}

/// The first band that the transform layer codes.
pub open spec fn first_band(mode: OpusMode) -> int {
    if mode == OpusMode::Hybrid {
        17
    } else {
        0
    }
}

/// Whether the transform layer holds to its rate.
pub open spec fn holds_to_the_rate(mode: OpusMode, rate_control: RateControl) -> bool {
    mode != OpusMode::Hybrid && rate_control != RateControl::Vbr
}

/// What the transform layer aims at where its size varies, in eighths of a bit.
pub open spec fn varying_rate(
    rate_control: RateControl,
    bitrate: int,
    rate: int,
    frame_size: int,
) -> int {
    if rate_control == RateControl::Cbr {
        0
    } else {
        div_trunc(bitrate * frame_size + rate / 16, rate / 8)
    }
}

/// What the transform layer is given to work with. In hybrid it codes only the
/// high band, so its target is what the speech layer did not take, and it runs
/// unconstrained.
pub fn celt_budget(
    mode: OpusMode,
    bandwidth: Bandwidth,
    rate_control: RateControl,
    bitrate_bps: i32,
    silk_rate: i32,
    rate: i32,
    frame_size: usize,
) -> (budget: CeltBudget)
    requires
        0 <= bitrate_bps <= 10_000_000,
        -200_000 <= silk_rate <= 10_000_000,
        opus_rate(rate as int),
        0 < frame_size <= 5760,
        frame_size <= rate,
    ensures
        budget.start_band == first_band(mode),
        budget.end_band == end_band(bandwidth),
        budget.constrained_vbr == holds_to_the_rate(mode, rate_control),
        budget.vbr_rate == varying_rate(
            rate_control,
            bitrate_bps - silk_rate,
            rate as int,
            frame_size as int,
        ),
{
    let vbr_rate: i32 = if rate_control.is_cbr() {
        0
    } else {
        let den: i64 = (rate / 8) as i64;
        let target: i64 = bitrate_bps as i64 - silk_rate as i64;
        assert(-10_000_000 * 5760 <= target * frame_size <= 10_200_000 * 5760) by (nonlinear_arith)
            requires
                -10_000_000 <= target <= 10_200_000,
                0 < frame_size <= 5760,
        ;
        let ghost product = target * frame_size;
        let sum: i64 = target * frame_size as i64 + den / 2;
        assert(den / 2 == rate as int / 16);
        let q: i64 = sum / den;
        assert(-10_000_000 * rate <= product <= 10_200_000 * rate) by (nonlinear_arith)
            requires
                product == target * frame_size,
                -10_000_000 <= target <= 10_200_000,
                0 < frame_size <= rate,
        ;
        assert(-100_000_000 <= q <= 100_000_000) by (nonlinear_arith)
            requires
                q == div_trunc(sum as int, den as int),
                den * 8 == rate,
                den >= 1000,
                -10_000_000 * rate <= sum <= 10_200_000 * rate + den,
        ;
        q as i32
    };
    CeltBudget {
        start_band: if mode == OpusMode::Hybrid {
            17
        } else {
            0
        },
        end_band: celt_endband_for_bandwidth(bandwidth),
        constrained_vbr: mode != OpusMode::Hybrid && rate_control != RateControl::Vbr,
        vbr_rate,
    }
}

/// Out of 65536, how far the high-pass cutoff moves towards the pitch with every
/// frame.
pub const VARIABLE_HP_SMTH_COEF2_Q16: i32 = 984;

/// The smoothed cutoff one frame on.
pub open spec fn smoothed(now: int, target: int) -> int {
    now + (target - now) * VARIABLE_HP_SMTH_COEF2_Q16 / 65_536
}

/// Move the smoothed high-pass cutoff towards where the speech layer sees the
/// pitch. Both are logarithms.
pub fn smooth_hp(now: i32, target: i32) -> (r: i32)
    requires
        -0x2000_0000 <= now <= 0x2000_0000,
        -0x2000_0000 <= target <= 0x2000_0000,
    ensures
        r == smoothed(now as int, target as int),
        now <= target ==> now <= r <= target,
        now >= target ==> target <= r <= now,
{
    let gap: i64 = target as i64 - now as i64;
    let ghost coefficient = VARIABLE_HP_SMTH_COEF2_Q16 as int;
    assert(coefficient == 984);
    assert(-0x4000_0000 * 984 <= gap * coefficient <= 0x4000_0000 * 984) by (nonlinear_arith)
        requires
            -0x4000_0000 <= gap <= 0x4000_0000,
            coefficient == 984,
    ;
    let product: i64 = gap * VARIABLE_HP_SMTH_COEF2_Q16 as i64;
    let step: i64 = if product >= 0 {
        product / 65_536
    } else {
        -((-product + 65_535) / 65_536)
    };
    assert(step == product as int / 65_536);
    assert(product == gap * 984);
    (now as i64 + step) as i32
}

} // verus!
