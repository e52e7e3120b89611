//! How a packet's rate is shared out: between the layers, between its frames, and
//! between frames and what announces them.

use vstd::prelude::*;

use crate::celt::bands::band_edge;
use crate::config::{Bandwidth, OpusMode, RateControl};
use crate::encoder::choices::law_rate_buys_the_widest;
use crate::encoder::coding::{frame_packet, payload_size, without_zeros, FrameInput, SilkState};
use crate::encoder::control::{judged_by, EncoderModel};
use crate::encoder::duration::{opus_rate, worst_header, PacketLayout};
use crate::encoder::emit::{law_one_frame_round_trip, one_frame_packet};
use crate::encoder::frame::{
    dtx_after, first_band, flags_redundancy, holds_to_the_rate, internal_khz, internal_samples,
    layer_codes, smoothed, target_bits, varying_rate, FrameBudget, SilkFrame,
};
use crate::encoder::input::{analysis_wanted, below_floor, magnitude};
use crate::encoder::rates::{channel_share, hybrid_silk_rate, mode_threshold, sixth_frames};
use crate::encoder::split::{assembled, empty_frames, whole_len, SplitBudget, SplitModel};
use crate::error::Error;
use crate::framing::{packable, parse_packet};
use crate::range_coder::alphabet::{lemma_two_to_monotone, two_to};
use crate::repacketizer::{law_packet_round_trip, shortest_packet, GatheredFrames};
use crate::toc::{config_number, toc_expressible};

verus! {

/// Which frames a layer codes: the transform from 2.5 ms to 20 ms, both together 10
/// and 20 ms, and speech from 10 ms to 60 ms, which are counted by how many fit into a
/// second.
pub proof fn law_layers_have_their_lengths(mode: OpusMode, frame_rate: int)
    ensures
        layer_codes(mode, frame_rate) ==> 16 <= frame_rate <= 400,
        layer_codes(mode, 100) && layer_codes(mode, 50),
        layer_codes(mode, 400) <==> mode is CeltOnly,
        layer_codes(mode, 200) <==> mode is CeltOnly,
        layer_codes(mode, 25) <==> mode is SilkOnly,
        layer_codes(mode, 16) <==> mode is SilkOnly,
        frame_rate != 400 && frame_rate != 200 && frame_rate != 100 && frame_rate != 50
            && frame_rate != 25 && frame_rate != 16 ==> !layer_codes(mode, frame_rate),
{
}

/// Frames are left out once there has been no activity for 200 ms, and for 400 ms at
/// most; then one is sent, and it goes on. Time is in halves of a millisecond.
pub proof fn law_gaps_begin_and_end(idle: int, frame: int)
    requires
        0 <= idle,
        0 < frame,
    ensures
        dtx_after(idle, frame).0 <==> 2 * 200 < idle + frame <= 2 * 200 + 2 * 400,
        idle + frame <= 1_200 ==> dtx_after(idle, frame).1 == idle + frame,
        idle + frame > 1_200 ==> dtx_after(idle, frame).1 == 400,
        idle + frame > 1_200 && frame <= 800 ==> dtx_after(dtx_after(idle, frame).1, frame).0,
{
}

/// What each channel's speech gets of a rate without redundancy: at some rates a given
/// share, and in between what lies on the line from one to the next; above the last
/// half of every bit.
pub proof fn law_speech_gets_its_share(rate: int, fec: bool, row: int)
    requires
        0 <= row < 6,
    ensures
        ({
            let rates = seq![0int, 12_000, 16_000, 20_000, 24_000, 32_000, 64_000];
            let shares = if fec {
                seq![0int, 11_000, 15_000, 18_000, 21_000, 28_000, 50_000]
            } else {
                seq![0int, 10_000, 13_500, 16_000, 18_000, 22_000, 38_000]
            };
            let step = rates[row + 1] - rates[row];
            let rise = shares[row + 1] - shares[row];
            &&& rates[row] <= rate < rates[row + 1] ==> step * (channel_share(rate, fec)
                - shares[row]) <= rise * (rate - rates[row]) < step * (channel_share(rate, fec)
                - shares[row]) + step
            &&& rate >= 64_000 ==> channel_share(rate, fec) == shares[6] + (rate - 64_000) / 2
        }),
{
    let rates = seq![0int, 12_000, 16_000, 20_000, 24_000, 32_000, 64_000];
    let shares = if fec {
        seq![0int, 11_000, 15_000, 18_000, 21_000, 28_000, 50_000]
    } else {
        seq![0int, 10_000, 13_500, 16_000, 18_000, 22_000, 38_000]
    };
    if rates[row] <= rate < rates[row + 1] {
        let x0 = rates[row];
        let x1 = rates[row + 1];
        let s0 = shares[row];
        let s1 = shares[row + 1];
        let step = x1 - x0;
        let a = s0 * (x1 - rate) + s1 * (rate - x0);
        assert(a >= 0) by (nonlinear_arith)
            requires
                a == s0 * (x1 - rate) + s1 * (rate - x0),
                0 <= s0,
                0 <= s1,
                x0 <= rate < x1,
        ;
        let q = a / step;
        assert(step * q <= a < step * q + step) by (nonlinear_arith)
            requires
                q == a / step,
                step >= 1,
        ;
        assert(a == s0 * step + (s1 - s0) * (rate - x0)) by (nonlinear_arith)
            requires
                a == s0 * (x1 - rate) + s1 * (rate - x0),
                step == x1 - x0,
        ;
        assert(step * (q - s0) == step * q - s0 * step) by (nonlinear_arith);
        assert(channel_share(rate, fec) == q);
    }
}

/// What moves the share of speech: fixed rates add 100 for each channel and the
/// narrower of the hybrid bandwidths 300. Each channel of two has its share of half
/// the rate, but from 12 kb/s each the two of them give 1000 back.
pub proof fn law_what_moves_the_share(rate: int, vbr: bool, fec: bool)
    requires
        0 <= rate,
    ensures
        hybrid_silk_rate(rate, Bandwidth::Fullband, true, fec, 1) == channel_share(rate, fec),
        hybrid_silk_rate(rate, Bandwidth::Fullband, false, fec, 1) == channel_share(rate, fec) + 100,
        hybrid_silk_rate(rate, Bandwidth::Superwideband, vbr, fec, 1) == hybrid_silk_rate(
            rate,
            Bandwidth::Fullband,
            vbr,
            fec,
            1,
        ) + 300,
        rate < 24_000 ==> hybrid_silk_rate(rate, Bandwidth::Fullband, true, fec, 2) == 2
            * channel_share(rate / 2, fec),
        rate >= 24_000 ==> hybrid_silk_rate(rate, Bandwidth::Fullband, true, fec, 2) == 2
            * channel_share(rate / 2, fec) - 1_000,
        hybrid_silk_rate(rate, Bandwidth::Superwideband, vbr, fec, 2) == hybrid_silk_rate(
            rate,
            Bandwidth::Fullband,
            vbr,
            fec,
            2,
        ) + 600,
        hybrid_silk_rate(rate, Bandwidth::Fullband, false, fec, 2) == hybrid_silk_rate(
            rate,
            Bandwidth::Fullband,
            true,
            fec,
            2,
        ) + 200,
{
}

/// In both layers together, the transform codes from band 17 on, and is not held to
/// its rate; alone it codes all bands, and is held to it unless the size is free to
/// vary.
pub proof fn law_layers_split_the_bands(mode: OpusMode, rate_control: RateControl)
    ensures
        mode is Hybrid ==> first_band(mode) == 17,
        200 * band_edge(first_band(OpusMode::Hybrid)) == 8_000,
        !(mode is Hybrid) ==> first_band(mode) == 0,
        mode is Hybrid || rate_control is Vbr ==> !holds_to_the_rate(mode, rate_control),
        !(mode is Hybrid) && !(rate_control is Vbr) ==> holds_to_the_rate(mode, rate_control),
{
}

/// What the transform aims at is the rate over the length of a frame, in eighths of a
/// bit and to the nearest of them; nothing is aimed at where the size is fixed.
pub proof fn law_rates_become_eighths(
    rate_control: RateControl,
    bitrate: int,
    rate: int,
    frame_size: int,
)
    requires
        opus_rate(rate),
        0 <= bitrate,
        0 < frame_size,
    ensures
        rate_control is Cbr ==> varying_rate(rate_control, bitrate, rate, frame_size) == 0,
        !(rate_control is Cbr) ==> ({
            let aim = varying_rate(rate_control, bitrate, rate, frame_size);
            -rate < 2 * (aim * rate - 8 * bitrate * frame_size) <= rate
        }),
{
    if !(rate_control is Cbr) {
        let x = bitrate * frame_size;
        assert(x >= 0) by (nonlinear_arith)
            requires
                x == bitrate * frame_size,
                0 <= bitrate,
                0 < frame_size,
        ;
        let a = x + rate / 16;
        let den = rate / 8;
        let q = a / den;
        assert(den * q <= a < den * q + den) by (nonlinear_arith)
            requires
                q == a / den,
                den >= 1,
        ;
        assert(q * rate == 8 * (den * q)) by (nonlinear_arith)
            requires
                rate == 8 * den,
        ;
        assert(8 * bitrate * frame_size == 8 * x) by (nonlinear_arith)
            requires
                x == bitrate * frame_size,
        ;
    }
}

/// Whether there is redundancy is only said in frames of both layers that have 37 bits
/// left behind the first byte.
pub proof fn law_redundancy_has_its_room(mode: OpusMode, tell: int, bytes: int)
    ensures
        !(mode is Hybrid) ==> !flags_redundancy(mode, tell, bytes),
        8 * bytes - 8 - tell >= 37 ==> flags_redundancy(OpusMode::Hybrid, tell, bytes),
        8 * bytes - 8 - tell < 37 ==> !flags_redundancy(mode, tell, bytes),
{
}

/// A packet's bits are its rate over its length, so that those of equal parts never
/// add up to more than those of the whole.
pub proof fn law_bits_of_a_length(bitrate: int, frame_size: int, rate: int)
    requires
        0 <= bitrate,
        0 < frame_size,
        0 < rate,
    ensures
        target_bits(bitrate, rate, rate) == bitrate,
        target_bits(bitrate, frame_size, rate) * rate <= bitrate * frame_size < (target_bits(
            bitrate,
            frame_size,
            rate,
        ) + 1) * rate,
        2 * target_bits(bitrate, frame_size, rate) <= target_bits(bitrate, 2 * frame_size, rate),
{
    let x = bitrate * frame_size;
    let q = x / rate;
    assert(q * rate <= x < (q + 1) * rate) by (nonlinear_arith)
        requires
            q == x / rate,
            0 < rate,
    ;
    vstd::arithmetic::div_mod::lemma_div_multiples_vanish(bitrate, rate);
    assert(rate * bitrate == bitrate * rate) by (nonlinear_arith);
    let y = bitrate * (2 * frame_size);
    assert(y == 2 * x) by (nonlinear_arith)
        requires
            x == bitrate * frame_size,
            y == bitrate * (2 * frame_size),
    ;
    let p = y / rate;
    assert(2 * q <= p) by (nonlinear_arith)
        requires
            p == y / rate,
            y == 2 * x,
            q * rate <= x,
            0 < rate,
    ;
}

/// The whole of a packet that is split: of a fixed rate, the bytes nearest to its
/// share, though never more than 7662 or than there is room for; otherwise all the
/// room there is.
pub proof fn law_split_packets_have_a_size(bitrate: int, samples: int, rate: int, room: int)
    ensures
        whole_len(bitrate, samples, rate, false, room) == room,
        whole_len(bitrate, samples, rate, true, room) <= room,
        whole_len(bitrate, samples, rate, true, room) <= 7_662,
        ({
            let n = whole_len(bitrate, samples, rate, true, room);
            let bits = target_bits(bitrate, samples, rate);
            &&& n < room && n < 7_662 ==> -4 <= bits - 8 * n < 4
            &&& 8 * n <= bits + 4
        }),
{
}

/// The most that can come before the frames of a packet: two bytes for each, and a
/// byte less for two of them.
pub proof fn law_headers_take_two_each(n: int)
    requires
        1 <= n,
    ensures
        n != 2 ==> worst_header(n) == 2 * n,
        worst_header(2) == 3,
{
}

/// A frame of a split packet has its own share of the bytes, or an even one where that
/// is less, but three in any case, as far as they last. A packet that has fewer than
/// three for each is starved.
pub proof fn law_frames_share_the_room(b: SplitBudget, used: int)
    requires
        b.wf(),
        0 <= used <= b.max_len_sum,
    ensures
        ({
            let room = b.room_after(used);
            let left = b.max_len_sum - used;
            &&& room <= left
            &&& left >= 3 ==> room >= 3
            &&& room > 3 ==> room <= b.per_frame && room * b.nb_frames <= b.max_len_sum
            &&& room < left && room > 3 ==> room == b.per_frame || (room + 1) * b.nb_frames
                > b.max_len_sum
            &&& left < 3 ==> room == left
            &&& left > 3 && b.per_frame > 3 && b.max_len_sum >= 4 * b.nb_frames ==> room > 3
        }),
        b.starved() <==> b.max_len_sum < b.nb_frames + b.nb_frames + b.nb_frames,
        b.max_len_sum > 0 ==> b.max_len_sum + worst_header(b.nb_frames as int) == b.repacketize_len
            + b.nb_frames,
{
    let n = b.nb_frames as int;
    let q = b.max_len_sum as int / n;
    assert(q * n <= b.max_len_sum < (q + 1) * n) by (nonlinear_arith)
        requires
            q == b.max_len_sum as int / n,
            n >= 1,
    ;
    let room = b.room_after(used);
    if room > 3 {
        assert(room * n <= q * n) by (nonlinear_arith)
            requires
                room <= q,
                n >= 1,
        ;
    }
    if b.max_len_sum >= 4 * n {
        assert(q >= 4) by (nonlinear_arith)
            requires
                4 * n <= b.max_len_sum < (q + 1) * n,
                n >= 1,
        ;
    }
}

/// A frame that is longer than its packet is cut off where the packet ends.
pub proof fn law_long_frames_are_cut(toc: u8, frame: Seq<u8>, total: int)
    requires
        1 <= total <= frame.len(),
    ensures
        one_frame_packet(toc, frame, total).len() == total,
        one_frame_packet(toc, frame, total)[0] == toc,
        forall|i: int| 1 <= i < total ==> #[trigger] one_frame_packet(toc, frame, total)[i]
            == frame[i - 1],
{
}

/// Input is silent where none of its samples is above one step of its depth: the
/// fewer the bits, the louder that is.
pub proof fn law_depth_is_a_floor(input: Seq<i16>, depth: int)
    requires
        0 <= depth,
    ensures
        below_floor(input, depth + 1) ==> below_floor(input, depth),
        below_floor(input, 15) <==> forall|i: int|
            0 <= i < input.len() ==> -1 <= #[trigger] input[i] <= 1,
        below_floor(input, 8) <==> forall|i: int|
            0 <= i < input.len() ==> -128 <= #[trigger] input[i] <= 128,
{
    reveal_with_fuel(two_to, 17);
    assert(two_to(15) == 32_768 && two_to(8) == 256);
    assert(two_to(depth + 1) == 2 * two_to(depth));
    lemma_two_to_monotone(0, depth);
    if below_floor(input, depth + 1) {
        assert forall|i: int| 0 <= i < input.len() implies magnitude(
            #[trigger] input[i],
        ) * two_to(depth) <= 32_768 by {
            let m = magnitude(input[i]);
            let p = two_to(depth);
            assert(m * p <= m * (2 * p)) by (nonlinear_arith)
                requires
                    m >= 0,
                    p >= 1,
            ;
        }
    }
    assert forall|i: int| 0 <= i < input.len() && below_floor(input, 15) implies -1
        <= #[trigger] input[i] <= 1 by {
        assert(magnitude(input[i]) * two_to(15) <= 32_768);
    }
    assert forall|i: int| 0 <= i < input.len() && below_floor(input, 8) implies -128
        <= #[trigger] input[i] <= 128 by {
        assert(magnitude(input[i]) * two_to(8) <= 32_768);
    }
}

/// The cutoff moves to the pitch by 984 of 65 536 parts of what is between them.
pub proof fn law_cutoffs_follow_slowly(now: int, target: int)
    ensures
        65_536 * (smoothed(now, target) - now) <= 984 * (target - now) < 65_536 * (smoothed(
            now,
            target,
        ) - now) + 65_536,
{
}

/// A frame has as many samples inside the speech layer as that has in its length.
pub proof fn law_inside_samples(ms: int, khz: int, rate: int, frame_size: int)
    requires
        opus_rate(rate),
        0 <= khz,
        frame_size * 1_000 == ms * rate,
    ensures
        internal_samples(frame_size, khz, rate) == ms * khz,
{
    let k = rate / 1_000;
    assert(frame_size == ms * k) by (nonlinear_arith)
        requires
            frame_size * 1_000 == ms * rate,
            rate == 1_000 * k,
    ;
    assert(frame_size * khz == k * (ms * khz)) by (nonlinear_arith)
        requires
            frame_size == ms * k,
    ;
    vstd::arithmetic::div_mod::lemma_div_multiples_vanish(ms * khz, k);
}

/// The speech layer alone has the packet's rate where that varies, and otherwise what
/// the bytes behind the first come to over the frame's length. It may use all of
/// them.
pub proof fn law_speech_alone_has_it_all(f: SilkFrame, b: FrameBudget, ms: int)
    requires
        f.wf(),
        f.mode is SilkOnly,
        f.frame_size * 1_000 == ms * f.rate,
        1 <= b.frame_bytes,
        1 <= b.n_bytes,
        1 <= ms,
    ensures
        !f.cbr ==> f.silk_rate(b) == f.bitrate_bps,
        f.cbr ==> f.silk_rate(b) * ms <= 8_000 * (b.n_bytes - 1) < (f.silk_rate(b) + 1) * ms,
        f.silk_max_bits(b) == 8 * (b.frame_bytes - 1),
{
    let khz = internal_khz(f.mode, f.bandwidth, f.rate as int);
    law_inside_samples(ms, khz, f.rate as int, f.frame_size as int);
    if f.cbr {
        let bits = 8 * (b.n_bytes - 1);
        let top = bits * (khz * 1000);
        let n = ms * khz;
        assert(n >= 1) by (nonlinear_arith)
            requires
                n == ms * khz,
                ms >= 1,
                khz >= 8,
        ;
        assert(top == khz * (bits * 1000)) by (nonlinear_arith)
            requires
                top == bits * (khz * 1000),
        ;
        vstd::arithmetic::div_mod::lemma_div_denominator(top, khz, ms);
        assert(khz * ms == n) by (nonlinear_arith)
            requires
                n == ms * khz,
        ;
        vstd::arithmetic::div_mod::lemma_div_multiples_vanish(bits * 1000, khz);
        let q = (bits * 1000) / ms;
        assert(q * ms <= bits * 1000 < (q + 1) * ms) by (nonlinear_arith)
            requires
                q == (bits * 1000) / ms,
                ms >= 1,
        ;
    }
}

/// What both layers share of a frame of 20 ms: its rate over that, or all its bytes
/// where that is less, all but the first byte.
pub proof fn law_both_layers_share_the_frame(f: SilkFrame, bytes: int, bits: int)
    requires
        f.wf(),
        f.mode is Hybrid,
        f.frame_size * 50 == f.rate,
        0 <= bits,
    ensures
        8 * bytes <= f.bitrate_bps / 50 ==> f.shared_bits(bytes) == 8 * (bytes - 1),
        8 * bytes >= f.bitrate_bps / 50 ==> f.shared_bits(bytes) == f.bitrate_bps as int / 50 - 8,
        f.share(bits) == hybrid_silk_rate(
            50 * bits,
            f.bandwidth,
            !f.cbr,
            f.fec,
            f.channels as int,
        ),
{
    let rate = f.rate as int;
    let size = f.frame_size as int;
    assert(sixth_frames(rate, size) == 300) by {
        assert(6 * rate == size * 300);
        vstd::arithmetic::div_mod::lemma_div_multiples_vanish(300, size);
    }
    assert(bits * 300 / 6 == 50 * bits);
}

/// At a fixed rate the speech layer may go beyond its share by a quarter of what is
/// left to the other; where the size varies, it may take its share of the whole
/// packet.
pub proof fn law_speech_may_take_a_quarter_more(f: SilkFrame, b: FrameBudget)
    requires
        f.wf(),
        f.mode is Hybrid,
        f.frame_size * 50 == f.rate,
        1 <= b.frame_bytes,
        0 <= f.silk_rate(b),
    ensures
        ({
            let total = 8 * (b.frame_bytes - 1);
            let share = f.silk_rate(b) / 50;
            &&& f.cbr && share <= total ==> 0 <= 4 * f.silk_max_bits(b) - (total + 3 * share) < 4
            &&& f.cbr && share >= total ==> f.silk_max_bits(b) == total
            &&& !f.cbr && f.share(total) >= 0 ==> f.silk_max_bits(b) == f.share(total) / 50
        }),
{
    let rate = f.rate as int;
    let size = f.frame_size as int;
    let total = 8 * (b.frame_bytes - 1);
    law_inside_samples(20, 16, rate, size);
    let r = f.silk_rate(b);
    assert(r * 320 / 16_000 == r / 50);
    let s = f.share(total);
    if s >= 0 {
        assert(s * size / rate == s / 50) by {
            assert(s * size * 50 == s * rate) by (nonlinear_arith)
                requires
                    size * 50 == rate,
            ;
            vstd::arithmetic::div_mod::lemma_div_denominator(s * size, size, 50);
            assert(s * size == size * s) by (nonlinear_arith);
            vstd::arithmetic::div_mod::lemma_div_multiples_vanish(s, size);
        }
        assert(s * size >= 0) by (nonlinear_arith)
            requires
                s >= 0,
                size >= 0,
        ;
    }
    assert((b.frame_bytes - 1) * 8 == total);
}

/// A frame is refused where there is no room for two bytes, or it is of no length that
/// its layers code; and the transform's are 2.5, 5, 10 and 20 ms at any rate.
pub proof fn law_frames_are_refused(f: FrameInput, rate: int)
    requires
        opus_rate(rate),
    ensures
        f.room <= 1 ==> f.refusal(rate) == Some(
            Error::BufferTooSmall { needed: 2, provided: f.room },
        ),
        f.refusal(rate) is None ==> f.room >= 2 && layer_codes(f.mode, f.frame_rate as int),
        ({
            let n = f.frame_size as int;
            let fits = n * 400 == rate || n * 200 == rate || n * 100 == rate || n * 50 == rate;
            &&& !(f.mode is SilkOnly) && f.refusal(rate) is None ==> fits
            &&& f.room >= 2 && layer_codes(f.mode, f.frame_rate as int) && (f.mode is SilkOnly
                || fits) ==> f.refusal(rate) is None
            &&& f.room >= 2 && f.refusal(rate) is Some ==> f.refusal(rate)->0 is Internal
        }),
{
    let n = f.frame_size as int;
    let k = 48_000int / rate;
    assert(n * k == (if rate == 8_000 {
        6 * n
    } else if rate == 12_000 {
        4 * n
    } else if rate == 16_000 {
        3 * n
    } else if rate == 24_000 {
        2 * n
    } else {
        n
    })) by (nonlinear_arith)
        requires
            opus_rate(rate),
            k == 48_000int / rate,
    ;
}

/// The first byte of a frame's packet: five bits of configuration, one that says that
/// there are two channels, and two that say that there is one frame.
pub proof fn law_first_byte_of_a_frame(m: EncoderModel, f: FrameInput)
    requires
        toc_expressible(f.mode, f.frame_rate as int, m.memory.bandwidth),
    ensures
        ({
            let toc = m.frame_start(f).toc as int;
            &&& toc / 8 == config_number(f.mode, f.frame_rate as int, m.memory.bandwidth)
            &&& (toc / 4) % 2 == 1 <==> m.channels == 2
            &&& toc % 4 == 0
        }),
{
}

/// What a frame may take is never more than 1276 bytes with its first, whatever its
/// packet may; and a frame that is left out has nothing to take.
pub proof fn law_frames_have_their_bytes(m: EncoderModel, f: FrameInput)
    requires
        3 <= f.room,
    ensures
        ({
            let b = m.budget(f);
            &&& b.frame_bytes <= 1_276
            &&& b.n_bytes <= 1_276 ==> b.frame_bytes == b.n_bytes
            &&& b.n_bytes >= 1_276 ==> b.frame_bytes == 1_276
            &&& !(m.settings.rate_control is Cbr) ==> b.n_bytes == f.room
            &&& b.n_bytes <= f.room
        }),
        m.frame_start(f).budget is None <==> m.dtx(f).0,
        !m.settings.use_dtx ==> m.frame_start(f).budget == Some(m.budget(f)),
{
}

/// A frame's time is counted in halves of a millisecond, and for the speech layer in
/// whole ones.
pub proof fn law_frames_are_timed(m: EncoderModel, f: FrameInput, ms: int, now: SilkState)
    requires
        m.wf(),
        0 <= ms <= 1_000,
        f.frame_size * 1_000 == ms * m.rate,
    ensures
        f.half_ms(m.rate) == 2 * ms,
        m.silk_setup(f.mode, f.frame_size as int, now).frame_ms == ms,
{
    let size = f.frame_size as int;
    vstd::arithmetic::div_mod::lemma_div_multiples_vanish(2 * ms, m.rate);
    assert(2_000 * size == m.rate * (2 * ms)) by (nonlinear_arith)
        requires
            size * 1_000 == ms * m.rate,
    ;
    vstd::arithmetic::div_mod::lemma_div_multiples_vanish(ms, m.rate);
    assert(size * 1_000 == m.rate * ms) by (nonlinear_arith)
        requires
            size * 1_000 == ms * m.rate,
    ;
}

/// The speech layer is made ready before its frame: resamplers are new where it was
/// not set up, or ran at another rate or with other channels; a channel is added where
/// one was missing; and in mono, after a packet without it, it is warmed up with the
/// last 10 ms where those are at hand. Then it is ready, and warm.
pub proof fn law_speech_is_made_ready(
    m: EncoderModel,
    mode: OpusMode,
    frame_size: int,
    now: SilkState,
)
    requires
        m.wf(),
    ensures
        ({
            let s = m.silk_setup(mode, frame_size, now);
            &&& s.khz == internal_khz(mode, m.memory.bandwidth, m.rate)
            &&& !m.memory.silk_initialized ==> s.rebuild_resamplers
            &&& now.khz != s.khz || now.channels != m.channels ==> s.rebuild_resamplers
            &&& m.memory.silk_initialized && now.khz == s.khz && now.channels == m.channels
                ==> !s.rebuild_resamplers
            &&& s.add_channel <==> m.channels == 2 && now.channels < 2 || m.channels == 1
                && now.channels < 1
            &&& s.prefill ==> m.memory.silk_prefill_pending && m.channels == 1
            &&& m.memory.silk_prefill_pending && m.channels == 1 && now.tail_len * 100 == m.rate
                ==> s.prefill
            &&& s.prefill ==> now.tail_len * 100 == m.rate
            &&& m.silk_ready().memory.silk_initialized
            &&& !m.silk_ready().memory.silk_prefill_pending
        }),
{
}

/// A closed frame leaves its mode and its range behind, for the next to go by.
pub proof fn law_frames_leave_their_mode(m: EncoderModel, mode: OpusMode, range: u32)
    ensures
        m.frame_closed(mode, range).memory.prev_enc_mode == Some(mode),
        m.frame_closed(mode, range).memory.range_final == range,
        m.frame_closed(mode, range).settings == m.settings,
        m.frame_closed(mode, range).memory.bandwidth == m.memory.bandwidth,
{
}

/// Zeros at the end are taken off, all of them, but no byte of the first two.
proof fn lemma_without_zeros(bytes: Seq<u8>, len: int, i: int)
    requires
        0 <= len <= bytes.len(),
    ensures
        without_zeros(bytes, len) <= len,
        len >= 2 ==> without_zeros(bytes, len) >= 2,
        len <= 2 ==> without_zeros(bytes, len) == len,
        without_zeros(bytes, len) > 2 ==> bytes[without_zeros(bytes, len) - 1] != 0,
        without_zeros(bytes, len) <= i < len ==> bytes[i] == 0,
    decreases len,
{
    if len > 2 && bytes[len - 1] == 0 {
        lemma_without_zeros(bytes, len - 1, i);
    }
}

/// How much of what was coded is sent. Speech alone sends the bytes that it used, less
/// the zeros at their end; at a fixed rate the others fill their frame, and otherwise
/// they send what they were left with.
pub proof fn law_what_is_sent(
    bytes: Seq<u8>,
    storage: int,
    bits: int,
    mode: OpusMode,
    frame_bytes: int,
    cbr: bool,
    i: int,
)
    requires
        0 <= storage <= bytes.len(),
        0 <= bits <= 8 * storage,
        1 <= frame_bytes,
    ensures
        mode is SilkOnly ==> ({
            let n = payload_size(bytes, storage, bits, mode, cbr, frame_bytes);
            &&& 8 * n < bits + 8
            &&& n > 2 ==> bytes[n - 1] != 0
            &&& n <= i && 8 * i < bits ==> bytes[i] == 0
            &&& bits > 8 ==> n >= 2
        }),
        !(mode is SilkOnly) ==> payload_size(bytes, storage, bits, mode, true, frame_bytes)
            == frame_bytes - 1,
        !(mode is SilkOnly) && storage < frame_bytes ==> payload_size(
            bytes,
            storage,
            bits,
            mode,
            false,
            frame_bytes,
        ) == storage,
        !(mode is SilkOnly) && storage >= frame_bytes ==> payload_size(
            bytes,
            storage,
            bits,
            mode,
            false,
            frame_bytes,
        ) == frame_bytes - 1,
{
    lemma_without_zeros(bytes, (bits + 7) / 8, i);
}

/// At a fixed rate a packet has just the bytes of its budget, as far as there is room;
/// otherwise it has one more than what it carries.
pub proof fn law_packets_have_their_size(
    toc: u8,
    payload: Seq<u8>,
    budget: FrameBudget,
    room: int,
)
    requires
        toc % 4 == 0,
        payload.len() <= 1_275,
        payload.len() + 1 <= budget.n_bytes <= room,
    ensures
        frame_packet(toc, payload, true, budget, room).len() == budget.n_bytes,
        frame_packet(toc, payload, false, budget, room) == seq![toc] + payload,
{
    law_one_frame_round_trip(toc, payload, budget.n_bytes as int);
    assert(payload.subrange(0, payload.len() as int) =~= payload);
}

/// The signal is analysed from complexity 7 on and at 16 kHz or above; otherwise what
/// has been analysed is forgotten.
pub proof fn law_signals_are_analysed(m: EncoderModel, initialized: bool)
    ensures
        m.settings.complexity >= 7 && m.rate >= 16_000 ==> analysis_wanted(m, initialized) is Run,
        m.settings.complexity <= 6 || m.rate < 16_000 ==> !(analysis_wanted(m, initialized) is Run),
        m.settings.complexity <= 6 || m.rate < 16_000 ==> (analysis_wanted(m, initialized) is Reset
            <==> initialized),
{
}

/// What is in use is kept against the analysis: after the transform alone a packet is
/// judged by the most that music may be likely, and after speech by the least.
pub proof fn law_music_is_judged_by_the_last(mode: OpusMode)
    ensures
        mode is CeltOnly ==> judged_by(Some(mode)) is Most,
        !(mode is CeltOnly) ==> judged_by(Some(mode)) is Least,
        judged_by(None) is Plain,
{
}

/// A packet that has no room for its frames has them empty, as many as it was to have,
/// and of the same kind.
pub proof fn law_starved_packets_are_empty(
    m: EncoderModel,
    mode: OpusMode,
    layout: PacketLayout,
    b: SplitBudget,
    i: int,
)
    requires
        toc_expressible(mode, layout.frame_rate as int, m.memory.bandwidth),
        packable(
            (8 * config_number(mode, layout.frame_rate as int, m.memory.bandwidth) + (
            if m.channels == 2 {
                4int
            } else {
                0
            })) as u8,
            empty_frames(layout.nb_frames as int),
        ),
        0 <= i < layout.nb_frames,
    ensures
        parse_packet(m.starved_packet(mode, layout, b), false) matches Some(p) && {
            &&& p.frames.len() == layout.nb_frames
            &&& p.frames[i].len() == 0
            &&& p.toc as int / 8 == config_number(
                mode,
                layout.frame_rate as int,
                m.memory.bandwidth,
            )
            &&& (p.toc as int / 4) % 2 == 1 <==> m.channels == 2
        },
{
    let toc = (8 * config_number(mode, layout.frame_rate as int, m.memory.bandwidth) + (
    if m.channels == 2 {
        4int
    } else {
        0
    })) as u8;
    let frames = empty_frames(layout.nb_frames as int);
    let packet = m.starved_packet(mode, layout, b);
    law_packet_round_trip(toc, frames, false, b.repacketize_len as int, Seq::empty());
    law_packet_round_trip(toc, frames, false, 0, Seq::empty());
    assert(packet + Seq::<u8>::empty() =~= packet);
    assert(shortest_packet(toc, frames, false) + Seq::<u8>::empty() =~= shortest_packet(
        toc,
        frames,
        false,
    ));
}

/// A packet of a fixed rate is filled up to its size, unless all its frames were left
/// out.
pub proof fn law_gaps_are_not_filled(m: SplitModel)
    requires
        m.wf(),
    ensures
        !m.budget.pad ==> m.pad_to() is None,
        m.dropped == m.budget.nb_frames ==> m.pad_to() is None,
        m.budget.pad && m.dropped < m.budget.nb_frames ==> m.pad_to() == Some(
            m.budget.repacketize_len,
        ),
{
}

/// A frame that joins a packet is one more, with its bytes; one of a single byte was
/// left out.
pub proof fn law_split_frames_are_counted(m: SplitModel, packet: Seq<u8>)
    ensures
        m.with(packet).coded == m.coded + 1,
        m.with(packet).used == m.used + packet.len(),
        packet.len() == 1 ==> m.with(packet).dropped == m.dropped + 1,
        packet.len() != 1 ==> m.with(packet).dropped == m.dropped,
        m.with(packet).budget == m.budget,
{
}

/// What is decided of a packet is remembered for the next, which is not the first any
/// more.
pub proof fn law_decisions_are_remembered(m: EncoderModel, packet_rate: int)
    ensures
        ({
            let after = m.decided(packet_rate);
            &&& !after.memory.first_frame
            &&& after.memory.bandwidth == m.decision(packet_rate).1
            &&& after.memory.auto_bandwidth == m.bought_bandwidth(packet_rate)
            &&& after.memory.lbrr_coded == m.redundancy(packet_rate).0
            &&& after.memory.prev_enc_mode == m.memory.prev_enc_mode
            &&& after.memory.nb_no_activity_ms_q1 == m.memory.nb_no_activity_ms_q1
            &&& after.settings == m.settings
        }),
{
}

/// A rate that just reaches the threshold is the transform's, and one below it is not.
pub proof fn law_thresholds_are_reached(m: EncoderModel, packet_rate: int)
    ensures
        ({
            let threshold = mode_threshold(
                m.application,
                m.channels,
                m.memory.prev_enc_mode == Some(OpusMode::CeltOnly),
                m.memory.prev_enc_mode is Some,
                m.voice_estimate(),
            );
            let rate = m.equivalent_rate(packet_rate);
            &&& m.application is RestrictedLowDelay ==> m.first_mode(packet_rate) is CeltOnly
            &&& rate >= threshold ==> m.first_mode(packet_rate) is CeltOnly
            &&& !(m.application is RestrictedLowDelay) && rate < threshold ==> m.first_mode(
                packet_rate,
            ) is SilkOnly
        }),
{
}

/// The transform layer has no mediumband: what is held to that is narrowband there,
/// and what is held to wideband is wideband.
pub proof fn law_transform_skips_mediumband(m: EncoderModel, packet_rate: int)
    requires
        m.wf(),
        m.first_mode(packet_rate) is CeltOnly,
        m.settings.force_bandwidth is None,
    ensures
        !(m.chosen_bandwidth(packet_rate) is Mediumband),
        m.settings.max_bandwidth is Mediumband ==> m.chosen_bandwidth(packet_rate) is Narrowband,
        m.settings.max_bandwidth is Wideband && m.rate >= 16_000 && m.allowed_bandwidth(packet_rate)
            >= 1_103 ==> m.chosen_bandwidth(packet_rate) is Wideband,
{
    law_rate_buys_the_widest(m, packet_rate, 1105);
}

/// How a packet that is split is shared out: each frame has the bytes that its rate
/// comes to over its length, and the packet is filled up where the rate is fixed.
pub proof fn law_split_packets_are_shared_out(m: EncoderModel, layout: PacketLayout, room: int)
    requires
        m.wf(),
        m.settings.in_range(m.channels),
        layout.wf(m.rate),
        2 <= room <= usize::MAX,
    ensures
        ({
            let b = m.split(layout, room);
            let bits = target_bits(
                m.settings.bitrate_bps as int,
                layout.enc_frame_size as int,
                m.rate,
            );
            &&& b.pad <==> m.settings.rate_control is Cbr
            &&& b.nb_frames == layout.nb_frames
            &&& 0 <= bits <= 0xff_ffff ==> 8 * b.per_frame <= bits < 8 * b.per_frame + 8
            &&& !(m.settings.rate_control is Cbr) ==> b.repacketize_len == room
        }),
{
}

/// Frames are put together where there are as many as asked for, in the shortest
/// packet or in one of just the size that it is to have.
pub proof fn law_frames_are_put_together(m: GatheredFrames, n: int, total: usize)
    requires
        m.wf(),
        1 <= n <= m.frames.len(),
        packable(m.toc, m.frames.subrange(0, n)),
    ensures
        ({
            let frames = m.frames.subrange(0, n);
            let shortest = shortest_packet(m.toc, frames, false);
            &&& assembled(m, n, None) == Ok::<Seq<u8>, Error>(shortest)
            &&& shortest.len() > total ==> assembled(m, n, Some(total)) is Err
            &&& shortest.len() <= total ==> assembled(m, n, Some(total)) is Ok && assembled(
                m,
                n,
                Some(total),
            )->Ok_0.len() == total
        }),
        assembled(m, 0, None) is Err,
        assembled(m, 1int + m.frames.len(), None) is Err,
{
    let frames = m.frames.subrange(0, n);
    law_packet_round_trip(m.toc, frames, false, total as int, Seq::empty());
}

} // verus!
