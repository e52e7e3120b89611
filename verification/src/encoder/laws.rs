//! What the encoder's decisions promise together.

use vstd::prelude::*;

use crate::config::{Application, Bandwidth, OpusMode, RateControl};
use crate::encoder::coding::{frame_packet, payload_size, without_zeros, FrameInput};
use crate::encoder::control::{
    lemma_packet_rate, number_of, packets_per_second, widest_bought, EncoderModel, Settings,
    MAX_PACKET_BYTES,
};
use crate::encoder::duration::{lasts, opus_rate, packet_layout, PacketDuration};
use crate::encoder::emit::{law_one_frame_round_trip, MAX_ONE_FRAME_PACKET};
use crate::encoder::frame::{
    dtx_after, packet_budget, target_bits, FrameBudget, DTX_AFTER, DTX_UNTIL,
};
use crate::encoder::rates::{affordable_bandwidth, numbered_bandwidth, widest_at};
use crate::framing::{parse_packet, PacketFrames};
use crate::math::least;
use crate::toc::toc_expressible;

verus! {

/// Narrowing for in-band redundancy ends at a bandwidth, and never widens.
proof fn lemma_affordable(bandwidth: int, last_fec: bool, loss: int, rate: int)
    requires
        1101 <= bandwidth <= 1105,
    ensures
        affordable_bandwidth(bandwidth, last_fec, loss, rate) matches Some(b) ==> 1101 <= b
            <= bandwidth,
    decreases bandwidth,
{
    if bandwidth > 1101 {
        lemma_affordable(bandwidth - 1, last_fec, loss, rate);
    }
}

/// In-band redundancy never widens a packet.
proof fn lemma_redundancy(m: EncoderModel, packet_rate: int)
    ensures
        1101 <= m.redundancy(packet_rate).1 <= number_of(m.chosen_bandwidth(packet_rate)),
        numbered_bandwidth(m.redundancy(packet_rate).1).rank() + 1101 == m.redundancy(
            packet_rate,
        ).1,
{
    lemma_affordable(
        number_of(m.chosen_bandwidth(packet_rate)),
        m.memory.lbrr_coded,
        m.settings.packet_loss_perc as int,
        m.equivalent_rate(packet_rate),
    );
}

/// Whatever the settings, the content and the duration, what a packet is
/// decided to be has a TOC byte: the layer codes frames of that length at that
/// bandwidth.
pub proof fn law_every_decision_has_a_toc(m: EncoderModel, d: PacketDuration, frame_size: int)
    requires
        m.wf(),
        d.wf(),
        lasts(m.rate, frame_size, d.tenths_ms as int),
    ensures
        ({
            let (mode, bandwidth) = m.decision(packets_per_second(m.rate, frame_size));
            toc_expressible(
                mode,
                packet_layout(d, m.rate, mode).frame_rate as int,
                bandwidth,
            )
        }),
{
    lemma_packet_rate(m.rate, frame_size, d.tenths_ms as int);
    lemma_redundancy(m, packets_per_second(m.rate, frame_size));
}

/// A packet is never coded at a bandwidth the input cannot contain, but for the
/// two that only the transform layer's own rules widen: it has no mediumband,
/// and it takes stereo hybrid packets at full width.
pub proof fn law_bandwidth_fits_the_input(m: EncoderModel, packet_rate: int)
    requires
        m.wf(),
    ensures
        ({
            let (mode, bandwidth) = m.decision(packet_rate);
            ||| bandwidth.rank() <= widest_at(m.rate).rank()
            ||| mode == OpusMode::CeltOnly && bandwidth == Bandwidth::Wideband && m.rate == 12_000
            ||| mode == OpusMode::CeltOnly && bandwidth == Bandwidth::Fullband && m.rate == 24_000
                && m.channels == 2 && m.settings.bitrate_bps > 28_000
        }),
{
    lemma_redundancy(m, packet_rate);
}

/// The rate buys one of the bandwidths.
proof fn lemma_bought(number: int, equiv: int, voice_est: int, first_frame: bool, last: int)
    requires
        1101 <= number <= 1105,
    ensures
        1101 <= widest_bought(number, equiv, voice_est, first_frame, last) <= number,
    decreases number,
{
    if number > 1101 {
        lemma_bought(number - 1, equiv, voice_est, first_frame, last);
    }
}

/// A packet is never coded wider than the caller's cap, unless the caller forces
/// a bandwidth, but for the floor that the speech layer has above 16 kHz and the
/// two widenings of the transform layer.
pub proof fn law_the_cap_is_kept(m: EncoderModel, packet_rate: int)
    requires
        m.wf(),
        m.settings.force_bandwidth is None,
    ensures
        ({
            let (mode, bandwidth) = m.decision(packet_rate);
            let cap = m.settings.max_bandwidth;
            ||| bandwidth.rank() <= cap.rank()
            ||| bandwidth.rank() <= Bandwidth::Wideband.rank() && m.first_mode(packet_rate)
                == OpusMode::SilkOnly && m.rate > 16_000
            ||| mode == OpusMode::CeltOnly && bandwidth == Bandwidth::Wideband && cap
                == Bandwidth::Mediumband
            ||| mode == OpusMode::CeltOnly && bandwidth == Bandwidth::Fullband && m.channels == 2
                && m.settings.bitrate_bps > 28_000
        }),
{
    lemma_bought(
        1105,
        m.equivalent_rate(packet_rate),
        m.voice_estimate(),
        m.memory.first_frame,
        m.memory.auto_bandwidth,
    );
    lemma_redundancy(m, packet_rate);
}

/// The low-delay application never leaves the transform layer, and with it its
/// delay.
pub proof fn law_low_delay_stays_celt(m: EncoderModel, packet_rate: int)
    requires
        m.application == Application::RestrictedLowDelay,
    ensures
        m.decision(packet_rate).0 == OpusMode::CeltOnly,
{
}

/// Settings that have been brought into range stay as they are when that is
/// done again.
pub proof fn law_normalizing_twice_is_once(s: Settings, channels: int)
    requires
        channels == 1 || channels == 2,
    ensures
        s.normalized(channels).in_range(channels),
        s.normalized(channels).normalized(channels) == s.normalized(channels),
        s.in_range(channels) ==> s.normalized(channels) == s,
{
}

/// Inactive time after some inactive frames of one length, if none of them was
/// sent.
pub open spec fn all_dropped(idle: int, frame: int, n: int) -> bool
    decreases n,
{
    n <= 0 || (all_dropped(idle, frame, n - 1) && dtx_after(idle + (n - 1) * frame, frame).0)
}

/// Silence is broken: no more than 400 ms of frames are dropped in a row, the
/// one that the run starts with counted off.
pub proof fn law_dropping_ends(idle: int, frame: int, n: int)
    requires
        0 <= idle,
        0 < frame,
        0 < n,
        all_dropped(idle, frame, n),
    ensures
        idle + n * frame <= DTX_UNTIL,
        (n - 1) * frame < DTX_UNTIL - DTX_AFTER,
    decreases n,
{
    assert((n - 1) * frame + frame == n * frame) by (nonlinear_arith);
    if n > 1 {
        law_dropping_ends(idle, frame, n - 1);
        assert((n - 2) * frame + frame == (n - 1) * frame) by (nonlinear_arith);
        lemma_first_dropped(idle, frame, n);
    } else {
        assert((n - 1) * frame == 0) by (nonlinear_arith)
            requires
                n == 1,
        ;
    }
}

/// The first frame of a run is dropped for being past the threshold.
proof fn lemma_first_dropped(idle: int, frame: int, n: int)
    requires
        0 < n,
        all_dropped(idle, frame, n),
    ensures
        idle + frame > DTX_AFTER,
    decreases n,
{
    if n > 1 {
        lemma_first_dropped(idle, frame, n - 1);
    } else {
        assert(all_dropped(idle, frame, n - 1));
        assert((n - 1) * frame == 0) by (nonlinear_arith)
            requires
                n == 1,
        ;
    }
}

/// The first 200 ms of inactivity are always sent, and an active frame always
/// is.
pub proof fn law_activity_is_sent(m: EncoderModel, f: FrameInput)
    requires
        !m.settings.use_dtx || !f.inactive() || m.memory.nb_no_activity_ms_q1 + f.half_ms(m.rate)
            <= DTX_AFTER,
    ensures
        m.frame_start(f).budget is Some,
{
}

/// A packet of one frame comes out as the size that was set at a fixed rate, and
/// as what was coded otherwise; and the frame comes out of it as it went in.
pub proof fn law_frame_packet_round_trip(
    toc: u8,
    payload: Seq<u8>,
    cbr: bool,
    budget: FrameBudget,
    room: int,
)
    requires
        toc % 4 == 0,
        payload.len() < budget.frame_bytes <= budget.n_bytes <= room,
        budget.frame_bytes <= MAX_ONE_FRAME_PACKET,
    ensures
        ({
            let packet = frame_packet(toc, payload, cbr, budget, room);
            &&& packet.len() == (if cbr {
                budget.n_bytes as int
            } else {
                1int + payload.len()
            })
            &&& parse_packet(packet, false) == Some(
                PacketFrames { toc, frames: seq![payload], consumed: packet.len() as int },
            )
        }),
{
    let target = if cbr {
        budget.n_bytes as int
    } else {
        1int + payload.len()
    };
    law_one_frame_round_trip(toc, payload, target);
}

/// No packet of one frame is longer than the largest there is, whatever its
/// frame holds and however large the buffer.
pub proof fn law_no_frame_packet_is_longer(
    m: EncoderModel,
    f: FrameInput,
    toc: u8,
    payload: Seq<u8>,
)
    requires
        opus_rate(m.rate),
        m.channels == 1 || m.channels == 2,
        m.settings.in_range(m.channels),
        0 < f.frame_size,
        f.frame_size * 50 <= 3 * m.rate,
        1 <= f.room,
        toc % 4 == 0,
        payload.len() < MAX_ONE_FRAME_PACKET,
    ensures
        frame_packet(
            toc,
            payload,
            m.settings.rate_control == RateControl::Cbr,
            m.budget(f),
            f.room as int,
        ).len() <= MAX_PACKET_BYTES,
{
    let cbr = m.settings.rate_control == RateControl::Cbr;
    let bitrate = m.settings.bitrate_bps as int;
    let size = f.frame_size as int;
    let rate = m.rate;
    lemma_target(bitrate, size, rate);
    let n = packet_budget(bitrate, size, rate, cbr, f.room as int);
    assert(cbr ==> 1 <= n <= 4501);
    let target = if cbr {
        m.budget(f).n_bytes as int
    } else {
        1int + payload.len()
    };
    let total = least(target, f.room as int);
    if payload.len() + 1 < total {
        law_one_frame_round_trip(toc, payload, total);
    }
}

/// Leaving zero bytes off never adds any.
proof fn lemma_without_zeros(bytes: Seq<u8>, len: int)
    ensures
        without_zeros(bytes, len) <= len,
        0 <= len ==> 0 <= without_zeros(bytes, len),
    decreases len,
{
    if len > 2 && bytes[len - 1] == 0 {
        lemma_without_zeros(bytes, len - 1);
    }
}

/// A packet of up to 20 ms is one frame, whatever layer codes it.
pub proof fn law_short_packets_are_one_frame(d: PacketDuration, rate: int, mode: OpusMode)
    requires
        d.wf(),
        d.tenths_ms <= 200,
        opus_rate(rate),
    ensures
        packet_layout(d, rate, mode).nb_frames == 1,
{
}

/// At a fixed rate a packet of one frame has exactly the bytes that the rate gives
/// it, whatever the layer and whatever was coded, as long as the coder kept to its
/// room and the buffer holds every packet: a channel of that capacity carries
/// every packet of the stream. For 20 ms these are a fiftieth of the rate at every
/// sample rate. Nothing is dropped unless that was asked for.
pub proof fn law_fixed_rate_packets_have_their_size(
    m: EncoderModel,
    f: FrameInput,
    toc: u8,
    bytes: Seq<u8>,
    storage: int,
    bits: int,
)
    requires
        m.settings.rate_control == RateControl::Cbr,
        opus_rate(m.rate),
        m.channels == 1 || m.channels == 2,
        m.settings.in_range(m.channels),
        0 < f.frame_size,
        f.frame_size * 50 <= 3 * m.rate,
        f.room >= MAX_PACKET_BYTES,
        toc % 4 == 0,
        4 <= target_bits(m.settings.bitrate_bps as int, f.frame_size as int, m.rate),
        0 <= bits,
        0 <= storage < m.budget(f).frame_bytes,
        m.budget(f).frame_bytes - 1 <= bytes.len(),
    ensures
        ({
            let b = m.budget(f);
            let len = payload_size(bytes, storage, bits, f.mode, true, b.frame_bytes as int);
            frame_packet(toc, bytes.subrange(0, len), true, b, f.room as int).len() == (
            target_bits(m.settings.bitrate_bps as int, f.frame_size as int, m.rate) + 4) / 8
        }),
        f.frame_size * 50 == m.rate ==> target_bits(
            m.settings.bitrate_bps as int,
            f.frame_size as int,
            m.rate,
        ) == m.settings.bitrate_bps as int / 50,
        !m.settings.use_dtx ==> m.frame_start(f).budget == Some(m.budget(f)),
{
    let bitrate = m.settings.bitrate_bps as int;
    let size = f.frame_size as int;
    let rate = m.rate;
    let target = target_bits(bitrate, size, rate);
    lemma_target(bitrate, size, rate);
    if size * 50 == rate {
        assert(target == bitrate / 50) by (nonlinear_arith)
            requires
                target == bitrate * size / rate,
                size * 50 == rate,
                0 < size,
                0 <= bitrate,
        ;
    }
    let n = (target + 4) / 8;
    let b = m.budget(f);
    assert(b.n_bytes == n);
    let len = payload_size(bytes, storage, bits, f.mode, true, b.frame_bytes as int);
    lemma_without_zeros(bytes, least((bits + 7) / 8, storage));
    assert(0 <= len < b.frame_bytes);
    law_frame_packet_round_trip(toc, bytes.subrange(0, len), true, b, f.room as int);
}

/// The bits of a frame of up to 60 ms at the rates there are.
proof fn lemma_target(bitrate: int, size: int, rate: int)
    requires
        0 <= bitrate <= 600_000,
        0 < size,
        size * 50 <= 3 * rate,
    ensures
        0 <= target_bits(bitrate, size, rate) <= 36_000,
{
    let bits = target_bits(bitrate, size, rate);
    assert(0 <= bitrate * size <= 36_000 * rate) by (nonlinear_arith)
        requires
            0 <= bitrate <= 600_000,
            0 < size,
            size * 50 <= 3 * rate,
    ;
    assert(0 <= bits <= 36_000) by (nonlinear_arith)
        requires
            bits == bitrate * size / rate,
            0 <= bitrate * size <= 36_000 * rate,
            0 < rate,
    ;
}

/// At a fixed rate every packet is as long as every other, whatever it holds, as
/// long as the buffer has room for it.
pub proof fn law_fixed_rate_is_fixed(m: EncoderModel, f: FrameInput, g: FrameInput)
    requires
        m.settings.rate_control == RateControl::Cbr,
        opus_rate(m.rate),
        0 <= m.settings.bitrate_bps <= 1_000_000,
        f.frame_size == g.frame_size,
        0 < f.frame_size <= 5760,
        (target_bits(m.settings.bitrate_bps as int, f.frame_size as int, m.rate) + 4) / 8 <= f.room,
        (target_bits(m.settings.bitrate_bps as int, g.frame_size as int, m.rate) + 4) / 8 <= g.room,
        f.room > 0,
        g.room > 0,
    ensures
        m.budget(f) == m.budget(g),
{
}

} // verus!
