//! How long a packet is, and how its audio is laid out as coded frames.

use vstd::prelude::*;

use crate::config::OpusMode;
use crate::toc::{frame_rate_from_params, frame_rate_of};

verus! {

/// Whether a rate is one the codec runs at.
pub open spec fn opus_rate(rate: int) -> bool {
    rate == 8000 || rate == 12000 || rate == 16000 || rate == 24000 || rate == 48000
}

/// The mode a packet rate forces: 2.5 and 5 ms exist for the transform layer
/// alone.
pub open spec fn mode_for_rate(mode: OpusMode, packet_rate: int) -> OpusMode {
    if packet_rate == 400 || packet_rate == 200 {
        OpusMode::CeltOnly
    } else {
        mode
    }
}

/// Force `mode` to one that can code a packet of `packet_rate` packets per
/// second at all.
///
/// The mode decision looks at bitrate, bandwidth and the content analysis, none
/// of which know the caller's frame size, so it can pick a mode that has no
/// configuration at that duration. Only the two shortest durations need
/// forcing: 2.5 and 5 ms exist for CELT alone, and no amount of splitting
/// produces something SILK can code. Every duration longer than 20 ms that a
/// mode cannot code as one frame is reached by [`PacketDuration::layout`]
/// splitting the packet into frames the mode *can* code.
pub fn coerce_mode_for_packet_rate(mode: OpusMode, packet_rate: i32) -> (r: OpusMode)
    ensures
        r == mode_for_rate(mode, packet_rate as int),
{
    match packet_rate {
        400 | 200 => OpusMode::CeltOnly,
        _ => mode,
    }
}

/// One of the nine packet durations there are, in tenths of a millisecond
/// so that 2.5 ms is an integer.
///
/// A duration is not a frame size: 80, 100 and 120 ms have no single-frame
/// configuration at all, and 40 and 60 ms have one only for SILK. What a
/// duration becomes on the wire is [`PacketDuration::layout`].
#[derive(Clone, Copy, Debug, PartialEq, Eq, Structural)]
pub struct PacketDuration {
    /// The duration in tenths of a millisecond.
    pub tenths_ms: i32,
}

/// Whether a number of tenths of a millisecond is a packet duration.
pub open spec fn is_duration(tenths_ms: int) -> bool {
    tenths_ms == 25 || tenths_ms == 50 || tenths_ms == 100 || tenths_ms == 200 || tenths_ms == 400
        || tenths_ms == 600 || tenths_ms == 800 || tenths_ms == 1000 || tenths_ms == 1200
}

/// Whether `frame_size` samples at `rate` last exactly that long.
pub open spec fn lasts(rate: int, frame_size: int, tenths_ms: int) -> bool {
    frame_size * 10_000 == rate * tenths_ms
}

/// Every duration is a whole number of samples at every rate.
pub proof fn lemma_whole_samples(rate: int, tenths_ms: int)
    requires
        opus_rate(rate),
        is_duration(tenths_ms),
    ensures
        rate * tenths_ms / 10_000 * 10_000 == rate * tenths_ms,
        20 <= rate * tenths_ms / 10_000 <= 5760,
        rate * tenths_ms <= 57_600_000,
        rate == 8000 ==> rate * tenths_ms == 8000 * tenths_ms,
        rate == 12000 ==> rate * tenths_ms == 12000 * tenths_ms,
        rate == 16000 ==> rate * tenths_ms == 16000 * tenths_ms,
        rate == 24000 ==> rate * tenths_ms == 24000 * tenths_ms,
        rate == 48000 ==> rate * tenths_ms == 48000 * tenths_ms,
{
    if rate == 8000 {
        assert(rate * tenths_ms == 8000 * tenths_ms);
    } else if rate == 12000 {
        assert(rate * tenths_ms == 12000 * tenths_ms);
    } else if rate == 16000 {
        assert(rate * tenths_ms == 16000 * tenths_ms);
    } else if rate == 24000 {
        assert(rate * tenths_ms == 24000 * tenths_ms);
    } else {
        assert(rate * tenths_ms == 48000 * tenths_ms);
    }
}

impl PacketDuration {
    /// Whether this is one of the nine durations.
    pub open spec fn wf(self) -> bool {
        is_duration(self.tenths_ms as int)
    }

    /// Samples per channel at `rate`.
    pub open spec fn samples(self, rate: int) -> int {
        rate * self.tenths_ms / 10_000
    }

    /// Recognise `frame_size` samples per channel as a packet duration, or
    /// reject it.
    ///
    /// The relations are written as exact integer products, so that the
    /// durations no sample rate divides evenly need no special case.
    pub fn classify(sampling_rate: i32, frame_size: usize) -> (r: Option<Self>)
        requires
            sampling_rate > 0,
        ensures
            match r {
                Some(d) => d.wf() && lasts(
                    sampling_rate as int,
                    frame_size as int,
                    d.tenths_ms as int,
                ),
                None => forall|t: int|
                    is_duration(t) ==> !lasts(sampling_rate as int, frame_size as int, t),
            },
    {
        if frame_size == 0 || frame_size > 0x7fff_ffff {
            return None;
        }
        let fs: i64 = frame_size as i64;
        let rate: i64 = sampling_rate as i64;
        let tenths_ms: i32 = if 400 * fs == rate {
            25
        } else if 200 * fs == rate {
            50
        } else if 100 * fs == rate {
            100
        } else if 50 * fs == rate {
            200
        } else if 25 * fs == rate {
            400
        } else if 50 * fs == 3 * rate {
            600
        } else if 25 * fs == 2 * rate {
            800
        } else if 10 * fs == rate {
            1000
        } else if 25 * fs == 3 * rate {
            1200
        } else {
            return None;
        };
        Some(PacketDuration { tenths_ms })
    }

    /// How this duration is laid out as coded frames when the packet is coded in
    /// `mode`.
    ///
    /// Only SILK has configurations past 20 ms, and the CELT transform has no
    /// frame longer than 20 ms outright, so anything else becomes several frames
    /// sharing one TOC.
    pub fn layout(self, sampling_rate: i32, mode: OpusMode) -> (layout: PacketLayout)
        requires
            self.wf(),
            opus_rate(sampling_rate as int),
        ensures
            layout == packet_layout(self, sampling_rate as int, mode),
            layout.wf(sampling_rate as int),
    {
        proof {
            lemma_whole_samples(sampling_rate as int, self.tenths_ms as int);
            lemma_whole_samples(
                sampling_rate as int,
                frame_tenths(self.tenths_ms as int, mode),
            );
            lemma_layout(self, sampling_rate as int, mode);
        }
        let rate: i64 = sampling_rate as i64;
        let ms20: usize = (sampling_rate / 50) as usize;
        let ms40: usize = (sampling_rate / 25) as usize;
        let ms60: usize = (3 * sampling_rate / 50) as usize;
        let frame_size: usize = (rate * self.tenths_ms as i64 / 10_000) as usize;
        let silk: bool = mode == OpusMode::SilkOnly;
        let d: i32 = self.tenths_ms;
        let enc_frame_size: usize = if d <= 200 {
            // 20 ms and shorter is one frame, whatever the mode.
            frame_size
        } else if silk && (d == 400 || d == 800) {
            // SILK keeps its long frames whole: 40 and 60 ms as themselves,
            // 80 ms as two 40s and 120 ms as two 60s.
            ms40
        } else if silk && (d == 600 || d == 1200) {
            ms60
        } else {
            // Everything else is 20 ms frames, including 100 ms in every mode,
            // because no legal duration halves it.
            ms20
        };
        let frame_rate: i32 = match frame_rate_from_params(sampling_rate, enc_frame_size) {
            Some(frame_rate) => frame_rate,
            None => 50,
        };
        PacketLayout { enc_frame_size, nb_frames: frame_size / enc_frame_size, frame_rate }
    }
}

/// How one packet's audio is laid out as coded frames.
#[derive(Clone, Copy, Debug, PartialEq, Eq, Structural)]
pub struct PacketLayout {
    /// Samples per channel in each coded frame.
    pub enc_frame_size: usize,
    /// Frames in the packet. 1 means the frame is coded straight into the
    /// caller's buffer, with no repacketizing.
    pub nb_frames: usize,
    /// Frames per second of `enc_frame_size`, as the TOC codes it.
    pub frame_rate: i32,
}

/// How many tenths of a millisecond each frame of a packet lasts.
pub open spec fn frame_tenths(tenths_ms: int, mode: OpusMode) -> int {
    if tenths_ms <= 200 {
        tenths_ms
    } else if mode == OpusMode::SilkOnly && (tenths_ms == 400 || tenths_ms == 800) {
        400
    } else if mode == OpusMode::SilkOnly && (tenths_ms == 600 || tenths_ms == 1200) {
        600
    } else {
        200
    }
}

/// How many frames a packet has.
pub open spec fn frames_in(tenths_ms: int, mode: OpusMode) -> int {
    if tenths_ms <= 200 {
        1
    } else if mode == OpusMode::SilkOnly && (tenths_ms == 400 || tenths_ms == 600) {
        1
    } else if mode == OpusMode::SilkOnly && (tenths_ms == 800 || tenths_ms == 1200) {
        2
    } else {
        tenths_ms / 200
    }
}

/// The rate at which frames of that many tenths of a millisecond come, 60 ms
/// truncated.
pub open spec fn tenths_frame_rate(tenths_ms: int) -> int {
    if tenths_ms == 25 {
        400
    } else if tenths_ms == 50 {
        200
    } else if tenths_ms == 100 {
        100
    } else if tenths_ms == 200 {
        50
    } else if tenths_ms == 400 {
        25
    } else {
        16
    }
}

/// The layout of a packet duration.
pub open spec fn packet_layout(d: PacketDuration, rate: int, mode: OpusMode) -> PacketLayout {
    let each = frame_tenths(d.tenths_ms as int, mode);
    PacketLayout {
        enc_frame_size: (rate * each / 10_000) as usize,
        nb_frames: frames_in(d.tenths_ms as int, mode) as usize,
        frame_rate: tenths_frame_rate(each) as i32,
    }
}

impl PacketLayout {
    /// Whether a layout is one that a packet can have: each frame's length has a
    /// code, there are one to six of them, and more than one only from 40 ms on.
    pub open spec fn wf(self, rate: int) -> bool {
        &&& 1 <= self.nb_frames <= 6
        &&& 0 < self.enc_frame_size
        &&& frame_rate_of(rate, self.enc_frame_size as int) == Some(self.frame_rate)
        &&& self.enc_frame_size * self.nb_frames <= rate * 1200 / 10_000
        &&& self.nb_frames >= 2 ==> rate <= 25 * (self.enc_frame_size * self.nb_frames)
    }
}

/// What a layout's numbers are, rate by rate.
proof fn lemma_layout(d: PacketDuration, rate: int, mode: OpusMode)
    requires
        d.wf(),
        opus_rate(rate),
    ensures
        ({
            let each = frame_tenths(d.tenths_ms as int, mode);
            let size = rate * each / 10_000;
            let count = frames_in(d.tenths_ms as int, mode);
            &&& size * count == d.samples(rate)
            &&& d.samples(rate) / size == count
            &&& d.samples(rate) <= rate * 1200 / 10_000
            &&& each == 200 ==> size == rate / 50
            &&& each == 400 ==> size == rate / 25
            &&& each == 600 ==> size == 3 * rate / 50
            &&& d.tenths_ms <= 200 ==> size == d.samples(rate)
            &&& packet_layout(d, rate, mode).wf(rate)
        }),
{
    let each = frame_tenths(d.tenths_ms as int, mode);
    lemma_whole_samples(rate, d.tenths_ms as int);
    lemma_whole_samples(rate, each);
    lemma_whole_samples(rate, 1200);
    let size = rate * each / 10_000;
    let count = frames_in(d.tenths_ms as int, mode);
    assert(1 <= count <= 6);
    assert(count == 1 || count == 2 || count == 3 || count == 4 || count == 5 || count == 6);
    let tenths = d.tenths_ms as int;
    assert(each * count == tenths) by (nonlinear_arith)
        requires
            (count == 1 && each == tenths) || (count == 2 && 2 * each == tenths) || (count == 3 && 3
                * each == tenths) || (count == 4 && 4 * each == tenths) || (count == 5 && 5 * each
                == tenths) || (count == 6 && 6 * each == tenths),
    ;
    assert((size * count) * 10_000 == rate * tenths) by (nonlinear_arith)
        requires
            size * 10_000 == rate * each,
            each * count == tenths,
    ;
    assert(size * count == d.samples(rate));
    assert(d.samples(rate) / size == count) by (nonlinear_arith)
        requires
            size * count == d.samples(rate),
            size > 0,
    ;
}

/// The frames of a layout are the whole packet, and no more.
pub proof fn law_layout_covers_the_packet(d: PacketDuration, rate: int, mode: OpusMode)
    requires
        d.wf(),
        opus_rate(rate),
    ensures
        ({
            let layout = packet_layout(d, rate, mode);
            &&& layout.enc_frame_size * layout.nb_frames == d.samples(rate)
            &&& lasts(
                rate,
                (layout.enc_frame_size * layout.nb_frames) as int,
                d.tenths_ms as int,
            )
            &&& mode != OpusMode::SilkOnly ==> layout.frame_rate >= 50
        }),
{
    lemma_layout(d, rate, mode);
    lemma_whole_samples(rate, d.tenths_ms as int);
}

/// Worst-case bytes the framing of an `nb_frames`-frame packet can cost: a code
/// 2 packet for two frames, and a code 3 VBR packet, whose per-frame length
/// fields run to two bytes, otherwise.
pub fn max_header_bytes(nb_frames: usize) -> (n: usize)
    requires
        1 <= nb_frames <= 48,
    ensures
        n == worst_header(nb_frames as int),
{
    if nb_frames == 2 {
        3
    } else {
        2 + (nb_frames - 1) * 2
    }
}

/// Worst-case bytes the framing of a packet can cost.
pub open spec fn worst_header(nb_frames: int) -> int {
    if nb_frames == 2 {
        3
    } else {
        2 + (nb_frames - 1) * 2
    }
}

/// The lengths that a packet can have: 2.5, 5 and 10 ms, and every 20 ms up to 120.
pub proof fn law_lengths_there_are(tenths_ms: int, rate: int, frame_size: int)
    ensures
        is_duration(tenths_ms) <==> tenths_ms == 25 || tenths_ms == 50 || tenths_ms == 100 || (
        200 <= tenths_ms <= 1_200 && tenths_ms % 200 == 0),
        lasts(rate, frame_size, 10_000) <==> frame_size == rate,
        lasts(rate, frame_size, tenths_ms) ==> lasts(rate, 2 * frame_size, 2 * tenths_ms),
        opus_rate(rate) ==> 48_000int % rate == 0 && 8_000 <= rate <= 48_000 && rate % 4_000 == 0,
        rate == 8_000 || rate == 12_000 || rate == 16_000 || rate == 24_000 || rate == 48_000
            ==> opus_rate(rate),
{
    assert(rate * (2 * tenths_ms) == 2 * (rate * tenths_ms)) by (nonlinear_arith);
}

/// The shortest packets are the transform's, whatever was chosen.
pub proof fn law_short_packets_are_the_transforms(mode: OpusMode, packet_rate: int)
    ensures
        packet_rate == 400 || packet_rate == 200 ==> mode_for_rate(mode, packet_rate) is CeltOnly,
        packet_rate <= 100 ==> mode_for_rate(mode, packet_rate) == mode,
{
}

} // verus!
