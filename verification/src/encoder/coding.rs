//! Taking an encoder through one frame: what has to be started over, whether
//! the frame is sent at all, and how it is closed.

use vstd::prelude::*;

use crate::config::{OpusMode, RateControl};
use crate::encoder::control::{EncoderModel, Memory, OpusEncoder};
use crate::encoder::duration::opus_rate;
use crate::encoder::emit::{emit_one_frame_packet, one_frame_packet, MAX_ONE_FRAME_PACKET};
use crate::encoder::frame::{
    dtx_after, dtx_step, frame_budget, internal_khz, is_codable, layer_codes, lbrr_gain,
    lbrr_gain_increases, packet_budget, silk_internal_khz, FrameBudget, SilkFrame,
};
use crate::encoder::rates::{celt_can_code_frame, celt_upsample};
use crate::error::Error;
use crate::math::{least, min_usize};
use crate::toc::{config_number, gen_toc, toc_expressible};

verus! {

/// What a frame starts with.
#[derive(Debug, Clone, Copy, PartialEq, Eq, Structural)]
pub struct FrameStart {
    /// The byte that the frame's packet starts with.
    pub toc: u8,
    /// Whether the transform layer starts over, as the decoder's does.
    pub restart_celt: bool,
    /// What the frame may take, or nothing where it is not sent: the packet is
    /// then the TOC byte alone.
    pub budget: Option<FrameBudget>,
}

/// One frame as it is handed to the encoder.
#[derive(Debug, Clone, Copy, PartialEq, Eq, Structural)]
pub struct FrameInput {
    /// The packet's mode.
    pub mode: OpusMode,
    /// Frames of this length in a second, truncated.
    pub frame_rate: i32,
    /// Samples per channel.
    pub frame_size: usize,
    /// Whether nothing in the frame is above the noise floor.
    pub is_silence: bool,
    /// The analysis's verdict on whether somebody is active, where it has one.
    pub active: Option<bool>,
    /// Bytes of room for the frame's packet.
    pub room: usize,
}

impl FrameInput {
    /// Whether the transform layer has a transform of the frame's length.
    pub open spec fn fits_transform(self, rate: int) -> bool {
        let upsampled = self.frame_size * (48_000int / rate);
        upsampled == 120 || upsampled == 240 || upsampled == 480 || upsampled == 960
    }

    /// Why the frame cannot be coded, if so.
    pub open spec fn refusal(self, rate: int) -> Option<Error> {
        if self.room < 2 {
            Some(Error::BufferTooSmall { needed: 2, provided: self.room })
        } else if !layer_codes(self.mode, self.frame_rate as int) {
            Some(Error::Internal("frame size is not codable in this mode"))
        } else if self.mode != OpusMode::SilkOnly && !self.fits_transform(rate) {
            Some(
                Error::Internal(
                    "frame size is not codable by the CELT layer at this sampling rate",
                ),
            )
        } else {
            None
        }
    }

    /// Whether the frame counts as inactive. Silence always does; without a
    /// verdict everything else is active, so that no real audio is dropped.
    pub open spec fn inactive(self) -> bool {
        self.is_silence || self.active == Some(false)
    }

    /// The frame's length in half milliseconds.
    pub open spec fn half_ms(self, rate: int) -> int {
        2000 * self.frame_size / rate
    }
}

impl EncoderModel {
    /// Whether the layers start over before a frame: on any change of mode, but
    /// that the transform layer has nothing to start when it does not code.
    pub open spec fn restarts_celt(self, mode: OpusMode) -> bool {
        self.memory.prev_enc_mode is Some && self.memory.prev_enc_mode != Some(mode) && mode
            != OpusMode::SilkOnly
    }

    /// Whether the speech layer starts over before a frame: when the packet
    /// before left it out.
    pub open spec fn restarts_silk(self, mode: OpusMode) -> bool {
        self.memory.prev_enc_mode == Some(OpusMode::CeltOnly) && mode != OpusMode::CeltOnly
    }

    /// Whether a frame is dropped, and the inactive time after it.
    pub open spec fn dtx(self, f: FrameInput) -> (bool, int) {
        if self.settings.use_dtx && f.inactive() {
            dtx_after(self.memory.nb_no_activity_ms_q1, f.half_ms(self.rate))
        } else {
            (false, 0)
        }
    }

    /// The byte that a frame's packet starts with.
    pub open spec fn frame_toc(self, f: FrameInput) -> int {
        8 * config_number(f.mode, f.frame_rate as int, self.memory.bandwidth) + (if self.channels
            == 2 {
            4int
        } else {
            0
        })
    }

    /// The bytes of a frame's packet and of the frame.
    pub open spec fn budget(self, f: FrameInput) -> FrameBudget {
        let n = packet_budget(
            self.settings.bitrate_bps as int,
            f.frame_size as int,
            self.rate,
            self.settings.rate_control == RateControl::Cbr,
            f.room as int,
        );
        FrameBudget {
            n_bytes: n as usize,
            frame_bytes: least(n, MAX_ONE_FRAME_PACKET as int) as usize,
        }
    }

    /// What a frame that is not refused starts with.
    pub open spec fn frame_start(self, f: FrameInput) -> FrameStart {
        FrameStart {
            toc: self.frame_toc(f) as u8,
            restart_celt: self.restarts_celt(f.mode),
            budget: if self.dtx(f).0 {
                None
            } else {
                Some(self.budget(f))
            },
        }
    }

    /// The encoder once a frame that is not refused has started. One that is not
    /// sent is over with that.
    pub open spec fn frame_started(self, f: FrameInput) -> EncoderModel {
        let restart = self.restarts_silk(f.mode);
        let (dropped, idle) = self.dtx(f);
        EncoderModel {
            memory: Memory {
                silk_initialized: self.memory.silk_initialized && !restart,
                silk_prefill_pending: self.memory.silk_prefill_pending || restart,
                nb_no_activity_ms_q1: idle,
                prev_enc_mode: if dropped {
                    Some(f.mode)
                } else {
                    self.memory.prev_enc_mode
                },
                range_final: if dropped {
                    0
                } else {
                    self.memory.range_final
                },
                ..self.memory
            },
            ..self
        }
    }
}

/// How the speech layer stands before a frame.
#[derive(Debug, Clone, Copy, PartialEq, Eq, Structural)]
pub struct SilkState {
    /// Its internal rate in kHz.
    pub khz: i32,
    /// The channels that it codes.
    pub channels: usize,
    /// Samples of audio that are at hand to warm it up with.
    pub tail_len: usize,
}

/// What has to be done to the speech layer before a frame.
#[derive(Debug, Clone, Copy, PartialEq, Eq, Structural)]
pub struct SilkSetup {
    /// The internal rate to run it at, in kHz.
    pub khz: i32,
    /// Whole milliseconds in the frame.
    pub frame_ms: i32,
    /// Whether its second channel has to be built and the mid/side smoothers
    /// primed.
    pub add_channel: bool,
    /// Whether the resamplers are rebuilt. Their filter memory is real audio
    /// history: rebuilding them every frame would restart the filter mid-stream.
    pub rebuild_resamplers: bool,
    /// Whether it is warmed up with 10 ms of audio first.
    pub prefill: bool,
}

impl EncoderModel {
    /// What has to be done to the speech layer before a frame.
    pub open spec fn silk_setup(self, mode: OpusMode, frame_size: int, now: SilkState) -> SilkSetup {
        let khz = internal_khz(mode, self.memory.bandwidth, self.rate);
        SilkSetup {
            khz: khz as i32,
            frame_ms: (frame_size * 1000 / self.rate) as i32,
            add_channel: self.channels > now.channels,
            rebuild_resamplers: !self.memory.silk_initialized || now.khz != khz || now.channels
                != self.channels,
            prefill: self.memory.silk_prefill_pending && self.channels == 1 && now.tail_len
                == self.rate / 100,
        }
    }

    /// What the speech layer's budget for a frame depends on.
    pub open spec fn silk_frame(self, mode: OpusMode, frame_size: usize) -> SilkFrame {
        SilkFrame {
            mode,
            bandwidth: self.memory.bandwidth,
            bitrate_bps: self.settings.bitrate_bps,
            cbr: self.settings.rate_control == RateControl::Cbr,
            fec: self.memory.lbrr_coded,
            channels: self.channels as usize,
            rate: self.rate as i32,
            frame_size,
        }
    }

    /// The encoder once the speech layer has been set up.
    pub open spec fn silk_ready(self) -> EncoderModel {
        EncoderModel {
            memory: Memory {
                silk_initialized: true,
                silk_prefill_pending: false,
                ..self.memory
            },
            ..self
        }
    }

    /// The encoder after a frame that was sent.
    pub open spec fn frame_closed(self, mode: OpusMode, range: u32) -> EncoderModel {
        EncoderModel {
            memory: Memory { prev_enc_mode: Some(mode), range_final: range, ..self.memory },
            ..self
        }
    }
}

/// A coded frame as the range coder leaves it.
#[derive(Debug)]
pub struct CodedFrame<'a> {
    /// The range coder's bytes.
    pub bytes: &'a [u8],
    /// How many of them it was given, or shrank to.
    pub storage: usize,
    /// The bits that the speech layer took, counted before the coder was closed.
    pub bits: u32,
    /// The range coder's final state.
    pub range: u32,
}

/// A length with the zero bytes at the end left off, down to two.
pub open spec fn without_zeros(bytes: Seq<u8>, len: int) -> int
    decreases len,
{
    if len > 2 && bytes[len - 1] == 0 {
        without_zeros(bytes, len - 1)
    } else {
        len
    }
}

/// The bytes of the payload that was actually coded. The speech layer reports
/// its own length, and its trailing zero bytes carry no information; the others
/// fill the coder at a fixed rate, or shrank it to the size they chose.
pub open spec fn payload_size(
    bytes: Seq<u8>,
    storage: int,
    bits: int,
    mode: OpusMode,
    cbr: bool,
    frame_bytes: int,
) -> int {
    if mode == OpusMode::SilkOnly {
        without_zeros(bytes, least((bits + 7) / 8, storage))
    } else if cbr {
        frame_bytes - 1
    } else {
        least(storage, frame_bytes - 1)
    }
}

/// The bytes of the payload that was actually coded.
pub fn payload_len(coded: &CodedFrame, mode: OpusMode, cbr: bool, frame_bytes: usize) -> (n: usize)
    requires
        1 <= frame_bytes,
        coded.storage <= coded.bytes@.len(),
        frame_bytes - 1 <= coded.bytes@.len(),
        coded.bits <= 0x7fff_ffff,
    ensures
        n == payload_size(
            coded.bytes@,
            coded.storage as int,
            coded.bits as int,
            mode,
            cbr,
            frame_bytes as int,
        ),
        n <= coded.bytes@.len(),
        n <= coded.storage || n <= frame_bytes - 1,
{
    if mode == OpusMode::SilkOnly {
        let full: usize = min_usize(((coded.bits + 7) / 8) as usize, coded.storage);
        let mut len: usize = full;
        while len > 2 && coded.bytes[len - 1] == 0
            invariant
                len <= full <= coded.storage <= coded.bytes@.len(),
                without_zeros(coded.bytes@, len as int) == without_zeros(coded.bytes@, full as int),
            decreases len,
        {
            len = len - 1;
        }
        len
    } else if cbr {
        frame_bytes - 1
    } else {
        min_usize(coded.storage, frame_bytes - 1)
    }
}

/// The packet of a coded frame in a buffer of `room` bytes. A fixed rate owes
/// the caller a packet of exactly its size; otherwise the packet holds only what
/// was coded.
pub open spec fn frame_packet(
    toc: u8,
    payload: Seq<u8>,
    cbr: bool,
    budget: FrameBudget,
    room: int,
) -> Seq<u8> {
    let target = if cbr {
        budget.n_bytes as int
    } else {
        1int + payload.len()
    };
    one_frame_packet(toc, payload, least(target, room))
}

/// Why a frame cannot be coded, if so.
pub fn refuse_frame(sampling_rate: i32, f: FrameInput) -> (refusal: Option<Error>)
    requires
        opus_rate(sampling_rate as int),
        f.frame_size * 50 <= 3 * sampling_rate,
    ensures
        refusal == f.refusal(sampling_rate as int),
{
    if f.room < 2 {
        return Some(Error::buffer_too_small(2, f.room));
    }
    if !is_codable(f.mode, f.frame_rate) {
        return Some(Error::Internal("frame size is not codable in this mode"));
    }
    // The transform layer can only take frame sizes that its 48 kHz mode has a
    // transform for. Reject the combination rather than letting it get there.
    let upsample: usize = celt_upsample(sampling_rate);
    assert(upsample == 48_000int / (sampling_rate as int)) by (nonlinear_arith)
        requires
            upsample * sampling_rate == 48_000,
            sampling_rate > 0,
    ;
    assert(f.frame_size * upsample <= 6 * 2880) by (nonlinear_arith)
        requires
            f.frame_size <= 2880,
            upsample <= 6,
    ;
    if f.mode != OpusMode::SilkOnly && !celt_can_code_frame(f.frame_size * upsample) {
        return Some(
            Error::Internal("frame size is not codable by the CELT layer at this sampling rate"),
        );
    }
    None
}

impl OpusEncoder {
    /// Start a frame: see what the change of mode asks for, and decide whether
    /// the frame is sent and in how many bytes.
    ///
    /// The decoder resets its transform layer on any mode change and its speech
    /// layer when leaving CELT-only; the encoder must mirror both or the streams
    /// desync from that frame on. A frame that is refused leaves the encoder as
    /// it was.
    pub fn begin_frame(&mut self, f: FrameInput) -> (r: Result<FrameStart, Error>)
        requires
            old(self).wf(),
            old(self)@.settings.in_range(old(self)@.channels),
            0 < f.frame_size,
            f.frame_size * 50 <= 3 * old(self)@.rate,
            layer_codes(f.mode, f.frame_rate as int) ==> toc_expressible(
                f.mode,
                f.frame_rate as int,
                old(self)@.memory.bandwidth,
            ),
        ensures
            final(self).wf(),
            match f.refusal(old(self)@.rate) {
                Some(e) => r == Err::<FrameStart, Error>(e) && final(self)@ == old(self)@,
                None => {
                    &&& r == Ok::<FrameStart, Error>(old(self)@.frame_start(f))
                    &&& final(self)@ == old(self)@.frame_started(f)
                },
            },
    {
        if let Some(e) = refuse_frame(self.sampling_rate, f) {
            return Err(e);
        }
        let restart_celt: bool = self.start_over(f.mode);
        let toc: u8 = gen_toc(f.mode, f.frame_rate, self.bandwidth, self.channels);
        if self.drops(f) {
            self.prev_enc_mode = Some(f.mode);
            self.range_final = 0;
            return Ok(FrameStart { toc, restart_celt, budget: None });
        }
        let budget = frame_budget(
            self.bitrate_bps,
            f.frame_size,
            self.sampling_rate,
            self.rate_control.is_cbr(),
            f.room,
        );
        Ok(FrameStart { toc, restart_celt, budget: Some(budget) })
    }

    /// Whether a frame is dropped. After enough consecutive inactive frames, the
    /// packet is the TOC byte alone: the decoder sees an empty payload and runs
    /// comfort noise.
    fn drops(&mut self, f: FrameInput) -> (dropped: bool)
        requires
            old(self).wf(),
            f.frame_size * 50 <= 3 * old(self)@.rate,
        ensures
            final(self).wf(),
            dropped == old(self)@.dtx(f).0,
            final(self)@ == (EncoderModel {
                memory: Memory { nb_no_activity_ms_q1: old(self)@.dtx(f).1, ..old(self)@.memory },
                ..old(self)@
            }),
    {
        let active: bool = match f.active {
            Some(active) => !f.is_silence && active,
            None => !f.is_silence,
        };
        let mut dropped: bool = false;
        if self.use_dtx && !active {
            let half_ms: i32 = 2000 * f.frame_size as i32 / self.sampling_rate;
            let ghost rate = self@.rate;
            assert(0 <= half_ms <= 120) by (nonlinear_arith)
                requires
                    half_ms == 2000 * f.frame_size / rate,
                    f.frame_size * 50 <= 3 * rate,
                    rate > 0,
            ;
            let (drop_it, idle): (bool, i32) = dtx_step(self.nb_no_activity_ms_q1, half_ms);
            dropped = drop_it;
            self.nb_no_activity_ms_q1 = idle;
        } else {
            self.nb_no_activity_ms_q1 = 0;
        }
        dropped
    }

    /// What a change of mode asks for: the speech layer is set up anew when the
    /// packet before left it out. Returns whether the transform layer starts
    /// over.
    fn start_over(&mut self, mode: OpusMode) -> (restart_celt: bool)
        ensures
            restart_celt == old(self)@.restarts_celt(mode),
            ({
                let restart = old(self)@.restarts_silk(mode);
                final(self)@ == (EncoderModel {
                    memory: Memory {
                        silk_initialized: old(self)@.memory.silk_initialized && !restart,
                        silk_prefill_pending: old(self)@.memory.silk_prefill_pending || restart,
                        ..old(self)@.memory
                    },
                    ..old(self)@
                })
            }),
    {
        let mut restart_celt: bool = false;
        if let Some(prev) = self.prev_enc_mode {
            if prev != mode {
                restart_celt = mode != OpusMode::SilkOnly;
                if mode != OpusMode::CeltOnly && prev == OpusMode::CeltOnly {
                    self.silk_initialized = false;
                    self.silk_prefill_pending = true;
                }
            }
        }
        restart_celt
    }

    /// Set the speech layer up for a frame.
    ///
    /// The layer is reconfigured on every frame rather than on a list of what
    /// might have changed; only the resamplers are kept where they can be.
    pub fn enter_silk(&mut self, mode: OpusMode, frame_size: usize, now: SilkState) -> (setup:
        SilkSetup)
        requires
            old(self).wf(),
            frame_size * 50 <= 3 * old(self)@.rate,
        ensures
            final(self).wf(),
            setup == old(self)@.silk_setup(mode, frame_size as int, now),
            final(self)@ == old(self)@.silk_ready(),
    {
        let khz: i32 = silk_internal_khz(mode, self.bandwidth, self.sampling_rate);
        let rebuild_resamplers: bool = !self.silk_initialized || now.khz != khz || now.channels
            != self.channels;
        let prefill: bool = self.silk_prefill_pending && self.channels == 1 && now.tail_len == (
        self.sampling_rate / 100) as usize;
        let ghost rate = self@.rate;
        assert(frame_size * 1000 / rate <= 60) by (nonlinear_arith)
            requires
                frame_size * 50 <= 3 * rate,
                rate > 0,
        ;
        let setup = SilkSetup {
            khz,
            frame_ms: frame_size as i32 * 1000 / self.sampling_rate,
            add_channel: self.channels > now.channels,
            rebuild_resamplers,
            prefill,
        };
        self.silk_initialized = true;
        self.silk_prefill_pending = false;
        setup
    }

    /// The gain steps of the redundant copy, where the packet carries one.
    pub fn redundancy_gain(&self, in_previous_packet: bool) -> (gain: Option<i32>)
        requires
            self@.settings.in_range(self@.channels),
        ensures
            gain is Some <==> self@.memory.lbrr_coded,
            gain matches Some(g) ==> g == lbrr_gain(
                in_previous_packet,
                self@.settings.packet_loss_perc as int,
            ),
    {
        if self.lbrr_coded {
            Some(lbrr_gain_increases(in_previous_packet, self.packet_loss_perc))
        } else {
            None
        }
    }

    /// What the speech layer's budget for a frame depends on.
    pub fn silk_frame(&self, mode: OpusMode, frame_size: usize) -> (f: SilkFrame)
        ensures
            f == self@.silk_frame(mode, frame_size),
    {
        SilkFrame {
            mode,
            bandwidth: self.bandwidth,
            bitrate_bps: self.bitrate_bps,
            cbr: self.rate_control.is_cbr(),
            fec: self.lbrr_coded,
            channels: self.channels,
            rate: self.sampling_rate,
            frame_size,
        }
    }

    /// Close a frame that was coded: write its packet out, and remember its mode
    /// and the coder's final state.
    pub fn finish_frame(
        &mut self,
        output: &mut [u8],
        toc: u8,
        mode: OpusMode,
        budget: FrameBudget,
        coded: &CodedFrame,
    ) -> (n: usize)
        requires
            toc % 4 == 0,
            1 <= budget.frame_bytes <= budget.n_bytes,
            budget.frame_bytes <= MAX_ONE_FRAME_PACKET,
            1 <= old(output)@.len(),
            coded.storage <= coded.bytes@.len(),
            coded.bytes@.len() <= usize::MAX - 2,
            budget.frame_bytes - 1 <= coded.bytes@.len(),
            coded.bits <= 0x7fff_ffff,
        ensures
            final(self)@ == old(self)@.frame_closed(mode, coded.range),
            ({
                let cbr = old(self)@.settings.rate_control == RateControl::Cbr;
                let len = payload_size(
                    coded.bytes@,
                    coded.storage as int,
                    coded.bits as int,
                    mode,
                    cbr,
                    budget.frame_bytes as int,
                );
                let room = old(output)@.len() as int;
                let packet = frame_packet(
                    toc,
                    coded.bytes@.subrange(0, len),
                    cbr,
                    budget,
                    room,
                );
                &&& n == packet.len()
                &&& n <= room
                &&& final(output)@ == packet + old(output)@.subrange(n as int, room)
            }),
    {
        self.range_final = coded.range;
        self.prev_enc_mode = Some(mode);
        let cbr: bool = self.rate_control.is_cbr();
        let len: usize = payload_len(coded, mode, cbr, budget.frame_bytes);
        let target_total: usize = if cbr {
            budget.n_bytes
        } else {
            len + 1
        };
        emit_one_frame_packet(output, toc, &coded.bytes[0..len], target_total)
    }
}

} // verus!
