//! Packets of more than one frame: how the bytes are divided between the
//! frames, and how the frames are put together.

use vstd::prelude::*;

use crate::config::{Bandwidth, OpusMode, RateControl};
use crate::encoder::control::{EncoderModel, Memory, OpusEncoder, MAX_PACKET_BYTES};
use crate::encoder::duration::{max_header_bytes, opus_rate, worst_header, PacketLayout};
use crate::encoder::emit::{law_one_frame_round_trip, one_frame_packet, put};
use crate::encoder::frame::{frame_bits, target_bits};
use crate::error::Error;
use crate::framing::{packable, parse_packet, size_sum, PacketFrames, MAX_FRAME_BYTES, MAX_SAMPLES};
use crate::math::{greatest, least, max_usize, min_usize};
use crate::repacketizer::{
    add_packet, equally_long, law_packet_round_trip, length_fields, lengths_of, lemma_joined_len,
    padded_packet, shortest_packet, GatheredFrames, Repacketizer,
};
use crate::toc::{config_number, config_samples, gen_toc, toc_config, toc_expressible};

verus! {

/// The bytes of a packet of several frames.
#[derive(Debug, Clone, Copy, PartialEq, Eq, Structural)]
pub struct SplitBudget {
    /// How many frames share the packet.
    pub nb_frames: usize,
    /// The bytes that the packet may take, or has to at a fixed rate.
    pub repacketize_len: usize,
    /// The bytes that the frames may take between them. Each coded frame carries
    /// a TOC byte that the packet does without, so this may be more than the
    /// packet holds; the framing is charged up front at its worst case.
    pub max_len_sum: usize,
    /// One frame's share of the bitrate.
    pub per_frame: usize,
    /// Whether the packet has to be padded.
    pub pad: bool,
}

/// The bytes that a packet of several frames may take. At a fixed rate they are
/// the target's, but for a target beyond the largest packet there is.
pub open spec fn whole_len(bitrate: int, samples: int, rate: int, cbr: bool, room: int) -> int {
    if cbr {
        least(
            least((target_bits(bitrate, samples, rate) + 4) / 8, MAX_PACKET_BYTES as int),
            room,
        )
    } else {
        room
    }
}

impl SplitBudget {
    /// Whether the numbers fit together.
    pub open spec fn wf(self) -> bool {
        &&& 1 <= self.nb_frames <= 6
        &&& 2 <= self.repacketize_len
        &&& self.max_len_sum == greatest(
            self.repacketize_len + self.nb_frames - worst_header(self.nb_frames as int),
            0,
        )
    }

    /// Whether there is not enough of a packet to seat every frame: a frame is a
    /// TOC byte plus the two that a range coder needs to say anything at all.
    pub open spec fn starved(self) -> bool {
        self.max_len_sum < 3 * self.nb_frames
    }

    /// The bytes that the next frame may take once `used` are taken: no more
    /// than its share of the bitrate or of the packet, but raised to what a
    /// frame needs, and never more than what is left.
    pub open spec fn room_after(self, used: int) -> int {
        least(
            greatest(
                least(self.per_frame as int, self.max_len_sum as int / self.nb_frames as int),
                3,
            ),
            self.max_len_sum - used,
        )
    }

    /// Whether there is not enough of a packet to seat every frame.
    pub fn is_starved(&self) -> (yes: bool)
        requires
            self.wf(),
        ensures
            yes == self.starved(),
    {
        self.max_len_sum < 3 * self.nb_frames
    }

    /// The bytes that the next frame may take once `used` are taken.
    pub fn next_room(&self, used: usize) -> (room: usize)
        requires
            self.wf(),
            used <= self.max_len_sum,
        ensures
            room == self.room_after(used as int),
    {
        min_usize(
            max_usize(min_usize(self.per_frame, self.max_len_sum / self.nb_frames), 3),
            self.max_len_sum - used,
        )
    }
}

/// The packet of some frames: padded to a size where that is asked for.
pub open spec fn assembled(m: GatheredFrames, nb_frames: int, pad_to: Option<usize>) -> Result<
    Seq<u8>,
    Error,
> {
    let frames = m.frames.subrange(0, nb_frames);
    let shortest = shortest_packet(m.toc, frames, false);
    if nb_frames <= 0 || nb_frames > m.frames.len() {
        Err(Error::InvalidArgument("no such range of frames"))
    } else {
        match pad_to {
            None => Ok(shortest),
            Some(total) => if shortest.len() > total {
                Err(Error::BufferTooSmall { needed: shortest.len() as usize, provided: total })
            } else {
                Ok(padded_packet(m.toc, frames, false, total as int))
            },
        }
    }
}

/// Assemble the held frames into `output`.
pub fn emit(rp: Repacketizer, nb_frames: usize, pad_to: Option<usize>, output: &mut [u8]) -> (r:
    Result<usize, Error>)
    requires
        rp.wf(),
    ensures
        match assembled(rp@, nb_frames as int, pad_to) {
            Ok(packet) => if packet.len() > old(output)@.len() {
                &&& r matches Err(Error::BufferTooSmall { needed, provided }) && needed
                    == packet.len() && provided == old(output)@.len()
                &&& final(output)@ == old(output)@
            } else {
                &&& r matches Ok(n) && n == packet.len()
                &&& final(output)@ == packet + old(output)@.subrange(
                    packet.len() as int,
                    old(output)@.len() as int,
                )
            },
            Err(e) => {
                &&& r == Err::<usize, Error>(e)
                &&& final(output)@ == old(output)@
            },
        },
{
    let packet: Vec<u8> = match rp.out_range_impl(0, nb_frames, pad_to) {
        Ok(packet) => packet,
        Err(e) => return Err(e),
    };
    if packet.len() > output.len() {
        return Err(Error::buffer_too_small(packet.len(), output.len()));
    }
    put(output, 0, &packet);
    assert(output@ =~= packet@ + old(output)@.subrange(
        packet@.len() as int,
        old(output)@.len() as int,
    ));
    Ok(packet.len())
}

/// A packet of several frames in the making.
#[derive(Debug)]
pub struct SplitPacket {
    rp: Repacketizer,
    budget: SplitBudget,
    coded: usize,
    used: usize,
    dropped: usize,
}

/// What a [`SplitPacket`] holds.
#[verifier::ext_equal]
pub struct SplitModel {
    /// The bytes there are to divide.
    pub budget: SplitBudget,
    /// The frames that are coded.
    pub frames: GatheredFrames,
    /// How many frames are coded.
    pub coded: int,
    /// The bytes that they took, with a TOC byte each.
    pub used: int,
    /// How many of them are a TOC byte alone.
    pub dropped: int,
}

impl View for SplitPacket {
    type V = SplitModel;

    closed spec fn view(&self) -> SplitModel {
        SplitModel {
            budget: self.budget,
            frames: self.rp@,
            coded: self.coded as int,
            used: self.used as int,
            dropped: self.dropped as int,
        }
    }
}

impl SplitModel {
    /// Whether the counts fit together.
    pub open spec fn wf(self) -> bool {
        &&& self.budget.wf()
        &&& self.frames.wf()
        &&& 0 <= self.dropped <= self.coded <= self.budget.nb_frames
        &&& 0 <= self.used <= self.budget.max_len_sum
    }

    /// The bytes that the next frame may take.
    pub open spec fn room(self) -> int {
        self.budget.room_after(self.used)
    }

    /// With one more coded frame.
    pub open spec fn with(self, packet: Seq<u8>) -> SplitModel {
        SplitModel {
            frames: add_packet(self.frames, packet).1,
            coded: self.coded + 1,
            used: self.used + packet.len(),
            dropped: self.dropped + (if packet.len() == 1 {
                1int
            } else {
                0
            }),
            ..self
        }
    }

    /// The size that the packet is padded to. A fixed rate owes the caller an
    /// exact packet, unless every frame was dropped: padding a packet that says
    /// nothing was sent would put the bytes back that dropping it saves.
    pub open spec fn pad_to(self) -> Option<usize> {
        if self.budget.pad && self.dropped != self.budget.nb_frames {
            Some(self.budget.repacketize_len)
        } else {
            None
        }
    }
}

impl SplitPacket {
    /// Whether the counts fit together.
    pub open spec fn wf(&self) -> bool {
        self@.wf()
    }

    /// A packet without frames.
    pub fn new(budget: SplitBudget) -> (p: Self)
        requires
            budget.wf(),
        ensures
            p.wf(),
            p@.budget == budget,
            p@.frames.frames.len() == 0,
            p@.coded == 0,
            p@.used == 0,
            p@.dropped == 0,
    {
        SplitPacket { rp: Repacketizer::new(), budget, coded: 0, used: 0, dropped: 0 }
    }

    /// The bytes that the next frame may take.
    pub fn room(&self) -> (n: usize)
        requires
            self.wf(),
        ensures
            n == self@.room(),
    {
        self.budget.next_room(self.used)
    }

    /// Whether every frame is there.
    pub fn is_complete(&self) -> (yes: bool)
        requires
            self.wf(),
        ensures
            yes == (self@.coded == self@.budget.nb_frames),
    {
        self.coded == self.budget.nb_frames
    }

    /// Take a frame's packet in. One that does not fit with the others is an
    /// error, and leaves them as they were.
    pub fn add_frame(&mut self, packet: &[u8]) -> (r: Result<(), Error>)
        requires
            old(self).wf(),
            old(self)@.coded < old(self)@.budget.nb_frames,
            packet@.len() <= old(self)@.room(),
        ensures
            final(self).wf(),
            r == add_packet(old(self)@.frames, packet@).0,
            final(self)@ == (if r is Ok {
                old(self)@.with(packet@)
            } else {
                old(self)@
            }),
    {
        match self.rp.cat(packet) {
            Ok(()) => {},
            Err(e) => return Err(e),
        }
        if packet.len() == 1 {
            self.dropped = self.dropped + 1;
        }
        self.coded = self.coded + 1;
        self.used = self.used + packet.len();
        Ok(())
    }

    /// Put the frames together in `output`, and say how many bytes they took.
    pub fn finish(self, output: &mut [u8]) -> (r: Result<usize, Error>)
        requires
            self.wf(),
        ensures
            match assembled(self@.frames, self@.budget.nb_frames as int, self@.pad_to()) {
                Ok(packet) => if packet.len() > old(output)@.len() {
                    &&& r matches Err(Error::BufferTooSmall { needed, provided }) && needed
                        == packet.len() && provided == old(output)@.len()
                    &&& final(output)@ == old(output)@
                } else {
                    &&& r matches Ok(n) && n == packet.len()
                    &&& final(output)@ == packet + old(output)@.subrange(
                        packet.len() as int,
                        old(output)@.len() as int,
                    )
                },
                Err(e) => {
                    &&& r == Err::<usize, Error>(e)
                    &&& final(output)@ == old(output)@
                },
            },
    {
        let pad_to: Option<usize> = if self.budget.pad && self.dropped != self.budget.nb_frames {
            Some(self.budget.repacketize_len)
        } else {
            None
        };
        emit(self.rp, self.budget.nb_frames, pad_to, output)
    }
}

/// `n` frames without payload.
pub open spec fn empty_frames(n: int) -> Seq<Seq<u8>> {
    Seq::new(n as nat, |i: int| Seq::<u8>::empty())
}

impl EncoderModel {
    /// The bytes of a packet of several frames.
    pub open spec fn split(self, layout: PacketLayout, room: int) -> SplitBudget {
        let nb = layout.nb_frames as int;
        let cbr = self.settings.rate_control == RateControl::Cbr;
        let len = whole_len(
            self.settings.bitrate_bps as int,
            (layout.enc_frame_size * nb) as int,
            self.rate,
            cbr,
            room,
        );
        SplitBudget {
            nb_frames: layout.nb_frames,
            repacketize_len: len as usize,
            max_len_sum: greatest(nb + len - worst_header(nb), 0) as usize,
            per_frame: (target_bits(
                self.settings.bitrate_bps as int,
                layout.enc_frame_size as int,
                self.rate,
            ) / 8) as usize,
            pad: cbr,
        }
    }

    /// The packet that announces its duration and holds nothing, for the decoder
    /// to conceal.
    pub open spec fn starved_packet(
        self,
        mode: OpusMode,
        layout: PacketLayout,
        budget: SplitBudget,
    ) -> Seq<u8> {
        let toc = (8 * config_number(mode, layout.frame_rate as int, self.memory.bandwidth) + (
        if self.channels == 2 {
            4int
        } else {
            0
        })) as u8;
        let frames = empty_frames(layout.nb_frames as int);
        if budget.pad {
            padded_packet(toc, frames, false, budget.repacketize_len as int)
        } else {
            shortest_packet(toc, frames, false)
        }
    }
}

/// The frames of a layout fit in a packet.
pub proof fn lemma_layout_packs(layout: PacketLayout, rate: int, mode: OpusMode, bandwidth: Bandwidth)
    requires
        opus_rate(rate),
        layout.wf(rate),
        toc_expressible(mode, layout.frame_rate as int, bandwidth),
    ensures
        0 < layout.enc_frame_size,
        layout.enc_frame_size * 50 <= rate * 3,
        0 <= config_number(mode, layout.frame_rate as int, bandwidth) < 32,
        layout.nb_frames * config_samples(
            config_number(mode, layout.frame_rate as int, bandwidth),
        ) <= MAX_SAMPLES,
{
    let size = layout.enc_frame_size as int;
    let nb = layout.nb_frames as int;
    let samples = config_samples(config_number(mode, layout.frame_rate as int, bandwidth));
    assert(size * 48_000 == samples * rate);
    assert(size * nb <= rate * 1200 / 10_000);
    assert(nb == 1 || nb == 2 || nb == 3 || nb == 4 || nb == 5 || nb == 6);
}

impl OpusEncoder {
    /// The bytes of a packet of several frames in a buffer of `room`.
    ///
    /// At a fixed rate the packet owes the caller an exact size, so the frame
    /// budget is carved out of that, up to the largest packet there is; otherwise the only ceiling is the caller's
    /// buffer. A buffer too small for every frame is no error: the packet is then
    /// starved, and announces its duration alone.
    pub fn begin_split(&self, layout: PacketLayout, room: usize) -> (b: SplitBudget)
        requires
            self.wf(),
            self@.settings.in_range(self@.channels),
            layout.wf(self@.rate),
            2 <= layout.nb_frames,
            2 <= room,
        ensures
            b == self@.split(layout, room as int),
            b.wf(),
            b.repacketize_len <= room,
    {
        let ghost nb = layout.nb_frames as int;
        let ghost size = layout.enc_frame_size as int;
        let ghost rate = self@.rate;
        assert(size <= size * nb) by (nonlinear_arith)
            requires
                nb >= 1,
                size >= 0,
        ;
        let samples: usize = layout.enc_frame_size * layout.nb_frames;
        let bits: i64 = frame_bits(self.bitrate_bps, samples, self.sampling_rate);
        let len: usize = if self.rate_control.is_cbr() {
            proof {
                lemma_fixed_size(self.bitrate_bps as int, samples as int, rate);
            }
            min_usize(min_usize(((bits + 4) / 8) as usize, MAX_PACKET_BYTES), room)
        } else {
            room
        };
        let header: usize = max_header_bytes(layout.nb_frames);
        let framing: usize = header - layout.nb_frames;
        let max_len_sum: usize = if len > framing {
            len - framing
        } else {
            0
        };
        let each: i64 = frame_bits(self.bitrate_bps, layout.enc_frame_size, self.sampling_rate);
        SplitBudget {
            nb_frames: layout.nb_frames,
            repacketize_len: len,
            max_len_sum,
            per_frame: (each / 8) as usize,
            pad: self.rate_control.is_cbr(),
        }
    }
}

/// At the lowest rate there is, a packet of 40 ms or more is two bytes or more.
proof fn lemma_fixed_size(bitrate: int, samples: int, rate: int)
    requires
        500 <= bitrate,
        0 < rate,
        rate <= 25 * samples,
    ensures
        (target_bits(bitrate, samples, rate) + 4) / 8 >= 2,
{
    assert(bitrate * samples / rate >= 20) by (nonlinear_arith)
        requires
            500 <= bitrate,
            0 < rate <= 25 * samples,
    ;
}

/// A TOC byte alone is a packet with one empty frame.
proof fn lemma_bare_toc(toc: u8)
    requires
        toc % 4 == 0,
    ensures
        parse_packet(seq![toc], false) == Some(
            PacketFrames { toc, frames: empty_frames(1), consumed: 1 },
        ),
{
    let none = Seq::<u8>::empty();
    law_one_frame_round_trip(toc, none, 1);
    assert(one_frame_packet(toc, none, 1) =~= seq![toc]);
    assert(seq![none] =~= empty_frames(1));
}

/// Length fields take at most two bytes a frame.
proof fn lemma_fields_len(frames: Seq<Seq<u8>>, n: int)
    requires
        0 <= n <= frames.len(),
    ensures
        length_fields(frames, n).len() <= 2 * n,
    decreases n,
{
    if n > 0 {
        lemma_fields_len(frames, n - 1);
    }
}

/// The framing of a packet costs no more than its worst case.
proof fn lemma_shortest_len(toc: u8, frames: Seq<Seq<u8>>)
    requires
        1 <= frames.len(),
    ensures
        shortest_packet(toc, frames, false).len() <= worst_header(frames.len() as int)
            + size_sum(lengths_of(frames), frames.len() as int),
{
    let n = frames.len() as int;
    lemma_joined_len(frames, n);
    lemma_fields_len(frames, n - 1);
}

/// Empty frames add up to nothing.
proof fn lemma_empty_sum(n: int, k: int)
    requires
        0 <= k <= n,
    ensures
        size_sum(lengths_of(empty_frames(n)), k) == 0,
    decreases k,
{
    if k > 0 {
        lemma_empty_sum(n, k - 1);
    }
}

/// The shortest packet of empty frames is one or two bytes.
proof fn lemma_empty_packet(toc: u8, n: int)
    requires
        1 <= n <= 6,
    ensures
        shortest_packet(toc, empty_frames(n), false).len() == (if n <= 2 {
            1int
        } else {
            2
        }),
{
    let frames = empty_frames(n);
    lemma_empty_sum(n, n);
    lemma_joined_len(frames, n);
    assert(equally_long(frames));
}

impl OpusEncoder {
    /// Write a packet that has not enough room to seat every frame: the framing
    /// and no payload, so that it still announces its duration and the decoder
    /// conceals it. Coding some frames and starving the rest would desync the
    /// stream instead.
    pub fn emit_starved(
        &mut self,
        mode: OpusMode,
        layout: PacketLayout,
        budget: SplitBudget,
        output: &mut [u8],
    ) -> (r: Result<usize, Error>)
        requires
            old(self).wf(),
            layout.wf(old(self)@.rate),
            toc_expressible(mode, layout.frame_rate as int, old(self)@.memory.bandwidth),
            budget.wf(),
            budget.nb_frames == layout.nb_frames,
            budget.repacketize_len <= old(output)@.len(),
        ensures
            final(self).wf(),
            final(self)@ == (EncoderModel {
                memory: Memory {
                    range_final: 0,
                    prev_enc_mode: Some(mode),
                    ..old(self)@.memory
                },
                ..old(self)@
            }),
            ({
                let packet = old(self)@.starved_packet(mode, layout, budget);
                &&& r matches Ok(n) && n == packet.len()
                &&& packet.len() <= budget.repacketize_len
                &&& final(output)@ == packet + old(output)@.subrange(
                    packet.len() as int,
                    old(output)@.len() as int,
                )
            }),
    {
        proof {
            lemma_layout_packs(layout, self@.rate, mode, self@.memory.bandwidth);
        }
        let toc: u8 = gen_toc(mode, layout.frame_rate, self.bandwidth, self.channels);
        let ghost each = config_samples(toc_config(toc));
        let mut rp = Repacketizer::new();
        let mut i: usize = 0;
        while i < layout.nb_frames
            invariant
                i <= layout.nb_frames,
                rp.wf(),
                toc % 4 == 0,
                each == config_samples(toc_config(toc)),
                0 <= each,
                layout.nb_frames * each <= MAX_SAMPLES,
                rp@.frames == empty_frames(i as int),
                i > 0 ==> rp@.toc == toc,
            decreases layout.nb_frames - i,
        {
            proof {
                lemma_bare_toc(toc);
                assert((i + 1) * each <= layout.nb_frames * each) by (nonlinear_arith)
                    requires
                        i + 1 <= layout.nb_frames,
                        0 <= each,
                ;
                assert(empty_frames(i as int) + empty_frames(1) =~= empty_frames(i + 1));
            }
            let bare: [u8; 1] = [toc];
            assert(bare@ =~= seq![toc]);
            rp.cat(&bare)?;
            i = i + 1;
        }
        proof {
            let frames = empty_frames(layout.nb_frames as int);
            assert(rp@.frames.subrange(0, layout.nb_frames as int) =~= frames);
            lemma_empty_packet(toc, layout.nb_frames as int);
            law_packet_round_trip(toc, frames, false, budget.repacketize_len as int, Seq::empty());
        }
        self.range_final = 0;
        self.prev_enc_mode = Some(mode);
        let pad_to: Option<usize> = if budget.pad {
            Some(budget.repacketize_len)
        } else {
            None
        };
        emit(rp, layout.nb_frames, pad_to, output)
    }
}

/// The bytes that the first `n` frames take as packets of their own.
pub open spec fn used_by(totals: Seq<int>, n: int) -> int
    decreases n,
{
    if n <= 0 {
        0
    } else {
        used_by(totals, n - 1) + totals[n - 1]
    }
}

/// Whether frames were coded within the room that each was given.
pub open spec fn within_rooms(b: SplitBudget, frames: Seq<Seq<u8>>, totals: Seq<int>) -> bool {
    &&& frames.len() == b.nb_frames
    &&& totals.len() == b.nb_frames
    &&& forall|i: int|
        0 <= i < b.nb_frames ==> (#[trigger] frames[i]).len() + 1 <= totals[i] <= b.room_after(
            used_by(totals, i),
        )
}

/// No frame takes more than an equal part of the packet.
proof fn lemma_rooms(b: SplitBudget, frames: Seq<Seq<u8>>, totals: Seq<int>, n: int)
    requires
        b.wf(),
        !b.starved(),
        within_rooms(b, frames, totals),
        0 <= n <= b.nb_frames,
    ensures
        used_by(totals, n) <= n * (b.max_len_sum as int / b.nb_frames as int),
        size_sum(lengths_of(frames), n) + n <= used_by(totals, n) <= b.max_len_sum,
        n < b.nb_frames ==> b.max_len_sum - used_by(totals, n) >= b.max_len_sum as int
            / b.nb_frames as int,
        b.max_len_sum as int / b.nb_frames as int >= 3,
    decreases n,
{
    let nb = b.nb_frames as int;
    let sum = b.max_len_sum as int;
    let part = sum / nb;
    assert(part >= 3) by (nonlinear_arith)
        requires
            part == sum / nb,
            sum >= 3 * nb,
            nb > 0,
    ;
    assert(part * nb <= sum) by (nonlinear_arith)
        requires
            part == sum / nb,
            nb > 0,
            sum >= 0,
    ;
    if n > 0 {
        lemma_rooms(b, frames, totals, n - 1);
        let i = n - 1;
        assert(frames[i].len() + 1 <= totals[i]);
        assert(totals[i] <= b.room_after(used_by(totals, i)));
        assert(totals[n - 1] <= part);
        assert((n - 1) * part + part == n * part) by (nonlinear_arith);
    } else {
        assert(used_by(totals, 0) == 0);
        assert(0 * part == 0);
    }
    assert(n < nb ==> sum - n * part >= part) by (nonlinear_arith)
        requires
            part * nb <= sum,
            part >= 3,
            n >= 0,
    ;
    assert(n * part <= sum) by (nonlinear_arith)
        requires
            part * nb <= sum,
            part >= 3,
            n <= nb,
    ;
}

/// Where a packet is not starved, every one of its frames has room to say
/// something, whatever the frames before it took.
pub proof fn law_every_frame_has_room(b: SplitBudget, frames: Seq<Seq<u8>>, totals: Seq<int>, n: int)
    requires
        b.wf(),
        !b.starved(),
        within_rooms(b, frames, totals),
        0 <= n < b.nb_frames,
    ensures
        3 <= b.room_after(used_by(totals, n)) <= greatest(b.per_frame as int, 3),
{
    lemma_rooms(b, frames, totals, n);
}

/// Frames that were coded within their rooms fit the packet, padded or not, and
/// come out of it as they went in: putting a packet together never runs out of
/// the caller's buffer.
pub proof fn law_split_packet_fits(
    b: SplitBudget,
    toc: u8,
    frames: Seq<Seq<u8>>,
    totals: Seq<int>,
)
    requires
        b.wf(),
        !b.starved(),
        packable(toc, frames),
        within_rooms(b, frames, totals),
    ensures
        shortest_packet(toc, frames, false).len() <= b.repacketize_len,
        padded_packet(toc, frames, false, b.repacketize_len as int).len() == b.repacketize_len,
        parse_packet(shortest_packet(toc, frames, false), false) matches Some(p) && p.toc == toc
            && p.frames == frames,
        parse_packet(
            padded_packet(toc, frames, false, b.repacketize_len as int),
            false,
        ) matches Some(p) && p.toc == toc && p.frames == frames,
{
    let none = Seq::<u8>::empty();
    lemma_shortest_len(toc, frames);
    lemma_rooms(b, frames, totals, b.nb_frames as int);
    law_packet_round_trip(toc, frames, false, 0, none);
    law_packet_round_trip(toc, frames, false, b.repacketize_len as int, none);
    let shortest = padded_packet(toc, frames, false, 0);
    let padded = padded_packet(toc, frames, false, b.repacketize_len as int);
    assert(shortest + none =~= shortest);
    assert(padded + none =~= padded);
}

/// The bytes of frames that each have their most.
proof fn lemma_most_bytes(frames: Seq<Seq<u8>>, n: int)
    requires
        0 <= n <= frames.len(),
        forall|i: int| 0 <= i < frames.len() ==> (#[trigger] frames[i]).len() <= MAX_FRAME_BYTES,
    ensures
        size_sum(lengths_of(frames), n) <= n * MAX_FRAME_BYTES,
    decreases n,
{
    if n > 0 {
        lemma_most_bytes(frames, n - 1);
        assert(frames[n - 1].len() <= MAX_FRAME_BYTES);
    }
}

/// Fewer frames can share a packet where more can.
proof fn lemma_fewer_frames(toc: u8, frames: Seq<Seq<u8>>, n: int)
    requires
        packable(toc, frames),
        1 <= n <= frames.len(),
    ensures
        packable(toc, frames.subrange(0, n)),
{
    let each = config_samples(toc_config(toc));
    assert(0 <= each);
    assert(n * each <= frames.len() * each) by (nonlinear_arith)
        requires
            0 <= each,
            n <= frames.len(),
    ;
    assert forall|i: int| 0 <= i < n implies (#[trigger] frames.subrange(0, n)[i]).len()
        <= MAX_FRAME_BYTES by {
        assert(frames.subrange(0, n)[i] == frames[i]);
    }
}

/// Up to six frames, padded to no more than the largest packet, are a packet that
/// is no longer than that.
proof fn lemma_packet_len(toc: u8, frames: Seq<Seq<u8>>, total: int)
    requires
        packable(toc, frames),
        frames.len() <= 6,
        total <= MAX_PACKET_BYTES,
    ensures
        shortest_packet(toc, frames, false).len() <= MAX_PACKET_BYTES,
        padded_packet(toc, frames, false, total).len() <= MAX_PACKET_BYTES,
{
    lemma_shortest_len(toc, frames);
    lemma_most_bytes(frames, frames.len() as int);
    law_packet_round_trip(toc, frames, false, total, Seq::empty());
}

/// No packet of several frames is longer than the largest there is, however it
/// is set up, whatever its frames hold and however large the buffer: an output
/// buffer of that size never costs bitrate.
pub proof fn law_no_packet_is_longer(
    e: EncoderModel,
    mode: OpusMode,
    layout: PacketLayout,
    room: int,
    m: SplitModel,
)
    requires
        opus_rate(e.rate),
        layout.wf(e.rate),
        toc_expressible(mode, layout.frame_rate as int, e.memory.bandwidth),
        0 <= room <= usize::MAX,
        m.wf(),
        m.budget == e.split(layout, room),
    ensures
        assembled(m.frames, m.budget.nb_frames as int, m.pad_to()) matches Ok(packet)
            ==> packet.len() <= MAX_PACKET_BYTES,
        e.starved_packet(mode, layout, m.budget).len() <= MAX_PACKET_BYTES,
{
    let b = m.budget;
    let n = b.nb_frames as int;
    if b.pad {
        assert(b.repacketize_len <= MAX_PACKET_BYTES);
    }
    if 1 <= n <= m.frames.frames.len() {
        lemma_fewer_frames(m.frames.toc, m.frames.frames, n);
        lemma_packet_len(
            m.frames.toc,
            m.frames.frames.subrange(0, n),
            if b.pad {
                b.repacketize_len as int
            } else {
                0
            },
        );
    }
    lemma_layout_packs(layout, e.rate, mode, e.memory.bandwidth);
    let config = config_number(mode, layout.frame_rate as int, e.memory.bandwidth);
    let toc = (8 * config + (if e.channels == 2 {
        4int
    } else {
        0
    })) as u8;
    assert(toc_config(toc) == config);
    assert(packable(toc, empty_frames(layout.nb_frames as int)));
    lemma_packet_len(
        toc,
        empty_frames(layout.nb_frames as int),
        if b.pad {
            b.repacketize_len as int
        } else {
            0
        },
    );
}

} // verus!
