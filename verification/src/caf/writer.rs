//! Core Audio Format muxer.

use vstd::prelude::*;

use crate::bytes::{be_bytes, lemma_be_bytes_len, push_all, push_be, unsigned64};
use crate::caf::chunk::{
    chunk_header_bytes, desc_bytes, pakt_header_bytes, varint_bytes, write_chunk_header,
    write_varint, Desc, PaktHeader, CHUNK_HEADER_LEN, DATA_EDIT_COUNT_LEN,
    DESC_FRAMES_PER_PACKET_OFFSET, DESC_LEN, FILE_HEADER_LEN, LAYOUT_TAG_MONO, LAYOUT_TAG_STEREO,
    MAGIC, SIZE_TO_END, VERSION,
};
use crate::caf::chunk_type;
use crate::caf::laws::law_desc_round_trip;
use crate::caf::reader::RATE_48000_BITS;
use crate::error::{Error, IoError};
use crate::io::{Cursor, CursorModel};
use crate::ogg::header::{HeadModel, OpusHead, VENDOR};
use crate::packet::{packet_samples, samples_48k};

verus! {

/// The `info` chunk's key for the encoder's name, `encoder` and a zero.
pub const ENCODER_KEY: [u8; 8] = [0x65, 0x6e, 0x63, 0x6f, 0x64, 0x65, 0x72, 0x00];

/// The length of an `info` body: the count of entries, the key, this crate's
/// name and a zero.
pub const INFO_LEN: usize = 28;

/// The length of a `chan` body.
pub const CHAN_LEN: usize = 12;

/// Length of everything ahead of the packets.
pub const PREFIX_LEN: usize = 132;

/// The longest a packet may be stated to be, in 48 kHz samples: 120 ms.
pub const MAX_STATED_SAMPLES: u32 = 5760;

/// The frame count of a file with no packets: the conventional 20 ms.
pub const EMPTY_FILE_FRAMES: u32 = 960;

/// The layout tag of a channel count.
pub open spec fn layout_tag(channels: u8) -> nat {
    if channels == 1 {
        LAYOUT_TAG_MONO as nat
    } else {
        LAYOUT_TAG_STEREO as nat
    }
}

/// A file's bytes up to the `data` chunk: the header, the stream's format with
/// that many frames in every packet, the channel layout, and this crate's name.
pub open spec fn leading_chunks(channels: u8, frames_per_packet: u32) -> Seq<u8> {
    MAGIC@ + be_bytes(VERSION as nat, 2) + be_bytes(0, 2) + chunk_header_bytes(
        chunk_type::DESC@,
        DESC_LEN as int,
    ) + desc_bytes(
        Desc {
            sample_rate_bits: RATE_48000_BITS,
            bytes_per_packet: 0,
            frames_per_packet,
            channels: channels as u32,
        },
    ) + chunk_header_bytes(chunk_type::CHAN@, CHAN_LEN as int) + be_bytes(layout_tag(channels), 4)
        + be_bytes(0, 4) + be_bytes(0, 4) + chunk_header_bytes(chunk_type::INFO@, INFO_LEN as int)
        + be_bytes(1, 4) + ENCODER_KEY@ + VENDOR@ + seq![0u8]
}

/// A `data` chunk's header, with that body size, and its edit count.
pub open spec fn data_opening(size: int) -> Seq<u8> {
    chunk_header_bytes(chunk_type::DATA@, size) + be_bytes(0, 4)
}

/// A file being written.
#[verifier::ext_equal]
pub struct CafWriterModel {
    /// The sink, positioned after the last packet.
    pub sink: CursorModel,
    /// The header's pre-skip, which becomes the table's priming frames.
    pub pre_skip: int,
    /// Where `desc` states the frames per packet.
    pub frames_per_packet_pos: int,
    /// Where `data` states its size.
    pub data_size_pos: int,
    /// Every packet's size in bytes and duration in 48 kHz samples.
    pub packets: Seq<(u64, u32)>,
    /// Bytes of packets written so far.
    pub data_bytes: int,
    /// The sum of the stated durations.
    pub granule: int,
    /// What the packets written so far actually decode to, at 48 kHz.
    pub decoded: int,
    /// Whether the table has been written.
    pub finished: bool,
}

/// The writer that starts a file, or why it cannot be started. Writing starts
/// at the sink's position.
pub open spec fn start_caf(sink: CursorModel, head: HeadModel) -> Result<CafWriterModel, Error> {
    if head.channel_count != 1 && head.channel_count != 2 {
        Err(
            Error::InvalidArgument(
                "caf Opus is mono or stereo; a surround stream cannot be written",
            ),
        )
    } else if head.output_gain_q8 != 0 {
        Err(
            Error::InvalidArgument(
                "caf has nowhere to carry an output gain; apply it or zero it first",
            ),
        )
    } else if sink.position + PREFIX_LEN > usize::MAX {
        Err(Error::Io(IoError::TooLarge))
    } else {
        Ok(
            CafWriterModel {
                sink: sink.after_write(
                    leading_chunks(head.channel_count, 0) + data_opening(SIZE_TO_END as int),
                ),
                pre_skip: head.pre_skip as int,
                frames_per_packet_pos: sink.position + (FILE_HEADER_LEN + CHUNK_HEADER_LEN
                    + DESC_FRAMES_PER_PACKET_OFFSET),
                data_size_pos: sink.position + (PREFIX_LEN - DATA_EDIT_COUNT_LEN - 8),
                packets: Seq::empty(),
                data_bytes: 0,
                granule: 0,
                decoded: 0,
                finished: false,
            },
        )
    }
}

/// What appending a packet with a stated duration gives, and the writer
/// afterwards. A packet that is refused leaves the writer as it was.
pub open spec fn write_caf(m: CafWriterModel, packet: Seq<u8>, samples_48k: int) -> (
    Result<(), Error>,
    CafWriterModel,
) {
    if m.finished {
        (Err(Error::InvalidArgument("writer has already been finished")), m)
    } else if packet.len() == 0 {
        (Err(Error::InvalidArgument("Opus packets cannot be empty")), m)
    } else if samples_48k > MAX_STATED_SAMPLES {
        (
            Err(
                Error::InvalidArgument(
                    "an Opus packet cannot exceed 120 ms (5760 samples at 48 kHz)",
                ),
            ),
            m,
        )
    } else {
        match packet_samples(packet) {
            Err(e) => (Err(e), m),
            Ok(actual) => if m.sink.position + packet.len() > usize::MAX {
                (Err(Error::Io(IoError::TooLarge)), m)
            } else {
                (
                    Ok(()),
                    CafWriterModel {
                        sink: m.sink.after_write(packet),
                        packets: m.packets.push((packet.len() as u64, actual as u32)),
                        data_bytes: m.data_bytes + packet.len(),
                        granule: m.granule + samples_48k,
                        decoded: m.decoded + actual,
                        ..m
                    },
                )
            },
        }
    }
}

/// Whether all packets have the same duration.
pub open spec fn uniform(packets: Seq<(u64, u32)>) -> bool {
    forall|i: int| 0 <= i < packets.len() ==> (#[trigger] packets[i]).1 == packets[0].1
}

/// One count for all when the packets agree, as Apple's files have it;
/// otherwise zero, and a count per packet in the table. A file with no packets
/// states the conventional 20 ms frame, since Apple's reader wants a non-zero
/// count and there is no packet to take one from.
pub open spec fn shared_frames(packets: Seq<(u64, u32)>) -> u32 {
    if packets.len() == 0 {
        EMPTY_FILE_FRAMES
    } else if uniform(packets) {
        packets[0].1
    } else {
        0
    }
}

/// The table's entries for the first `n` packets: each one's size, and its
/// duration where the packets do not share one.
pub open spec fn table_bytes(packets: Seq<(u64, u32)>, n: int, shared: u32) -> Seq<u8>
    decreases n,
{
    if n <= 0 {
        Seq::empty()
    } else {
        let (size, frames) = packets[n - 1];
        table_bytes(packets, n - 1, shared) + varint_bytes(size as nat) + (if shared == 0 {
            varint_bytes(frames as nat)
        } else {
            Seq::empty()
        })
    }
}

impl CafWriterModel {
    /// The audio: what the stated durations leave after the pre-skip. A stream
    /// stated shorter than its own pre-skip has no audio.
    pub open spec fn valid_frames(self) -> int {
        if self.granule > self.pre_skip {
            self.granule - self.pre_skip
        } else {
            0
        }
    }

    /// The padding: what the packets decode to past the pre-skip and the audio.
    pub open spec fn remainder_frames(self) -> int {
        let left = self.decoded - self.pre_skip - self.valid_frames();
        if left > 0 {
            left
        } else {
            0
        }
    }

    /// The head of the packet table.
    pub open spec fn pakt_header(self) -> PaktHeader {
        PaktHeader {
            packets: self.packets.len() as i64,
            valid_frames: self.valid_frames() as i64,
            priming_frames: self.pre_skip as i32,
            remainder_frames: self.remainder_frames() as i32,
        }
    }

    /// The body of the packet table.
    pub open spec fn pakt_body(self) -> Seq<u8> {
        pakt_header_bytes(self.pakt_header()) + table_bytes(
            self.packets,
            self.packets.len() as int,
            shared_frames(self.packets),
        )
    }

    /// The packet table as a chunk.
    pub open spec fn pakt_chunk(self) -> Seq<u8> {
        chunk_header_bytes(chunk_type::PAKT@, self.pakt_body().len() as i64 as int)
            + self.pakt_body()
    }

    /// Where the packets end, and the table goes.
    pub open spec fn data_end(self) -> int {
        self.data_size_pos + 8 + DATA_EDIT_COUNT_LEN + self.data_bytes
    }

    /// The sink with the two counts patched in and the table written.
    pub open spec fn finished_sink(self) -> CursorModel {
        self.sink.at(self.frames_per_packet_pos as nat).after_write(
            be_bytes(shared_frames(self.packets) as nat, 4),
        ).at(self.data_size_pos as nat).after_write(
            be_bytes(unsigned64(self.data_bytes + DATA_EDIT_COUNT_LEN), 8),
        ).at(self.data_end() as nat).after_write(self.pakt_chunk())
    }

    /// What holds of every writer: the counts are in range.
    pub open spec fn wf(self) -> bool {
        &&& 0 <= self.pre_skip <= u16::MAX
        &&& 0 <= self.frames_per_packet_pos
        &&& self.frames_per_packet_pos + 4 <= self.data_size_pos
        &&& 0 <= self.data_bytes
        &&& 0 <= self.granule <= i64::MAX
        &&& 0 <= self.decoded <= i64::MAX
        &&& self.data_end() <= u64::MAX
        &&& self.data_bytes + DATA_EDIT_COUNT_LEN <= i64::MAX
        &&& self.packets.len() <= self.data_bytes
    }

    /// Whether the counts can take another packet of that many bytes. They
    /// run out after some million years of audio.
    pub open spec fn countable(self, bytes: nat) -> bool {
        &&& self.granule + MAX_STATED_SAMPLES <= i64::MAX
        &&& self.decoded + MAX_STATED_SAMPLES <= i64::MAX
        &&& self.data_end() + bytes <= u64::MAX
        &&& self.data_bytes + DATA_EDIT_COUNT_LEN + bytes <= i64::MAX
    }
}

/// What finishing a file gives, and the writer afterwards. Finishing a second
/// time does nothing.
pub open spec fn finish_caf(m: CafWriterModel) -> (Result<(), Error>, CafWriterModel) {
    if m.finished {
        (Ok(()), m)
    } else {
        let closed = CafWriterModel { finished: true, ..m };
        if m.granule > m.decoded {
            (
                Err(Error::InvalidArgument("stated durations exceed what the packets decode to")),
                closed,
            )
        } else if m.remainder_frames() > i32::MAX {
            (
                Err(Error::InvalidArgument("the end padding does not fit the packet table")),
                closed,
            )
        } else if m.data_end() + m.pakt_chunk().len() > usize::MAX {
            (Err(Error::Io(IoError::TooLarge)), closed)
        } else {
            (Ok(()), CafWriterModel { sink: m.finished_sink(), ..closed })
        }
    }
}

/// Writes Opus packets into a Core Audio Format file, the container Apple's
/// own recorder and player use for Opus.
///
/// The header chunks are written by the constructor and the packets as they
/// arrive; [`finish`](Self::finish) writes the packet table, patches the two
/// sizes that could not be known until then, and **must** be called: a file
/// without its table cannot be read at all.
///
/// The API is the [`OggOpusWriter`](crate::ogg::writer::OggOpusWriter)'s, so
/// the encode recipes written for one container work for the other by changing
/// the type: [`write_packet`](Self::write_packet) reads each packet's duration
/// out of its TOC byte, [`granule`](Self::granule) is the running 48 kHz sample
/// count, and
/// [`write_packet_with_duration`](Self::write_packet_with_duration) states an
/// end-trim, which this container records as its remainder frames.
///
/// # What the file says
///
/// A `desc` chunk declaring Opus at 48 kHz, a `chan` chunk naming the mono or
/// stereo layout, an `info` chunk naming this crate as the encoder, the `data`
/// chunk, and the `pakt` packet table after it. The `desc` rate is 48 kHz
/// whatever rate the encoder ran at, as it is in every file Apple writes.
///
/// The table states one frame count for every packet when they all share one,
/// which is the shape Apple's own files have, and a count per packet when they
/// do not.
///
/// # Scope
///
/// Mono and stereo, which is every file Apple's recorder produces. A header
/// with an output gain is refused rather than written without it, because the
/// container has nowhere to carry the gain and a file that silently plays at
/// the wrong level is worse than an error.
#[derive(Debug)]
pub struct CafOpusWriter {
    sink: Cursor,
    pre_skip: u32,
    frames_per_packet_pos: u64,
    data_size_pos: u64,
    packets: Vec<(u64, u32)>,
    data_bytes: u64,
    granule: i64,
    decoded: i64,
    finished: bool,
}

impl View for CafOpusWriter {
    type V = CafWriterModel;

    closed spec fn view(&self) -> CafWriterModel {
        CafWriterModel {
            sink: self.sink@,
            pre_skip: self.pre_skip as int,
            frames_per_packet_pos: self.frames_per_packet_pos as int,
            data_size_pos: self.data_size_pos as int,
            packets: self.packets@,
            data_bytes: self.data_bytes as int,
            granule: self.granule as int,
            decoded: self.decoded as int,
            finished: self.finished,
        }
    }
}

/// The bytes of everything ahead of the packets.
fn prefix(channels: u8) -> (out: Vec<u8>)
    requires
        channels == 1 || channels == 2,
    ensures
        out@ == leading_chunks(channels, 0) + data_opening(SIZE_TO_END as int),
        out@.len() == PREFIX_LEN,
{
    let mut out: Vec<u8> = Vec::with_capacity(256);
    push_all(&mut out, &MAGIC);
    push_be(&mut out, VERSION as u64, 2);
    push_be(&mut out, 0, 2);

    // The frames per packet are not known until the last packet has been
    // written; the field is patched when the file is finished.
    write_chunk_header(&mut out, &chunk_type::DESC, DESC_LEN as i64);
    let desc = Desc {
        sample_rate_bits: RATE_48000_BITS,
        bytes_per_packet: 0,
        frames_per_packet: 0,
        channels: channels as u32,
    };
    desc.write(&mut out);

    write_chunk_header(&mut out, &chunk_type::CHAN, CHAN_LEN as i64);
    let layout: u32 = if channels == 1 {
        LAYOUT_TAG_MONO
    } else {
        LAYOUT_TAG_STEREO
    };
    push_be(&mut out, layout as u64, 4);
    push_be(&mut out, 0, 4);
    push_be(&mut out, 0, 4);

    write_chunk_header(&mut out, &chunk_type::INFO, INFO_LEN as i64);
    push_be(&mut out, 1, 4);
    push_all(&mut out, &ENCODER_KEY);
    push_all(&mut out, &VENDOR);
    out.push(0);
    assert(out@ =~= leading_chunks(channels, 0));

    // The size is patched when the file is finished; until then the chunk is
    // marked as running to the end of the file, which is what it does.
    write_chunk_header(&mut out, &chunk_type::DATA, SIZE_TO_END);
    push_be(&mut out, 0, 4);
    proof {
        assert(out@ =~= leading_chunks(channels, 0) + data_opening(SIZE_TO_END as int));
        lemma_opening_lengths(channels, 0, SIZE_TO_END as int);
    }
    out
}

/// How long the parts of a file ahead of its packets are.
pub proof fn lemma_opening_lengths(channels: u8, frames_per_packet: u32, size: int)
    ensures
        leading_chunks(channels, frames_per_packet).len() == PREFIX_LEN - 16,
        data_opening(size).len() == 16,
{
    lemma_be_bytes_len(VERSION as nat, 2);
    lemma_be_bytes_len(0, 2);
    lemma_be_bytes_len(0, 4);
    lemma_be_bytes_len(1, 4);
    lemma_be_bytes_len(layout_tag(channels), 4);
    lemma_be_bytes_len(unsigned64(DESC_LEN as int), 8);
    lemma_be_bytes_len(unsigned64(CHAN_LEN as int), 8);
    lemma_be_bytes_len(unsigned64(INFO_LEN as int), 8);
    lemma_be_bytes_len(unsigned64(size), 8);
    law_desc_round_trip(
        Desc {
            sample_rate_bits: RATE_48000_BITS,
            bytes_per_packet: 0,
            frames_per_packet,
            channels: channels as u32,
        },
    );
}

impl CafOpusWriter {
    /// What holds of every writer.
    pub open spec fn wf(&self) -> bool {
        self@.wf()
    }

    /// Start a file, writing every chunk ahead of the audio.
    ///
    /// Writing starts at the sink's current position, so a file with something
    /// ahead of the CAF is fine; the positions patched at
    /// [`finish`](Self::finish) are measured from there.
    pub fn new(sink: Cursor, head: OpusHead) -> (r: Result<Self, Error>)
        ensures
            match (r, start_caf(sink@, head@)) {
                (Ok(writer), Ok(model)) => writer@ == model && writer.wf(),
                (Err(e), Err(expected)) => e == expected,
                _ => false,
            },
    {
        if head.channel_count != 1 && head.channel_count != 2 {
            return Err(
                Error::InvalidArgument(
                    "caf Opus is mono or stereo; a surround stream cannot be written",
                ),
            );
        }
        if head.output_gain_q8 != 0 {
            return Err(
                Error::InvalidArgument(
                    "caf has nowhere to carry an output gain; apply it or zero it first",
                ),
            );
        }
        let mut sink = sink;
        if !sink.has_room(sink.position(), PREFIX_LEN) {
            return Err(Error::Io(IoError::TooLarge));
        }
        let start: u64 = sink.position();
        let out = prefix(head.channel_count);
        sink.write_all(&out);
        Ok(
            CafOpusWriter {
                sink,
                pre_skip: head.pre_skip as u32,
                frames_per_packet_pos: start + (FILE_HEADER_LEN + CHUNK_HEADER_LEN
                    + DESC_FRAMES_PER_PACKET_OFFSET) as u64,
                data_size_pos: start + (PREFIX_LEN - DATA_EDIT_COUNT_LEN - 8) as u64,
                packets: Vec::new(),
                data_bytes: 0,
                granule: 0,
                decoded: 0,
                finished: false,
            },
        )
    }

    /// The granule position the file has reached: the 48 kHz samples every
    /// packet written so far is stated to decode to, pre-skip included.
    ///
    /// The same number
    /// [`OggOpusWriter::granule`](crate::ogg::writer::OggOpusWriter::granule)
    /// reports, for the same use: the final granule a gapless file wants is the
    /// header's pre-skip plus the audio, and the difference between that and
    /// this, read just before the last packet, is that packet's stated
    /// duration.
    pub fn granule(&self) -> (granule: i64)
        ensures
            granule == self@.granule,
    {
        self.granule
    }

    /// Append one Opus packet, taking its duration from the packet itself.
    ///
    /// Use [`write_packet_with_duration`](Self::write_packet_with_duration)
    /// only for the end-trim: a final packet stated shorter than it decodes,
    /// so the file ends where the audio does.
    pub fn write_packet(&mut self, packet: &[u8]) -> (r: Result<(), Error>)
        requires
            old(self).wf(),
            old(self)@.countable(packet@.len()),
        ensures
            (r, final(self)@) == match packet_samples(packet@) {
                Err(e) => (Err(e), old(self)@),
                Ok(actual) => write_caf(old(self)@, packet@, actual),
            },
            final(self).wf(),
    {
        let samples: usize = samples_48k(packet)?;
        self.write_packet_with_duration(packet, samples as u32)
    }

    /// Append one Opus packet, stating its duration explicitly.
    ///
    /// `samples_48k` is the packet's duration in 48 kHz samples. The packet
    /// table records what the packet *actually* decodes to, read from its TOC
    /// byte; what is stated here moves [`granule`](Self::granule), and the gap
    /// between the two at [`finish`](Self::finish) becomes the file's
    /// remainder frames, the padding a player drops from the end. Stating
    /// more than the packets carry is an error at `finish`, since a file
    /// cannot promise audio it does not hold.
    pub fn write_packet_with_duration(&mut self, packet: &[u8], samples_48k: u32) -> (r: Result<
        (),
        Error,
    >)
        requires
            old(self).wf(),
            old(self)@.countable(packet@.len()),
        ensures
            (r, final(self)@) == write_caf(old(self)@, packet@, samples_48k as int),
            final(self).wf(),
    {
        if self.finished {
            return Err(Error::InvalidArgument("writer has already been finished"));
        }
        if packet.len() == 0 {
            return Err(Error::InvalidArgument("Opus packets cannot be empty"));
        }
        if samples_48k > MAX_STATED_SAMPLES {
            return Err(
                Error::InvalidArgument(
                    "an Opus packet cannot exceed 120 ms (5760 samples at 48 kHz)",
                ),
            );
        }
        let actual: u32 = crate::packet::samples_48k(packet)? as u32;
        if !self.sink.has_room(self.sink.position(), packet.len()) {
            return Err(Error::Io(IoError::TooLarge));
        }
        self.sink.write_all(packet);
        self.packets.push((packet.len() as u64, actual));
        self.data_bytes = self.data_bytes + packet.len() as u64;
        self.granule = self.granule + samples_48k as i64;
        self.decoded = self.decoded + actual as i64;
        Ok(())
    }

    /// The sink being written to.
    pub fn get_ref(&self) -> (sink: Option<&Cursor>)
        ensures
            sink matches Some(cursor) && cursor@ == self@.sink,
    {
        Some(&self.sink)
    }

    /// The sink being written to, mutably.
    ///
    /// Writing to it, or moving its position, corrupts the file; this is for
    /// the sink's own controls.
    pub fn get_mut(&mut self) -> (sink: Option<&mut Cursor>)
        ensures
            sink matches Some(cursor) && {
                &&& cursor@ == old(self)@.sink
                &&& final(self)@ == (CafWriterModel { sink: final(cursor)@, ..old(self)@ })
            },
    {
        Some(&mut self.sink)
    }

    /// Write the packet table, patch the sizes, and return the sink.
    pub fn finish(self) -> (r: Result<Cursor, Error>)
        requires
            self.wf(),
        ensures
            match (r, finish_caf(self@)) {
                (Ok(sink), (Ok(_), closed)) => sink@ == closed.sink,
                (Err(e), (Err(expected), _)) => e == expected,
                _ => false,
            },
    {
        let mut writer = self;
        writer.finish_in_place()?;
        Ok(writer.sink)
    }

    /// One count for all packets when they agree.
    fn shared_frames(&self) -> (shared: u32)
        ensures
            shared == shared_frames(self@.packets),
    {
        if self.packets.len() == 0 {
            return EMPTY_FILE_FRAMES;
        }
        let first: u32 = self.packets[0].1;
        let mut i: usize = 1;
        while i < self.packets.len()
            invariant
                0 < self.packets@.len(),
                i <= self.packets@.len(),
                first == self.packets@[0].1,
                forall|k: int| 0 <= k < i ==> (#[trigger] self.packets@[k]).1 == first,
            decreases self.packets@.len() - i,
        {
            if self.packets[i].1 != first {
                assert(!uniform(self.packets@));
                return 0;
            }
            i = i + 1;
        }
        first
    }

    /// The body of the packet table.
    fn pakt_body(&self, shared: u32) -> (pakt: Vec<u8>)
        requires
            self.wf(),
            shared == shared_frames(self@.packets),
            self@.granule <= self@.decoded,
            self@.remainder_frames() <= i32::MAX,
        ensures
            pakt@ == self@.pakt_body(),
    {
        let pre_skip: i64 = self.pre_skip as i64;
        let valid: i64 = if self.granule > pre_skip {
            self.granule - pre_skip
        } else {
            0
        };
        let remainder: i64 = self.remainder();
        let mut pakt: Vec<u8> = Vec::new();
        let header = PaktHeader {
            packets: self.packets.len() as i64,
            valid_frames: valid,
            priming_frames: self.pre_skip as i32,
            remainder_frames: remainder as i32,
        };
        header.write(&mut pakt);
        assert(header == self@.pakt_header());
        let ghost head_bytes = pakt@;
        assert(head_bytes =~= pakt_header_bytes(header));
        let mut i: usize = 0;
        while i < self.packets.len()
            invariant
                i <= self.packets@.len(),
                pakt@ == head_bytes + table_bytes(self.packets@, i as int, shared),
            decreases self.packets@.len() - i,
        {
            let (bytes, frames): (u64, u32) = self.packets[i];
            write_varint(&mut pakt, bytes);
            if shared == 0 {
                write_varint(&mut pakt, frames as u64);
            }
            i = i + 1;
            assert(pakt@ =~= head_bytes + table_bytes(self.packets@, i as int, shared));
        }
        pakt
    }

    /// The padding past the pre-skip and the audio.
    fn remainder(&self) -> (remainder: i64)
        requires
            self.wf(),
        ensures
            remainder == self@.remainder_frames(),
    {
        let pre_skip: i64 = self.pre_skip as i64;
        let valid: i64 = if self.granule > pre_skip {
            self.granule - pre_skip
        } else {
            0
        };
        if self.decoded > pre_skip && self.decoded - pre_skip > valid {
            self.decoded - pre_skip - valid
        } else {
            0
        }
    }

    /// Write the packet table and patch the sizes, leaving the writer finished.
    pub fn finish_in_place(&mut self) -> (r: Result<(), Error>)
        requires
            old(self).wf(),
        ensures
            (r, final(self)@) == finish_caf(old(self)@),
            final(self).wf(),
    {
        if self.finished {
            return Ok(());
        }
        let ghost before = self@;
        self.finished = true;
        if self.granule > self.decoded {
            return Err(
                Error::InvalidArgument("stated durations exceed what the packets decode to"),
            );
        }
        // priming + valid + remainder is what the packets decode to. A stream
        // stated shorter than its own pre-skip has no audio, and its padding is
        // whatever lies past the pre-skip.
        if self.remainder() > i32::MAX as i64 {
            return Err(Error::InvalidArgument("the end padding does not fit the packet table"));
        }
        let shared: u32 = self.shared_frames();
        let pakt = self.pakt_body(shared);
        let mut table: Vec<u8> = Vec::new();
        write_chunk_header(&mut table, &chunk_type::PAKT, pakt.len() as i64);
        push_all(&mut table, &pakt);
        assert(table@ =~= before.pakt_chunk());

        let data_size: u64 = self.data_bytes + DATA_EDIT_COUNT_LEN as u64;
        let data_end: u64 = self.data_size_pos + 8 + data_size;
        if !self.sink.has_room(data_end, table.len()) {
            return Err(Error::Io(IoError::TooLarge));
        }
        let mut shared_bytes: Vec<u8> = Vec::new();
        push_be(&mut shared_bytes, shared as u64, 4);
        let mut size_bytes: Vec<u8> = Vec::new();
        push_be(&mut size_bytes, data_size, 8);
        proof {
            lemma_be_bytes_len(shared as nat, 4);
            lemma_be_bytes_len(data_size as nat, 8);
            assert(shared_bytes@ =~= be_bytes(shared as nat, 4));
            assert(size_bytes@ =~= be_bytes(data_size as nat, 8));
        }
        self.sink.set_position(self.frames_per_packet_pos);
        self.sink.write_all(&shared_bytes);
        self.sink.set_position(self.data_size_pos);
        self.sink.write_all(&size_bytes);
        // Back to the end of the packets, which is also the end of what has
        // been written: the table goes after the data, as FFmpeg's does.
        self.sink.set_position(data_end);
        self.sink.write_all(&table);
        Ok(())
    }
}

} // verus!
