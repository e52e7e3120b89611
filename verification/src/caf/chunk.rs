//! The bytes of a Core Audio Format file: the file header, the chunk framing,
//! and the variable-length integers the packet table is made of.
//!
//! Everything in CAF is big-endian. A file is an 8-byte header followed by
//! chunks, each a 4-byte type, a signed 64-bit body size and the body. The
//! chunks this module reads and writes are `desc` (the stream's format),
//! `pakt` (the packet table) and `data` (the packets); the rest are skipped on
//! the way in and, apart from `chan` and `info`, not written on the way out.

use vstd::prelude::*;

use crate::bytes::{
    be_bytes, be_value, lemma_pow256_values, push_all, push_be, read_be, same_bytes, signed32,
    signed64, to_signed32, to_signed64, to_unsigned32, to_unsigned64, unsigned32, unsigned64,
};
use crate::error::Error;

verus! {

/// The file header's magic, `caff`.
pub const MAGIC: [u8; 4] = [0x63, 0x61, 0x66, 0x66];

/// The only file version there is.
pub const VERSION: u16 = 1;

/// Length of the file header: magic, version and flags.
pub const FILE_HEADER_LEN: usize = 8;

/// Length of a chunk header: type and body size.
pub const CHUNK_HEADER_LEN: usize = 12;

/// The `desc` chunk's format ID for Opus, `opus`.
pub const FORMAT_OPUS: [u8; 4] = [0x6f, 0x70, 0x75, 0x73];

/// The `desc` body is a fixed 32 bytes.
pub const DESC_LEN: usize = 32;

/// Byte offset of `mFramesPerPacket` within a `desc` body.
pub const DESC_FRAMES_PER_PACKET_OFFSET: usize = 20;

/// The fixed part of a `pakt` body, ahead of the table.
pub const PAKT_HEADER_LEN: usize = 24;

/// A `data` body opens with a 32-bit edit count before the first packet.
pub const DATA_EDIT_COUNT_LEN: usize = 4;

/// A chunk's body size, when the chunk runs to the end of the file. Only
/// `data` may carry it, and only as the last chunk.
pub const SIZE_TO_END: i64 = -1;

/// The `chan` chunk's layout tag for mono: `(100 << 16) | 1`.
pub const LAYOUT_TAG_MONO: u32 = 0x64_0001;

/// The `chan` chunk's layout tag for stereo: `(101 << 16) | 2`.
pub const LAYOUT_TAG_STEREO: u32 = 0x65_0002;

/// The `desc` chunk, as far as an Opus stream uses it.
///
/// `mBytesPerPacket` and `mFramesPerPacket` decide the shape of the packet
/// table: a non-zero value is a constant every packet shares, and a zero means
/// the table carries the value per packet. Opus packets vary in size, so bytes
/// per packet is zero in every file this module has seen; frames per packet is
/// 960 in the files Apple and FFmpeg write.
#[derive(Debug, Clone, Copy, PartialEq, Eq, Structural)]
pub struct Desc {
    /// The sample rate, as the bits of the IEEE double the file holds.
    pub sample_rate_bits: u64,
    /// Bytes in every packet, or zero.
    pub bytes_per_packet: u32,
    /// Frames in every packet, or zero.
    pub frames_per_packet: u32,
    /// Channels per frame.
    pub channels: u32,
}

/// The bytes of a `desc` body: rate, format, flags, the two constants, the
/// channel count and the bits per channel.
pub open spec fn desc_bytes(d: Desc) -> Seq<u8> {
    be_bytes(d.sample_rate_bits as nat, 8) + FORMAT_OPUS@ + be_bytes(0, 4) + be_bytes(
        d.bytes_per_packet as nat,
        4,
    ) + be_bytes(d.frames_per_packet as nat, 4) + be_bytes(d.channels as nat, 4) + be_bytes(0, 4)
}

/// What a `desc` body says, or why it is not one of ours.
pub open spec fn parse_desc(body: Seq<u8>) -> Result<Desc, Error> {
    if body.len() != DESC_LEN {
        Err(Error::InvalidStream("caf desc chunk is not 32 bytes"))
    } else if body.subrange(8, 12) != FORMAT_OPUS@ {
        Err(Error::InvalidStream("caf file does not contain Opus"))
    } else {
        Ok(
            Desc {
                sample_rate_bits: be_value(body.subrange(0, 8)) as u64,
                bytes_per_packet: be_value(body.subrange(16, 20)) as u32,
                frames_per_packet: be_value(body.subrange(20, 24)) as u32,
                channels: be_value(body.subrange(24, 28)) as u32,
            },
        )
    }
}

impl Desc {
    /// Read a `desc` body. Format flags and bits per channel are both zero for
    /// a compressed format, and neither is read here.
    pub fn parse(body: &[u8]) -> (r: Result<Self, Error>)
        ensures
            r == parse_desc(body@),
    {
        if body.len() != DESC_LEN {
            return Err(Error::InvalidStream("caf desc chunk is not 32 bytes"));
        }
        if !same_bytes(&body[8..12], &FORMAT_OPUS) {
            return Err(Error::InvalidStream("caf file does not contain Opus"));
        }
        proof {
            lemma_pow256_values();
        }
        Ok(
            Desc {
                sample_rate_bits: read_be(body, 0, 8),
                bytes_per_packet: read_be(body, 16, 4) as u32,
                frames_per_packet: read_be(body, DESC_FRAMES_PER_PACKET_OFFSET, 4) as u32,
                channels: read_be(body, 24, 4) as u32,
            },
        )
    }

    /// Append the body.
    pub fn write(&self, out: &mut Vec<u8>)
        ensures
            final(out)@ == old(out)@ + desc_bytes(*self),
    {
        push_be(out, self.sample_rate_bits, 8);
        push_all(out, &FORMAT_OPUS);
        push_be(out, 0, 4);
        push_be(out, self.bytes_per_packet as u64, 4);
        push_be(out, self.frames_per_packet as u64, 4);
        push_be(out, self.channels as u64, 4);
        push_be(out, 0, 4);
        assert(out@ =~= old(out)@ + desc_bytes(*self));
    }
}

/// The fixed head of the `pakt` chunk.
///
/// The three frame counts are what make a CAF gapless, and they add up:
/// `priming + valid + remainder` is the number of frames every packet in the
/// file decodes to. Priming is the encoder delay (Ogg's pre-skip under
/// another name) and remainder is the padding the encoder added to fill its
/// last frame, so `valid` is the audio.
#[derive(Debug, Clone, Copy, PartialEq, Eq, Structural)]
pub struct PaktHeader {
    /// How many packets the table describes.
    pub packets: i64,
    /// Frames of audio.
    pub valid_frames: i64,
    /// Frames of encoder delay ahead of the audio.
    pub priming_frames: i32,
    /// Frames of padding after it.
    pub remainder_frames: i32,
}

/// The bytes of a packet table's head.
pub open spec fn pakt_header_bytes(h: PaktHeader) -> Seq<u8> {
    be_bytes(unsigned64(h.packets as int), 8) + be_bytes(unsigned64(h.valid_frames as int), 8)
        + be_bytes(unsigned32(h.priming_frames as int), 4) + be_bytes(
        unsigned32(h.remainder_frames as int),
        4,
    )
}

/// What the head of a `pakt` body says.
pub open spec fn parse_pakt_header(body: Seq<u8>) -> Result<PaktHeader, Error> {
    if body.len() < PAKT_HEADER_LEN {
        Err(Error::InvalidStream("caf pakt chunk is truncated"))
    } else {
        Ok(
            PaktHeader {
                packets: signed64(be_value(body.subrange(0, 8))) as i64,
                valid_frames: signed64(be_value(body.subrange(8, 16))) as i64,
                priming_frames: signed32(be_value(body.subrange(16, 20))) as i32,
                remainder_frames: signed32(be_value(body.subrange(20, 24))) as i32,
            },
        )
    }
}

impl PaktHeader {
    /// Read the head of a `pakt` body.
    pub fn parse(body: &[u8]) -> (r: Result<Self, Error>)
        ensures
            r == parse_pakt_header(body@),
    {
        if body.len() < PAKT_HEADER_LEN {
            return Err(Error::InvalidStream("caf pakt chunk is truncated"));
        }
        proof {
            lemma_pow256_values();
            assert(body@.subrange(0, 8).subrange(0, 8) =~= body@.subrange(0, 8));
            assert(body@.subrange(8, 16).subrange(0, 8) =~= body@.subrange(8, 16));
            assert(body@.subrange(16, 20).subrange(0, 4) =~= body@.subrange(16, 20));
            assert(body@.subrange(20, 24).subrange(0, 4) =~= body@.subrange(20, 24));
        }
        Ok(
            PaktHeader {
                packets: be_i64(&body[0..8]),
                valid_frames: be_i64(&body[8..16]),
                priming_frames: to_signed32(be_u32(&body[16..20])),
                remainder_frames: to_signed32(be_u32(&body[20..24])),
            },
        )
    }

    /// Append the head.
    pub fn write(&self, out: &mut Vec<u8>)
        ensures
            final(out)@ == old(out)@ + pakt_header_bytes(*self),
    {
        push_be(out, to_unsigned64(self.packets), 8);
        push_be(out, to_unsigned64(self.valid_frames), 8);
        push_be(out, to_unsigned32(self.priming_frames) as u64, 4);
        push_be(out, to_unsigned32(self.remainder_frames) as u64, 4);
        assert(out@ =~= old(out)@ + pakt_header_bytes(*self));
    }
}

/// The bytes of a chunk header.
pub open spec fn chunk_header_bytes(kind: Seq<u8>, size: int) -> Seq<u8> {
    kind + be_bytes(unsigned64(size), 8)
}

/// Append a chunk header.
pub fn write_chunk_header(out: &mut Vec<u8>, kind: &[u8; 4], size: i64)
    ensures
        final(out)@ == old(out)@ + chunk_header_bytes(kind@, size as int),
{
    push_all(out, kind);
    push_be(out, to_unsigned64(size), 8);
    assert(out@ =~= old(out)@ + chunk_header_bytes(kind@, size as int));
}

/// The base-128 groups of `v` from its first non-zero one, each marked as
/// continued. Zero has none.
pub open spec fn continued_groups(v: nat) -> Seq<u8>
    decreases v,
{
    if v == 0 {
        Seq::empty()
    } else {
        continued_groups(v / 128).push((128 + v % 128) as u8)
    }
}

/// One of the packet table's integers: base 128, most significant group first,
/// with the top bit set on every byte but the last.
pub open spec fn varint_bytes(v: nat) -> Seq<u8> {
    continued_groups(v / 128).push((v % 128) as u8)
}

/// Append the continued groups of `v`.
fn push_continued_groups(out: &mut Vec<u8>, v: u64)
    ensures
        final(out)@ == old(out)@ + continued_groups(v as nat),
    decreases v,
{
    if v > 0 {
        push_continued_groups(out, v / 128);
        out.push((128 + v % 128) as u8);
    }
    assert(out@ =~= old(out)@ + continued_groups(v as nat));
}

/// Append one of the packet table's integers.
///
/// The encoding is the one MPEG-4 uses for descriptor lengths, which is why
/// FFmpeg reads it with `ff_mp4_read_descr_len`.
pub fn write_varint(out: &mut Vec<u8>, value: u64)
    ensures
        final(out)@ == old(out)@ + varint_bytes(value as nat),
{
    push_continued_groups(out, value / 128);
    out.push((value % 128) as u8);
    assert(out@ =~= old(out)@ + varint_bytes(value as nat));
}

/// What reading an integer at `pos` gives, and where it stops, after `groups`
/// groups have already been read as `value`.
///
/// A 64-bit value is at most ten groups; an eleventh means the value does not
/// fit, which is corruption rather than a very large packet.
pub open spec fn varint_from(bytes: Seq<u8>, pos: int, value: nat, groups: nat) -> (
    Result<u64, Error>,
    int,
)
    decreases 10 - groups,
{
    if groups >= 10 {
        (Err(Error::InvalidStream("caf packet table holds an integer wider than 64 bits")), pos)
    } else if pos >= bytes.len() {
        (Err(Error::InvalidStream("caf packet table is truncated")), pos)
    } else {
        let b = bytes[pos];
        let next = (value * 128 + (b as nat) % 128) % 0x1_0000_0000_0000_0000;
        if b < 128 {
            (Ok(next as u64), pos + 1)
        } else {
            varint_from(bytes, pos + 1, next, groups + 1)
        }
    }
}

/// Read one of the packet table's integers, advancing `pos` past the groups
/// that were read.
pub fn read_varint(bytes: &[u8], pos: &mut usize) -> (r: Result<u64, Error>)
    ensures
        (r, *final(pos) as int) == varint_from(bytes@, *old(pos) as int, 0, 0),
{
    let mut value: u64 = 0;
    let mut groups: usize = 0;
    while groups < 10
        invariant
            groups <= 10,
            varint_from(bytes@, *old(pos) as int, 0, 0) == varint_from(
                bytes@,
                *pos as int,
                value as nat,
                groups as nat,
            ),
        decreases 10 - groups,
    {
        if *pos >= bytes.len() {
            return Err(Error::InvalidStream("caf packet table is truncated"));
        }
        let b: u8 = bytes[*pos];
        *pos = *pos + 1;
        value = value.wrapping_mul(128).wrapping_add((b % 128) as u64);
        if b < 128 {
            return Ok(value);
        }
        groups = groups + 1;
    }
    Err(Error::InvalidStream("caf packet table holds an integer wider than 64 bits"))
}

/// The first four bytes as a big-endian number.
pub fn be_u32(b: &[u8]) -> (v: u32)
    requires
        b@.len() >= 4,
    ensures
        v == be_value(b@.subrange(0, 4)),
{
    proof {
        lemma_pow256_values();
    }
    read_be(b, 0, 4) as u32
}

/// The first eight bytes as a big-endian two's-complement number.
pub fn be_i64(b: &[u8]) -> (v: i64)
    requires
        b@.len() >= 8,
    ensures
        v == signed64(be_value(b@.subrange(0, 8))),
{
    to_signed64(read_be(b, 0, 8))
}

} // verus!
