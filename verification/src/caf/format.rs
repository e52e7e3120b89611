//! The bytes of a Core Audio file, one by one: what every reader of such files
//! expects, and every writer puts, in each place.

use vstd::prelude::*;

use crate::bytes::{
    be_bytes, be_value, lemma_be_bytes_len, lemma_be_round_trip, lemma_pow256_values, unsigned32,
    unsigned64,
};
use crate::caf::chunk_type;
use crate::caf::arrangement::ChunkModel;
use crate::caf::chunk::{
    chunk_header_bytes, desc_bytes, pakt_header_bytes, parse_desc, parse_pakt_header, varint_from,
    Desc, PaktHeader, FORMAT_OPUS, MAGIC, VERSION,
};
use crate::caf::reader::{
    claims_too_long, open_chunks, over_limit, packet_table, rate_ticks, stated_samples,
    table_columns, total_size, ChunksModel, DurationModel,
};
use crate::caf::reading::{bytes_before, lemma_total};
use crate::caf::round_trip::{
    after_frames, before_frames, file_desc, lemma_frames_field, lemma_lead_parts,
};
use crate::caf::writer::{
    data_opening, finish_caf, layout_tag, leading_chunks, lemma_opening_lengths, shared_frames,
    start_caf, write_caf, CafWriterModel,
};
use crate::error::Error;
use crate::io::CursorModel;
use crate::math::least;
use crate::ogg::header::HeadModel;
use crate::packet::packet_samples;

verus! {

/// The number that four bytes spell, the high one first.
pub open spec fn four_high(b: Seq<u8>, i: int) -> int {
    ((b[i] * 256 + b[i + 1]) * 256 + b[i + 2]) * 256 + b[i + 3]
}

/// The number that eight bytes spell, the high one first.
pub open spec fn eight_high(b: Seq<u8>, i: int) -> int {
    four_high(b, i) * 0x1_0000_0000 + four_high(b, i + 4)
}

/// Four bytes, as the parsers read them.
proof fn lemma_four(b: Seq<u8>, i: int)
    requires
        0 <= i,
        i + 4 <= b.len(),
    ensures
        be_value(b.subrange(i, i + 4)) == four_high(b, i),
{
    let s = b.subrange(i, i + 4);
    let s3 = s.drop_last();
    let s2 = s3.drop_last();
    let s1 = s2.drop_last();
    assert(s1.drop_last().len() == 0);
    assert(be_value(s1.drop_last()) == 0);
    assert(be_value(s1) == b[i]);
    assert(be_value(s2) == be_value(s1) * 256 + b[i + 1]);
    assert(be_value(s3) == be_value(s2) * 256 + b[i + 2]);
    assert(be_value(s) == be_value(s3) * 256 + b[i + 3]);
}

/// Eight bytes, as the parsers read them.
proof fn lemma_eight(b: Seq<u8>, i: int)
    requires
        0 <= i,
        i + 8 <= b.len(),
    ensures
        be_value(b.subrange(i, i + 8)) == eight_high(b, i),
{
    let s = b.subrange(i, i + 8);
    let s7 = s.drop_last();
    let s6 = s7.drop_last();
    let s5 = s6.drop_last();
    let s4 = s5.drop_last();
    assert(s4 =~= b.subrange(i, i + 4));
    lemma_four(b, i);
    assert(be_value(s5) == be_value(s4) * 256 + b[i + 4]);
    assert(be_value(s6) == be_value(s5) * 256 + b[i + 5]);
    assert(be_value(s7) == be_value(s6) * 256 + b[i + 6]);
    assert(be_value(s) == be_value(s7) * 256 + b[i + 7]);
}

/// Four bytes, as the writers put them.
proof fn lemma_put_four(v: nat)
    ensures
        be_bytes(v, 4).len() == 4,
        v < 0x1_0000_0000 ==> four_high(be_bytes(v, 4), 0) == v,
{
    lemma_be_bytes_len(v, 4);
    reveal_with_fuel(be_bytes, 5);
    let b = be_bytes(v, 4);
    let (v1, v2, v3) = (v / 256, v / 256 / 256, v / 256 / 256 / 256);
    assert(b[3] == v % 256 && b[2] == v1 % 256 && b[1] == v2 % 256 && b[0] == v3 % 256);
    assert(v == v1 * 256 + v % 256 && v1 == v2 * 256 + v1 % 256 && v2 == v3 * 256 + v2 % 256);
}

/// Eight bytes, as the writers put them.
proof fn lemma_put_eight(v: nat)
    ensures
        be_bytes(v, 8).len() == 8,
        v < 0x1_0000_0000_0000_0000 ==> eight_high(be_bytes(v, 8), 0) == v,
{
    lemma_be_bytes_len(v, 8);
    let b = be_bytes(v, 8);
    assert(b.subrange(0, 8) =~= b);
    lemma_eight(b, 0);
    lemma_pow256_values();
    if v < 0x1_0000_0000_0000_0000 {
        lemma_be_round_trip(v, 8);
    }
}

/// Bytes that are a part of others spell the same number there.
proof fn lemma_part(b: Seq<u8>, at: int, part: Seq<u8>)
    requires
        0 <= at,
        at + part.len() <= b.len(),
        b.subrange(at, at + part.len()) == part,
    ensures
        part.len() == 4 ==> four_high(b, at) == four_high(part, 0),
        part.len() == 8 ==> eight_high(b, at) == eight_high(part, 0),
{
    assert forall|i: int| 0 <= i < part.len() implies #[trigger] part[i] == b[at + i] by {
        assert(b.subrange(at, at + part.len())[i] == b[at + i]);
    }
    if part.len() == 4 || part.len() == 8 {
        assert(part[0] == b[at + 0] && part[1] == b[at + 1] && part[2] == b[at + 2] && part[3]
            == b[at + 3]);
    }
    if part.len() == 8 {
        assert(part[4] == b[at + 4] && part[5] == b[at + 5] && part[6] == b[at + 6] && part[7]
            == b[at + 7]);
    }
}

/// A stream's format is 32 bytes: the rate as a double, `opus`, no flags, the bytes
/// and the frames of every packet, the channels, and no bits per channel.
pub proof fn law_desc_bytes(d: Desc)
    ensures
        ({
            let b = desc_bytes(d);
            &&& b.len() == 32
            &&& eight_high(b, 0) == d.sample_rate_bits
            &&& b[8] == 0x6f && b[9] == 0x70 && b[10] == 0x75 && b[11] == 0x73
            &&& four_high(b, 12) == 0
            &&& four_high(b, 16) == d.bytes_per_packet
            &&& four_high(b, 20) == d.frames_per_packet
            &&& four_high(b, 24) == d.channels
            &&& four_high(b, 28) == 0
        }),
{
    let b = desc_bytes(d);
    let rate = be_bytes(d.sample_rate_bits as nat, 8);
    let zero = be_bytes(0, 4);
    let size = be_bytes(d.bytes_per_packet as nat, 4);
    let frames = be_bytes(d.frames_per_packet as nat, 4);
    let channels = be_bytes(d.channels as nat, 4);
    lemma_put_eight(d.sample_rate_bits as nat);
    lemma_put_four(0);
    lemma_put_four(d.bytes_per_packet as nat);
    lemma_put_four(d.frames_per_packet as nat);
    lemma_put_four(d.channels as nat);
    assert(b.subrange(0, 8) =~= rate);
    assert(b.subrange(12, 16) =~= zero);
    assert(b.subrange(16, 20) =~= size);
    assert(b.subrange(20, 24) =~= frames);
    assert(b.subrange(24, 28) =~= channels);
    assert(b.subrange(28, 32) =~= zero);
    lemma_part(b, 0, rate);
    lemma_part(b, 12, zero);
    lemma_part(b, 16, size);
    lemma_part(b, 20, frames);
    lemma_part(b, 24, channels);
    lemma_part(b, 28, zero);
}

/// What every file's format is read as, whoever wrote it, where it says `opus`.
pub proof fn law_descs_are_read(b: Seq<u8>)
    requires
        b.len() == 32,
    ensures
        parse_desc(b) is Ok <==> b[8] == 0x6f && b[9] == 0x70 && b[10] == 0x75 && b[11] == 0x73,
        parse_desc(b) matches Ok(d) ==> {
            &&& d.sample_rate_bits == eight_high(b, 0)
            &&& d.bytes_per_packet == four_high(b, 16)
            &&& d.frames_per_packet == four_high(b, 20)
            &&& d.channels == four_high(b, 24)
        },
{
    lemma_eight(b, 0);
    lemma_four(b, 16);
    lemma_four(b, 20);
    lemma_four(b, 24);
    let kind = b.subrange(8, 12);
    let opus = FORMAT_OPUS@;
    if kind == opus {
        assert(kind[0] == opus[0] && kind[1] == opus[1] && kind[2] == opus[2] && kind[3]
            == opus[3]);
    }
    if b[8] == 0x6f && b[9] == 0x70 && b[10] == 0x75 && b[11] == 0x73 {
        assert(kind =~= opus);
    }
}

/// A packet table starts with the packets, the audio's frames, those ahead of it,
/// and those after it.
pub proof fn law_table_bytes(h: PaktHeader)
    requires
        0 <= h.packets && 0 <= h.valid_frames && 0 <= h.priming_frames && 0 <= h.remainder_frames,
    ensures
        ({
            let b = pakt_header_bytes(h);
            &&& b.len() == 24
            &&& eight_high(b, 0) == h.packets
            &&& eight_high(b, 8) == h.valid_frames
            &&& four_high(b, 16) == h.priming_frames
            &&& four_high(b, 20) == h.remainder_frames
        }),
{
    let b = pakt_header_bytes(h);
    let packets = be_bytes(unsigned64(h.packets as int), 8);
    let valid = be_bytes(unsigned64(h.valid_frames as int), 8);
    let priming = be_bytes(unsigned32(h.priming_frames as int), 4);
    let rest = be_bytes(unsigned32(h.remainder_frames as int), 4);
    lemma_put_eight(unsigned64(h.packets as int));
    lemma_put_eight(unsigned64(h.valid_frames as int));
    lemma_put_four(unsigned32(h.priming_frames as int));
    lemma_put_four(unsigned32(h.remainder_frames as int));
    assert(b.subrange(0, 8) =~= packets);
    assert(b.subrange(8, 16) =~= valid);
    assert(b.subrange(16, 20) =~= priming);
    assert(b.subrange(20, 24) =~= rest);
    lemma_part(b, 0, packets);
    lemma_part(b, 8, valid);
    lemma_part(b, 16, priming);
    lemma_part(b, 20, rest);
}

/// What the head of every packet table is read as, each count in two's complement.
pub proof fn law_tables_are_read(b: Seq<u8>)
    ensures
        parse_pakt_header(b) is Ok <==> b.len() >= 24,
        b.len() >= 24 ==> {
            let h = parse_pakt_header(b)->Ok_0;
            &&& h.packets == eight_high(b, 0) - (if b[0] >= 128 {
                0x1_0000_0000_0000_0000int
            } else {
                0
            })
            &&& h.valid_frames == eight_high(b, 8) - (if b[8] >= 128 {
                0x1_0000_0000_0000_0000int
            } else {
                0
            })
            &&& h.priming_frames == four_high(b, 16) - (if b[16] >= 128 {
                0x1_0000_0000int
            } else {
                0
            })
            &&& h.remainder_frames == four_high(b, 20) - (if b[20] >= 128 {
                0x1_0000_0000int
            } else {
                0
            })
        },
{
    if b.len() >= 24 {
        lemma_eight(b, 0);
        lemma_eight(b, 8);
        lemma_four(b, 16);
        lemma_four(b, 20);
    }
}

/// A chunk starts with its four letters and its size in eight bytes.
pub proof fn law_chunk_headers(kind: Seq<u8>, size: int)
    requires
        kind.len() == 4,
        0 <= size <= i64::MAX,
    ensures
        ({
            let b = chunk_header_bytes(kind, size);
            &&& b.len() == 12
            &&& b.subrange(0, 4) == kind
            &&& eight_high(b, 4) == size
        }),
{
    let b = chunk_header_bytes(kind, size);
    let field = be_bytes(unsigned64(size), 8);
    lemma_put_eight(unsigned64(size));
    assert(b.subrange(0, 4) =~= kind);
    assert(b.subrange(4, 12) =~= field);
    lemma_part(b, 4, field);
}

/// The chunks have the letters that every reader knows them by.
pub proof fn law_chunk_letters()
    ensures
        chunk_type::DESC@ == seq![0x64u8, 0x65, 0x73, 0x63],
        chunk_type::CHAN@ == seq![0x63u8, 0x68, 0x61, 0x6e],
        chunk_type::INFO@ == seq![0x69u8, 0x6e, 0x66, 0x6f],
        chunk_type::PAKT@ == seq![0x70u8, 0x61, 0x6b, 0x74],
        chunk_type::DATA@ == seq![0x64u8, 0x61, 0x74, 0x61],
        MAGIC@ == seq![0x63u8, 0x61, 0x66, 0x66],
{
    assert(chunk_type::DESC@ =~= seq![0x64u8, 0x65, 0x73, 0x63]);
    assert(chunk_type::CHAN@ =~= seq![0x63u8, 0x68, 0x61, 0x6e]);
    assert(chunk_type::INFO@ =~= seq![0x69u8, 0x6e, 0x66, 0x6f]);
    assert(chunk_type::PAKT@ =~= seq![0x70u8, 0x61, 0x6b, 0x74]);
    assert(chunk_type::DATA@ =~= seq![0x64u8, 0x61, 0x74, 0x61]);
    assert(MAGIC@ =~= seq![0x63u8, 0x61, 0x66, 0x66]);
}

/// A table's integers are groups of seven bits, the highest first, with the top bit
/// of a byte set wherever another follows.
pub proof fn law_varints_are_read(bytes: Seq<u8>, pos: int)
    requires
        0 <= pos,
        pos + 3 <= bytes.len(),
    ensures
        ({
            let (r, next) = varint_from(bytes, pos, 0, 0);
            let (a, b, c) = (bytes[pos] as int, bytes[pos + 1] as int, bytes[pos + 2] as int);
            &&& a < 128 ==> r == Ok::<u64, Error>(a as u64) && next == pos + 1
            &&& a >= 128 && b < 128 ==> r == Ok::<u64, Error>(((a - 128) * 128 + b) as u64) && next
                == pos + 2
            &&& a >= 128 && b >= 128 && c < 128 ==> r == Ok::<u64, Error>(
                ((a - 128) * 16_384 + (b - 128) * 128 + c) as u64,
            ) && next == pos + 3
        }),
{
    reveal_with_fuel(varint_from, 4);
}

/// The rates there are, as doubles: 48, 24, 16, 12 and 8 kHz, and how many samples
/// at 48 kHz one of theirs is.
pub proof fn law_rates_are_doubles(bits: u64)
    ensures
        ({
            // The top twelve bits are a sign and an exponent, offset by 1023, and
            // the rest a fraction: the rate times as many powers of two.
            let exponent = bits as int / 0x10_0000_0000_0000 - 1023;
            let mantissa = 0x10_0000_0000_0000 + bits as int % 0x10_0000_0000_0000;
            &&& rate_ticks(bits) == Some(1u64) ==> exponent == 15 && mantissa
                == 48_000 * 0x20_0000_0000
            &&& rate_ticks(bits) == Some(2u64) ==> exponent == 14 && mantissa
                == 24_000 * 0x40_0000_0000
            &&& rate_ticks(bits) == Some(3u64) ==> exponent == 13 && mantissa
                == 16_000 * 0x80_0000_0000
            &&& rate_ticks(bits) == Some(4u64) ==> exponent == 13 && mantissa
                == 12_000 * 0x80_0000_0000
            &&& rate_ticks(bits) == Some(6u64) ==> exponent == 12 && mantissa
                == 8_000 * 0x100_0000_0000
            &&& exponent == 15 && mantissa == 48_000 * 0x20_0000_0000 ==> rate_ticks(bits)
                == Some(1u64)
            &&& exponent == 14 && mantissa == 24_000 * 0x40_0000_0000 ==> rate_ticks(bits)
                == Some(2u64)
            &&& exponent == 13 && mantissa == 16_000 * 0x80_0000_0000 ==> rate_ticks(bits)
                == Some(3u64)
            &&& exponent == 13 && mantissa == 12_000 * 0x80_0000_0000 ==> rate_ticks(bits)
                == Some(4u64)
            &&& exponent == 12 && mantissa == 8_000 * 0x100_0000_0000 ==> rate_ticks(bits)
                == Some(6u64)
        }),
{
}

/// What a table does not share it says packet by packet: sizes where the format has
/// none, durations where it has none, and where it has neither a size and a duration
/// for each, or the sizes alone and the packets speak for themselves.
pub proof fn law_tables_say_what_the_format_does_not(d: Desc, count: int, values: Seq<u64>, i: int)
    requires
        0 <= i < count,
        0 <= count,
    ensures
        ({
            let t = table_columns(d, count, values);
            &&& d.bytes_per_packet == 0 && d.frames_per_packet != 0 && values.len() == count ==> {
                &&& t is Some && (t->0).0[i] == values[i]
                &&& (t->0).1 == DurationModel::Constant(d.frames_per_packet as u64)
            }
            &&& d.bytes_per_packet == 0 && d.frames_per_packet == 0 && values.len() == 2 * count
                ==> {
                &&& t is Some && (t->0).0[i] == values[2 * i]
                &&& (t->0).1 matches DurationModel::PerPacket(f) && f[i] == values[2 * i + 1]
            }
            &&& d.bytes_per_packet == 0 && d.frames_per_packet == 0 && values.len() == count ==> {
                &&& t is Some && (t->0).0[i] == values[i]
                &&& (t->0).1 == DurationModel::FromPacket
            }
            &&& d.bytes_per_packet != 0 && d.frames_per_packet == 0 && values.len() == count ==> {
                &&& t is Some && (t->0).0[i] == d.bytes_per_packet
                &&& (t->0).1 matches DurationModel::PerPacket(f) && f[i] == values[i]
            }
            &&& d.bytes_per_packet != 0 && d.frames_per_packet != 0 ==> {
                &&& t is Some && (t->0).0[i] == d.bytes_per_packet && (t->0).0.len() == count
                &&& (t->0).1 == DurationModel::Constant(d.frames_per_packet as u64)
            }
        }),
{
}

/// A file is read by what its format and its table say: the channels, the frames
/// ahead of the audio as the pre-skip, and the frames up to its end as where it ends,
/// both counted at 48 kHz; and the first packet follows four bytes of the audio's
/// chunk.
pub proof fn law_files_say_where_the_audio_is(source: CursorModel, c: ChunksModel)
    requires
        open_chunks(source, c) is Ok,
    ensures
        ({
            let r = open_chunks(source, c)->Ok_0;
            let d = c.desc->0;
            let h = parse_pakt_header(c.pakt->0)->Ok_0;
            let ticks = rate_ticks(d.sample_rate_bits)->0 as int;
            &&& r.head.channel_count == d.channels
            &&& r.head.pre_skip == h.priming_frames * ticks
            &&& r.final_granule == (h.priming_frames + h.valid_frames) * ticks
            &&& r.head.input_sample_rate * ticks == 48_000
            &&& r.head.output_gain_q8 == 0 && r.head.mapping_family == 0
            &&& r.sizes.len() == h.packets
            &&& r.source == source.at(least((c.data->0).0 + 4, u64::MAX as int) as nat)
            &&& r.next == 0 && r.granule == 0 && r.ticks == ticks
        }),
{
    let d = c.desc->0;
    let ticks = rate_ticks(d.sample_rate_bits)->0 as int;
    let table = packet_table(d, c.pakt->0, (c.data->0).1, ticks)->Ok_0;
    let priming = table.header.priming_frames as int;
    assert(0 <= priming * ticks) by (nonlinear_arith)
        requires
            0 <= priming,
            1 <= ticks,
    ;
    assert(table.sizes.len() == table.header.packets);
    let rate = open_chunks(source, c)->Ok_0.head.input_sample_rate as int;
    assert(rate * ticks == 48_000) by {
        if ticks == 1 {
            assert(rate == 48_000);
        } else if ticks == 2 {
            assert(rate == 24_000);
        } else if ticks == 3 {
            assert(rate == 16_000);
        } else if ticks == 4 {
            assert(rate == 12_000);
        } else {
            assert(ticks == 6 && rate == 8_000);
        }
    }
}

/// A finished file says that its audio is what was stated less the pre-skip, that
/// the pre-skip comes ahead of it, and that what the packets decode to beyond that
/// comes after it.
pub proof fn law_tables_count_the_audio(m: CafWriterModel)
    requires
        m.wf(),
        m.pre_skip <= m.granule <= m.decoded,
        m.decoded - m.granule <= i32::MAX,
        m.packets.len() <= i64::MAX,
    ensures
        ({
            let h = m.pakt_header();
            &&& h.packets == m.packets.len()
            &&& h.priming_frames == m.pre_skip
            &&& h.valid_frames == m.granule - m.pre_skip
            &&& h.remainder_frames == m.decoded - m.granule
        }),
{
}

/// Packets of one duration share it; others, and they alone, have one each.
pub proof fn law_durations_are_shared(packets: Seq<(u64, u32)>, i: int)
    requires
        0 <= i < packets.len(),
        forall|k: int| 0 <= k < packets.len() ==> (#[trigger] packets[k]).1 > 0,
    ensures
        shared_frames(packets) != 0 ==> packets[i].1 == shared_frames(packets),
        (forall|k: int| 0 <= k < packets.len() ==> (#[trigger] packets[k]).1 == packets[i].1)
            ==> shared_frames(packets) == packets[i].1,
        shared_frames(Seq::empty()) == 960,
{
}

/// What a file starts with: `caff` of the version 1, the stream's format at 48 kHz
/// with as many channels as the header has, and the layout of that many, 100 for
/// mono and 101 for stereo in the high half of its tag.
pub proof fn law_file_starts(channels: u8, frames: u32)
    requires
        channels == 1 || channels == 2,
    ensures
        ({
            let b = leading_chunks(channels, frames);
            &&& b.len() == 116
            &&& b[0] == 0x63 && b[1] == 0x61 && b[2] == 0x66 && b[3] == 0x66
            &&& b[4] == 0 && b[5] == 1 && b[6] == 0 && b[7] == 0
            &&& four_high(b, 8) == 0x6465_7363 && eight_high(b, 12) == 32
            &&& four_high(b, 28) == 0x6f70_7573
            &&& four_high(b, 36) == 0
            &&& four_high(b, 40) == frames
            &&& four_high(b, 44) == channels
            &&& four_high(b, 52) == 0x6368_616e && eight_high(b, 56) == 12
            &&& four_high(b, 64) == 65_536 * (99 + channels) + channels
            &&& four_high(b, 76) == 0x696e_666f && eight_high(b, 80) == 28
        }),
{
    lemma_lead_parts(channels, frames);
    let b = leading_chunks(channels, frames);
    lemma_opening_lengths(channels, frames, 0);
    let d = file_desc(channels, frames);
    law_desc_bytes(d);
    law_chunk_letters();
    law_chunk_headers(chunk_type::DESC@, 32);
    law_chunk_headers(chunk_type::CHAN@, 12);
    law_chunk_headers(chunk_type::INFO@, 28);
    lemma_places(b, 8, chunk_header_bytes(chunk_type::DESC@, 32));
    lemma_places(b, 20, desc_bytes(d));
    lemma_places(b, 52, chunk_header_bytes(chunk_type::CHAN@, 12));
    lemma_places(b, 76, chunk_header_bytes(chunk_type::INFO@, 28));
    lemma_places(b, 0, MAGIC@);
    let version = be_bytes(VERSION as nat, 2);
    lemma_be_bytes_len(VERSION as nat, 2);
    reveal_with_fuel(be_bytes, 3);
    lemma_places(b, 4, version);
    let tag = be_bytes(layout_tag(channels), 4);
    lemma_put_four(layout_tag(channels));
    lemma_lead_middle(channels, frames);
    lemma_part(b, 64, tag);
}

/// The bytes of a part, where it is.
proof fn lemma_places(b: Seq<u8>, at: int, part: Seq<u8>)
    requires
        0 <= at,
        at + part.len() <= b.len(),
        b.subrange(at, at + part.len()) == part,
    ensures
        forall|i: int| at <= i < at + part.len() ==> #[trigger] b[i] == part[i - at],
        forall|i: int|
            0 <= i && i + 4 <= part.len() ==> #[trigger] four_high(part, i) == four_high(
                b,
                at + i,
            ),
{
    assert forall|i: int| at <= i < at + part.len() implies #[trigger] b[i] == part[i - at] by {
        assert(b.subrange(at, at + part.len())[i - at] == b[i]);
    }
}

/// The parts of a file's start that no other lemma names.
proof fn lemma_lead_middle(channels: u8, frames: u32)
    ensures
        ({
            let b = leading_chunks(channels, frames);
            &&& b.subrange(6, 8) == seq![0u8, 0]
            &&& b[6] == 0 && b[7] == 0
            &&& b.subrange(64, 68) == be_bytes(layout_tag(channels), 4)
        }),
{
    let b = leading_chunks(channels, frames);
    lemma_frames_field(channels, frames);
    let flags = be_bytes(0, 2);
    lemma_be_bytes_len(0, 2);
    lemma_be_bytes_len(0, 4);
    lemma_be_bytes_len(channels as nat, 4);
    lemma_be_bytes_len(frames as nat, 4);
    lemma_be_bytes_len(layout_tag(channels), 4);
    lemma_be_bytes_len(unsigned64(12), 8);
    assert(flags =~= seq![0u8, 0]) by {
        reveal_with_fuel(be_bytes, 3);
    }
    assert(before_frames().subrange(6, 8) =~= flags) by {
        lemma_be_bytes_len(VERSION as nat, 2);
    }
    assert(b.subrange(6, 8) =~= before_frames().subrange(6, 8));
    assert(b[6] == b.subrange(6, 8)[0] && b[7] == b.subrange(6, 8)[1]);
    let after = after_frames(channels);
    let tag = be_bytes(layout_tag(channels), 4);
    assert(after.subrange(20, 24) =~= tag);
    assert(b.subrange(64, 68) =~= after.subrange(20, 24));
}

/// The audio's chunk is `data`, its size with the four bytes of an edit count, and
/// that count, which is zero.
pub proof fn law_audio_chunk(size: int)
    requires
        0 <= size <= i64::MAX,
    ensures
        ({
            let b = data_opening(size);
            &&& b.len() == 16
            &&& four_high(b, 0) == 0x6461_7461
            &&& eight_high(b, 4) == size
            &&& four_high(b, 12) == 0
        }),
{
    let b = data_opening(size);
    let header = chunk_header_bytes(chunk_type::DATA@, size);
    law_chunk_headers(chunk_type::DATA@, size);
    law_chunk_letters();
    lemma_put_four(0);
    assert(b.subrange(0, 12) =~= header);
    assert(b.subrange(12, 16) =~= be_bytes(0, 4));
    lemma_places(b, 0, header);
    lemma_part(b, 12, be_bytes(0, 4));
    lemma_part(header, 4, header.subrange(4, 12));
    assert(b.subrange(4, 12) =~= header.subrange(4, 12));
    lemma_part(b, 4, header.subrange(4, 12));
    assert(header.subrange(0, 4) == chunk_type::DATA@);
    lemma_places(header, 0, chunk_type::DATA@);
}

/// Sizes that add up are none of them zero.
proof fn lemma_none_is_empty(sizes: Seq<u64>, i: int, total: int, k: int)
    requires
        0 <= i <= k < sizes.len(),
        total_size(sizes, i, total) is Ok,
    ensures
        sizes[k] > 0,
    decreases sizes.len() - i,
{
    if i < k {
        lemma_none_is_empty(sizes, i + 1, total + sizes[i], k);
    }
}

/// Sizes of which none is zero add up.
proof fn lemma_sizes_add_up(sizes: Seq<u64>, i: int)
    requires
        0 <= i <= sizes.len(),
        forall|k: int| 0 <= k < sizes.len() ==> #[trigger] sizes[k] > 0,
        bytes_before(sizes, sizes.len() as int) <= u64::MAX,
    ensures
        total_size(sizes, i, bytes_before(sizes, i)) is Ok,
    decreases sizes.len() - i,
{
    if i < sizes.len() {
        lemma_bytes_grow(sizes, i + 1, sizes.len() as int);
        lemma_sizes_add_up(sizes, i + 1);
    }
}

/// More packets are no fewer bytes.
proof fn lemma_bytes_grow(sizes: Seq<u64>, i: int, n: int)
    requires
        0 <= i <= n <= sizes.len(),
    ensures
        bytes_before(sizes, i) <= bytes_before(sizes, n),
    decreases n,
{
    if i < n {
        lemma_bytes_grow(sizes, i, n - 1);
    }
}

/// A packet table is believed where it counts nothing below zero, where no packet is
/// empty and together they are all of the audio's bytes, and where none is said to be
/// longer than 120 ms, which are 5760 samples at 48 kHz.
pub proof fn law_tables_are_checked(d: Desc, pakt: Seq<u8>, data_len: int, ticks: int, i: int)
    requires
        1 <= ticks <= 6,
    ensures
        packet_table(d, pakt, data_len, ticks) matches Ok(t) ==> {
            &&& t.header.packets >= 0 && t.header.valid_frames >= 0 && t.header.priming_frames >= 0
                && t.header.remainder_frames >= 0
            &&& bytes_before(t.sizes, t.sizes.len() as int) == data_len
            &&& 0 <= i < t.sizes.len() ==> t.sizes[i] > 0
            &&& t.duration matches DurationModel::Constant(frames) ==> t.sizes.len() == 0 || frames
                * ticks <= 5_760
            &&& t.duration matches DurationModel::PerPacket(frames) ==> (0 <= i < frames.len()
                ==> frames[i] * ticks <= 5_760)
        },
{
    if let Ok(t) = packet_table(d, pakt, data_len, ticks) {
        assert(bytes_before(t.sizes, 0) == 0);
        lemma_total(t.sizes, 0);
        if 0 <= i < t.sizes.len() {
            lemma_none_is_empty(t.sizes, 0, 0, i);
        }
        match t.duration {
            DurationModel::PerPacket(frames) => {
                if 0 <= i < frames.len() {
                    assert(!over_limit(frames[i], ticks));
                }
            },
            _ => {},
        }
    }
}

/// Sizes are taken as they are: whatever they add up to, none of them zero, is what
/// they are found to be; and a packet that lasts up to 120 ms is not too long.
pub proof fn law_sizes_are_taken(sizes: Seq<u64>, frames: u64, ticks: int)
    requires
        forall|k: int| 0 <= k < sizes.len() ==> #[trigger] sizes[k] > 0,
        bytes_before(sizes, sizes.len() as int) <= u64::MAX,
        1 <= ticks <= 6,
    ensures
        total_size(sizes, 0, 0) == Ok::<int, Error>(bytes_before(sizes, sizes.len() as int)),
        frames * ticks <= 5_760 ==> !claims_too_long(
            sizes,
            DurationModel::Constant(frames),
            ticks,
        ),
        frames * ticks > 5_760 && sizes.len() > 0 ==> claims_too_long(
            sizes,
            DurationModel::Constant(frames),
            ticks,
        ),
        !claims_too_long(sizes, DurationModel::FromPacket, ticks),
{
    assert(bytes_before(sizes, 0) == 0);
    lemma_sizes_add_up(sizes, 0);
    lemma_total(sizes, 0);
}

/// How long a packet lasts: what its table says, at 48 kHz, or what it says itself, or
/// nothing where it says nothing.
pub proof fn law_packets_last(duration: DurationModel, i: int, ticks: int, data: Seq<u8>)
    ensures
        duration matches DurationModel::Constant(frames) ==> stated_samples(
            duration,
            i,
            ticks,
            data,
        ) == frames * ticks,
        duration matches DurationModel::PerPacket(frames) ==> stated_samples(
            duration,
            i,
            ticks,
            data,
        ) == frames[i] * ticks,
        duration is FromPacket && packet_samples(data) is Ok ==> stated_samples(
            duration,
            i,
            ticks,
            data,
        ) == packet_samples(data)->Ok_0,
        duration is FromPacket && packet_samples(data) is Err ==> stated_samples(
            duration,
            i,
            ticks,
            data,
        ) == 0,
{
}

/// The sizes that a chunk can have: 32 bytes for the format, 24 to 256 MiB for the
/// table, and 4 or more for the audio, which alone may run to the end of the file.
pub proof fn law_chunks_have_their_sizes(c: ChunkModel)
    ensures
        c.readable() ==> c.size() >= -1,
        c.readable() && c.kind == chunk_type::DESC@ ==> c.size() == 32,
        c.readable() && c.kind == chunk_type::PAKT@ ==> 24 <= c.size() <= 0x1000_0000,
        c.kind == chunk_type::PAKT@ && 24 <= c.size() <= 0x1000_0000 && c.body.len() == c.size()
            && chunk_type::PAKT@ != chunk_type::DESC@ ==> c.readable(),
        c.readable() && c.size() == -1 ==> c.kind == chunk_type::DATA@,
        c.readable() && c.kind == chunk_type::DATA@ && c.size() >= 0 && chunk_type::DATA@
            != chunk_type::DESC@ && chunk_type::DATA@ != chunk_type::PAKT@ ==> c.size() >= 4,
        !c.is_known() && c.size() >= 0 ==> c.readable(),
{
}

/// A file can be started for one or two channels without a gain, and then has no
/// packets; it states its frames to each of them 40 bytes in, and the size of its audio
/// 120 bytes in.
pub proof fn law_files_are_started(sink: CursorModel, head: HeadModel)
    ensures
        head.channel_count == 0 || head.channel_count > 2 || head.output_gain_q8 != 0 ==> start_caf(
            sink,
            head,
        ) is Err,
        1 <= head.channel_count <= 2 && head.output_gain_q8 == 0 && sink.position + 132
            <= usize::MAX ==> start_caf(sink, head) is Ok,
        start_caf(sink, head) matches Ok(m) ==> {
            &&& m.packets.len() == 0 && m.data_bytes == 0 && m.granule == 0 && m.decoded == 0
            &&& m.pre_skip == head.pre_skip
            &&& m.frames_per_packet_pos == sink.position + 40
            &&& m.data_size_pos == sink.position + 120
            &&& m.data_end() == sink.position + 132
            &&& !m.finished
        },
{
}

/// A packet is written where it says how long it is, is said to last no longer than
/// 120 ms, and the file is not finished. It is counted by its bytes, by what is said of
/// it and by what it says itself. What is refused changes nothing.
pub proof fn law_packets_are_counted(m: CafWriterModel, packet: Seq<u8>, samples: int)
    requires
        m.sink.position + packet.len() <= usize::MAX,
    ensures
        ({
            let (r, after) = write_caf(m, packet, samples);
            let actual = packet_samples(packet);
            &&& r is Ok <==> !m.finished && packet.len() > 0 && samples <= 5_760 && actual is Ok
            &&& r is Err ==> after == m
            &&& r is Ok ==> {
                &&& after.packets == m.packets.push((packet.len() as u64, actual->Ok_0 as u32))
                &&& after.data_bytes == m.data_bytes + packet.len()
                &&& after.granule == m.granule + samples
                &&& after.decoded == m.decoded + actual->Ok_0
                &&& after.sink == m.sink.after_write(packet)
                &&& after.pre_skip == m.pre_skip
            }
        }),
{
}

/// A file is finished once: then nothing more happens. It is an error where more was
/// said to be in the packets than they decode to, and finished all the same.
pub proof fn law_files_are_finished_once(m: CafWriterModel)
    ensures
        finish_caf(m).1.finished,
        finish_caf(finish_caf(m).1) == (Ok::<(), Error>(()), finish_caf(m).1),
        m.finished ==> finish_caf(m) == (Ok::<(), Error>(()), m),
        !m.finished && m.granule > m.decoded ==> finish_caf(m).0 is Err,
        finish_caf(m).0 is Err ==> finish_caf(m).1.sink == m.sink,
        !m.finished && m.granule <= m.decoded && m.decoded <= i32::MAX && 0 <= m.pre_skip && 0
            <= m.granule && m.data_end() + m.pakt_chunk().len() <= usize::MAX ==> finish_caf(
            m,
        ).0 is Ok,
{
}

/// A file has as much audio as its table says, at its own rate; and that is what is
/// left once the samples ahead of it are skipped.
pub proof fn law_audio_is_what_the_table_says(source: CursorModel, c: ChunksModel)
    requires
        open_chunks(source, c) is Ok,
    ensures
        ({
            let m = open_chunks(source, c)->Ok_0;
            let h = parse_pakt_header(c.pakt->0)->Ok_0;
            let rate = m.head.input_sample_rate as int;
            &&& m.audio_samples() * rate == 48_000 * h.valid_frames
            &&& m.head.pre_skip * rate == 48_000 * h.priming_frames
            &&& m.sizes.len() == h.packets || h.packets < 0
        }),
{
    let m = open_chunks(source, c)->Ok_0;
    let h = parse_pakt_header(c.pakt->0)->Ok_0;
    let ticks = m.ticks;
    let rate = m.head.input_sample_rate as int;
    assert((h.priming_frames + h.valid_frames) * ticks - h.priming_frames * ticks == h.valid_frames
        * ticks) by (nonlinear_arith);
    assert(rate * ticks == 48_000) by (nonlinear_arith)
        requires
            (ticks == 1 && rate == 48_000) || (ticks == 2 && rate == 24_000) || (ticks == 3 && rate
                == 16_000) || (ticks == 4 && rate == 12_000) || (ticks == 6 && rate == 8_000),
    ;
    assert((h.valid_frames * ticks) * rate == 48_000 * h.valid_frames) by (nonlinear_arith)
        requires
            rate * ticks == 48_000,
    ;
    assert((h.priming_frames * ticks) * rate == 48_000 * h.priming_frames) by (nonlinear_arith)
        requires
            rate * ticks == 48_000,
    ;
    assert(0 <= h.priming_frames * ticks) by (nonlinear_arith)
        requires
            0 <= h.priming_frames,
            1 <= ticks,
    ;
}

} // verus!
