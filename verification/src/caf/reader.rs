//! Core Audio Format demuxer.

use vstd::prelude::*;

use crate::bytes::{be_value, read_be, same_bytes, signed64};
use crate::caf::chunk::{
    be_i64, parse_desc, parse_pakt_header, read_varint, varint_from, Desc, PaktHeader,
    CHUNK_HEADER_LEN, DATA_EDIT_COUNT_LEN, DESC_LEN, FILE_HEADER_LEN, MAGIC, PAKT_HEADER_LEN,
    SIZE_TO_END, VERSION,
};
use crate::caf::chunk_type;
use crate::error::{Error, IoError};
use crate::io::{Cursor, CursorModel};
use crate::math::least;
use crate::ogg::header::{plain_head, HeadModel, OpusHead};
use crate::ogg::reader::{read_result, OggPacket, PacketModel};
use crate::packet::{packet_samples, samples_48k};

verus! {

/// The longest a `pakt` chunk is allowed to be before it is read into memory.
///
/// The table is about one byte per packet, so this is well over a year of
/// audio; a file claiming more is corrupt, not long, and the point is that a
/// claimed size is not an allocation until it has been checked against
/// something.
pub const MAX_PAKT_LEN: i64 = 0x1000_0000;

/// The longest an Opus packet can be, in 48 kHz samples.
pub const MAX_PACKET_SAMPLES_48K: u64 = 5760;

/// The bits of 48 000 as an IEEE double.
pub const RATE_48000_BITS: u64 = 0x40e7_7000_0000_0000;

/// The bits of 24 000 as an IEEE double.
pub const RATE_24000_BITS: u64 = 0x40d7_7000_0000_0000;

/// The bits of 16 000 as an IEEE double.
pub const RATE_16000_BITS: u64 = 0x40cf_4000_0000_0000;

/// The bits of 12 000 as an IEEE double.
pub const RATE_12000_BITS: u64 = 0x40c7_7000_0000_0000;

/// The bits of 8 000 as an IEEE double.
pub const RATE_8000_BITS: u64 = 0x40bf_4000_0000_0000;

/// The three chunks a readable file has to have, found by the chunk walk.
#[verifier::ext_equal]
pub struct ChunksModel {
    /// The stream's format.
    pub desc: Option<Desc>,
    /// The packet table's body.
    pub pakt: Option<Seq<u8>>,
    /// Offset of the `data` chunk's body and the number of bytes of packets
    /// in it.
    pub data: Option<(int, int)>,
}

/// What the chunks of `file` from `pos` on add to `found`, or why they cannot
/// be walked. A chunk that occurs again replaces the earlier one.
pub open spec fn walk_from(file: Seq<u8>, pos: int, found: ChunksModel) -> Result<
    ChunksModel,
    Error,
>
    decreases (if pos < file.len() { file.len() - pos } else { 0 }),
{
    if pos >= file.len() {
        Ok(found)
    } else if pos + CHUNK_HEADER_LEN > file.len() {
        Err(Error::InvalidStream("caf file ends inside a chunk header"))
    } else {
        let kind = file.subrange(pos, pos + 4);
        let size = signed64(be_value(file.subrange(pos + 4, pos + 12)));
        let body = pos + CHUNK_HEADER_LEN;
        if size < SIZE_TO_END {
            Err(Error::InvalidStream("caf chunk has a negative size"))
        } else if kind == chunk_type::DESC@ {
            if size != DESC_LEN {
                Err(Error::InvalidStream("caf desc chunk is not 32 bytes"))
            } else if body + DESC_LEN > file.len() {
                Err(Error::InvalidStream("caf file ends inside a chunk"))
            } else {
                match parse_desc(file.subrange(body, body + DESC_LEN)) {
                    Err(e) => Err(e),
                    Ok(desc) => walk_from(
                        file,
                        body + DESC_LEN,
                        ChunksModel { desc: Some(desc), ..found },
                    ),
                }
            }
        } else if kind == chunk_type::PAKT@ {
            if size < PAKT_HEADER_LEN || size > MAX_PAKT_LEN {
                Err(Error::InvalidStream("caf packet table has an impossible size"))
            } else if body + size > file.len() {
                Err(Error::InvalidStream("caf file ends inside a chunk"))
            } else {
                walk_from(
                    file,
                    body + size,
                    ChunksModel {
                        pakt: Some(file.subrange(body, body + size)),
                        ..found
                    },
                )
            }
        } else if kind == chunk_type::DATA@ {
            let len = if size == SIZE_TO_END {
                file.len() - body
            } else {
                size
            };
            if len < DATA_EDIT_COUNT_LEN {
                Err(Error::InvalidStream("caf data chunk is shorter than its edit count"))
            } else {
                let next = ChunksModel {
                    data: Some((body, len - DATA_EDIT_COUNT_LEN)),
                    ..found
                };
                if size == SIZE_TO_END {
                    Ok(next)
                } else {
                    walk_from(file, body + len, next)
                }
            }
        } else if size == SIZE_TO_END {
            Err(Error::InvalidStream("only a caf data chunk may run to the end of the file"))
        } else {
            walk_from(file, body + size, found)
        }
    }
}

/// The chunks of the file at a source's position, or why it is not a file of
/// this kind.
pub open spec fn walk_file(source: CursorModel) -> Result<ChunksModel, Error> {
    let file = source.bytes;
    let pos = source.position as int;
    if source.remaining() < FILE_HEADER_LEN {
        Err(Error::InvalidStream("caf file is shorter than its header"))
    } else if file.subrange(pos, pos + 4) != MAGIC@ {
        Err(Error::InvalidStream("not a caf file: no `caff` signature"))
    } else if be_value(file.subrange(pos + 4, pos + 6)) != VERSION {
        Err(Error::InvalidStream("unsupported caf file version"))
    } else {
        walk_from(
            file,
            pos + FILE_HEADER_LEN,
            ChunksModel { desc: None, pakt: None, data: None },
        )
    }
}

/// The three chunks a readable file has to have, found by the chunk walk.
struct Chunks {
    desc: Option<Desc>,
    pakt: Option<Vec<u8>>,
    /// Offset of the `data` chunk's body and the number of bytes of packets
    /// in it.
    data: Option<(u64, u64)>,
}

impl View for Chunks {
    type V = ChunksModel;

    closed spec fn view(&self) -> ChunksModel {
        ChunksModel {
            desc: self.desc,
            pakt: match self.pakt {
                Some(body) => Some(body@),
                None => None,
            },
            data: match self.data {
                Some((start, len)) => Some((start as int, len as int)),
                None => None,
            },
        }
    }
}

/// Read the file header and every chunk header, collecting the three chunks a
/// stream is made of and skipping the rest.
fn walk_chunks(source: &mut Cursor) -> (r: Result<Chunks, Error>)
    ensures
        match (r, walk_file(old(source)@)) {
            (Ok(chunks), Ok(model)) => chunks@ == model,
            (Err(e), Err(expected)) => e == expected,
            _ => false,
        },
        r matches Ok(chunks) ==> (chunks.data matches Some((body, _)) ==> body
            <= old(source)@.bytes.len()),
        final(source)@.bytes == old(source)@.bytes,
{
    let ghost file = source@.bytes;
    let ghost start = source@.position as int;
    if source.remaining() < FILE_HEADER_LEN {
        return Err(Error::InvalidStream("caf file is shorter than its header"));
    }
    let header = source.take(FILE_HEADER_LEN);
    proof {
        assert(header@.subrange(0, 4) =~= file.subrange(start, start + 4));
        assert(header@.subrange(4, 6) =~= file.subrange(start + 4, start + 6));
    }
    if !same_bytes(&header[0..4], &MAGIC) {
        return Err(Error::InvalidStream("not a caf file: no `caff` signature"));
    }
    if read_be(&header, 4, 2) != VERSION as u64 {
        return Err(Error::InvalidStream("unsupported caf file version"));
    }
    let mut chunks = Chunks { desc: None, pakt: None, data: None };
    assert(chunks@ =~= ChunksModel { desc: None, pakt: None, data: None });
    loop
        invariant_except_break
            source@.bytes == file,
            file == old(source)@.bytes,
            chunks.data matches Some((body, _)) ==> body <= file.len(),
            walk_file(old(source)@) == walk_from(file, source@.position as int, chunks@),
        ensures
            source@.bytes == file,
            chunks.data matches Some((body, _)) ==> body <= file.len(),
            walk_file(old(source)@) == Ok::<ChunksModel, Error>(chunks@),
        decreases source@.remaining(),
    {
        let ghost pos = source@.position as int;
        let ghost before = chunks@;
        let left: usize = source.remaining();
        if left == 0 {
            break;
        }
        if left < CHUNK_HEADER_LEN {
            return Err(Error::InvalidStream("caf file ends inside a chunk header"));
        }
        let raw = source.take(CHUNK_HEADER_LEN);
        let size: i64 = be_i64(&raw[4..12]);
        proof {
            assert(raw@.subrange(0, 4) =~= file.subrange(pos, pos + 4));
            assert(raw@.subrange(4, 12).subrange(0, 8) =~= file.subrange(pos + 4, pos + 12));
        }
        if size < SIZE_TO_END {
            return Err(Error::InvalidStream("caf chunk has a negative size"));
        }
        let kind: &[u8] = &raw[0..4];
        let body: u64 = source.position();
        let left: usize = source.remaining();
        if same_bytes(kind, &chunk_type::DESC) {
            if size != DESC_LEN as i64 {
                return Err(Error::InvalidStream("caf desc chunk is not 32 bytes"));
            }
            if left < DESC_LEN {
                return Err(Error::InvalidStream("caf file ends inside a chunk"));
            }
            let bytes = source.take(DESC_LEN);
            let desc = Desc::parse(&bytes)?;
            chunks.desc = Some(desc);
            assert(chunks@ =~= ChunksModel { desc: Some(desc), ..before });
        } else if same_bytes(kind, &chunk_type::PAKT) {
            if size < PAKT_HEADER_LEN as i64 || size > MAX_PAKT_LEN {
                return Err(Error::InvalidStream("caf packet table has an impossible size"));
            }
            if left < size as usize {
                return Err(Error::InvalidStream("caf file ends inside a chunk"));
            }
            let bytes = source.take(size as usize);
            let ghost table = bytes@;
            chunks.pakt = Some(bytes);
            assert(chunks@ =~= ChunksModel { pakt: Some(table), ..before });
        } else if same_bytes(kind, &chunk_type::DATA) {
            let len: u64 = if size == SIZE_TO_END {
                left as u64
            } else {
                size as u64
            };
            if len < DATA_EDIT_COUNT_LEN as u64 {
                return Err(Error::InvalidStream("caf data chunk is shorter than its edit count"));
            }
            chunks.data = Some((body, len - DATA_EDIT_COUNT_LEN as u64));
            assert(chunks@ =~= ChunksModel {
                data: Some((body as int, len - DATA_EDIT_COUNT_LEN)),
                ..before
            });
            if size == SIZE_TO_END {
                // Runs to the end of the file, so nothing can follow it.
                break;
            }
            source.skip(len);
            assert(len > left ==> walk_from(file, body + len, chunks@) == walk_from(
                file,
                source@.position as int,
                chunks@,
            ));
        } else {
            if size == SIZE_TO_END {
                return Err(
                    Error::InvalidStream("only a caf data chunk may run to the end of the file"),
                );
            }
            source.skip(size as u64);
            assert(size > left ==> walk_from(file, body + size, chunks@) == walk_from(
                file,
                source@.position as int,
                chunks@,
            ));
        }
    }
    Ok(chunks)
}

/// 48 kHz samples per frame at a `desc` sample rate, for the rates Opus runs
/// at. CAF counts frames at the `desc` rate, while an Opus stream's pre-skip
/// and durations are counted at 48 kHz whatever rate the encoder ran at; every
/// rate Opus runs at divides 48 000, so the conversion is exact.
pub open spec fn rate_ticks(sample_rate_bits: u64) -> Option<u64> {
    if sample_rate_bits == RATE_48000_BITS {
        Some(1)
    } else if sample_rate_bits == RATE_24000_BITS {
        Some(2)
    } else if sample_rate_bits == RATE_16000_BITS {
        Some(3)
    } else if sample_rate_bits == RATE_12000_BITS {
        Some(4)
    } else if sample_rate_bits == RATE_8000_BITS {
        Some(6)
    } else {
        None
    }
}

/// 48 kHz samples per frame at a `desc` sample rate. Any rate that Opus does
/// not run at is not an Opus stream.
pub fn ticks_per_frame(sample_rate_bits: u64) -> (r: Result<u64, Error>)
    ensures
        match r {
            Ok(ticks) => rate_ticks(sample_rate_bits) == Some(ticks) && 1 <= ticks <= 6,
            Err(e) => rate_ticks(sample_rate_bits) is None && e == Error::InvalidStream(
                "caf sample rate is not one Opus uses",
            ),
        },
{
    if sample_rate_bits == RATE_48000_BITS {
        Ok(1)
    } else if sample_rate_bits == RATE_24000_BITS {
        Ok(2)
    } else if sample_rate_bits == RATE_16000_BITS {
        Ok(3)
    } else if sample_rate_bits == RATE_12000_BITS {
        Ok(4)
    } else if sample_rate_bits == RATE_8000_BITS {
        Ok(6)
    } else {
        Err(Error::InvalidStream("caf sample rate is not one Opus uses"))
    }
}

/// Where each packet's duration comes from.
///
/// The `desc` chunk either states one frame count for every packet or leaves
/// it to the table, which then states one per packet. A table that states
/// neither is malformed, but FFmpeg writes one when it does not know the frame
/// size, and its packets are still perfectly good Opus: each carries its own
/// duration in its TOC byte, so that is where it is read from.
#[derive(Debug)]
enum Duration {
    Constant(u64),
    PerPacket(Vec<u64>),
    FromPacket,
}

/// What a file says of its packets' durations.
#[verifier::ext_equal]
pub enum DurationModel {
    /// Every packet has this many frames.
    Constant(u64),
    /// One frame count per packet.
    PerPacket(Seq<u64>),
    /// Nothing: the packets say it themselves.
    FromPacket,
}

impl View for Duration {
    type V = DurationModel;

    closed spec fn view(&self) -> DurationModel {
        match self {
            Duration::Constant(frames) => DurationModel::Constant(*frames),
            Duration::PerPacket(frames) => DurationModel::PerPacket(frames@),
            Duration::FromPacket => DurationModel::FromPacket,
        }
    }
}

/// Every packet's size in bytes, in file order.
#[derive(Debug)]
enum Sizes {
    Constant { size: u64, count: usize },
    PerPacket(Vec<u64>),
}

impl View for Sizes {
    type V = Seq<u64>;

    closed spec fn view(&self) -> Seq<u64> {
        match self {
            Sizes::Constant { size, count } => Seq::new(*count as nat, |i: int| *size),
            Sizes::PerPacket(sizes) => sizes@,
        }
    }
}

impl Sizes {
    fn len(&self) -> (n: usize)
        ensures
            n == self@.len(),
    {
        match self {
            Sizes::Constant { size: _, count } => *count,
            Sizes::PerPacket(sizes) => sizes.len(),
        }
    }

    fn get(&self, i: usize) -> (size: u64)
        requires
            i < self@.len(),
        ensures
            size == self@[i as int],
    {
        match self {
            Sizes::Constant { size, count: _ } => *size,
            Sizes::PerPacket(sizes) => sizes[i],
        }
    }
}

/// Reading an integer never moves backwards, and a successful read moves on.
pub proof fn lemma_varint_advances(bytes: Seq<u8>, pos: int, value: nat, groups: nat)
    ensures
        varint_from(bytes, pos, value, groups).1 >= pos,
        varint_from(bytes, pos, value, groups).0 is Ok ==> pos < varint_from(
            bytes,
            pos,
            value,
            groups,
        ).1 <= bytes.len(),
    decreases 10 - groups,
{
    if groups < 10 && pos < bytes.len() {
        let next = (value * 128 + (bytes[pos] as nat) % 128) % 0x1_0000_0000_0000_0000;
        lemma_varint_advances(bytes, pos + 1, next, groups + 1);
    }
}

/// Every integer of a packet table from `pos` on, after those in `read`.
pub open spec fn table_values(table: Seq<u8>, pos: int, read: Seq<u64>) -> Result<Seq<u64>, Error>
    decreases table.len() - pos,
    via table_values_decreases
{
    if pos >= table.len() {
        Ok(read)
    } else {
        match varint_from(table, pos, 0, 0) {
            (Err(e), _) => Err(e),
            (Ok(value), next) => table_values(table, next, read.push(value)),
        }
    }
}

#[via_fn]
proof fn table_values_decreases(table: Seq<u8>, pos: int, read: Seq<u64>) {
    lemma_varint_advances(table, pos, 0, 0);
}

/// The sum of the sizes from the `i`th on, added to `total`, when every one of
/// them is a packet's.
pub open spec fn total_size(sizes: Seq<u64>, i: int, total: int) -> Result<int, Error>
    decreases sizes.len() - i,
{
    if i >= sizes.len() {
        Ok(total)
    } else if sizes[i] == 0 {
        Err(Error::InvalidStream("caf packet table has a zero-length packet"))
    } else if total + sizes[i] > u64::MAX {
        Err(Error::InvalidStream("caf packet sizes overflow"))
    } else {
        total_size(sizes, i + 1, total + sizes[i])
    }
}

/// A packet table: its head, and each packet's size and duration.
#[verifier::ext_equal]
pub struct TableModel {
    /// The counts ahead of the table.
    pub header: PaktHeader,
    /// Every packet's size in bytes, in file order.
    pub sizes: Seq<u64>,
    /// Where each packet's duration comes from.
    pub duration: DurationModel,
}

/// Whether a packet count fits its table: an entry is at least one byte, unless
/// there is no table at all, which only a constant packet size allows, and then
/// the data chunk bounds it instead.
pub open spec fn count_fits(desc: Desc, count: int, table_len: int, data_len: int) -> bool {
    &&& count <= usize::MAX
    &&& if desc.bytes_per_packet != 0 && desc.frames_per_packet != 0 {
        count * desc.bytes_per_packet == data_len
    } else {
        count <= table_len
    }
}

/// The packets' sizes and durations, from the integers of the table: sizes
/// where `desc` does not state one, durations where it does not, and both in
/// turn where it states neither. Where it states neither and there is only one
/// integer for each packet, those are the sizes.
pub open spec fn table_columns(desc: Desc, count: int, values: Seq<u64>) -> Option<
    (Seq<u64>, DurationModel),
> {
    let constant_sizes = Seq::new(count as nat, |i: int| desc.bytes_per_packet as u64);
    if desc.bytes_per_packet != 0 && desc.frames_per_packet != 0 {
        Some((constant_sizes, DurationModel::Constant(desc.frames_per_packet as u64)))
    } else if desc.frames_per_packet != 0 && values.len() == count {
        Some((values, DurationModel::Constant(desc.frames_per_packet as u64)))
    } else if desc.bytes_per_packet != 0 && values.len() == count {
        Some((constant_sizes, DurationModel::PerPacket(values)))
    } else if desc.bytes_per_packet == 0 && desc.frames_per_packet == 0 && values.len() == count
        * 2 {
        Some(
            (
                Seq::new(count as nat, |i: int| values[2 * i]),
                DurationModel::PerPacket(Seq::new(count as nat, |i: int| values[2 * i + 1])),
            ),
        )
    } else if desc.bytes_per_packet == 0 && desc.frames_per_packet == 0 && values.len() == count {
        Some((values, DurationModel::FromPacket))
    } else {
        None
    }
}

/// Whether `frames` frames run over 120 ms.
pub open spec fn over_limit(frames: u64, ticks: int) -> bool {
    frames * ticks > MAX_PACKET_SAMPLES_48K
}

/// Whether any of the counts runs over 120 ms.
pub open spec fn any_over_limit(frames: Seq<u64>, ticks: int) -> bool {
    exists|i: int| 0 <= i < frames.len() && #[trigger] over_limit(frames[i], ticks)
}

/// Whether the table claims a packet over 120 ms.
pub open spec fn claims_too_long(sizes: Seq<u64>, duration: DurationModel, ticks: int) -> bool {
    match duration {
        DurationModel::Constant(frames) => sizes.len() > 0 && over_limit(frames, ticks),
        DurationModel::PerPacket(frames) => any_over_limit(frames, ticks),
        DurationModel::FromPacket => false,
    }
}

/// What a packet table says, checked against the `desc` chunk that decides its
/// shape and the `data` chunk it has to account for.
pub open spec fn packet_table(desc: Desc, pakt: Seq<u8>, data_len: int, ticks: int) -> Result<
    TableModel,
    Error,
> {
    match parse_pakt_header(pakt) {
        Err(e) => Err(e),
        Ok(header) => {
            let table = pakt.subrange(PAKT_HEADER_LEN as int, pakt.len() as int);
            let count = header.packets as int;
            if header.packets < 0 || header.valid_frames < 0 || header.priming_frames < 0
                || header.remainder_frames < 0 {
                Err(Error::InvalidStream("caf packet table has a negative count"))
            } else if !count_fits(desc, count, table.len() as int, data_len) {
                Err(Error::InvalidStream("caf packet count does not fit its table"))
            } else {
                match table_values(table, 0, Seq::empty()) {
                    Err(e) => Err(e),
                    Ok(values) => match table_columns(desc, count, values) {
                        None => Err(
                            Error::InvalidStream(
                                "caf packet table does not match the packet count",
                            ),
                        ),
                        Some((sizes, duration)) => match total_size(sizes, 0, 0) {
                            Err(e) => Err(e),
                            Ok(total) => if total != data_len {
                                Err(
                                    Error::InvalidStream(
                                        "caf packet table does not account for the data chunk",
                                    ),
                                )
                            } else if claims_too_long(sizes, duration, ticks) {
                                Err(
                                    Error::InvalidStream(
                                        "caf packet table claims a packet over 120 ms",
                                    ),
                                )
                            } else {
                                Ok(TableModel { header, sizes, duration })
                            },
                        },
                    },
                }
            }
        },
    }
}

/// Every integer of a packet table.
fn read_table(table: &[u8]) -> (r: Result<Vec<u64>, Error>)
    ensures
        match (r, table_values(table@, 0, Seq::empty())) {
            (Ok(values), Ok(model)) => values@ == model,
            (Err(e), Err(expected)) => e == expected,
            _ => false,
        },
{
    let mut values: Vec<u64> = Vec::new();
    let mut pos: usize = 0;
    assert(values@ =~= Seq::empty());
    while pos < table.len()
        invariant
            pos <= table@.len(),
            table_values(table@, 0, Seq::empty()) == table_values(table@, pos as int, values@),
        decreases table@.len() - pos,
    {
        proof {
            lemma_varint_advances(table@, pos as int, 0, 0);
        }
        let value: u64 = read_varint(table, &mut pos)?;
        values.push(value);
    }
    Ok(values)
}

/// The sizes of `n` equal packets never fail their check, and add up.
proof fn lemma_equal_sizes(sizes: Seq<u64>, size: u64, i: int, total: int)
    requires
        size > 0,
        0 <= i <= sizes.len(),
        forall|k: int| 0 <= k < sizes.len() ==> sizes[k] == size,
        0 <= total,
        total + (sizes.len() - i) * size <= u64::MAX,
    ensures
        total_size(sizes, i, total) == Ok::<int, Error>(total + (sizes.len() - i) * size),
    decreases sizes.len() - i,
{
    if i == sizes.len() {
        assert((sizes.len() - i) * size == 0) by (nonlinear_arith)
            requires
                i == sizes.len(),
        ;
    } else {
        assert((sizes.len() - i) * size == size + (sizes.len() - (i + 1)) * size)
            by (nonlinear_arith);
        assert((sizes.len() - (i + 1)) * size >= 0) by (nonlinear_arith)
            requires
                i < sizes.len(),
                size > 0,
        ;
        lemma_equal_sizes(sizes, size, i + 1, total + size);
    }
}

/// Sizes that pass their check are all of packets with something in them.
pub proof fn lemma_sizes_positive(sizes: Seq<u64>, i: int, total: int)
    requires
        0 <= i,
        total_size(sizes, i, total) is Ok,
    ensures
        forall|k: int| i <= k < sizes.len() ==> sizes[k] > 0,
    decreases sizes.len() - i,
{
    if i < sizes.len() {
        lemma_sizes_positive(sizes, i + 1, total + sizes[i]);
    }
}

/// The sum of the sizes, when every one of them is a packet's.
fn sum_sizes(sizes: &Vec<u64>) -> (r: Result<u64, Error>)
    ensures
        match (r, total_size(sizes@, 0, 0)) {
            (Ok(total), Ok(model)) => total == model,
            (Err(e), Err(expected)) => e == expected,
            _ => false,
        },
{
    let mut total: u64 = 0;
    let mut i: usize = 0;
    while i < sizes.len()
        invariant
            i <= sizes@.len(),
            total_size(sizes@, 0, 0) == total_size(sizes@, i as int, total as int),
        decreases sizes@.len() - i,
    {
        let size: u64 = sizes[i];
        if size == 0 {
            return Err(Error::InvalidStream("caf packet table has a zero-length packet"));
        }
        if total > u64::MAX - size {
            return Err(Error::InvalidStream("caf packet sizes overflow"));
        }
        total = total + size;
        i = i + 1;
    }
    Ok(total)
}

/// Whether a packet of `frames` frames runs over 120 ms.
fn too_long(frames: u64, ticks: u64) -> (yes: bool)
    ensures
        yes == over_limit(frames, ticks as int),
{
    match frames.checked_mul(ticks) {
        Some(samples) => samples > MAX_PACKET_SAMPLES_48K,
        None => true,
    }
}

/// Whether any of the counts runs over 120 ms.
fn any_over(frames: &Vec<u64>, ticks: u64) -> (yes: bool)
    ensures
        yes == any_over_limit(frames@, ticks as int),
{
    let mut i: usize = 0;
    while i < frames.len()
        invariant
            i <= frames@.len(),
            forall|k: int| 0 <= k < i ==> !#[trigger] over_limit(frames@[k], ticks as int),
        decreases frames@.len() - i,
    {
        if too_long(frames[i], ticks) {
            return true;
        }
        i = i + 1;
    }
    false
}

/// Whether the table claims a packet over 120 ms.
fn any_too_long(sizes: &Sizes, duration: &Duration, ticks: u64) -> (yes: bool)
    ensures
        yes == claims_too_long(sizes@, duration@, ticks as int),
{
    match duration {
        Duration::Constant(frames) => sizes.len() > 0 && too_long(*frames, ticks),
        Duration::PerPacket(frames) => any_over(frames, ticks),
        Duration::FromPacket => false,
    }
}

/// Every second entry of `values`, from the one at `first`.
fn every_second(values: &Vec<u64>, first: usize, count: usize) -> (out: Vec<u64>)
    requires
        first <= 1,
        values@.len() == count * 2,
    ensures
        out@ == Seq::new(count as nat, |i: int| values@[2 * i + first]),
{
    let mut out: Vec<u64> = Vec::new();
    let mut i: usize = 0;
    assert(values.len() == count * 2);
    while i < count
        invariant
            i <= count,
            first <= 1,
            count * 2 <= usize::MAX,
            values@.len() == count * 2,
            out@ == Seq::new(i as nat, |k: int| values@[2 * k + first]),
        decreases count - i,
    {
        out.push(values[2 * i + first]);
        i = i + 1;
        assert(out@ =~= Seq::new(i as nat, |k: int| values@[2 * k + first]));
    }
    out
}

/// The packet table, checked against the `desc` chunk that decides its shape
/// and the `data` chunk it has to account for.
fn parse_packet_table(desc: &Desc, pakt: &[u8], data_len: u64, ticks: u64) -> (r: Result<
    (PaktHeader, Sizes, Duration),
    Error,
>)
    ensures
        match (r, packet_table(*desc, pakt@, data_len as int, ticks as int)) {
            (Ok((header, sizes, duration)), Ok(model)) => {
                &&& header == model.header
                &&& sizes@ == model.sizes
                &&& duration@ == model.duration
            },
            (Err(e), Err(expected)) => e == expected,
            _ => false,
        },
{
    let header = PaktHeader::parse(pakt)?;
    if header.packets < 0 || header.valid_frames < 0 || header.priming_frames < 0
        || header.remainder_frames < 0 {
        return Err(Error::InvalidStream("caf packet table has a negative count"));
    }
    let table: &[u8] = &pakt[PAKT_HEADER_LEN..pakt.len()];
    let packets: u64 = header.packets as u64;
    if packets > usize::MAX as u64 {
        return Err(Error::InvalidStream("caf packet count does not fit its table"));
    }
    let count: usize = packets as usize;
    let fits: bool = if desc.bytes_per_packet != 0 && desc.frames_per_packet != 0 {
        match packets.checked_mul(desc.bytes_per_packet as u64) {
            Some(total) => total == data_len,
            None => false,
        }
    } else {
        count <= table.len()
    };
    if !fits {
        return Err(Error::InvalidStream("caf packet count does not fit its table"));
    }
    let values = read_table(table)?;
    let ghost model = table_columns(*desc, count as int, values@);

    let sized: bool = desc.bytes_per_packet != 0;
    let timed: bool = desc.frames_per_packet != 0;
    let constant_sizes = Sizes::Constant { size: desc.bytes_per_packet as u64, count };
    let constant_frames = Duration::Constant(desc.frames_per_packet as u64);
    assert(constant_sizes@ =~= Seq::new(count as nat, |i: int| desc.bytes_per_packet as u64));
    let (sizes, duration, total): (Sizes, Duration, u64) = if sized && timed {
        proof {
            lemma_equal_sizes(constant_sizes@, desc.bytes_per_packet as u64, 0, 0);
        }
        (constant_sizes, constant_frames, data_len)
    } else if timed && values.len() == count {
        let total: u64 = sum_sizes(&values)?;
        (Sizes::PerPacket(values), constant_frames, total)
    } else if sized && values.len() == count {
        let sizes: Vec<u64> = vec![desc.bytes_per_packet as u64; count];
        assert(sizes@ =~= constant_sizes@);
        let total: u64 = sum_sizes(&sizes)?;
        (constant_sizes, Duration::PerPacket(values), total)
    } else if !sized && !timed && values.len() / 2 == count && values.len() % 2 == 0 {
        let sizes = every_second(&values, 0, count);
        let frames = every_second(&values, 1, count);
        assert(sizes@ =~= Seq::new(count as nat, |i: int| values@[2 * i]));
        let total: u64 = sum_sizes(&sizes)?;
        (Sizes::PerPacket(sizes), Duration::PerPacket(frames), total)
    } else if !sized && !timed && values.len() == count {
        let total: u64 = sum_sizes(&values)?;
        (Sizes::PerPacket(values), Duration::FromPacket, total)
    } else {
        return Err(Error::InvalidStream("caf packet table does not match the packet count"));
    };
    if total != data_len {
        return Err(Error::InvalidStream("caf packet table does not account for the data chunk"));
    }
    if any_too_long(&sizes, &duration, ticks) {
        return Err(Error::InvalidStream("caf packet table claims a packet over 120 ms"));
    }
    Ok((header, sizes, duration))
}

/// A file being read: the source, what the headers said, and how far the
/// packets have been read.
#[verifier::ext_equal]
pub struct CafReaderModel {
    /// The file, positioned at the next packet.
    pub source: CursorModel,
    /// The stream's identification header, as an Ogg file would carry it.
    pub head: HeadModel,
    /// Every packet's size in bytes, in file order.
    pub sizes: Seq<u64>,
    /// Where each packet's duration comes from.
    pub duration: DurationModel,
    /// Index of the next packet.
    pub next: int,
    /// 48 kHz samples decodable through the packets read so far.
    pub granule: int,
    /// The file's own word on where the audio ends.
    pub final_granule: int,
    /// 48 kHz samples per frame at the `desc` chunk's rate.
    pub ticks: int,
}

/// The rate that a `desc` chunk's rate counts down from 48 kHz to.
pub open spec fn ticks_rate(ticks: int) -> u32 {
    if ticks == 1 {
        48_000
    } else if ticks == 2 {
        24_000
    } else if ticks == 3 {
        16_000
    } else if ticks == 4 {
        12_000
    } else {
        8_000
    }
}

/// The reader of a file whose three chunks were found, or what is wrong with
/// them. The packets start after the `data` chunk's edit count, which may be
/// beyond the end of the file.
pub open spec fn open_chunks(source: CursorModel, chunks: ChunksModel) -> Result<
    CafReaderModel,
    Error,
> {
    if chunks.desc is None {
        Err(Error::InvalidStream("caf file has no desc chunk"))
    } else if chunks.pakt is None {
        Err(Error::InvalidStream("caf file has no packet table"))
    } else if chunks.data is None {
        Err(Error::InvalidStream("caf file has no data chunk"))
    } else {
        let desc = chunks.desc->0;
        let (body, data_len) = chunks.data->0;
        if rate_ticks(desc.sample_rate_bits) is None {
            Err(Error::InvalidStream("caf sample rate is not one Opus uses"))
        } else if desc.channels != 1 && desc.channels != 2 {
            Err(Error::InvalidStream("caf Opus with more than two channels is not supported"))
        } else {
            let ticks = rate_ticks(desc.sample_rate_bits)->0 as int;
            match packet_table(desc, chunks.pakt->0, data_len, ticks) {
                Err(e) => Err(e),
                Ok(table) => {
                    let pre_skip = table.header.priming_frames * ticks;
                    let final_granule = (table.header.priming_frames + table.header.valid_frames)
                        * ticks;
                    if pre_skip > u16::MAX {
                        Err(Error::InvalidStream("caf priming frames exceed what Opus allows"))
                    } else if final_granule > i64::MAX {
                        Err(Error::InvalidStream("caf frame counts overflow"))
                    } else {
                        let start = body + DATA_EDIT_COUNT_LEN;
                        Ok(
                            CafReaderModel {
                                source: source.at(least(start, u64::MAX as int) as nat),
                                head: HeadModel {
                                    pre_skip: pre_skip as u16,
                                    ..plain_head(desc.channels as u8, ticks_rate(ticks))
                                },
                                sizes: table.sizes,
                                duration: table.duration,
                                next: 0,
                                granule: 0,
                                final_granule,
                                ticks,
                            },
                        )
                    }
                },
            }
        }
    }
}

/// The reader of the file at a source's position, or why there is none.
pub open spec fn open_caf(source: CursorModel) -> Result<CafReaderModel, Error> {
    match walk_file(source) {
        Err(e) => Err(e),
        Ok(chunks) => open_chunks(source, chunks),
    }
}

/// What the `i`th packet decodes to as far as the file knows, in 48 kHz samples.
/// A packet that cannot describe itself will not decode either; it advances
/// nothing.
pub open spec fn stated_samples(duration: DurationModel, i: int, ticks: int, data: Seq<u8>) -> int {
    match duration {
        DurationModel::Constant(frames) => frames * ticks,
        DurationModel::PerPacket(frames) => frames[i] * ticks,
        DurationModel::FromPacket => match packet_samples(data) {
            Ok(samples) => samples,
            Err(_) => 0,
        },
    }
}

/// `a + b`, held at the largest 64-bit signed value.
pub open spec fn saturating_granule(a: int, b: int) -> int {
    if a + b > i64::MAX {
        i64::MAX as int
    } else {
        a + b
    }
}

/// What reading the next packet gives, and the reader afterwards. The last
/// packet reports the file's own count of where the audio ends rather than the
/// running total, which is how the end padding is stated. A packet that the
/// file ends inside is reported once, and the stream is then over.
pub open spec fn next_caf_packet(m: CafReaderModel) -> (
    Result<Option<PacketModel>, Error>,
    CafReaderModel,
) {
    if m.next >= m.sizes.len() {
        (Ok(None), m)
    } else if m.sizes[m.next] > m.source.remaining() {
        (Err(Error::Io(IoError::UnexpectedEof)), CafReaderModel { next: m.sizes.len() as int, ..m })
    } else {
        let size = m.sizes[m.next] as nat;
        let data = m.source.ahead(size);
        let last = m.next + 1 == m.sizes.len();
        let granule = if last {
            m.final_granule
        } else {
            saturating_granule(m.granule, stated_samples(m.duration, m.next, m.ticks, data))
        };
        (
            Ok(Some(PacketModel { data, page_granule: granule, end_of_stream: last })),
            CafReaderModel {
                source: m.source.at(m.source.position + size),
                next: m.next + 1,
                granule,
                ..m
            },
        )
    }
}

/// Reads Opus packets out of a Core Audio Format file.
///
/// The constructor reads every chunk header, so [`head`](Self::head) is
/// available immediately and [`read_packet`](Self::read_packet) yields audio
/// from the first call. The packets come back as [`OggPacket`]s, with
/// `page_granule` the 48 kHz sample count the file says is decodable through
/// that packet and `end_of_stream` set on the last.
///
/// # Why the source has a position
///
/// A CAF file's packet table is a chunk of its own, and nothing fixes where it
/// sits: Apple's recorder writes it ahead of the audio and FFmpeg writes it
/// after, once it knows every packet's size. Opus packets are not
/// self-delimiting, so without the table there is no telling where one ends
/// and the next begins.
///
/// # Reading forward
///
/// Packets are read in order from the first. Playing a file again means
/// starting over: take the source back with [`into_inner`](Self::into_inner)
/// and construct a new reader.
#[derive(Debug)]
pub struct CafOpusReader {
    source: Cursor,
    head: OpusHead,
    sizes: Sizes,
    duration: Duration,
    next: usize,
    granule: i64,
    final_granule: i64,
    ticks: u64,
}

impl View for CafOpusReader {
    type V = CafReaderModel;

    closed spec fn view(&self) -> CafReaderModel {
        CafReaderModel {
            source: self.source@,
            head: self.head@,
            sizes: self.sizes@,
            duration: self.duration@,
            next: self.next as int,
            granule: self.granule as int,
            final_granule: self.final_granule as int,
            ticks: self.ticks as int,
        }
    }
}

impl CafReaderModel {
    /// Samples of audio, at 48 kHz.
    pub open spec fn audio_samples(self) -> int {
        self.final_granule - self.head.pre_skip
    }

    /// What holds of every reader: the counts are in range, the table states a
    /// duration for every packet that it states any for, and none is over
    /// 120 ms.
    pub open spec fn wf(self) -> bool {
        &&& 0 <= self.next <= self.sizes.len()
        &&& 0 <= self.granule <= i64::MAX
        &&& self.head.pre_skip <= self.final_granule <= i64::MAX
        &&& 1 <= self.ticks <= 6
        &&& forall|i: int| 0 <= i < self.sizes.len() ==> self.sizes[i] > 0
        &&& self.duration matches DurationModel::PerPacket(frames) ==> frames.len()
            == self.sizes.len()
        &&& !claims_too_long(self.sizes, self.duration, self.ticks)
    }
}

impl CafOpusReader {
    /// What holds of every reader.
    pub open spec fn wf(&self) -> bool {
        self@.wf()
    }

    /// Read the file's chunk headers and position the reader at the first
    /// packet.
    ///
    /// The file is checked for consistency before anything is returned: the
    /// packet table has to account for exactly the bytes in the `data` chunk,
    /// and every count in it has to be one Opus can honour.
    pub fn new(source: Cursor) -> (r: Result<Self, Error>)
        ensures
            match (r, open_caf(source@)) {
                (Ok(reader), Ok(model)) => reader@ == model && reader.wf(),
                (Err(e), Err(expected)) => e == expected,
                _ => false,
            },
    {
        let mut source = source;
        let chunks = walk_chunks(&mut source)?;
        let desc = match chunks.desc {
            Some(desc) => desc,
            None => return Err(Error::InvalidStream("caf file has no desc chunk")),
        };
        let pakt = match chunks.pakt {
            Some(pakt) => pakt,
            None => return Err(Error::InvalidStream("caf file has no packet table")),
        };
        let (body, data_len) = match chunks.data {
            Some((body, data_len)) => (body, data_len),
            None => return Err(Error::InvalidStream("caf file has no data chunk")),
        };

        let ticks: u64 = ticks_per_frame(desc.sample_rate_bits)?;
        if desc.channels != 1 && desc.channels != 2 {
            return Err(
                Error::InvalidStream("caf Opus with more than two channels is not supported"),
            );
        }
        let (header, sizes, duration) = parse_packet_table(&desc, &pakt, data_len, ticks)?;

        let priming: u64 = header.priming_frames as u64;
        assert(priming * ticks <= 0x7fff_ffff * 6) by (nonlinear_arith)
            requires
                priming <= 0x7fff_ffff,
                ticks <= 6,
        ;
        let pre_skip: u64 = priming * ticks;
        if pre_skip > u16::MAX as u64 {
            return Err(Error::InvalidStream("caf priming frames exceed what Opus allows"));
        }
        let frames: u64 = priming + header.valid_frames as u64;
        let final_granule: u64 = match frames.checked_mul(ticks) {
            Some(granule) => granule,
            None => return Err(Error::InvalidStream("caf frame counts overflow")),
        };
        if final_granule > i64::MAX as u64 {
            return Err(Error::InvalidStream("caf frame counts overflow"));
        }
        let rate: u32 = if ticks == 1 {
            48_000
        } else if ticks == 2 {
            24_000
        } else if ticks == 3 {
            16_000
        } else if ticks == 4 {
            12_000
        } else {
            8_000
        };
        let mut head = OpusHead::new(desc.channels as u8, rate)?;
        head.pre_skip = pre_skip as u16;

        proof {
            let table = packet_table(desc, pakt@, data_len as int, ticks as int)->Ok_0;
            lemma_sizes_positive(table.sizes, 0, 0);
            assert(pre_skip <= final_granule) by (nonlinear_arith)
                requires
                    pre_skip == priming * ticks,
                    final_granule == frames * ticks,
                    priming <= frames,
            ;
        }
        source.set_position(body.saturating_add(DATA_EDIT_COUNT_LEN as u64));
        Ok(
            CafOpusReader {
                source,
                head,
                sizes,
                duration,
                next: 0,
                granule: 0,
                final_granule: final_granule as i64,
                ticks,
            },
        )
    }

    /// The stream's identification header, as an Ogg file would carry it.
    ///
    /// Built from the file: the channel count and sample rate from `desc`, and
    /// the pre-skip from the packet table's priming frames. It is what
    /// [`OggOpusWriter`](crate::ogg::writer::OggOpusWriter) wants when the
    /// packets are being remuxed.
    pub fn head(&self) -> (head: &OpusHead)
        ensures
            head@ == self@.head,
    {
        &self.head
    }

    /// How many packets the file holds.
    pub fn packet_count(&self) -> (n: usize)
        ensures
            n == self@.sizes.len(),
    {
        self.sizes.len()
    }

    /// The samples of audio the file declares, at 48 kHz, after the pre-skip
    /// and the end padding have been taken off: the packet table's valid
    /// frames.
    ///
    /// Known before a packet has been read, which an Ogg file cannot say
    /// without reading to its end.
    pub fn audio_samples_48k(&self) -> (n: u64)
        requires
            self.wf(),
        ensures
            n == self@.audio_samples(),
    {
        (self.final_granule as u64).saturating_sub(self.head.pre_skip as u64)
    }

    /// The next packet, or `None` after the last.
    pub fn read_packet(&mut self) -> (r: Result<Option<OggPacket>, Error>)
        requires
            old(self).wf(),
        ensures
            (read_result(r), final(self)@) == next_caf_packet(old(self)@),
            final(self).wf(),
    {
        if self.next >= self.sizes.len() {
            return Ok(None);
        }
        let size: u64 = self.sizes.get(self.next);
        if size > self.source.remaining() as u64 {
            // Nothing can be read on from here: the error is reported once and
            // the stream is over, as an Ogg stream cut mid-packet is.
            self.next = self.sizes.len();
            return Err(Error::Io(IoError::UnexpectedEof));
        }
        let ghost before = self@;
        let data = self.source.take(size as usize);

        proof {
            if let DurationModel::PerPacket(frames) = before.duration {
                assert(!over_limit(frames[before.next], before.ticks));
            }
        }
        let samples: u64 = match &self.duration {
            Duration::Constant(frames) => *frames * self.ticks,
            Duration::PerPacket(frames) => frames[self.next] * self.ticks,
            Duration::FromPacket => match samples_48k(&data) {
                Ok(samples) => samples as u64,
                Err(_) => 0,
            },
        };
        self.next = self.next + 1;
        let last: bool = self.next == self.sizes.len();
        self.granule = if last {
            self.final_granule
        } else if self.granule > i64::MAX - samples as i64 {
            i64::MAX
        } else {
            self.granule + samples as i64
        };
        Ok(Some(OggPacket::new(data, self.granule, last)))
    }

    /// The remaining packets, one by one.
    ///
    /// The same packets [`read_packet`](Self::read_packet) yields; the walk ends
    /// at the first error as well as after the last packet, so a truncated file
    /// stops rather than looping.
    pub fn packets(&mut self) -> (packets: Packets<'_>)
        ensures
            *packets.reader == *old(self),
            !packets.done,
            *final(self) == *final(packets.reader),
    {
        Packets { reader: self, done: false }
    }

    /// The underlying source, giving up the ability to read further packets.
    pub fn into_inner(self) -> (source: Cursor)
        ensures
            source@ == self@.source,
    {
        self.source
    }

    /// The underlying source.
    pub fn get_ref(&self) -> (source: &Cursor)
        ensures
            source@ == self@.source,
    {
        &self.source
    }
}

/// What polling for the next packet gives, the reader afterwards, and whether
/// polling is over. It ends at the first error as well as after the last
/// packet.
pub open spec fn poll_caf(m: CafReaderModel, done: bool) -> (
    Option<Result<PacketModel, Error>>,
    CafReaderModel,
    bool,
) {
    if done {
        (None, m, true)
    } else {
        match next_caf_packet(m) {
            (Ok(Some(packet)), next) => (Some(Ok(packet)), next, false),
            (Ok(None), next) => (None, next, true),
            (Err(e), next) => (Some(Err(e)), next, true),
        }
    }
}

/// Walks a [`CafOpusReader`]'s remaining packets, from
/// [`CafOpusReader::packets`].
#[derive(Debug)]
pub struct Packets<'a> {
    /// The reader the packets come from.
    pub reader: &'a mut CafOpusReader,
    /// Set once the file has ended or errored, so a caller who keeps polling
    /// gets `None` rather than the same error for ever.
    pub done: bool,
}

impl<'a> Packets<'a> {
    /// The next packet or the error in its place, or `None` when there is none.
    pub fn next(&mut self) -> (r: Option<Result<OggPacket, Error>>)
        requires
            old(self).reader.wf(),
        ensures
            (polled(r), final(self).reader@, final(self).done) == poll_caf(
                old(self).reader@,
                old(self).done,
            ),
            final(self).reader.wf(),
            *final(final(self).reader) == *final(old(self).reader),
    {
        if self.done {
            return None;
        }
        match self.reader.read_packet() {
            Ok(Some(packet)) => Some(Ok(packet)),
            Ok(None) => {
                self.done = true;
                None
            },
            Err(e) => {
                self.done = true;
                Some(Err(e))
            },
        }
    }
}

/// What a poll came back with, packets taken by their contents.
pub open spec fn polled(r: Option<Result<OggPacket, Error>>) -> Option<Result<PacketModel, Error>> {
    match r {
        Some(Ok(packet)) => Some(Ok(packet@)),
        Some(Err(e)) => Some(Err(e)),
        None => None,
    }
}

} // verus!
