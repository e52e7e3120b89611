//! Ogg pages: the header, the lacing values and the checksum.

use vstd::prelude::*;

use crate::bytes::{
    le_bytes, le_value, lemma_le_bytes_len, lemma_le_round_trip, lemma_pow256_values, push_all,
    push_le, read_le, same_bytes, signed64, to_signed64, to_unsigned64, unsigned64,
};
use crate::error::Error;

verus! {

/// What every page starts with, `OggS`.
pub const CAPTURE_PATTERN: [u8; 4] = [0x4f, 0x67, 0x67, 0x53];

/// Length of a page header up to its segment table.
pub const HEADER_LEN: usize = 27;

/// The most segments a page can have.
pub const MAX_SEGMENTS: usize = 255;

/// The most payload a page can carry.
pub const MAX_PAGE_PAYLOAD: usize = 65_025;

/// The page continues a packet from the page before.
pub const FLAG_CONTINUED: u8 = 1;

/// The page is the first of its stream.
pub const FLAG_BOS: u8 = 2;

/// The page is the last of its stream.
pub const FLAG_EOS: u8 = 4;

/// The checksum register after one more bit, by the generator polynomial
/// `0x04c1_1db7`.
pub open spec fn crc_bit(c: u32) -> u32 {
    if c & 0x8000_0000u32 != 0 {
        (c << 1u32) ^ 0x04c1_1db7u32
    } else {
        c << 1u32
    }
}

/// The checksum register after eight more bits.
pub open spec fn crc_byte(c: u32) -> u32 {
    crc_bit(crc_bit(crc_bit(crc_bit(crc_bit(crc_bit(crc_bit(crc_bit(c))))))))
}

/// The checksum of a byte string, continued from `init`.
pub open spec fn crc_of(s: Seq<u8>, init: u32) -> u32
    decreases s.len(),
{
    if s.len() == 0 {
        init
    } else {
        crc_byte(crc_of(s.drop_last(), init) ^ ((s.last() as u32) << 24u32))
    }
}

/// The checksum of two byte strings in a row.
pub proof fn lemma_crc_concat(a: Seq<u8>, b: Seq<u8>, init: u32)
    ensures
        crc_of(a + b, init) == crc_of(b, crc_of(a, init)),
    decreases b.len(),
{
    if b.len() == 0 {
        assert(a + b =~= a);
    } else {
        assert((a + b).drop_last() =~= a + b.drop_last());
        lemma_crc_concat(a, b.drop_last(), init);
    }
}

/// One more bit into the checksum register.
fn next_bit(c: u32) -> (r: u32)
    ensures
        r == crc_bit(c),
{
    if c & 0x8000_0000u32 != 0 {
        (c << 1u32) ^ 0x04c1_1db7u32
    } else {
        c << 1u32
    }
}

/// The register after eight bits, for every value of its top byte.
fn crc_table() -> (table: Vec<u32>)
    ensures
        table@.len() == 256,
        forall|i: int| 0 <= i < 256 ==> #[trigger] table@[i] == crc_byte((i as u32) << 24u32),
{
    let mut table: Vec<u32> = Vec::with_capacity(256);
    let mut i: u32 = 0;
    while i < 256
        invariant
            i <= 256,
            table@.len() == i,
            forall|k: int| 0 <= k < i ==> #[trigger] table@[k] == crc_byte((k as u32) << 24u32),
        decreases 256 - i,
    {
        let c0: u32 = i << 24u32;
        let c1: u32 = next_bit(next_bit(next_bit(next_bit(c0))));
        table.push(next_bit(next_bit(next_bit(next_bit(c1)))));
        i = i + 1;
    }
    table
}

/// The checksum is linear: the top byte's part and the rest can be taken apart.
proof fn lemma_crc_table_step(x: u32)
    ensures
        crc_byte(x) == (x << 8u32) ^ crc_byte((x >> 24u32) << 24u32),
{
    assert(crc_byte(x) == (x << 8u32) ^ crc_byte((x >> 24u32) << 24u32)) by (bit_vector);
}

/// The checksum of a byte string, continued from `init`.
fn crc_continue(table: &Vec<u32>, bytes: &[u8], init: u32) -> (c: u32)
    requires
        table@.len() == 256,
        forall|i: int| 0 <= i < 256 ==> #[trigger] table@[i] == crc_byte((i as u32) << 24u32),
    ensures
        c == crc_of(bytes@, init),
{
    let mut c: u32 = init;
    let mut i: usize = 0;
    assert(bytes@.subrange(0, 0) =~= Seq::empty());
    while i < bytes.len()
        invariant
            i <= bytes@.len(),
            table@.len() == 256,
            forall|k: int| 0 <= k < 256 ==> #[trigger] table@[k] == crc_byte((k as u32) << 24u32),
            c == crc_of(bytes@.subrange(0, i as int), init),
        decreases bytes@.len() - i,
    {
        let b: u8 = bytes[i];
        let x: u32 = c ^ ((b as u32) << 24u32);
        let top: u32 = x >> 24u32;
        assert(x >> 24u32 < 256) by (bit_vector);
        proof {
            lemma_crc_table_step(x);
            assert(bytes@.subrange(0, i + 1).drop_last() =~= bytes@.subrange(0, i as int));
            assert(table@[top as int] == crc_byte(top << 24u32));
        }
        c = (x << 8u32) ^ table[top as usize];
        i = i + 1;
    }
    assert(bytes@.subrange(0, bytes@.len() as int) =~= bytes@);
    c
}

/// The checksum of a byte string.
pub fn checksum(bytes: &[u8]) -> (c: u32)
    ensures
        c == crc_of(bytes@, 0),
{
    let table = crc_table();
    crc_continue(&table, bytes, 0)
}

/// A page.
#[verifier::ext_equal]
pub struct PageModel {
    /// The header flags.
    pub flags: u8,
    /// The granule position.
    pub granule: i64,
    /// The stream's serial number.
    pub serial: u32,
    /// The page's number in its stream.
    pub sequence: u32,
    /// The lacing values.
    pub segments: Seq<u8>,
    /// The packet data.
    pub payload: Seq<u8>,
}

/// The sum of some lacing values.
pub open spec fn lace_sum(segments: Seq<u8>) -> nat
    decreases segments.len(),
{
    if segments.len() == 0 {
        0
    } else {
        lace_sum(segments.drop_last()) + segments.last() as nat
    }
}

impl PageModel {
    /// Whether the page continues a packet.
    pub open spec fn is_continued(self) -> bool {
        flag_continued(self.flags)
    }

    /// Whether the page is the first.
    pub open spec fn is_bos(self) -> bool {
        flag_bos(self.flags)
    }

    /// Whether the page is the last.
    pub open spec fn is_eos(self) -> bool {
        flag_eos(self.flags)
    }

    /// Whether the lacing values account for the payload.
    pub open spec fn wf(self) -> bool {
        &&& 1 <= self.segments.len() <= MAX_SEGMENTS
        &&& lace_sum(self.segments) == self.payload.len()
    }
}

/// Whether flags say that the page continues a packet.
pub open spec fn flag_continued(flags: u8) -> bool {
    flags % 2 == 1
}

/// Whether flags say that the page is the first.
pub open spec fn flag_bos(flags: u8) -> bool {
    (flags / 2) % 2 == 1
}

/// Whether flags say that the page is the last.
pub open spec fn flag_eos(flags: u8) -> bool {
    (flags / 4) % 2 == 1
}

/// The bytes of a page header, with that checksum in it.
pub open spec fn page_header_bytes(p: PageModel, crc: u32) -> Seq<u8> {
    CAPTURE_PATTERN@ + seq![0u8, p.flags] + le_bytes(unsigned64(p.granule as int), 8) + le_bytes(
        p.serial as nat,
        4,
    ) + le_bytes(p.sequence as nat, 4) + le_bytes(crc as nat, 4) + seq![p.segments.len() as u8]
}

/// The checksum of a page: of all its bytes, with zero where the checksum goes.
pub open spec fn page_crc(p: PageModel) -> u32 {
    crc_of(page_header_bytes(p, 0) + p.segments + p.payload, 0)
}

/// The bytes of a page.
pub open spec fn page_bytes(p: PageModel) -> Seq<u8> {
    page_header_bytes(p, page_crc(p)) + p.segments + p.payload
}

/// A page header is 27 bytes.
pub proof fn lemma_page_header_len(p: PageModel, crc: u32)
    ensures
        page_header_bytes(p, crc).len() == HEADER_LEN,
{
    lemma_le_bytes_len(unsigned64(p.granule as int), 8);
    lemma_le_bytes_len(p.serial as nat, 4);
    lemma_le_bytes_len(p.sequence as nat, 4);
    lemma_le_bytes_len(crc as nat, 4);
}

/// Append the bytes of a page header, with that checksum in it.
fn push_header(
    out: &mut Vec<u8>,
    flags: u8,
    granule: i64,
    serial: u32,
    sequence: u32,
    segments: &[u8],
    crc: u32,
)
    requires
        segments@.len() <= 255,
    ensures
        final(out)@ == old(out)@ + page_header_bytes(
            PageModel {
                flags,
                granule,
                serial,
                sequence,
                segments: segments@,
                payload: Seq::empty(),
            },
            crc,
        ),
{
    push_all(out, &CAPTURE_PATTERN);
    out.push(0);
    out.push(flags);
    push_le(out, to_unsigned64(granule), 8);
    push_le(out, serial as u64, 4);
    push_le(out, sequence as u64, 4);
    push_le(out, crc as u64, 4);
    out.push(segments.len() as u8);
    assert(out@ =~= old(out)@ + page_header_bytes(
        PageModel { flags, granule, serial, sequence, segments: segments@, payload: Seq::empty() },
        crc,
    ));
}

/// Append a page.
pub fn write_page(
    flags: u8,
    granule: i64,
    serial: u32,
    sequence: u32,
    segments: &[u8],
    payload: &[u8],
    out: &mut Vec<u8>,
)
    requires
        segments@.len() <= 255,
    ensures
        final(out)@ == old(out)@ + page_bytes(
            PageModel {
                flags,
                granule,
                serial,
                sequence,
                segments: segments@,
                payload: payload@,
            },
        ),
{
    let ghost page = PageModel {
        flags,
        granule,
        serial,
        sequence,
        segments: segments@,
        payload: payload@,
    };
    let table = crc_table();
    let mut head: Vec<u8> = Vec::with_capacity(HEADER_LEN);
    push_header(&mut head, flags, granule, serial, sequence, segments, 0);
    let c0: u32 = crc_continue(&table, &head, 0);
    let c1: u32 = crc_continue(&table, segments, c0);
    let crc: u32 = crc_continue(&table, payload, c1);
    proof {
        assert(head@ =~= page_header_bytes(page, 0));
        lemma_crc_concat(head@, segments@, 0);
        lemma_crc_concat(head@ + segments@, payload@, 0);
        assert(crc == page_crc(page));
    }
    push_header(out, flags, granule, serial, sequence, segments, crc);
    push_all(out, segments);
    push_all(out, payload);
    assert(out@ =~= old(out)@ + page_bytes(page));
}

/// A page header, as far as a reader uses it.
#[derive(Debug, Clone, Copy, PartialEq, Eq, Structural)]
pub struct PageHeader {
    /// The header flags.
    pub flags: u8,
    /// The granule position.
    pub granule_position: i64,
    /// The stream's serial number.
    pub serial: u32,
    /// The checksum.
    pub crc: u32,
    /// How many segments follow.
    pub segment_count: u8,
}

/// What a page header says, or why it is not one.
pub open spec fn parse_page_header(raw: Seq<u8>) -> Result<PageHeader, Error> {
    if raw.subrange(0, 4) != CAPTURE_PATTERN@ {
        Err(Error::InvalidStream("page has no capture pattern"))
    } else if raw[4] != 0 {
        Err(Error::InvalidStream("unsupported Ogg page version"))
    } else {
        Ok(
            PageHeader {
                flags: raw[5],
                granule_position: signed64(le_value(raw.subrange(6, 14))) as i64,
                serial: le_value(raw.subrange(14, 18)) as u32,
                crc: le_value(raw.subrange(22, 26)) as u32,
                segment_count: raw[26],
            },
        )
    }
}

impl PageHeader {
    /// Read a page header.
    pub fn parse(raw: &[u8]) -> (r: Result<Self, Error>)
        requires
            raw@.len() == HEADER_LEN,
        ensures
            r == parse_page_header(raw@),
    {
        if !same_bytes(&raw[0..4], &CAPTURE_PATTERN) {
            return Err(Error::InvalidStream("page has no capture pattern"));
        }
        if raw[4] != 0 {
            return Err(Error::InvalidStream("unsupported Ogg page version"));
        }
        proof {
            lemma_pow256_values();
        }
        Ok(
            PageHeader {
                flags: raw[5],
                granule_position: to_signed64(read_le(raw, 6, 8)),
                serial: read_le(raw, 14, 4) as u32,
                crc: read_le(raw, 22, 4) as u32,
                segment_count: raw[26],
            },
        )
    }

    /// Whether the page continues a packet from the page before.
    pub fn is_continued(&self) -> (yes: bool)
        ensures
            yes == flag_continued(self.flags),
    {
        self.flags % 2 == 1
    }

    /// Whether the page is the first of its stream.
    pub fn is_bos(&self) -> (yes: bool)
        ensures
            yes == flag_bos(self.flags),
    {
        (self.flags / 2) % 2 == 1
    }

    /// Whether the page is the last of its stream.
    pub fn is_eos(&self) -> (yes: bool)
        ensures
            yes == flag_eos(self.flags),
    {
        (self.flags / 4) % 2 == 1
    }
}

/// A page's bytes with zeros where the checksum goes.
pub open spec fn without_crc(raw: Seq<u8>) -> Seq<u8> {
    raw.subrange(0, 22) + le_bytes(0, 4) + raw.subrange(26, 27)
}

/// Whether a page's checksum is the one its bytes have.
pub open spec fn crc_matches(raw: Seq<u8>, segments: Seq<u8>, payload: Seq<u8>, crc: u32) -> bool {
    crc_of(without_crc(raw) + segments + payload, 0) == crc
}

/// Whether a page's checksum is the one its bytes have.
pub fn verify_crc(raw: &[u8], segments: &[u8], payload: &[u8], crc: u32) -> (ok: bool)
    requires
        raw@.len() == HEADER_LEN,
    ensures
        ok == crc_matches(raw@, segments@, payload@, crc),
{
    let table = crc_table();
    let mut head: Vec<u8> = Vec::with_capacity(HEADER_LEN);
    push_all(&mut head, &raw[0..22]);
    push_le(&mut head, 0, 4);
    push_all(&mut head, &raw[26..27]);
    proof {
        assert(head@ =~= without_crc(raw@));
        lemma_crc_concat(head@, segments@, 0);
        lemma_crc_concat(head@ + segments@, payload@, 0);
    }
    let c0: u32 = crc_continue(&table, &head, 0);
    let c1: u32 = crc_continue(&table, segments, c0);
    crc_continue(&table, payload, c1) == crc
}

/// A page's header reads back, and its checksum matches.
pub proof fn law_page_round_trip(p: PageModel)
    requires
        p.segments.len() <= MAX_SEGMENTS,
    ensures
        ({
            let raw = page_bytes(p).subrange(0, HEADER_LEN as int);
            &&& page_bytes(p).len() == HEADER_LEN + p.segments.len() + p.payload.len()
            &&& parse_page_header(raw) == Ok::<PageHeader, Error>(
                PageHeader {
                    flags: p.flags,
                    granule_position: p.granule,
                    serial: p.serial,
                    crc: page_crc(p),
                    segment_count: p.segments.len() as u8,
                },
            )
            &&& crc_matches(raw, p.segments, p.payload, page_crc(p))
            &&& raw.subrange(0, 4) == CAPTURE_PATTERN@
        }),
{
    let crc = page_crc(p);
    let raw = page_bytes(p).subrange(0, HEADER_LEN as int);
    lemma_page_header_len(p, crc);
    lemma_page_header_len(p, 0);
    let head = page_header_bytes(p, crc);
    assert(raw =~= head);
    lemma_pow256_values();
    lemma_le_round_trip(unsigned64(p.granule as int), 8);
    lemma_le_round_trip(p.serial as nat, 4);
    lemma_le_round_trip(crc as nat, 4);
    lemma_le_bytes_len(p.sequence as nat, 4);
    lemma_le_bytes_len(0, 4);
    assert(head.subrange(0, 4) =~= CAPTURE_PATTERN@);
    assert(head.subrange(6, 14) =~= le_bytes(unsigned64(p.granule as int), 8));
    assert(head.subrange(14, 18) =~= le_bytes(p.serial as nat, 4));
    assert(head.subrange(22, 26) =~= le_bytes(crc as nat, 4));
    assert(without_crc(head) =~= page_header_bytes(p, 0));
}

} // verus!
