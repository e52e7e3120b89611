//! What a reader makes of bytes that are no page: it finds the stream behind
//! them, and loses nothing of it.

use vstd::prelude::*;

use crate::error::Error;
use crate::io::CursorModel;
use crate::ogg::header::{parse_head, parse_tags};
use crate::ogg::page::{lace_sum, parse_page_header, CAPTURE_PATTERN, HEADER_LEN};
use crate::ogg::reader::{
    fresh_reader, lemma_page_advances, next_header, next_packet, open_ogg, read_page_body,
    read_page_step, resync, OggReaderModel, PacketModel, RESYNC_LIMIT,
};
use crate::ogg::round_trip::after_reads;

verus! {

/// The same place in the same bytes behind others.
pub open spec fn behind(g: Seq<u8>, c: CursorModel) -> CursorModel {
    CursorModel { bytes: g + c.bytes, position: g.len() + c.position }
}

/// The same reader, of the same stream behind other bytes.
pub open spec fn reader_behind(g: Seq<u8>, m: OggReaderModel) -> OggReaderModel {
    OggReaderModel { source: behind(g, m.source), ..m }
}

/// What lies ahead does not depend on what lies behind.
proof fn lemma_ahead(g: Seq<u8>, c: CursorModel, n: nat)
    ensures
        behind(g, c).remaining() == c.remaining(),
        c.position + n <= c.bytes.len() ==> behind(g, c).ahead(n) == c.ahead(n),
        behind(g, c.at(c.position + n)) == behind(g, c).at(behind(g, c).position + n),
        behind(g, c.at(c.bytes.len())) == behind(g, c).at(behind(g, c).bytes.len()),
{
    if c.position + n <= c.bytes.len() {
        assert(behind(g, c).ahead(n) =~= c.ahead(n));
    }
}

/// A part of bytes is where it was behind others.
proof fn lemma_part_behind(g: Seq<u8>, b: Seq<u8>, from: int, to: int)
    requires
        0 <= from <= to <= b.len(),
    ensures
        (g + b).subrange(g.len() + from, g.len() + to) == b.subrange(from, to),
{
    assert((g + b).subrange(g.len() + from, g.len() + to) =~= b.subrange(from, to));
}

/// Looking for a page finds the same behind other bytes.
proof fn lemma_resync_behind(g: Seq<u8>, b: Seq<u8>, at: int, left: nat)
    requires
        0 <= at,
    ensures
        resync(g + b, g.len() + at, left).0 == resync(b, at, left).0,
        resync(g + b, g.len() + at, left).1 == behind(g, resync(b, at, left).1),
    decreases left,
{
    if left > 0 && at + 1 + HEADER_LEN <= b.len() {
        lemma_part_behind(g, b, at + 1, at + 5);
        lemma_part_behind(g, b, at + 1, at + 1 + HEADER_LEN);
        lemma_resync_behind(g, b, at + 1, (left - 1) as nat);
    }
}

/// The next page header is the same behind other bytes.
proof fn lemma_header_behind(g: Seq<u8>, c: CursorModel)
    ensures
        next_header(behind(g, c)).0 == next_header(c).0,
        next_header(behind(g, c)).1 == behind(g, next_header(c).1),
{
    lemma_ahead(g, c, HEADER_LEN as nat);
    if c.remaining() >= HEADER_LEN {
        let at = c.position as int;
        lemma_part_behind(g, c.bytes, at, at + 4);
        lemma_resync_behind(g, c.bytes, at, RESYNC_LIMIT as nat);
    }
}

/// The rest of a page is the same behind other bytes.
proof fn lemma_body_behind(g: Seq<u8>, m: OggReaderModel, raw: Seq<u8>)
    ensures
        read_page_body(reader_behind(g, m), raw).0 == read_page_body(m, raw).0,
        read_page_body(reader_behind(g, m), raw).1 == reader_behind(g, read_page_body(m, raw).1),
{
    if let Ok(header) = parse_page_header(raw) {
        let count = header.segment_count as nat;
        let segments = m.source.ahead(count);
        let next = m.source.at(m.source.position + count);
        lemma_ahead(g, m.source, count);
        lemma_ahead(g, next, lace_sum(segments));
        if count > 0 && m.source.remaining() >= count {
            assert(behind(g, m.source).ahead(count) == segments);
        }
    }
}

/// Reading a page is the same behind other bytes.
proof fn lemma_page_behind(g: Seq<u8>, m: OggReaderModel)
    ensures
        read_page_step(reader_behind(g, m)).0 == read_page_step(m).0,
        read_page_step(reader_behind(g, m)).1 == reader_behind(g, read_page_step(m).1),
{
    lemma_header_behind(g, m.source);
    let (found, source) = next_header(m.source);
    let m1 = OggReaderModel { source, ..m };
    assert(reader_behind(g, m1) == OggReaderModel {
        source: behind(g, source),
        ..reader_behind(g, m)
    });
    if let Ok(Some(raw)) = found {
        lemma_body_behind(g, m1, raw);
    }
}

/// The next packet is the same behind other bytes.
proof fn lemma_packet_behind(g: Seq<u8>, m: OggReaderModel)
    ensures
        next_packet(reader_behind(g, m)).0 == next_packet(m).0,
        next_packet(reader_behind(g, m)).1 == reader_behind(g, next_packet(m).1),
    decreases m.reading_left(),
{
    if m.ready.len() == 0 && !m.saw_eos && !m.exhausted {
        lemma_page_behind(g, m);
        lemma_page_advances(m);
        let (read, next) = read_page_step(m);
        if read is Ok {
            lemma_packet_behind(g, next);
        }
    }
}

/// All packets are the same behind other bytes.
proof fn lemma_reads_behind(g: Seq<u8>, m: OggReaderModel, k: int)
    ensures
        after_reads(reader_behind(g, m), k) == reader_behind(g, after_reads(m, k)),
        next_packet(after_reads(reader_behind(g, m), k)).0 == next_packet(after_reads(m, k)).0,
    decreases k,
{
    if k > 0 {
        lemma_reads_behind(g, m, k - 1);
        lemma_packet_behind(g, after_reads(m, k - 1));
    }
    lemma_packet_behind(g, after_reads(m, k));
}

/// The first page within reach is found.
proof fn lemma_resync_finds(bytes: Seq<u8>, at: int, left: nat, first: int)
    requires
        0 <= at < first <= at + left,
        first + HEADER_LEN <= bytes.len(),
        bytes.subrange(first, first + 4) == CAPTURE_PATTERN@,
        forall|i: int| at < i < first ==> #[trigger] bytes.subrange(i, i + 4) != CAPTURE_PATTERN@,
    ensures
        resync(bytes, at, left) == (
            Ok::<Option<Seq<u8>>, Error>(Some(bytes.subrange(first, first + HEADER_LEN))),
            CursorModel { bytes, position: (first + HEADER_LEN) as nat },
        ),
    decreases left,
{
    if at + 1 < first {
        assert(bytes.subrange(at + 1, at + 1 + 4) != CAPTURE_PATTERN@);
        lemma_resync_finds(bytes, at + 1, (left - 1) as nat, first);
    }
}

/// Where the first page of a source is within reach, its header is found.
proof fn lemma_header_found(bytes: Seq<u8>, first: int)
    requires
        0 <= first <= RESYNC_LIMIT,
        first + HEADER_LEN <= bytes.len(),
        bytes.subrange(first, first + 4) == CAPTURE_PATTERN@,
        forall|i: int| 0 <= i < first ==> #[trigger] bytes.subrange(i, i + 4) != CAPTURE_PATTERN@,
    ensures
        next_header(CursorModel { bytes, position: 0 }) == (
            Ok::<Option<Seq<u8>>, Error>(Some(bytes.subrange(first, first + HEADER_LEN))),
            CursorModel { bytes, position: (first + HEADER_LEN) as nat },
        ),
{
    if first > 0 {
        assert(bytes.subrange(0, 0int + 4) != CAPTURE_PATTERN@);
        lemma_resync_finds(bytes, 0, RESYNC_LIMIT as nat, first);
    }
}

/// A stream behind other bytes reads as the stream alone, with every page and
/// every packet, as long as its first page is within a mebibyte and nothing
/// before that looks like one. The stream's first page may itself be `first`
/// bytes in.
pub proof fn law_leading_bytes_change_nothing(g: Seq<u8>, s: Seq<u8>, first: int)
    requires
        open_ogg(CursorModel { bytes: s, position: 0 }) is Ok,
        0 <= first,
        first + 4 <= s.len(),
        s.subrange(first, first + 4) == CAPTURE_PATTERN@,
        g.len() + first <= 1_048_576,
        forall|i: int|
            0 <= i < g.len() + first ==> #[trigger] (g + s).subrange(i, i + 4)
                != CAPTURE_PATTERN@,
    ensures
        ({
            let alone = open_ogg(CursorModel { bytes: s, position: 0 })->Ok_0;
            let opened = open_ogg(CursorModel { bytes: g + s, position: 0 });
            let reader = opened->Ok_0;
            &&& opened is Ok
            &&& reader.head == alone.head
            &&& reader.tags == alone.tags
            &&& reader.serial == alone.serial
            &&& forall|k: int|
                (#[trigger] next_packet(after_reads(reader, k))).0 == next_packet(
                    after_reads(alone, k),
                ).0
        }),
{
    let bytes = g + s;
    let here = CursorModel { bytes: s, position: 0 };
    let there = CursorModel { bytes, position: 0 };
    let m = fresh_reader(here);
    // A stream too short for a page header does not open.
    assert(read_page_step(m).0 is Ok);
    assert forall|i: int| 0 <= i < first implies #[trigger] s.subrange(i, i + 4)
        != CAPTURE_PATTERN@ by {
        lemma_part_behind(g, s, i, i + 4);
        assert(bytes.subrange(g.len() + i, g.len() + i + 4) != CAPTURE_PATTERN@);
    }
    assert(first + HEADER_LEN <= s.len()) by {
        if first + HEADER_LEN > s.len() {
            lemma_no_header(s, 0, RESYNC_LIMIT as nat, first);
            if s.len() >= HEADER_LEN {
                assert(s.subrange(0, 0int + 4) != CAPTURE_PATTERN@);
            }
            assert(!(next_header(here).0 is Ok));
        }
    }
    lemma_part_behind(g, s, first, first + 4);
    lemma_part_behind(g, s, first, first + HEADER_LEN);
    lemma_header_found(s, first);
    lemma_header_found(bytes, g.len() + first);
    let raw = s.subrange(first, first + HEADER_LEN);
    let past = OggReaderModel { source: here.at((first + HEADER_LEN) as nat), ..m };
    lemma_body_behind(g, past, raw);
    assert(OggReaderModel {
        source: there.at((g.len() + first + HEADER_LEN) as nat),
        ..fresh_reader(there)
    } == reader_behind(g, past));
    let next = read_page_step(m).1;
    assert(read_page_step(fresh_reader(there)).1 == reader_behind(g, next));
    lemma_packet_behind(g, next);
    // From here on both readers are the same.
    let (r1, m1) = next_packet(m);
    assert(next_packet(fresh_reader(there)) == (r1, reader_behind(g, m1)));
    let head = parse_head(r1->Ok_0->0.data)->Ok_0;
    let named = OggReaderModel { head, ..m1 };
    assert(OggReaderModel { head, ..reader_behind(g, m1) } == reader_behind(g, named));
    lemma_packet_behind(g, named);
    let (r2, m2) = next_packet(named);
    let tags = parse_tags(r2->Ok_0->0.data)->Ok_0;
    let alone = OggReaderModel { tags, ..m2 };
    assert(OggReaderModel { tags, ..reader_behind(g, m2) } == reader_behind(g, alone));
    assert forall|k: int|
        (#[trigger] next_packet(after_reads(reader_behind(g, alone), k))).0 == next_packet(
            after_reads(alone, k),
        ).0 by {
        lemma_reads_behind(g, alone, k);
    }
}

/// Where the first page has no room for its header, none is found.
proof fn lemma_no_header(bytes: Seq<u8>, at: int, left: nat, first: int)
    requires
        0 <= at <= first,
        first + HEADER_LEN > bytes.len(),
        forall|i: int| 0 <= i < first ==> #[trigger] bytes.subrange(i, i + 4) != CAPTURE_PATTERN@,
    ensures
        !(resync(bytes, at, left).0 is Ok),
    decreases left,
{
    if left > 0 && at + 1 + HEADER_LEN <= bytes.len() {
        assert(bytes.subrange(at + 1, at + 1 + 4) != CAPTURE_PATTERN@);
        lemma_no_header(bytes, at + 1, (left - 1) as nat, first);
    }
}

/// A packet that the stream ends inside is an error, once, and never comes back
/// as a packet: whether the last page says that it is the last or nothing follows
/// it, every later call finds the stream over.
pub proof fn law_cut_packet_is_reported_once(m: OggReaderModel, k: int)
    requires
        m.ready.len() == 0,
        m.partial.len() > 0,
        m.saw_eos || m.exhausted || m.source.remaining() == 0,
        1 <= k,
    ensures
        next_packet(m).0 == Err::<Option<PacketModel>, Error>(
            Error::InvalidStream("stream ends in the middle of a packet"),
        ),
        next_packet(after_reads(m, k)).0 == Ok::<Option<PacketModel>, Error>(None),
{
    if !m.saw_eos && !m.exhausted {
        let ended = OggReaderModel { exhausted: true, ..m };
        assert(read_page_step(m) == (Ok::<(), Error>(()), ended));
        assert(next_packet(m) == next_packet(ended));
    }
    lemma_stays_over(m, k);
}

/// A stream that is over stays over.
proof fn lemma_stays_over(m: OggReaderModel, k: int)
    requires
        1 <= k,
        ({
            let r = next_packet(m).1;
            r.ready.len() == 0 && r.partial.len() == 0 && (r.saw_eos || r.exhausted)
        }),
    ensures
        after_reads(m, k) == next_packet(m).1,
        next_packet(after_reads(m, k)).0 == Ok::<Option<PacketModel>, Error>(None),
    decreases k,
{
    assert(after_reads(m, 0) == m);
    if k > 1 {
        lemma_stays_over(m, k - 1);
    }
}

} // verus!
