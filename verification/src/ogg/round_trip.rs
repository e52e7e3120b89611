//! The container's promise: a stream holds the packets that were written to it.

use vstd::prelude::*;

use crate::error::Error;
use crate::io::CursorModel;
use crate::ogg::header::{
    head_bytes, law_head_round_trip, law_tags_round_trip, tags_bytes, HeadModel, TagsModel,
};
use crate::ogg::page::{
    lace_sum, law_page_round_trip, page_bytes, page_crc, PageHeader, PageModel, HEADER_LEN,
    MAX_SEGMENTS,
};
use crate::ogg::reader::{
    fresh_reader, next_header, next_packet, open_ogg, read_page_body, read_page_step, split_page,
    take_page, OggReaderModel, PacketModel, SplitModel, MAX_OGG_PACKET_BYTES,
};
use crate::ogg::writer::{
    after_head, blank_writer, finish_ogg, head_page, laced, lemma_laced_wf, start_ogg, with_packet,
    write_ogg, OggWriterModel, NO_PACKET_GRANULE,
};

verus! {

/// The first `n` pages, one after the other.
pub open spec fn pages_bytes(pages: Seq<PageModel>, n: int) -> Seq<u8>
    decreases n,
{
    if n <= 0 {
        Seq::empty()
    } else {
        pages_bytes(pages, n - 1) + page_bytes(pages[n - 1])
    }
}

/// What segments add up to, without what a page says about its packets.
#[verifier::ext_equal]
pub struct DataSplit {
    /// The packets that end.
    pub packets: Seq<Seq<u8>>,
    /// The bytes of one that does not.
    pub partial: Seq<u8>,
    /// Whether one grew too big.
    pub too_big: bool,
}

/// One more segment.
pub open spec fn split_step(before: DataSplit, data: Seq<u8>) -> DataSplit {
    if before.too_big {
        before
    } else if before.partial.len() + data.len() > MAX_OGG_PACKET_BYTES {
        DataSplit { partial: Seq::empty(), too_big: true, ..before }
    } else {
        let grown = before.partial + data;
        if data.len() == 255 {
            DataSplit { partial: grown, ..before }
        } else if grown.len() == 0 {
            DataSplit { partial: Seq::empty(), ..before }
        } else {
            DataSplit { packets: before.packets.push(grown), partial: Seq::empty(), ..before }
        }
    }
}

/// What segments add up to, after the bytes in `partial`.
pub open spec fn data_split(partial: Seq<u8>, segments: Seq<u8>, payload: Seq<u8>) -> DataSplit
    decreases segments.len(),
{
    if segments.len() == 0 {
        DataSplit { packets: Seq::empty(), partial, too_big: false }
    } else {
        let used = lace_sum(segments.drop_last()) as int;
        split_step(
            data_split(partial, segments.drop_last(), payload),
            payload.subrange(used, used + segments.last()),
        )
    }
}

/// What is left over after the first `n` pages.
pub open spec fn left_over(pages: Seq<PageModel>, n: int) -> Seq<u8>
    decreases n,
{
    if n <= 0 {
        Seq::empty()
    } else {
        data_split(left_over(pages, n - 1), pages[n - 1].segments, pages[n - 1].payload).partial
    }
}

/// What the `j`th page adds up to.
pub open spec fn page_data(pages: Seq<PageModel>, j: int) -> DataSplit {
    data_split(left_over(pages, j), pages[j].segments, pages[j].payload)
}

/// The packets that end on the first `n` pages.
pub open spec fn ended(pages: Seq<PageModel>, n: int) -> Seq<Seq<u8>>
    decreases n,
{
    if n <= 0 {
        Seq::empty()
    } else {
        ended(pages, n - 1) + page_data(pages, n - 1).packets
    }
}

/// The granule positions that those packets report.
pub open spec fn reported(pages: Seq<PageModel>, n: int) -> Seq<i64>
    decreases n,
{
    if n <= 0 {
        Seq::empty()
    } else {
        reported(pages, n - 1) + Seq::new(
            page_data(pages, n - 1).packets.len(),
            |i: int| pages[n - 1].granule,
        )
    }
}

/// Whether the `j`th page belongs where it is.
pub open spec fn page_in_place(pages: Seq<PageModel>, j: int, serial: u32) -> bool {
    &&& pages[j].wf()
    &&& pages[j].serial == serial
    &&& pages[j].is_bos() == (j == 0)
    &&& pages[j].is_continued() == (left_over(pages, j).len() > 0)
    &&& !page_data(pages, j).too_big
}

/// Whether pages belong where they are, and none of the first `n` ends the
/// stream.
pub open spec fn pages_ok(pages: Seq<PageModel>, n: int, serial: u32) -> bool {
    &&& forall|j: int| 0 <= j < pages.len() ==> #[trigger] page_in_place(pages, j, serial)
    &&& forall|j: int| 0 <= j < n ==> !(#[trigger] pages[j]).is_eos()
}

/// What the first pages are does not depend on the pages after them.
proof fn lemma_pages_prefix(pages: Seq<PageModel>, page: PageModel, n: int)
    requires
        0 <= n <= pages.len(),
    ensures
        pages_bytes(pages.push(page), n) == pages_bytes(pages, n),
        left_over(pages.push(page), n) == left_over(pages, n),
        ended(pages.push(page), n) == ended(pages, n),
        reported(pages.push(page), n) == reported(pages, n),
    decreases n,
{
    if n > 0 {
        lemma_pages_prefix(pages, page, n - 1);
        assert(pages.push(page)[n - 1] == pages[n - 1]);
        assert(reported(pages.push(page), n) =~= reported(pages, n));
    }
}

/// More payload changes nothing for the segments before it.
proof fn lemma_more_payload(partial: Seq<u8>, segments: Seq<u8>, payload: Seq<u8>, more: Seq<u8>)
    requires
        lace_sum(segments) <= payload.len(),
    ensures
        data_split(partial, segments, payload + more) == data_split(partial, segments, payload),
    decreases segments.len(),
{
    if segments.len() > 0 {
        lemma_more_payload(partial, segments.drop_last(), payload, more);
        let used = lace_sum(segments.drop_last()) as int;
        assert((payload + more).subrange(used, used + segments.last()) =~= payload.subrange(
            used,
            used + segments.last(),
        ));
    }
}

/// One more segment and its data is one more step.
proof fn lemma_one_more(partial: Seq<u8>, segments: Seq<u8>, payload: Seq<u8>, data: Seq<u8>)
    requires
        lace_sum(segments) == payload.len(),
        data.len() <= 255,
    ensures
        data_split(partial, segments.push(data.len() as u8), payload + data) == split_step(
            data_split(partial, segments, payload),
            data,
        ),
        lace_sum(segments.push(data.len() as u8)) == (payload + data).len(),
{
    let all = segments.push(data.len() as u8);
    assert(all.drop_last() =~= segments);
    lemma_more_payload(partial, segments, payload, data);
    let used = payload.len() as int;
    assert((payload + data).subrange(used, used + data.len()) =~= data);
}

/// A page's packets, with what the page says about them.
proof fn lemma_split_data(
    partial: Seq<u8>,
    segments: Seq<u8>,
    payload: Seq<u8>,
    granule: int,
    eos: bool,
    total: int,
)
    requires
        lace_sum(segments) <= payload.len(),
        segments.len() <= total,
    ensures
        ({
            let split = split_page(partial, segments, payload, granule, eos, total);
            let data = data_split(partial, segments, payload);
            &&& split.partial == data.partial
            &&& split.too_big == data.too_big
            &&& split.packets.len() == data.packets.len()
            &&& forall|i: int|
                0 <= i < split.packets.len() ==> {
                    &&& (#[trigger] split.packets[i]).data == data.packets[i]
                    &&& split.packets[i].page_granule == granule
                    &&& split.packets[i].end_of_stream ==> eos && segments.len() == total && i
                        == split.packets.len() - 1
                }
        }),
    decreases segments.len(),
{
    if segments.len() > 0 {
        lemma_split_data(partial, segments.drop_last(), payload, granule, eos, total);
    }
}

/// The header that a page reads back as.
spec fn header_of(p: PageModel) -> PageHeader {
    PageHeader {
        flags: p.flags,
        granule_position: p.granule,
        serial: p.serial,
        crc: page_crc(p),
        segment_count: p.segments.len() as u8,
    }
}

/// A page where the source stands is read and taken.
proof fn lemma_page_reads(m: OggReaderModel, before: Seq<u8>, p: PageModel, after: Seq<u8>)
    requires
        p.wf(),
        m.source.bytes == before + page_bytes(p) + after,
        m.source.position == before.len(),
    ensures
        read_page_step(m) == take_page(
            OggReaderModel { source: m.source.at(before.len() + page_bytes(p).len()), ..m },
            header_of(p),
            p.segments,
            p.payload,
        ),
{
    law_page_round_trip(p);
    let bytes = m.source.bytes;
    let at = before.len() as int;
    let page = page_bytes(p);
    let raw = page.subrange(0, HEADER_LEN as int);
    let n = p.segments.len();
    assert(bytes.subrange(at, at + HEADER_LEN) =~= raw);
    assert(bytes.subrange(at, at + 4) =~= raw.subrange(0, 4));
    let s1 = m.source.at(m.source.position + HEADER_LEN as nat);
    let m1 = OggReaderModel { source: s1, ..m };
    assert(next_header(m.source) == (Ok::<Option<Seq<u8>>, Error>(Some(raw)), s1));
    assert(s1.ahead(n) =~= p.segments);
    let s2 = s1.at(s1.position + n);
    assert(s2.ahead(p.payload.len()) =~= p.payload);
    assert(s2.at(s2.position + p.payload.len()) =~= m.source.at(before.len() + page.len()));
    assert(read_page_body(m1, raw) == take_page(
        OggReaderModel { source: m.source.at(before.len() + page.len()), ..m },
        header_of(p),
        p.segments,
        p.payload,
    ));
}

/// What the `j`th page makes of the reader.
spec fn page_split(pages: Seq<PageModel>, j: int) -> SplitModel {
    split_page(
        left_over(pages, j),
        pages[j].segments,
        pages[j].payload,
        pages[j].granule as int,
        pages[j].is_eos(),
        pages[j].segments.len() as int,
    )
}

/// The packets that end on the `j`th page and after it.
spec fn packets_from(pages: Seq<PageModel>, j: int) -> Seq<PacketModel>
    decreases pages.len() - j,
{
    if j >= pages.len() {
        Seq::empty()
    } else {
        page_split(pages, j).packets + packets_from(pages, j + 1)
    }
}

/// Whether a stream is whole: its pages belong where they are, the last one and
/// no other ends it, and nothing is left over.
spec fn whole(pages: Seq<PageModel>, serial: u32) -> bool {
    &&& pages.len() > 0
    &&& pages_ok(pages, pages.len() - 1, serial)
    &&& pages.last().is_eos()
    &&& left_over(pages, pages.len() as int).len() == 0
}

/// Whether a reader stands ahead of the `j`th page.
spec fn stands_at(
    m: OggReaderModel,
    base: Seq<u8>,
    pages: Seq<PageModel>,
    serial: u32,
    j: int,
) -> bool {
    &&& 0 <= j <= pages.len()
    &&& m.source.bytes == base + pages_bytes(pages, pages.len() as int)
    &&& m.source.position == base.len() + pages_bytes(pages, j).len()
    &&& m.partial == left_over(pages, j)
    &&& m.saw_eos == (j == pages.len())
    &&& !m.exhausted
    &&& j > 0 ==> m.serial == serial
}

/// Pages start with their first ones.
proof fn lemma_pages_split(pages: Seq<PageModel>, j: int, n: int)
    requires
        0 <= j <= n <= pages.len(),
    ensures
        pages_bytes(pages, j).len() <= pages_bytes(pages, n).len(),
        pages_bytes(pages, n).subrange(0, pages_bytes(pages, j).len() as int) == pages_bytes(
            pages,
            j,
        ),
    decreases n,
{
    let part = pages_bytes(pages, j);
    if j == n {
        assert(pages_bytes(pages, n).subrange(0, part.len() as int) =~= part);
    } else {
        lemma_pages_split(pages, j, n - 1);
        assert(pages_bytes(pages, n).subrange(0, part.len() as int) =~= pages_bytes(
            pages,
            n - 1,
        ).subrange(0, part.len() as int));
    }
}

/// Reading the `j`th page of a whole stream.
proof fn lemma_stream_step(
    m: OggReaderModel,
    base: Seq<u8>,
    pages: Seq<PageModel>,
    serial: u32,
    j: int,
)
    requires
        whole(pages, serial),
        stands_at(m, base, pages, serial, j),
        j < pages.len(),
    ensures
        read_page_step(m).0 is Ok,
        stands_at(read_page_step(m).1, base, pages, serial, j + 1),
        read_page_step(m).1.ready == m.ready + page_split(pages, j).packets,
        read_page_step(m).1.head == m.head,
        read_page_step(m).1.tags == m.tags,
{
    let n = pages.len() as int;
    let p = pages[j];
    assert(page_in_place(pages, j, serial));
    lemma_pages_split(pages, j, n);
    lemma_pages_split(pages, j + 1, n);
    let all = pages_bytes(pages, n);
    let before = base + pages_bytes(pages, j);
    let upto = pages_bytes(pages, j + 1);
    let after = all.subrange(upto.len() as int, all.len() as int);
    assert(m.source.bytes =~= before + page_bytes(p) + after) by {
        assert(all =~= upto + after) by {
            assert forall|k: int| 0 <= k < upto.len() implies all[k] == upto[k] by {
                assert(all.subrange(0, upto.len() as int)[k] == all[k]);
            }
        }
        assert(upto == pages_bytes(pages, j) + page_bytes(p));
    }
    lemma_page_reads(m, before, p, after);
    lemma_split_data(
        left_over(pages, j),
        p.segments,
        p.payload,
        p.granule as int,
        p.is_eos(),
        p.segments.len() as int,
    );
    if j < n - 1 {
        assert(!pages[j].is_eos());
    }
}

/// What a reader that stands in a whole stream still gives: the packets it has
/// ready, and those of the pages ahead.
proof fn lemma_next(
    m: OggReaderModel,
    base: Seq<u8>,
    pages: Seq<PageModel>,
    serial: u32,
    j: int,
) -> (k: int)
    requires
        whole(pages, serial),
        stands_at(m, base, pages, serial, j),
    ensures
        ({
            let left = m.ready + packets_from(pages, j);
            let (r, next) = next_packet(m);
            if left.len() == 0 {
                r == Ok::<Option<PacketModel>, Error>(None)
            } else {
                &&& r == Ok::<Option<PacketModel>, Error>(Some(left[0]))
                &&& stands_at(next, base, pages, serial, k)
                &&& j <= k
                &&& k > 0 || m.ready.len() > 0
                &&& next.ready + packets_from(pages, k) == left.subrange(1, left.len() as int)
                &&& next.head == m.head
                &&& next.tags == m.tags
            }
        }),
    decreases pages.len() - j,
{
    let left = m.ready + packets_from(pages, j);
    if m.ready.len() > 0 {
        let next = next_packet(m).1;
        assert(next.ready + packets_from(pages, j) =~= left.subrange(1, left.len() as int));
        j
    } else if j == pages.len() {
        assert(left =~= Seq::empty());
        j
    } else {
        lemma_stream_step(m, base, pages, serial, j);
        let step = read_page_step(m).1;
        assert(next_packet(m) == next_packet(step));
        assert(left =~= step.ready + packets_from(pages, j + 1));
        lemma_next(step, base, pages, serial, j + 1)
    }
}

/// What the page being gathered adds up to.
spec fn pending(m: OggWriterModel, pages: Seq<PageModel>) -> DataSplit {
    data_split(left_over(pages, pages.len() as int), m.segments, m.payload)
}

/// Whether a writer that has written `pages` has laced the packets `done`, and
/// then `part` of one more.
spec fn gathered(
    m: OggWriterModel,
    base: Seq<u8>,
    pages: Seq<PageModel>,
    done: Seq<Seq<u8>>,
    part: Seq<u8>,
) -> bool {
    let n = pages.len() as int;
    &&& m.wf()
    &&& m.sink == base + pages_bytes(pages, n)
    &&& pages_ok(pages, n, m.serial)
    &&& !pending(m, pages).too_big
    &&& pending(m, pages).partial == part
    &&& ended(pages, n) + pending(m, pages).packets == done
    &&& m.continued == (left_over(pages, n).len() > 0)
}

/// Whether the granule positions reported so far, and the page's own, fit what
/// the packets add up to: each packet reports no less than its own count and no
/// more than the total, and they never go backwards.
spec fn graded(m: OggWriterModel, pages: Seq<PageModel>, counts: Seq<int>) -> bool {
    let n = pages.len() as int;
    &&& reported(pages, n).len() == ended(pages, n).len()
    &&& counts.len() == ended(pages, n).len() + pending(m, pages).packets.len()
    &&& forall|i: int| 0 <= i < counts.len() ==> #[trigger] counts[i] <= m.granule
    &&& forall|i: int|
        0 <= i < reported(pages, n).len() ==> counts[i] <= #[trigger] reported(pages, n)[i]
            <= m.granule
    &&& forall|i: int, k: int|
        0 <= i <= k < reported(pages, n).len() ==> #[trigger] reported(pages, n)[i]
            <= #[trigger] reported(pages, n)[k]
    &&& pending(m, pages).packets.len() > 0 ==> m.page_granule == m.granule
}

/// Whether the last segment gathered completes a packet.
spec fn ends_with_packet(m: OggWriterModel, pages: Seq<PageModel>) -> bool {
    &&& m.segments.len() > 0
    &&& data_split(
        left_over(pages, pages.len() as int),
        m.segments.drop_last(),
        m.payload,
    ).packets.len() + 1 == pending(m, pages).packets.len()
}

/// Pages that belong where they are still do with one more after them.
proof fn lemma_push_page(pages: Seq<PageModel>, page: PageModel, serial: u32)
    requires
        pages_ok(pages, pages.len() as int, serial),
        page.wf(),
        page.serial == serial,
        page.is_bos() == (pages.len() == 0),
        page.is_continued() == (left_over(pages, pages.len() as int).len() > 0),
        !data_split(
            left_over(pages, pages.len() as int),
            page.segments,
            page.payload,
        ).too_big,
    ensures
        pages_ok(pages.push(page), pages.len() as int, serial),
        ({
            let n = pages.len() as int;
            let more = pages.push(page);
            let data = data_split(left_over(pages, n), page.segments, page.payload);
            &&& left_over(more, n + 1) == data.partial
            &&& ended(more, n + 1) == ended(pages, n) + data.packets
            &&& reported(more, n + 1) == reported(pages, n) + Seq::new(
                data.packets.len(),
                |i: int| page.granule,
            )
            &&& pages_bytes(more, n + 1) == pages_bytes(pages, n) + page_bytes(page)
        }),
{
    let n = pages.len() as int;
    let more = pages.push(page);
    lemma_pages_prefix(pages, page, n);
    assert forall|j: int| 0 <= j < more.len() implies #[trigger] page_in_place(
        more,
        j,
        serial,
    ) by {
        if j < n {
            assert(page_in_place(pages, j, serial));
            lemma_pages_prefix(pages, page, j);
            assert(more[j] == pages[j]);
        } else {
            assert(more[j] == page);
        }
    }
    assert forall|j: int| 0 <= j < n implies !(#[trigger] more[j]).is_eos() by {
        assert(!pages[j].is_eos());
    }
    assert(more[n] == page);
}

/// Writing out a page that does not end the stream.
proof fn lemma_flush(
    m: OggWriterModel,
    base: Seq<u8>,
    pages: Seq<PageModel>,
    done: Seq<Seq<u8>>,
    part: Seq<u8>,
    counts: Seq<int>,
    idle: i64,
)
    requires
        gathered(m, base, pages, done, part),
        graded(m, pages, counts),
        pages.len() > 0,
        m.segments.len() > 0,
    ensures
        ({
            let next = m.flushed(false, part.len() > 0, idle);
            let more = pages.push(m.pending_page(false));
            &&& gathered(next, base, more, done, part)
            &&& graded(next, more, counts)
        }),
{
    let n = pages.len() as int;
    let page = m.pending_page(false);
    let next = m.flushed(false, part.len() > 0, idle);
    let more = pages.push(page);
    lemma_push_page(pages, page, m.serial);
    assert(!more[n].is_eos());
    assert(next.sink =~= base + pages_bytes(more, n + 1));
    assert(pending(next, more).packets =~= Seq::empty());
    assert(ended(more, n + 1) + pending(next, more).packets =~= done);
    let old_reported = reported(pages, n);
    let new_reported = reported(more, n + 1);
    assert forall|i: int| 0 <= i < new_reported.len() implies counts[i]
        <= #[trigger] new_reported[i] <= m.granule by {
        if i < old_reported.len() {
            assert(new_reported[i] == old_reported[i]);
        } else {
            assert(new_reported[i] == m.page_granule);
        }
    }
    assert forall|i: int, k: int| 0 <= i <= k < new_reported.len() implies #[trigger]
    new_reported[i] <= #[trigger] new_reported[k] by {
        if k < old_reported.len() {
            assert(old_reported[i] <= old_reported[k]);
        } else if i < old_reported.len() {
            assert(new_reported[i] == old_reported[i]);
        }
    }
}

/// One more segment of a packet.
proof fn lemma_segment(
    m: OggWriterModel,
    base: Seq<u8>,
    pages: Seq<PageModel>,
    done: Seq<Seq<u8>>,
    part: Seq<u8>,
    data: Seq<u8>,
)
    requires
        gathered(m, base, pages, done, part),
        m.segments.len() < MAX_SEGMENTS,
        data.len() <= 255,
        part.len() + data.len() <= MAX_OGG_PACKET_BYTES,
        part.len() + data.len() > 0,
    ensures
        pending(m.with_segment(data), pages) == split_step(pending(m, pages), data),
        gathered(
            m.with_segment(data),
            base,
            pages,
            if data.len() == 255 {
                done
            } else {
                done.push(part + data)
            },
            if data.len() == 255 {
                part + data
            } else {
                Seq::empty()
            },
        ),
{
    let n = pages.len() as int;
    lemma_one_more(left_over(pages, n), m.segments, m.payload, data);
    let next = m.with_segment(data);
    if data.len() != 255 {
        assert(ended(pages, n) + pending(next, pages).packets =~= done.push(part + data));
    }
}

/// Lacing the rest of a packet completes it.
proof fn lemma_lace(
    m: OggWriterModel,
    base: Seq<u8>,
    pages: Seq<PageModel>,
    done: Seq<Seq<u8>>,
    counts: Seq<int>,
    packet: Seq<u8>,
    from: int,
    idle: i64,
) -> (more: Seq<PageModel>)
    requires
        0 <= from <= packet.len(),
        0 < packet.len() <= MAX_OGG_PACKET_BYTES,
        gathered(m, base, pages, done, packet.subrange(0, from)),
        graded(m, pages, counts),
        pages.len() > 0 || packet.len() - from <= (MAX_SEGMENTS - m.segments.len()) * 255 - 1,
    ensures
        gathered(laced(m, packet, from, idle), base, more, done.push(packet), Seq::empty()),
        pending(laced(m, packet, from, idle), more).packets.len() > 0,
        reported(more, more.len() as int).len() == ended(more, more.len() as int).len(),
        forall|i: int|
            0 <= i < reported(more, more.len() as int).len() ==> counts[i] <= #[trigger] reported(
                more,
                more.len() as int,
            )[i] <= m.granule,
        forall|i: int, k: int|
            0 <= i <= k < reported(more, more.len() as int).len() ==> #[trigger] reported(
                more,
                more.len() as int,
            )[i] <= #[trigger] reported(more, more.len() as int)[k],
        counts.len() == done.len(),
        ends_with_packet(laced(m, packet, from, idle), more),
        laced(m, packet, from, idle).granule == m.granule,
        pages.len() <= more.len(),
        pages.len() == 0 ==> more == pages,
    decreases packet.len() - from,
{
    let part = packet.subrange(0, from);
    let roomy = m.with_room(from, idle);
    let flush = m.segments.len() >= MAX_SEGMENTS;
    let shown = if flush {
        pages.push(m.pending_page(false))
    } else {
        pages
    };
    if flush {
        lemma_flush(m, base, pages, done, part, counts, idle);
    }
    if packet.len() - from < 255 {
        let data = packet.subrange(from, packet.len() as int);
        lemma_segment(roomy, base, shown, done, part, data);
        assert(part + data =~= packet);
        let next = roomy.with_segment(data);
        let left = left_over(shown, shown.len() as int);
        assert(next.segments.drop_last() =~= roomy.segments);
        lemma_more_payload(left, roomy.segments, roomy.payload, data);
        shown
    } else {
        let data = packet.subrange(from, from + 255);
        lemma_segment(roomy, base, shown, done, part, data);
        assert(part + data =~= packet.subrange(0, from + 255));
        let next = roomy.with_segment(data);
        assert(graded(next, shown, counts)) by {
            assert(pending(next, shown).packets == pending(roomy, shown).packets);
        }
        lemma_lace(next, base, shown, done, counts, packet, from + 255, idle)
    }
}

/// A whole packet, laced and counted.
proof fn lemma_complete(
    m: OggWriterModel,
    base: Seq<u8>,
    pages: Seq<PageModel>,
    done: Seq<Seq<u8>>,
    counts: Seq<int>,
    packet: Seq<u8>,
    idle: i64,
    granule: i64,
) -> (more: Seq<PageModel>)
    requires
        0 < packet.len() <= MAX_OGG_PACKET_BYTES,
        gathered(m, base, pages, done, Seq::empty()),
        graded(m, pages, counts),
        pages.len() > 0,
        m.granule <= granule,
    ensures
        ({
            let next = OggWriterModel { granule, ..with_packet(m, packet, idle, granule) };
            &&& gathered(next, base, more, done.push(packet), Seq::empty())
            &&& graded(next, more, counts.push(granule as int))
            &&& ends_with_packet(next, more)
            &&& next.segments.len() > 0
        }),
        more.len() > 0,
{
    assert(packet.subrange(0, 0) =~= Seq::empty());
    let more = lemma_lace(m, base, pages, done, counts, packet, 0, idle);
    let n = more.len() as int;
    let next = OggWriterModel { granule, ..with_packet(m, packet, idle, granule) };
    let l = laced(m, packet, 0, idle);
    assert(pending(next, more) == pending(l, more));
    assert((ended(more, n) + pending(l, more).packets).len() == done.len() + 1);
    assert forall|i: int| 0 <= i < counts.push(granule as int).len() implies #[trigger] counts.push(
        granule as int,
    )[i] <= granule by {
        if i < counts.len() {
            assert(counts[i] <= m.granule);
        }
    }
    assert forall|i: int| 0 <= i < reported(more, n).len() implies counts.push(granule as int)[i]
        <= #[trigger] reported(more, n)[i] <= granule by {
        assert(counts[i] <= reported(more, n)[i] <= m.granule);
    }
    more
}

/// The first page holds the identification header.
proof fn lemma_head_page(head: HeadModel, serial: u32)
    requires
        head.valid(),
    ensures
        head_page(head, serial).wf(),
        data_split(
            Seq::empty(),
            head_page(head, serial).segments,
            head_page(head, serial).payload,
        ) == (DataSplit {
            packets: seq![head_bytes(head)],
            partial: Seq::empty(),
            too_big: false,
        }),
{
    law_head_round_trip(head);
    let none = Seq::<PageModel>::empty();
    let blank = blank_writer(Seq::empty(), serial);
    let packet = head_bytes(head);
    let l = laced(blank, packet, 0, 0);
    assert(blank.sink =~= Seq::<u8>::empty() + pages_bytes(none, 0));
    assert(ended(none, 0) + pending(blank, none).packets =~= Seq::empty());
    assert(packet.subrange(0, 0) =~= Seq::empty());
    let same = lemma_lace(
        blank,
        Seq::empty(),
        none,
        Seq::empty(),
        Seq::empty(),
        packet,
        0,
        0,
    );
    assert(ended(none, 0) + pending(l, none).packets =~= pending(l, none).packets);
    assert(Seq::<Seq<u8>>::empty().push(packet) =~= seq![packet]);
    lemma_laced_wf(blank, packet, 0, 0);
}

/// The identification header is written first.
proof fn lemma_headed(sink: Seq<u8>, head: HeadModel, serial: u32)
    requires
        head.valid(),
    ensures
        gathered(
            after_head(sink, head, serial),
            sink,
            seq![head_page(head, serial)],
            seq![head_bytes(head)],
            Seq::empty(),
        ),
        graded(after_head(sink, head, serial), seq![head_page(head, serial)], seq![0int]),
{
    lemma_head_page(head, serial);
    let none = Seq::<PageModel>::empty();
    let first = head_page(head, serial);
    lemma_push_page(none, first, serial);
    let one = none.push(first);
    assert(one =~= seq![first]);
    assert(!one[0].is_eos());
    let m = after_head(sink, head, serial);
    assert(pages_bytes(one, 1) =~= page_bytes(first));
    assert(ended(one, 1) =~= seq![head_bytes(head)]);
    assert(ended(one, 1) + pending(m, one).packets =~= seq![head_bytes(head)]);
    assert(reported(one, 1) =~= seq![0i64]);
}

/// The comment header is written after it.
proof fn lemma_started(sink: Seq<u8>, head: HeadModel, tags: TagsModel, serial: u32) -> (pages: Seq<
    PageModel,
>)
    requires
        head.valid(),
        tags.fits(),
        tags_bytes(tags).len() <= MAX_OGG_PACKET_BYTES,
    ensures
        pages.len() > 0,
        gathered(
            start_ogg(sink, head, tags, serial),
            sink,
            pages,
            seq![head_bytes(head), tags_bytes(tags)],
            Seq::empty(),
        ),
        graded(start_ogg(sink, head, tags, serial), pages, seq![0int, 0int]),
        start_ogg(sink, head, tags, serial).granule == 0,
        start_ogg(sink, head, tags, serial).serial == serial,
        start_ogg(sink, head, tags, serial).segments.len() == 0,
{
    law_tags_round_trip(tags);
    lemma_headed(sink, head, serial);
    let one = seq![head_page(head, serial)];
    let m = after_head(sink, head, serial);
    let packet = tags_bytes(tags);
    let two = lemma_complete(m, sink, one, seq![head_bytes(head)], seq![0int], packet, 0, 0);
    lemma_laced_wf(m, packet, 0, 0);
    let next = with_packet(m, packet, 0, 0);
    assert(next =~= OggWriterModel { granule: 0, ..next });
    let done = seq![head_bytes(head)].push(packet);
    let counts = seq![0int].push(0);
    lemma_flush(next, sink, two, done, Seq::empty(), counts, NO_PACKET_GRANULE);
    assert(done =~= seq![head_bytes(head), packet]);
    assert(counts =~= seq![0int, 0int]);
    two.push(next.pending_page(false))
}

/// The writer after the first `n` of some packets and stated durations, when it
/// accepted them all.
pub open spec fn run_writes(m: OggWriterModel, writes: Seq<(Seq<u8>, u32)>, n: int) -> Option<
    OggWriterModel,
>
    decreases n,
{
    if n <= 0 {
        Some(m)
    } else {
        match run_writes(m, writes, n - 1) {
            None => None,
            Some(k) => match write_ogg(k, writes[n - 1].0, writes[n - 1].1 as int) {
                (Ok(_), next) => Some(next),
                (Err(_), _) => None,
            },
        }
    }
}

/// What the first `n` packets are stated to decode to.
pub open spec fn stated_total(writes: Seq<(Seq<u8>, u32)>, n: int) -> int
    decreases n,
{
    if n <= 0 {
        0
    } else {
        stated_total(writes, n - 1) + writes[n - 1].1
    }
}

/// The packets of a stream: its two headers and the first `n` audio packets.
spec fn stream_packets(head: HeadModel, tags: TagsModel, writes: Seq<(Seq<u8>, u32)>, n: int) -> Seq<
    Seq<u8>,
> {
    seq![head_bytes(head), tags_bytes(tags)] + Seq::new(n as nat, |i: int| writes[i].0)
}

/// What those packets count up to.
spec fn stream_counts(writes: Seq<(Seq<u8>, u32)>, n: int) -> Seq<int> {
    seq![0int, 0int] + Seq::new(n as nat, |i: int| stated_total(writes, i + 1))
}

/// Stated durations only add.
proof fn lemma_stated_grows(writes: Seq<(Seq<u8>, u32)>, k: int, n: int)
    requires
        0 <= k <= n <= writes.len(),
    ensures
        0 <= stated_total(writes, k) <= stated_total(writes, n),
    decreases n,
{
    if n > 0 {
        if k < n {
            lemma_stated_grows(writes, k, n - 1);
        } else {
            lemma_stated_grows(writes, n - 1, n - 1);
        }
    }
}

/// The writer after `n` packets.
proof fn lemma_written(
    start: OggWriterModel,
    sink: Seq<u8>,
    head: HeadModel,
    tags: TagsModel,
    serial: u32,
    writes: Seq<(Seq<u8>, u32)>,
    n: int,
) -> (pages: Seq<PageModel>)
    requires
        head.valid(),
        tags.fits(),
        tags_bytes(tags).len() <= MAX_OGG_PACKET_BYTES,
        start == (OggWriterModel {
            page_target: start.page_target,
            ..start_ogg(sink, head, tags, serial)
        }),
        0 <= n <= writes.len(),
        forall|i: int| 0 <= i < n ==> (#[trigger] writes[i]).0.len() <= MAX_OGG_PACKET_BYTES,
        run_writes(start, writes, n) is Some,
        stated_total(writes, n) <= i64::MAX,
    ensures
        pages.len() > 0,
        ({
            let m = run_writes(start, writes, n)->0;
            &&& gathered(m, sink, pages, stream_packets(head, tags, writes, n), Seq::empty())
            &&& graded(m, pages, stream_counts(writes, n))
            &&& m.granule == stated_total(writes, n)
            &&& m.serial == serial
            &&& n > 0 ==> ends_with_packet(m, pages)
            &&& n == 0 ==> m.segments.len() == 0
        }),
    decreases n,
{
    if n == 0 {
        let pages = lemma_started(sink, head, tags, serial);
        let plain = start_ogg(sink, head, tags, serial);
        assert(pending(start, pages) == pending(plain, pages));
        assert(stream_packets(head, tags, writes, 0) =~= seq![
            head_bytes(head),
            tags_bytes(tags),
        ]);
        assert(stream_counts(writes, 0) =~= seq![0int, 0int]);
        pages
    } else {
        lemma_stated_grows(writes, n - 1, n);
        let pages = lemma_written(start, sink, head, tags, serial, writes, n - 1);
        let k = run_writes(start, writes, n - 1)->0;
        let packet = writes[n - 1].0;
        let granule = (k.granule + writes[n - 1].1) as i64;
        assert(granule == stated_total(writes, n));
        let done = stream_packets(head, tags, writes, n - 1);
        let counts = stream_counts(writes, n - 1);
        let flush = k.segments.len() > 0 && k.payload.len() >= k.page_target;
        let ready = if flush {
            k.flushed(false, false, NO_PACKET_GRANULE)
        } else {
            k
        };
        let shown = if flush {
            pages.push(k.pending_page(false))
        } else {
            pages
        };
        if flush {
            lemma_flush(k, sink, pages, done, Seq::empty(), counts, NO_PACKET_GRANULE);
        }
        assert(gathered(ready, sink, shown, done, Seq::empty()));
        let more = lemma_complete(
            ready,
            sink,
            shown,
            done,
            counts,
            packet,
            NO_PACKET_GRANULE,
            granule,
        );
        lemma_laced_wf(ready, packet, 0, NO_PACKET_GRANULE);
        assert(done.push(packet) =~= stream_packets(head, tags, writes, n));
        assert(counts.push(granule as int) =~= stream_counts(writes, n));
        more
    }
}

/// The packets of the pages from the `j`th on, as a reader gives them.
proof fn lemma_packets_from(pages: Seq<PageModel>, serial: u32, j: int)
    requires
        0 <= j <= pages.len(),
        pages_ok(pages, pages.len() - 1, serial),
    ensures
        ({
            let n = pages.len() as int;
            let c = ended(pages, j).len() as int;
            let out = packets_from(pages, j);
            &&& ended(pages, n).len() == c + out.len()
            &&& reported(pages, n).len() == ended(pages, n).len()
            &&& reported(pages, j).len() == c
            &&& ended(pages, n).subrange(0, c) == ended(pages, j)
            &&& reported(pages, n).subrange(0, c) == reported(pages, j)
            &&& forall|i: int|
                0 <= i < out.len() ==> {
                    &&& (#[trigger] out[i]).data == ended(pages, n)[c + i]
                    &&& out[i].page_granule == reported(pages, n)[c + i]
                    &&& out[i].end_of_stream ==> i == out.len() - 1
                }
        }),
    decreases pages.len() - j,
{
    let n = pages.len() as int;
    if j == n {
        lemma_reported_len(pages, n);
        assert(ended(pages, n).subrange(0, ended(pages, n).len() as int) =~= ended(pages, n));
        assert(reported(pages, n).subrange(0, reported(pages, n).len() as int) =~= reported(
            pages,
            n,
        ));
    } else {
        lemma_packets_from(pages, serial, j + 1);
        lemma_reported_len(pages, j);
        let p = pages[j];
        assert(page_in_place(pages, j, serial));
        lemma_split_data(
            left_over(pages, j),
            p.segments,
            p.payload,
            p.granule as int,
            p.is_eos(),
            p.segments.len() as int,
        );
        let c = ended(pages, j).len() as int;
        let c1 = ended(pages, j + 1).len() as int;
        let here = page_split(pages, j).packets;
        let rest = packets_from(pages, j + 1);
        let out = packets_from(pages, j);
        assert(c1 == c + here.len());
        assert(ended(pages, n).subrange(0, c) =~= ended(pages, j)) by {
            assert(ended(pages, n).subrange(0, c) =~= ended(pages, n).subrange(0, c1).subrange(
                0,
                c,
            ));
        }
        assert(reported(pages, n).subrange(0, c) =~= reported(pages, j)) by {
            assert(reported(pages, n).subrange(0, c) =~= reported(pages, n).subrange(
                0,
                c1,
            ).subrange(0, c));
        }
        assert forall|i: int| 0 <= i < out.len() implies {
            &&& (#[trigger] out[i]).data == ended(pages, n)[c + i]
            &&& out[i].page_granule == reported(pages, n)[c + i]
            &&& out[i].end_of_stream ==> i == out.len() - 1
        } by {
            if i < here.len() {
                assert(out[i] == here[i]);
                assert(ended(pages, n).subrange(0, c1)[c + i] == ended(pages, j + 1)[c + i]);
                assert(reported(pages, n).subrange(0, c1)[c + i] == reported(pages, j + 1)[c + i]);
                if j < n - 1 {
                    assert(!pages[j].is_eos());
                }
            } else {
                assert(out[i] == rest[i - here.len()]);
            }
        }
    }
}

/// Every packet reports something.
proof fn lemma_reported_len(pages: Seq<PageModel>, n: int)
    ensures
        reported(pages, n).len() == ended(pages, n).len(),
    decreases n,
{
    if n > 0 {
        lemma_reported_len(pages, n - 1);
    }
}

/// A packet that ends with a page's last segment ends the stream if the page
/// does.
proof fn lemma_last_flag(partial: Seq<u8>, segments: Seq<u8>, payload: Seq<u8>, granule: int)
    requires
        segments.len() > 0,
        lace_sum(segments) == payload.len(),
        data_split(partial, segments, payload).packets.len() == data_split(
            partial,
            segments.drop_last(),
            payload,
        ).packets.len() + 1,
    ensures
        ({
            let out = split_page(
                partial,
                segments,
                payload,
                granule,
                true,
                segments.len() as int,
            ).packets;
            out.len() > 0 && out.last().end_of_stream
        }),
{
    let total = segments.len() as int;
    lemma_split_data(partial, segments, payload, granule, true, total);
    lemma_split_data(partial, segments.drop_last(), payload, granule, true, total);
}

/// The last packet of a stream is the last one of its last page.
proof fn lemma_last_packet(pages: Seq<PageModel>, j: int)
    requires
        0 <= j < pages.len(),
        page_split(pages, pages.len() - 1).packets.len() > 0,
    ensures
        packets_from(pages, j).len() > 0,
        packets_from(pages, j).last() == page_split(pages, pages.len() - 1).packets.last(),
    decreases pages.len() - j,
{
    if j < pages.len() - 1 {
        lemma_last_packet(pages, j + 1);
    } else {
        assert(packets_from(pages, j + 1) =~= Seq::empty());
        assert(packets_from(pages, j) =~= page_split(pages, j).packets);
    }
}

/// Finishing makes the stream whole.
proof fn lemma_finished(
    m: OggWriterModel,
    base: Seq<u8>,
    pages: Seq<PageModel>,
    done: Seq<Seq<u8>>,
    counts: Seq<int>,
) -> (more: Seq<PageModel>)
    requires
        gathered(m, base, pages, done, Seq::empty()),
        graded(m, pages, counts),
        pages.len() > 0,
        m.segments.len() > 0 ==> ends_with_packet(m, pages),
    ensures
        whole(more, m.serial),
        finish_ogg(m) == base + pages_bytes(more, more.len() as int),
        packets_from(more, 0).len() == done.len(),
        forall|i: int|
            0 <= i < done.len() ==> {
                &&& (#[trigger] packets_from(more, 0)[i]).data == done[i]
                &&& counts[i] <= packets_from(more, 0)[i].page_granule <= m.granule
                &&& packets_from(more, 0)[i].end_of_stream == (m.segments.len() > 0 && i
                    == done.len() - 1)
            },
        forall|i: int, k: int|
            0 <= i <= k < done.len() ==> (#[trigger] packets_from(more, 0)[i]).page_granule <= (
            #[trigger] packets_from(more, 0)[k]).page_granule,
        m.segments.len() > 0 ==> packets_from(more, 0).last().page_granule == m.granule,
{
    let n = pages.len() as int;
    let bare = m.segments.len() == 0;
    let last = if bare {
        OggWriterModel { segments: seq![0u8], page_granule: m.granule, ..m }
    } else {
        m
    };
    let page = last.pending_page(true);
    let more = pages.push(page);
    let q = left_over(pages, n);
    if bare {
        assert(last.segments.drop_last() =~= Seq::empty());
        reveal_with_fuel(lace_sum, 2);
        reveal_with_fuel(data_split, 2);
        assert(m.payload.len() == 0);
        assert(q =~= Seq::empty());
        assert(last.payload.subrange(0, 0) =~= Seq::empty());
        assert(data_split(q, last.segments, last.payload).packets =~= Seq::empty());
    }
    let data = data_split(q, page.segments, page.payload);
    assert(data.packets =~= pending(m, pages).packets);
    assert(data.partial =~= Seq::empty());
    lemma_push_page(pages, page, m.serial);
    assert(more.last() == page);
    assert(whole(more, m.serial));
    assert(finish_ogg(m) =~= base + pages_bytes(more, n + 1));
    assert(ended(more, n + 1) =~= done);
    lemma_packets_from(more, m.serial, 0);
    let out = packets_from(more, 0);
    let rep = reported(more, n + 1);
    assert(ended(more, 0).len() == 0);
    let old_rep = reported(pages, n);
    assert forall|i: int| 0 <= i < rep.len() implies counts[i] <= #[trigger] rep[i]
        <= m.granule by {
        if i < old_rep.len() {
            assert(rep[i] == old_rep[i]);
        } else {
            assert(rep[i] == m.page_granule);
        }
    }
    assert forall|i: int, k: int| 0 <= i <= k < rep.len() implies #[trigger] rep[i]
        <= #[trigger] rep[k] by {
        if k < old_rep.len() {
            assert(old_rep[i] <= old_rep[k]);
        } else if i < old_rep.len() {
            assert(rep[i] == old_rep[i]);
        }
    }
    lemma_pages_prefix(pages, page, n);
    if !bare {
        lemma_last_flag(q, page.segments, page.payload, page.granule as int);
        assert(page_split(more, n).packets.last().end_of_stream);
        lemma_last_packet(more, 0);
        assert(rep.last() == m.granule);
    } else {
        assert forall|i: int| 0 <= i < out.len() implies !(#[trigger] out[i]).end_of_stream by {
            lemma_bare_flags(more, m.serial, 0);
        }
    }
    assert forall|i: int| 0 <= i < done.len() implies {
        &&& (#[trigger] out[i]).data == done[i]
        &&& counts[i] <= out[i].page_granule <= m.granule
        &&& out[i].end_of_stream == (m.segments.len() > 0 && i == done.len() - 1)
    } by {
        assert(rep[i] == out[i].page_granule);
        assert(ended(more, n + 1)[i] == done[i]);
    }
    assert forall|i: int, k: int| 0 <= i <= k < done.len() implies (#[trigger]
    out[i]).page_granule <= (#[trigger] out[k]).page_granule by {
        assert(out[i].page_granule == rep[i]);
        assert(out[k].page_granule == rep[k]);
    }
    more
}

/// Where no packet ends on the last page, no packet ends the stream.
proof fn lemma_bare_flags(pages: Seq<PageModel>, serial: u32, j: int)
    requires
        0 <= j <= pages.len(),
        whole(pages, serial),
        page_data(pages, pages.len() - 1).packets.len() == 0,
    ensures
        forall|i: int|
            0 <= i < packets_from(pages, j).len() ==> !(#[trigger] packets_from(
                pages,
                j,
            )[i]).end_of_stream,
    decreases pages.len() - j,
{
    if j < pages.len() {
        lemma_bare_flags(pages, serial, j + 1);
        let p = pages[j];
        assert(page_in_place(pages, j, serial));
        lemma_split_data(
            left_over(pages, j),
            p.segments,
            p.payload,
            p.granule as int,
            p.is_eos(),
            p.segments.len() as int,
        );
        let here = page_split(pages, j).packets;
        if j < pages.len() - 1 {
            assert(!pages[j].is_eos());
        }
        assert forall|i: int| 0 <= i < packets_from(pages, j).len() implies !(#[trigger]
        packets_from(pages, j)[i]).end_of_stream by {
            if i < here.len() {
                assert(packets_from(pages, j)[i] == here[i]);
            } else {
                assert(packets_from(pages, j)[i] == packets_from(pages, j + 1)[i - here.len()]);
            }
        }
    }
}

/// The reader after `n` packets.
pub open spec fn after_reads(r: OggReaderModel, n: int) -> OggReaderModel
    decreases n,
{
    if n <= 0 {
        r
    } else {
        next_packet(after_reads(r, n - 1)).1
    }
}

/// A reader that stands in a whole stream gives what is left of it, in order.
proof fn lemma_reads(
    m: OggReaderModel,
    base: Seq<u8>,
    pages: Seq<PageModel>,
    serial: u32,
    j: int,
    i: int,
) -> (k: int)
    requires
        whole(pages, serial),
        stands_at(m, base, pages, serial, j),
        0 <= i <= (m.ready + packets_from(pages, j)).len(),
    ensures
        ({
            let left = m.ready + packets_from(pages, j);
            let now = after_reads(m, i);
            &&& stands_at(now, base, pages, serial, k)
            &&& now.ready + packets_from(pages, k) == left.subrange(i, left.len() as int)
            &&& next_packet(now).0 == Ok::<Option<PacketModel>, Error>(
                if i < left.len() {
                    Some(left[i])
                } else {
                    None
                },
            )
        }),
    decreases i,
{
    let left = m.ready + packets_from(pages, j);
    if i == 0 {
        assert(left.subrange(0, left.len() as int) =~= left);
        let unused = lemma_next(m, base, pages, serial, j);
        j
    } else {
        let before = lemma_reads(m, base, pages, serial, j, i - 1);
        let prior = after_reads(m, i - 1);
        let rest = left.subrange(i - 1, left.len() as int);
        let k = lemma_next(prior, base, pages, serial, before);
        assert(rest.subrange(1, rest.len() as int) =~= left.subrange(i, left.len() as int));
        let unused = lemma_next(after_reads(m, i), base, pages, serial, k);
        k
    }
}

/// Whether a reader gives exactly these packets, in order, and then no more.
spec fn gives(r: OggReaderModel, list: Seq<PacketModel>) -> bool {
    forall|i: int|
        0 <= i <= list.len() ==> next_packet(#[trigger] after_reads(r, i)).0 == Ok::<
            Option<PacketModel>,
            Error,
        >(
            if i < list.len() {
                Some(list[i])
            } else {
                None
            },
        )
}

/// A whole stream opens past its two header packets.
proof fn lemma_opened(
    base: Seq<u8>,
    pages: Seq<PageModel>,
    serial: u32,
    head: HeadModel,
    tags: TagsModel,
)
    requires
        whole(pages, serial),
        head.valid(),
        tags.fits(),
        packets_from(pages, 0).len() >= 2,
        packets_from(pages, 0)[0].data == head_bytes(head),
        packets_from(pages, 0)[1].data == tags_bytes(tags),
    ensures
        ({
            let list = packets_from(pages, 0);
            let opened = open_ogg(
                CursorModel {
                    bytes: base + pages_bytes(pages, pages.len() as int),
                    position: base.len(),
                },
            );
            &&& opened is Ok
            &&& opened->Ok_0.head == head
            &&& opened->Ok_0.tags == tags
            &&& opened->Ok_0.serial == serial
            &&& gives(opened->Ok_0, list.subrange(2, list.len() as int))
        }),
{
    let list = packets_from(pages, 0);
    let source = CursorModel {
        bytes: base + pages_bytes(pages, pages.len() as int),
        position: base.len(),
    };
    law_head_round_trip(head);
    law_tags_round_trip(tags);
    let r0 = fresh_reader(source);
    assert(pages_bytes(pages, 0).len() == 0);
    assert(left_over(pages, 0) =~= Seq::empty());
    assert(stands_at(r0, base, pages, serial, 0));
    assert(r0.ready + list =~= list);
    let k1 = lemma_next(r0, base, pages, serial, 0);
    let r1 = OggReaderModel { head, ..next_packet(r0).1 };
    assert(stands_at(r1, base, pages, serial, k1));
    let list1 = r1.ready + packets_from(pages, k1);
    assert(list1 == list.subrange(1, list.len() as int));
    let k2 = lemma_next(r1, base, pages, serial, k1);
    assert(list1[0] == list[1]);
    let reader = OggReaderModel { tags, ..next_packet(r1).1 };
    assert(open_ogg(source) == Ok::<OggReaderModel, Error>(reader));
    assert(stands_at(reader, base, pages, serial, k2));
    let audio = reader.ready + packets_from(pages, k2);
    assert(audio =~= list.subrange(2, list.len() as int));
    assert forall|i: int| 0 <= i <= audio.len() implies next_packet(
        #[trigger] after_reads(reader, i),
    ).0 == Ok::<Option<PacketModel>, Error>(
        if i < audio.len() {
            Some(audio[i])
        } else {
            None
        },
    ) by {
        let unused = lemma_reads(reader, base, pages, serial, k2, i);
    }
}

/// A stream holds the packets that were written to it. Whatever packets a
/// writer accepted, whatever page target it was given, the stream it finishes
/// opens with the header, the comments and the serial number it was started
/// with, and reads back every packet byte for byte, however many pages each
/// spans; the last one alone ends the stream. Each packet reports at least the
/// samples that it and those before it were stated to decode to, never less
/// than the packet before, and the last one reports the total. Packets over the
/// size that a reader will reassemble are left out.
pub proof fn law_ogg_round_trip(
    sink: Seq<u8>,
    head: HeadModel,
    tags: TagsModel,
    serial: u32,
    page_target: usize,
    writes: Seq<(Seq<u8>, u32)>,
    m: OggWriterModel,
)
    requires
        head.valid(),
        tags.fits(),
        tags_bytes(tags).len() <= MAX_OGG_PACKET_BYTES,
        forall|i: int|
            0 <= i < writes.len() ==> (#[trigger] writes[i]).0.len() <= MAX_OGG_PACKET_BYTES,
        stated_total(writes, writes.len() as int) <= i64::MAX,
        run_writes(
            OggWriterModel { page_target, ..start_ogg(sink, head, tags, serial) },
            writes,
            writes.len() as int,
        ) == Some(m),
    ensures
        ({
            let opened = open_ogg(CursorModel { bytes: finish_ogg(m), position: sink.len() });
            let reader = opened->Ok_0;
            let total = stated_total(writes, writes.len() as int);
            &&& opened is Ok
            &&& reader.head == head
            &&& reader.tags == tags
            &&& reader.serial == serial
            &&& forall|i: int|
                0 <= i < writes.len() ==> {
                    let read = (#[trigger] next_packet(after_reads(reader, i))).0;
                    let packet = read->Ok_0->0;
                    &&& read is Ok
                    &&& read->Ok_0 is Some
                    &&& packet.data == writes[i].0
                    &&& packet.end_of_stream == (i == writes.len() - 1)
                    &&& stated_total(writes, i + 1) <= packet.page_granule <= total
                    &&& i == writes.len() - 1 ==> packet.page_granule == total
                }
            &&& forall|i: int, k: int|
                0 <= i <= k < writes.len() ==> (#[trigger] next_packet(
                    after_reads(reader, i),
                )).0->Ok_0->0.page_granule <= (#[trigger] next_packet(
                    after_reads(reader, k),
                )).0->Ok_0->0.page_granule
            &&& next_packet(after_reads(reader, writes.len() as int)).0 == Ok::<
                Option<PacketModel>,
                Error,
            >(None)
        }),
{
    let n = writes.len() as int;
    let start = OggWriterModel { page_target, ..start_ogg(sink, head, tags, serial) };
    let pages = lemma_written(start, sink, head, tags, serial, writes, n);
    let done = stream_packets(head, tags, writes, n);
    let counts = stream_counts(writes, n);
    let more = lemma_finished(m, sink, pages, done, counts);
    let list = packets_from(more, 0);
    assert(list[0].data == done[0]);
    assert(list[1].data == done[1]);
    lemma_opened(sink, more, serial, head, tags);
    let reader = open_ogg(CursorModel { bytes: finish_ogg(m), position: sink.len() })->Ok_0;
    let audio = list.subrange(2, list.len() as int);
    assert(audio.len() == n);
    assert forall|i: int| 0 <= i < n implies {
        let read = (#[trigger] next_packet(after_reads(reader, i))).0;
        let packet = read->Ok_0->0;
        &&& read == Ok::<Option<PacketModel>, Error>(Some(list[i + 2]))
        &&& packet.data == writes[i].0
        &&& packet.end_of_stream == (i == n - 1)
        &&& stated_total(writes, i + 1) <= packet.page_granule <= stated_total(writes, n)
        &&& i == n - 1 ==> packet.page_granule == stated_total(writes, n)
    } by {
        let at = after_reads(reader, i);
        assert(audio[i] == list[i + 2]);
        assert(list[i + 2].data == done[i + 2]);
        assert(done[i + 2] == writes[i].0);
        assert(counts[i + 2] == stated_total(writes, i + 1));
    }
    assert forall|i: int, k: int| 0 <= i <= k < n implies (#[trigger] next_packet(
        after_reads(reader, i),
    )).0->Ok_0->0.page_granule <= (#[trigger] next_packet(
        after_reads(reader, k),
    )).0->Ok_0->0.page_granule by {
        assert(list[i + 2].page_granule <= list[k + 2].page_granule);
    }
    let end = after_reads(reader, n);
}

} // verus!
