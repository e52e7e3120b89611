//! Ogg Opus demuxer.

use vstd::prelude::*;

use std::collections::VecDeque;

use crate::bytes::{push_all, same_bytes};
use crate::error::Error;
use crate::io::{Cursor, CursorModel};
use crate::ogg::header::{
    parse_head, parse_tags, plain_head, HeadModel, OpusHead, OpusTags, TagsModel, VENDOR,
};
use crate::ogg::page::{
    crc_matches, flag_bos, flag_continued, flag_eos, lace_sum, parse_page_header, verify_crc,
    PageHeader, CAPTURE_PATTERN, HEADER_LEN, MAX_PAGE_PAYLOAD,
};

verus! {

/// Largest packet the reader will reassemble from continued pages, 16 MiB.
///
/// A packet's own framing bounds its frames but not its padding, so nothing in
/// the format stops a chain of continued pages from growing the pending packet
/// for as long as the source keeps delivering. This is far above any packet an
/// encoder produces (a 120 ms packet at the highest rate is under 8 KiB) and
/// exists only so a hostile stream cannot make the reader allocate without
/// limit.
pub const MAX_OGG_PACKET_BYTES: usize = 16_777_216;

/// How far a reader looks for a page when it is not on one.
pub const RESYNC_LIMIT: usize = 1_048_576;

/// One Opus packet recovered from the container.
#[derive(Debug, Clone, PartialEq, Eq)]
#[non_exhaustive]
pub struct OggPacket {
    /// The packet, ready to hand to a decoder.
    pub data: Vec<u8>,
    /// Granule position of the page this packet completed on, or `-1` if that
    /// page completed no packet. This is a *page* property: several packets
    /// completing on one page all report the same value, which is the granule
    /// after the last of them.
    pub page_granule: i64,
    /// The packet completed the final page of the stream.
    pub end_of_stream: bool,
}

/// What an [`OggPacket`] holds.
#[verifier::ext_equal]
pub struct PacketModel {
    /// The packet's bytes.
    pub data: Seq<u8>,
    /// Granule position of the page the packet completed on.
    pub page_granule: int,
    /// Whether the packet completed the stream's final page.
    pub end_of_stream: bool,
}

impl View for OggPacket {
    type V = PacketModel;

    open spec fn view(&self) -> PacketModel {
        PacketModel {
            data: self.data@,
            page_granule: self.page_granule as int,
            end_of_stream: self.end_of_stream,
        }
    }
}

impl OggPacket {
    /// Build a packet directly, without a container to read it out of.
    ///
    /// The reader produces these; this exists so code that *consumes* them can
    /// be tested without muxing a file first.
    pub fn new(data: Vec<u8>, page_granule: i64, end_of_stream: bool) -> (packet: Self)
        ensures
            packet@ == (PacketModel {
                data: data@,
                page_granule: page_granule as int,
                end_of_stream,
            }),
    {
        OggPacket { data, page_granule, end_of_stream }
    }
}

/// What a read came back with, packets taken by their contents.
pub open spec fn read_result(r: Result<Option<OggPacket>, Error>) -> Result<
    Option<PacketModel>,
    Error,
> {
    match r {
        Ok(Some(packet)) => Ok(Some(packet@)),
        Ok(None) => Ok(None),
        Err(e) => Err(e),
    }
}

/// What a page's segments add up to: the packets that end on it, what is left
/// of one that does not, and whether one grew too big.
#[verifier::ext_equal]
pub struct SplitModel {
    /// The packets that end on the page.
    pub packets: Seq<PacketModel>,
    /// The bytes of a packet that does not end on it.
    pub partial: Seq<u8>,
    /// Whether a packet grew over [`MAX_OGG_PACKET_BYTES`].
    pub too_big: bool,
}

/// What the first segments of a page add up to, after the bytes in `partial`. A
/// segment shorter than 255 ends its packet. An empty packet is dropped: muxers
/// emit one as the payload of a bare last page, and it is not decodable audio.
/// A packet that ends with the last of the page's `total` segments ends the
/// stream if the page does.
pub open spec fn split_page(
    partial: Seq<u8>,
    segments: Seq<u8>,
    payload: Seq<u8>,
    granule: int,
    eos: bool,
    total: int,
) -> SplitModel
    decreases segments.len(),
{
    if segments.len() == 0 {
        SplitModel { packets: Seq::empty(), partial, too_big: false }
    } else {
        let lace = segments.last();
        let used = lace_sum(segments.drop_last()) as int;
        let before = split_page(partial, segments.drop_last(), payload, granule, eos, total);
        if before.too_big {
            before
        } else if before.partial.len() + lace > MAX_OGG_PACKET_BYTES {
            SplitModel { partial: Seq::empty(), too_big: true, ..before }
        } else {
            let grown = before.partial + payload.subrange(used, used + lace);
            if lace == 255 {
                SplitModel { partial: grown, ..before }
            } else if grown.len() == 0 {
                SplitModel { partial: Seq::empty(), ..before }
            } else {
                SplitModel {
                    packets: before.packets.push(
                        PacketModel {
                            data: grown,
                            page_granule: granule,
                            end_of_stream: eos && segments.len() == total,
                        },
                    ),
                    partial: Seq::empty(),
                    ..before
                }
            }
        }
    }
}

/// What looking for a page header past `at` gives, and where the source is
/// then: the first place within `left` bytes that has the capture pattern.
pub open spec fn resync(bytes: Seq<u8>, at: int, left: nat) -> (
    Result<Option<Seq<u8>>, Error>,
    CursorModel,
)
    decreases left,
{
    if left == 0 {
        (
            Err(Error::InvalidStream("no Ogg page found while resynchronising")),
            CursorModel { bytes, position: (at + HEADER_LEN) as nat },
        )
    } else if at + 1 + HEADER_LEN > bytes.len() {
        (
            Err(Error::InvalidStream("stream ends without a valid page")),
            CursorModel { bytes, position: bytes.len() },
        )
    } else if bytes.subrange(at + 1, at + 5) == CAPTURE_PATTERN@ {
        (
            Ok(Some(bytes.subrange(at + 1, at + 1 + HEADER_LEN))),
            CursorModel { bytes, position: (at + 1 + HEADER_LEN) as nat },
        )
    } else {
        resync(bytes, at + 1, (left - 1) as nat)
    }
}

/// What looking for the next page header gives, and the source afterwards.
pub open spec fn next_header(source: CursorModel) -> (Result<Option<Seq<u8>>, Error>, CursorModel) {
    let at = source.position as int;
    if source.remaining() == 0 {
        (Ok(None), source)
    } else if source.remaining() < HEADER_LEN {
        (
            Err(Error::InvalidStream("stream ends inside a page header")),
            source.at(source.bytes.len()),
        )
    } else if source.bytes.subrange(at, at + 4) == CAPTURE_PATTERN@ {
        (
            Ok(Some(source.ahead(HEADER_LEN as nat))),
            source.at(source.position + HEADER_LEN as nat),
        )
    } else {
        resync(source.bytes, at, RESYNC_LIMIT as nat)
    }
}

/// A stream being read.
#[verifier::ext_equal]
pub struct OggReaderModel {
    /// The stream, positioned at the next page.
    pub source: CursorModel,
    /// The identification header.
    pub head: HeadModel,
    /// The comment header.
    pub tags: TagsModel,
    /// Serial number of the logical bitstream being read.
    pub serial: u32,
    /// Packets fully recovered from the last page read, oldest first.
    pub ready: Seq<PacketModel>,
    /// Bytes of a packet that spilled past the end of a page.
    pub partial: Seq<u8>,
    /// The last page carried the end-of-stream flag.
    pub saw_eos: bool,
    /// The source has ended.
    pub exhausted: bool,
}

/// What a page that has been read makes of the reader: its serial number has to
/// be the stream's, and it has to continue a packet exactly when one is
/// pending.
pub open spec fn take_page(
    m: OggReaderModel,
    header: PageHeader,
    segments: Seq<u8>,
    payload: Seq<u8>,
) -> (Result<(), Error>, OggReaderModel) {
    let bos = flag_bos(header.flags);
    let eos = flag_eos(header.flags);
    if !bos && header.serial != m.serial {
        (Err(Error::InvalidStream("stream contains more than one logical bitstream")), m)
    } else {
        let named = OggReaderModel { serial: header.serial, ..m };
        if flag_continued(header.flags) == (m.partial.len() == 0) {
            (
                Err(
                    Error::InvalidStream(
                        "page continuation flag does not match the pending packet",
                    ),
                ),
                OggReaderModel { partial: Seq::empty(), ..named },
            )
        } else {
            let split = split_page(
                m.partial,
                segments,
                payload,
                header.granule_position as int,
                eos,
                segments.len() as int,
            );
            let next = OggReaderModel {
                saw_eos: eos,
                ready: m.ready + split.packets,
                partial: split.partial,
                ..named
            };
            if split.too_big {
                (Err(Error::InvalidStream("packet exceeds maximum allowed size")), next)
            } else {
                (Ok(()), next)
            }
        }
    }
}

/// What reading the body of a page gives, once its header has been read.
pub open spec fn read_page_body(m: OggReaderModel, raw: Seq<u8>) -> (
    Result<(), Error>,
    OggReaderModel,
) {
    let ended = OggReaderModel { source: m.source.at(m.source.bytes.len()), ..m };
    match parse_page_header(raw) {
        Err(e) => (Err(e), m),
        Ok(header) => {
            let count = header.segment_count as nat;
            let segments = m.source.ahead(count);
            let payload_at = m.source.at(m.source.position + count);
            let payload = payload_at.ahead(lace_sum(segments));
            let past = OggReaderModel {
                source: payload_at.at(payload_at.position + lace_sum(segments)),
                ..m
            };
            if count == 0 {
                (Err(Error::InvalidStream("page has an empty segment table")), m)
            } else if m.source.remaining() < count {
                (Err(Error::InvalidStream("stream ends inside a page")), ended)
            } else if payload_at.remaining() < lace_sum(segments) {
                (Err(Error::InvalidStream("stream ends inside a page")), ended)
            } else if !crc_matches(raw, segments, payload, header.crc) {
                (Err(Error::InvalidStream("page CRC mismatch")), past)
            } else {
                take_page(past, header, segments, payload)
            }
        },
    }
}

/// What reading a page gives, and the reader afterwards.
pub open spec fn read_page_step(m: OggReaderModel) -> (Result<(), Error>, OggReaderModel) {
    match next_header(m.source) {
        (Err(e), source) => (Err(e), OggReaderModel { source, ..m }),
        (Ok(None), source) => (Ok(()), OggReaderModel { source, exhausted: true, ..m }),
        (Ok(Some(raw)), source) => read_page_body(OggReaderModel { source, ..m }, raw),
    }
}

impl OggReaderModel {
    /// How much reading is left to do.
    pub open spec fn reading_left(self) -> nat {
        self.source.remaining() + if self.exhausted {
            0nat
        } else {
            1
        }
    }
}

/// A page header that was found lies behind the source.
proof fn lemma_resync_advances(bytes: Seq<u8>, at: int, left: nat)
    requires
        0 <= at,
        at + HEADER_LEN <= bytes.len(),
    ensures
        resync(bytes, at, left).1.bytes == bytes,
        at + HEADER_LEN <= resync(bytes, at, left).1.position <= bytes.len(),
        resync(bytes, at, left).0 matches Ok(found) ==> found is Some && found->0.len()
            == HEADER_LEN,
    decreases left,
{
    if left > 0 && at + 1 + HEADER_LEN <= bytes.len() {
        lemma_resync_advances(bytes, at + 1, (left - 1) as nat);
    }
}

/// Reading a page leaves less to read.
pub proof fn lemma_page_advances(m: OggReaderModel)
    ensures
        read_page_step(m).0 is Ok ==> read_page_step(m).1.reading_left() < m.reading_left()
            || m.exhausted,
        read_page_step(m).1.source.bytes == m.source.bytes,
{
    if m.source.remaining() >= HEADER_LEN {
        lemma_resync_advances(m.source.bytes, m.source.position as int, RESYNC_LIMIT as nat);
    }
}

/// What asking for the next packet gives, and the reader afterwards. Pages are
/// read until one completes a packet or the stream ends; a packet that is still
/// pending then was cut off, which is reported once.
pub open spec fn next_packet(m: OggReaderModel) -> (
    Result<Option<PacketModel>, Error>,
    OggReaderModel,
)
    decreases m.reading_left(),
    via next_packet_decreases
{
    if m.ready.len() > 0 {
        (
            Ok(Some(m.ready[0])),
            OggReaderModel { ready: m.ready.subrange(1, m.ready.len() as int), ..m },
        )
    } else if m.saw_eos || m.exhausted {
        if m.partial.len() > 0 {
            (
                Err(Error::InvalidStream("stream ends in the middle of a packet")),
                OggReaderModel { partial: Seq::empty(), ..m },
            )
        } else {
            (Ok(None), m)
        }
    } else {
        match read_page_step(m) {
            (Err(e), next) => (Err(e), next),
            (Ok(_), next) => next_packet(next),
        }
    }
}

#[via_fn]
proof fn next_packet_decreases(m: OggReaderModel) {
    lemma_page_advances(m);
}

/// A reader that has read nothing yet.
pub open spec fn fresh_reader(source: CursorModel) -> OggReaderModel {
    OggReaderModel {
        source,
        head: plain_head(1, 0),
        tags: TagsModel { vendor: VENDOR@, comments: Seq::empty() },
        serial: 0,
        ready: Seq::empty(),
        partial: Seq::empty(),
        saw_eos: false,
        exhausted: false,
    }
}

/// The reader past a stream's two header packets, or why there is none.
pub open spec fn open_ogg(source: CursorModel) -> Result<OggReaderModel, Error> {
    match next_packet(fresh_reader(source)) {
        (Err(e), _) => Err(e),
        (Ok(None), _) => Err(Error::InvalidStream("stream ends before OpusHead")),
        (Ok(Some(first)), m) => match parse_head(first.data) {
            Err(e) => Err(e),
            Ok(head) => match next_packet(OggReaderModel { head, ..m }) {
                (Err(e), _) => Err(e),
                (Ok(None), _) => Err(Error::InvalidStream("stream ends before OpusTags")),
                (Ok(Some(second)), m) => match parse_tags(second.data) {
                    Err(e) => Err(e),
                    Ok(tags) => Ok(OggReaderModel { tags, ..m }),
                },
            },
        },
    }
}

/// Reads Opus packets out of an Ogg stream.
///
/// The constructor consumes the two header packets, so [`head`](Self::head) and
/// [`tags`](Self::tags) are available immediately and
/// [`read_packet`](Self::read_packet) yields audio from the first call.
///
/// Pages failing their CRC are an error rather than a silent skip: a truncated
/// or corrupt file should not decode as if it were fine.
///
/// # Reading forward
///
/// This reads forward from the first audio packet and does not seek. Playing a
/// stream again means starting over: take the source back with
/// [`into_inner`](Self::into_inner), rewind it, and construct a new reader,
/// which re-reads only the two header pages.
#[derive(Debug)]
pub struct OggOpusReader {
    source: Cursor,
    head: OpusHead,
    tags: OpusTags,
    serial: u32,
    ready: VecDeque<OggPacket>,
    partial: Vec<u8>,
    saw_eos: bool,
    exhausted: bool,
}

/// Packets taken by their contents.
pub open spec fn packet_models(packets: Seq<OggPacket>) -> Seq<PacketModel> {
    Seq::new(packets.len(), |i: int| packets[i]@)
}

impl View for OggOpusReader {
    type V = OggReaderModel;

    closed spec fn view(&self) -> OggReaderModel {
        OggReaderModel {
            source: self.source@,
            head: self.head@,
            tags: self.tags@,
            serial: self.serial,
            ready: packet_models(self.ready@),
            partial: self.partial@,
            saw_eos: self.saw_eos,
            exhausted: self.exhausted,
        }
    }
}

/// The sum of some lacing values.
fn sum_laces(segments: &[u8]) -> (sum: usize)
    requires
        segments@.len() <= 255,
    ensures
        sum == lace_sum(segments@),
        sum <= MAX_PAGE_PAYLOAD,
{
    let mut sum: usize = 0;
    let mut i: usize = 0;
    assert(segments@.subrange(0, 0) =~= Seq::empty());
    while i < segments.len()
        invariant
            i <= segments@.len() <= 255,
            sum == lace_sum(segments@.subrange(0, i as int)),
            sum <= i * 255,
        decreases segments@.len() - i,
    {
        assert(segments@.subrange(0, i + 1).drop_last() =~= segments@.subrange(0, i as int));
        sum = sum + segments[i] as usize;
        i = i + 1;
    }
    assert(segments@.subrange(0, segments@.len() as int) =~= segments@);
    sum
}

/// Some lacing values never add up to more than all of them.
pub proof fn lemma_lace_prefix(segments: Seq<u8>, i: int)
    requires
        0 <= i <= segments.len(),
    ensures
        lace_sum(segments.subrange(0, i)) <= lace_sum(segments),
    decreases segments.len(),
{
    if i == segments.len() {
        assert(segments.subrange(0, i) =~= segments);
    } else {
        lemma_lace_prefix(segments.drop_last(), i);
        assert(segments.drop_last().subrange(0, i) =~= segments.subrange(0, i));
    }
}

impl OggOpusReader {
    /// Read the header packets and position the reader at the first audio
    /// packet.
    pub fn new(source: Cursor) -> (r: Result<Self, Error>)
        ensures
            match (r, open_ogg(source@)) {
                (Ok(reader), Ok(model)) => reader@ == model,
                (Err(e), Err(expected)) => e == expected,
                _ => false,
            },
    {
        let mut r = OggOpusReader {
            source,
            head: OpusHead::new(1, 0)?,
            tags: OpusTags::new(),
            serial: 0,
            ready: VecDeque::new(),
            partial: Vec::new(),
            saw_eos: false,
            exhausted: false,
        };
        assert(r@ =~= fresh_reader(source@));
        let first = match r.next_packet_raw()? {
            Some(packet) => packet,
            None => return Err(Error::InvalidStream("stream ends before OpusHead")),
        };
        let ghost m1 = r@;
        r.head = OpusHead::parse(&first.data)?;
        assert(r@ =~= OggReaderModel { head: r@.head, ..m1 });
        let second = match r.next_packet_raw()? {
            Some(packet) => packet,
            None => return Err(Error::InvalidStream("stream ends before OpusTags")),
        };
        let ghost m2 = r@;
        r.tags = OpusTags::parse(&second.data)?;
        assert(r@ =~= OggReaderModel { tags: r@.tags, ..m2 });
        Ok(r)
    }

    /// The stream's identification header.
    pub fn head(&self) -> (head: &OpusHead)
        ensures
            head@ == self@.head,
    {
        &self.head
    }

    /// The stream's comment header.
    pub fn tags(&self) -> (tags: &OpusTags)
        ensures
            tags@ == self@.tags,
    {
        &self.tags
    }

    /// Serial number of the logical bitstream being read.
    pub fn serial(&self) -> (serial: u32)
        ensures
            serial == self@.serial,
    {
        self.serial
    }

    /// The next audio packet, or `None` at end of stream.
    pub fn read_packet(&mut self) -> (r: Result<Option<OggPacket>, Error>)
        ensures
            (read_result(r), final(self)@) == next_packet(old(self)@),
    {
        self.next_packet_raw()
    }

    /// The remaining audio packets, one by one.
    ///
    /// The same packets [`read_packet`](Self::read_packet) yields. The walk
    /// ends at the first error as well as at end of stream, so a truncated file
    /// stops rather than looping.
    pub fn packets(&mut self) -> (packets: Packets<'_>)
        ensures
            *packets.reader == *old(self),
            !packets.done,
            *final(self) == *final(packets.reader),
    {
        Packets { reader: self, done: false }
    }

    /// The underlying source, giving up the ability to read further packets.
    pub fn into_inner(self) -> (source: Cursor)
        ensures
            source@ == self@.source,
    {
        self.source
    }

    /// The underlying source.
    pub fn get_ref(&self) -> (source: &Cursor)
        ensures
            source@ == self@.source,
    {
        &self.source
    }

    fn next_packet_raw(&mut self) -> (r: Result<Option<OggPacket>, Error>)
        ensures
            (read_result(r), final(self)@) == next_packet(old(self)@),
    {
        loop
            invariant
                next_packet(old(self)@) == next_packet(self@),
            decreases self@.reading_left(),
        {
            let ghost before = self@;
            let popped = self.ready.pop_front();
            if let Some(packet) = popped {
                assert(self@.ready =~= before.ready.subrange(1, before.ready.len() as int));
                return Ok(Some(packet));
            }
            assert(self@ =~= before);
            if self.saw_eos || self.exhausted {
                // A packet still pending was cut off by the end of the stream;
                // report that rather than returning it as if complete.
                if self.partial.len() > 0 {
                    self.partial.clear();
                    return Err(Error::InvalidStream("stream ends in the middle of a packet"));
                }
                return Ok(None);
            }
            proof {
                lemma_page_advances(before);
            }
            self.read_page()?;
        }
    }

    /// Read one page and split it into packets, appending to `ready`.
    fn read_page(&mut self) -> (r: Result<(), Error>)
        ensures
            (r, final(self)@) == read_page_step(old(self)@),
    {
        let ghost start = self@;
        let found = self.read_page_header()?;
        let raw = match found {
            Some(raw) => raw,
            None => {
                self.exhausted = true;
                return Ok(());
            },
        };
        let ghost located = self@;
        let header = PageHeader::parse(&raw)?;
        if header.segment_count == 0 {
            return Err(Error::InvalidStream("page has an empty segment table"));
        }
        let count: usize = header.segment_count as usize;
        let segments = read_exact(&mut self.source, count)?;
        let payload_len: usize = sum_laces(&segments);
        let payload = if payload_len == 0 {
            Vec::new()
        } else {
            read_exact(&mut self.source, payload_len)?
        };
        proof {
            let at = located.source.at(located.source.position + count as nat);
            assert(payload@ =~= at.ahead(lace_sum(segments@)));
            assert(self@ =~= OggReaderModel {
                source: at.at(at.position + lace_sum(segments@)),
                ..located
            });
        }
        if !verify_crc(&raw, &segments, &payload, header.crc) {
            return Err(Error::InvalidStream("page CRC mismatch"));
        }
        self.take_page(&header, &segments, &payload)
    }

    /// Split a page into packets, appending to `ready`.
    fn take_page(&mut self, header: &PageHeader, segments: &[u8], payload: &[u8]) -> (r: Result<
        (),
        Error,
    >)
        requires
            lace_sum(segments@) == payload@.len(),
        ensures
            (r, final(self)@) == take_page(old(self)@, *header, segments@, payload@),
    {
        let ghost start = self@;
        if header.is_bos() {
            self.serial = header.serial;
        } else if header.serial != self.serial {
            // Multiplexed or chained streams are out of scope: a second logical
            // stream would need its own decoder state and pre-skip.
            return Err(Error::InvalidStream("stream contains more than one logical bitstream"));
        }
        // A page that claims to continue a packet when none is pending, or that
        // starts fresh while one is pending, means pages were lost or reordered.
        if header.is_continued() == (self.partial.len() == 0) {
            self.partial.clear();
            return Err(
                Error::InvalidStream("page continuation flag does not match the pending packet"),
            );
        }
        self.saw_eos = header.is_eos();

        let ghost pending = self.partial@;
        let ghost named = OggReaderModel { serial: header.serial, ..start };
        let ghost granule = header.granule_position as int;
        let mut off: usize = 0;
        let mut i: usize = 0;
        proof {
            let none = segments@.subrange(0, 0);
            assert(none =~= Seq::empty());
            assert(self@.ready =~= start.ready + split_page(
                pending,
                none,
                payload@,
                granule,
                self.saw_eos,
                segments@.len() as int,
            ).packets);
        }
        while i < segments.len()
            invariant
                i <= segments@.len(),
                lace_sum(segments@) == payload@.len(),
                off == lace_sum(segments@.subrange(0, i as int)),
                off <= payload@.len(),
                granule == header.granule_position,
                named == (OggReaderModel { serial: header.serial, ..start }),
                self.saw_eos == flag_eos(header.flags),
                ({
                    let split = split_page(
                        pending,
                        segments@.subrange(0, i as int),
                        payload@,
                        granule,
                        self.saw_eos,
                        segments@.len() as int,
                    );
                    &&& !split.too_big
                    &&& self@ == (OggReaderModel {
                        saw_eos: self.saw_eos,
                        ready: start.ready + split.packets,
                        partial: split.partial,
                        ..named
                    })
                }),
                start.serial == header.serial || flag_bos(header.flags),
                pending == start.partial,
                flag_continued(header.flags) != (start.partial.len() == 0),
                start == old(self)@,
            decreases segments@.len() - i,
        {
            let lace: u8 = segments[i];
            let size: usize = lace as usize;
            let ghost shown = segments@.subrange(0, i as int);
            let ghost next = segments@.subrange(0, i + 1);
            let ghost split = split_page(
                pending,
                shown,
                payload@,
                granule,
                self.saw_eos,
                segments@.len() as int,
            );
            proof {
                assert(next.drop_last() =~= shown);
                lemma_lace_prefix(segments@, i + 1);
                lemma_too_big_stays(
                    pending,
                    segments@,
                    payload@,
                    granule,
                    self.saw_eos,
                    segments@.len() as int,
                    i + 1,
                );
            }
            if self.partial.len() > MAX_OGG_PACKET_BYTES - size {
                self.partial.clear();
                assert(self@ =~= OggReaderModel {
                    saw_eos: self.saw_eos,
                    ready: start.ready + split.packets,
                    partial: Seq::empty(),
                    ..named
                });
                return Err(Error::InvalidStream("packet exceeds maximum allowed size"));
            }
            assert(off + size <= payload.len());
            push_all(&mut self.partial, &payload[off..off + size]);
            off = off + size;
            i = i + 1;
            if lace < 255 {
                // Terminating segment: the packet is complete.
                let mut data: Vec<u8> = Vec::new();
                std::mem::swap(&mut data, &mut self.partial);
                let last_segment: bool = i == segments.len();
                if data.len() > 0 {
                    let packet = OggPacket {
                        data,
                        page_granule: header.granule_position,
                        end_of_stream: self.saw_eos && last_segment,
                    };
                    let ghost model = packet@;
                    let ghost ready = self.ready@;
                    self.ready.push_back(packet);
                    assert(packet_models(self.ready@) =~= packet_models(ready).push(model));
                }
            }
            proof {
                let after = split_page(
                    pending,
                    next,
                    payload@,
                    granule,
                    self.saw_eos,
                    segments@.len() as int,
                );
                assert(self.partial@ =~= after.partial);
                assert(self@.ready =~= start.ready + after.packets);
            }
        }
        assert(segments@.subrange(0, segments@.len() as int) =~= segments@);
        Ok(())
    }

    /// Find and read the next page header, resynchronising on the capture
    /// pattern if the stream does not sit on a page boundary.
    fn read_page_header(&mut self) -> (r: Result<Option<Vec<u8>>, Error>)
        ensures
            ({
                let (found, source) = next_header(old(self)@.source);
                &&& match (r, found) {
                    (Ok(Some(raw)), Ok(Some(model))) => raw@ == model && raw@.len() == HEADER_LEN,
                    (Ok(None), Ok(None)) => true,
                    (Err(e), Err(expected)) => e == expected,
                    _ => false,
                }
                &&& final(self)@ == (OggReaderModel { source, ..old(self)@ })
                &&& r matches Ok(Some(_)) ==> source.position <= source.bytes.len()
            }),
    {
        let ghost bytes = self.source@.bytes;
        let ghost at0 = self.source@.position as int;
        let left: usize = self.source.remaining();
        if left == 0 {
            return Ok(None);
        }
        if left < HEADER_LEN {
            self.source.skip(left as u64);
            return Err(Error::InvalidStream("stream ends inside a page header"));
        }
        let mut window = self.source.take(HEADER_LEN);
        assert(window@.subrange(0, 4) =~= bytes.subrange(at0, at0 + 4));
        if same_bytes(&window[0..4], &CAPTURE_PATTERN) {
            return Ok(Some(window));
        }
        // Resync: slide a one-byte window until the capture pattern appears.
        // Bounded so a stream of garbage terminates instead of spinning.
        let mut steps: usize = 0;
        while steps < RESYNC_LIMIT
            invariant
                steps <= RESYNC_LIMIT,
                window@.len() == HEADER_LEN,
                0 <= at0,
                at0 + steps + HEADER_LEN <= bytes.len(),
                window@ == bytes.subrange(at0 + steps, at0 + steps + HEADER_LEN),
                self@ == (OggReaderModel {
                    source: CursorModel { bytes, position: (at0 + steps + HEADER_LEN) as nat },
                    ..old(self)@
                }),
                next_header(old(self)@.source) == resync(
                    bytes,
                    at0 + steps,
                    (RESYNC_LIMIT - steps) as nat,
                ),
            decreases RESYNC_LIMIT - steps,
        {
            if self.source.remaining() == 0 {
                return Err(Error::InvalidStream("stream ends without a valid page"));
            }
            let next = self.source.take(1);
            let mut slid: Vec<u8> = Vec::with_capacity(HEADER_LEN);
            push_all(&mut slid, &window[1..HEADER_LEN]);
            slid.push(next[0]);
            window = slid;
            steps = steps + 1;
            assert(window@ =~= bytes.subrange(at0 + steps, at0 + steps + HEADER_LEN));
            assert(window@.subrange(0, 4) =~= bytes.subrange(at0 + steps, at0 + steps + 4));
            if same_bytes(&window[0..4], &CAPTURE_PATTERN) {
                return Ok(Some(window));
            }
        }
        Err(Error::InvalidStream("no Ogg page found while resynchronising"))
    }
}

/// Once a packet grew too big, the segments after it change nothing.
proof fn lemma_too_big_stays(
    partial: Seq<u8>,
    segments: Seq<u8>,
    payload: Seq<u8>,
    granule: int,
    eos: bool,
    total: int,
    i: int,
)
    requires
        0 <= i <= segments.len(),
    ensures
        split_page(partial, segments.subrange(0, i), payload, granule, eos, total).too_big
            ==> split_page(partial, segments, payload, granule, eos, total) == split_page(
            partial,
            segments.subrange(0, i),
            payload,
            granule,
            eos,
            total,
        ),
    decreases segments.len(),
{
    if i == segments.len() {
        assert(segments.subrange(0, i) =~= segments);
    } else {
        assert(segments.drop_last().subrange(0, i) =~= segments.subrange(0, i));
        lemma_too_big_stays(partial, segments.drop_last(), payload, granule, eos, total, i);
    }
}

/// Read `n` bytes, or say that the stream ends before them.
fn read_exact(source: &mut Cursor, n: usize) -> (r: Result<Vec<u8>, Error>)
    requires
        n > 0,
    ensures
        match r {
            Ok(data) => n <= old(source)@.remaining() && data@ == old(source)@.ahead(n as nat)
                && final(source)@ == old(source)@.at(old(source)@.position + n as nat),
            Err(e) => n > old(source)@.remaining() && e == Error::InvalidStream(
                "stream ends inside a page",
            ) && final(source)@ == old(source)@.at(
                if old(source)@.position < old(source)@.bytes.len() {
                    old(source)@.bytes.len()
                } else {
                    old(source)@.position
                },
            ),
        },
{
    if source.remaining() < n {
        source.skip(n as u64);
        return Err(Error::InvalidStream("stream ends inside a page"));
    }
    Ok(source.take(n))
}

/// What polling for the next packet gives, the reader afterwards, and whether
/// polling is over. It ends at the first error as well as at end of stream.
pub open spec fn poll_ogg(m: OggReaderModel, done: bool) -> (
    Option<Result<PacketModel, Error>>,
    OggReaderModel,
    bool,
) {
    if done {
        (None, m, true)
    } else {
        match next_packet(m) {
            (Ok(Some(packet)), next) => (Some(Ok(packet)), next, false),
            (Ok(None), next) => (None, next, true),
            (Err(e), next) => (Some(Err(e)), next, true),
        }
    }
}

/// What a poll came back with, packets taken by their contents.
pub open spec fn polled(r: Option<Result<OggPacket, Error>>) -> Option<Result<PacketModel, Error>> {
    match r {
        Some(Ok(packet)) => Some(Ok(packet@)),
        Some(Err(e)) => Some(Err(e)),
        None => None,
    }
}

/// Walks an [`OggOpusReader`]'s remaining packets, from
/// [`OggOpusReader::packets`].
#[derive(Debug)]
pub struct Packets<'a> {
    /// The reader the packets come from.
    pub reader: &'a mut OggOpusReader,
    /// Set once the stream has ended or errored, so a caller who keeps polling
    /// gets `None` rather than the same error for ever.
    pub done: bool,
}

impl<'a> Packets<'a> {
    /// The next packet or the error in its place, or `None` when there is none.
    pub fn next(&mut self) -> (r: Option<Result<OggPacket, Error>>)
        ensures
            (polled(r), final(self).reader@, final(self).done) == poll_ogg(
                old(self).reader@,
                old(self).done,
            ),
            *final(final(self).reader) == *final(old(self).reader),
    {
        if self.done {
            return None;
        }
        match self.reader.read_packet() {
            Ok(Some(packet)) => Some(Ok(packet)),
            Ok(None) => {
                self.done = true;
                None
            },
            Err(e) => {
                self.done = true;
                Some(Err(e))
            },
        }
    }
}

} // verus!
