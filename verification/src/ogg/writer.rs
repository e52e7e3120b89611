//! Ogg Opus muxer.

use vstd::prelude::*;

use crate::bytes::push_all;
use crate::error::Error;
use crate::ogg::header::{head_bytes, tags_bytes, HeadModel, OpusHead, OpusTags, TagsModel, VENDOR};
use crate::ogg::page::{
    checksum, crc_of, lace_sum, page_bytes, write_page, PageModel, FLAG_BOS, FLAG_CONTINUED,
    FLAG_EOS, MAX_SEGMENTS,
};
use crate::packet::{packet_samples, samples_48k};

verus! {

/// How much payload a page gathers before the next packet starts a new one,
/// unless told otherwise: 4 KiB.
pub const DEFAULT_PAGE_TARGET: usize = 4096;

/// The longest a packet may be stated to be, in 48 kHz samples: 120 ms.
pub const MAX_STATED_SAMPLES: u32 = 5760;

/// The granule position of a page that completes no packet.
pub const NO_PACKET_GRANULE: i64 = -1;

/// A stream being written.
#[verifier::ext_equal]
pub struct OggWriterModel {
    /// Everything written so far.
    pub sink: Seq<u8>,
    /// The stream's serial number.
    pub serial: u32,
    /// The number of the next page.
    pub sequence: u32,
    /// The sum of the stated durations.
    pub granule: i64,
    /// How much payload a page gathers.
    pub page_target: usize,
    /// The lacing values of the page being gathered.
    pub segments: Seq<u8>,
    /// Its payload.
    pub payload: Seq<u8>,
    /// Its granule position.
    pub page_granule: i64,
    /// Whether it starts inside a packet.
    pub continued: bool,
}

impl OggWriterModel {
    /// The page being gathered.
    pub open spec fn pending_page(self, eos: bool) -> PageModel {
        PageModel {
            flags: ((if self.continued {
                FLAG_CONTINUED
            } else {
                0
            }) + (if eos {
                FLAG_EOS
            } else {
                0
            })) as u8,
            granule: self.page_granule,
            serial: self.serial,
            sequence: self.sequence,
            segments: self.segments,
            payload: self.payload,
        }
    }

    /// The writer once the page being gathered has been written, with a new one
    /// that continues a packet or not and so far completes none.
    pub open spec fn flushed(self, eos: bool, continued: bool, idle: i64) -> OggWriterModel {
        OggWriterModel {
            sink: self.sink + page_bytes(self.pending_page(eos)),
            sequence: next_sequence(self.sequence),
            segments: Seq::empty(),
            payload: Seq::empty(),
            page_granule: idle,
            continued,
            ..self
        }
    }

    /// The writer with room for one more segment on its page. `from` says how
    /// much of the packet is behind already.
    pub open spec fn with_room(self, from: int, idle: i64) -> OggWriterModel {
        if self.segments.len() >= MAX_SEGMENTS {
            self.flushed(false, from > 0, idle)
        } else {
            self
        }
    }

    /// The writer with one more segment on its page.
    pub open spec fn with_segment(self, data: Seq<u8>) -> OggWriterModel {
        OggWriterModel {
            segments: self.segments.push(data.len() as u8),
            payload: self.payload + data,
            ..self
        }
    }

    /// What holds of every writer.
    pub open spec fn wf(self) -> bool {
        &&& self.segments.len() <= MAX_SEGMENTS
        &&& lace_sum(self.segments) == self.payload.len()
        &&& self.granule >= 0
    }
}

/// The number after a page's.
pub open spec fn next_sequence(sequence: u32) -> u32 {
    if sequence == u32::MAX {
        0
    } else {
        (sequence + 1) as u32
    }
}

/// The writer once a packet's bytes from `from` on have been laced onto its
/// pages: segments of 255 bytes, and one shorter one that ends the packet.
pub open spec fn laced(m: OggWriterModel, packet: Seq<u8>, from: int, idle: i64) -> OggWriterModel
    decreases packet.len() - from,
{
    let roomy = m.with_room(from, idle);
    if packet.len() - from < 255 {
        roomy.with_segment(packet.subrange(from, packet.len() as int))
    } else {
        laced(roomy.with_segment(packet.subrange(from, from + 255)), packet, from + 255, idle)
    }
}

/// A whole packet laced onto the pages, and completed.
pub open spec fn with_packet(m: OggWriterModel, packet: Seq<u8>, idle: i64, granule: i64)
    -> OggWriterModel {
    OggWriterModel { page_granule: granule, ..laced(m, packet, 0, idle) }
}

/// A writer that has written nothing yet.
pub open spec fn blank_writer(sink: Seq<u8>, serial: u32) -> OggWriterModel {
    OggWriterModel {
        sink,
        serial,
        sequence: 0,
        granule: 0,
        page_target: DEFAULT_PAGE_TARGET,
        segments: Seq::empty(),
        payload: Seq::empty(),
        page_granule: 0,
        continued: false,
    }
}

/// The page of the identification header, the first of its stream.
pub open spec fn head_page(head: HeadModel, serial: u32) -> PageModel {
    let laced_head = laced(blank_writer(Seq::empty(), serial), head_bytes(head), 0, 0);
    PageModel {
        flags: FLAG_BOS,
        granule: 0,
        serial,
        sequence: 0,
        segments: laced_head.segments,
        payload: laced_head.payload,
    }
}

/// The writer that has written the identification header.
pub open spec fn after_head(sink: Seq<u8>, head: HeadModel, serial: u32) -> OggWriterModel {
    OggWriterModel { sequence: 1, ..blank_writer(sink + page_bytes(head_page(head, serial)), serial)
    }
}

/// The writer that starts a stream: the identification header on a first page
/// of its own, the comment header on the pages after it, and the page of the
/// first audio packet still empty.
pub open spec fn start_ogg(sink: Seq<u8>, head: HeadModel, tags: TagsModel, serial: u32)
    -> OggWriterModel {
    with_packet(after_head(sink, head, serial), tags_bytes(tags), 0, 0).flushed(
        false,
        false,
        NO_PACKET_GRANULE,
    )
}

/// What appending a packet with a stated duration gives, and the writer
/// afterwards. A page that has gathered its target is written out when the next
/// packet comes, so that the last packet of a stream is always on its last page.
pub open spec fn write_ogg(m: OggWriterModel, packet: Seq<u8>, samples_48k: int) -> (
    Result<(), Error>,
    OggWriterModel,
) {
    if packet.len() == 0 {
        (Err(Error::InvalidArgument("Opus packets cannot be empty")), m)
    } else if samples_48k > MAX_STATED_SAMPLES {
        (
            Err(
                Error::InvalidArgument(
                    "an Opus packet cannot exceed 120 ms (5760 samples at 48 kHz)",
                ),
            ),
            m,
        )
    } else {
        let granule = (m.granule + samples_48k) as i64;
        let ready = if m.segments.len() > 0 && m.payload.len() >= m.page_target {
            m.flushed(false, false, NO_PACKET_GRANULE)
        } else {
            m
        };
        (
            Ok(()),
            OggWriterModel { granule, ..with_packet(ready, packet, NO_PACKET_GRANULE, granule) },
        )
    }
}

/// Everything written once the last page is out. A stream without audio ends
/// with a page that holds one empty packet.
pub open spec fn finish_ogg(m: OggWriterModel) -> Seq<u8> {
    let last = if m.segments.len() == 0 {
        OggWriterModel { segments: seq![0u8], page_granule: m.granule, ..m }
    } else {
        m
    };
    last.sink + page_bytes(last.pending_page(true))
}

/// Lacing keeps a writer in order.
pub proof fn lemma_laced_wf(m: OggWriterModel, packet: Seq<u8>, from: int, idle: i64)
    requires
        m.wf(),
        0 <= from <= packet.len(),
    ensures
        laced(m, packet, from, idle).wf(),
        laced(m, packet, from, idle).segments.len() > 0,
        laced(m, packet, from, idle).serial == m.serial,
        laced(m, packet, from, idle).granule == m.granule,
        laced(m, packet, from, idle).page_target == m.page_target,
    decreases packet.len() - from,
{
    let roomy = m.with_room(from, idle);
    if packet.len() - from < 255 {
        let data = packet.subrange(from, packet.len() as int);
        let next = roomy.with_segment(data);
        assert(next.segments.drop_last() =~= roomy.segments);
    } else {
        let data = packet.subrange(from, from + 255);
        let next = roomy.with_segment(data);
        assert(next.segments.drop_last() =~= roomy.segments);
        lemma_laced_wf(next, packet, from + 255, idle);
    }
}

/// Writes Opus packets into an Ogg stream.
///
/// The two header packets are written by the constructor and the audio packets
/// as they arrive, gathered into pages; [`finish`](Self::finish) writes the
/// last page, which ends the stream, and must be called.
#[derive(Debug)]
pub struct OggOpusWriter {
    sink: Vec<u8>,
    serial: u32,
    sequence: u32,
    granule: i64,
    page_target: usize,
    segments: Vec<u8>,
    payload: Vec<u8>,
    page_granule: i64,
    continued: bool,
}

impl View for OggOpusWriter {
    type V = OggWriterModel;

    closed spec fn view(&self) -> OggWriterModel {
        OggWriterModel {
            sink: self.sink@,
            serial: self.serial,
            sequence: self.sequence,
            granule: self.granule,
            page_target: self.page_target,
            segments: self.segments@,
            payload: self.payload@,
            page_granule: self.page_granule,
            continued: self.continued,
        }
    }
}

/// Why a stream cannot be started, if it cannot: its headers have to describe a
/// stream and fit their packets.
pub open spec fn start_error(head: HeadModel, tags: TagsModel) -> Option<Error> {
    if !head.valid() {
        Some(Error::InvalidArgument("OpusHead does not describe a stream"))
    } else if !tags.fits() {
        Some(Error::InvalidArgument("OpusTags does not fit its length fields"))
    } else {
        None
    }
}

/// The serial number of a stream that is not given one. It is made from the
/// identification header, so that the same input gives the same file.
pub open spec fn derived_serial(head: HeadModel) -> u32 {
    crc_of(head_bytes(head), 0)
}

impl OggOpusWriter {
    /// What holds of every writer.
    pub open spec fn wf(&self) -> bool {
        self@.wf()
    }

    /// Start a stream with no comments.
    pub fn new(sink: Vec<u8>, head: OpusHead) -> (r: Result<Self, Error>)
        ensures
            ({
                let tags = TagsModel { vendor: VENDOR@, comments: Seq::empty() };
                match r {
                    Ok(writer) => start_error(head@, tags) is None && writer@ == start_ogg(
                        sink@,
                        head@,
                        tags,
                        derived_serial(head@),
                    ) && writer.wf(),
                    Err(e) => start_error(head@, tags) == Some(e),
                }
            }),
    {
        OggOpusWriter::with_tags(sink, head, OpusTags::new())
    }

    /// Start a stream with comments.
    pub fn with_tags(sink: Vec<u8>, head: OpusHead, tags: OpusTags) -> (r: Result<Self, Error>)
        ensures
            match r {
                Ok(writer) => start_error(head@, tags@) is None && writer@ == start_ogg(
                    sink@,
                    head@,
                    tags@,
                    derived_serial(head@),
                ) && writer.wf(),
                Err(e) => start_error(head@, tags@) == Some(e),
            },
    {
        let serial: u32 = checksum(&head.to_bytes());
        OggOpusWriter::with_serial(sink, head, tags, serial)
    }

    /// Start a stream with comments and a serial number of the caller's.
    pub fn with_serial(sink: Vec<u8>, head: OpusHead, tags: OpusTags, serial: u32) -> (r: Result<
        Self,
        Error,
    >)
        ensures
            match r {
                Ok(writer) => start_error(head@, tags@) is None && writer@ == start_ogg(
                    sink@,
                    head@,
                    tags@,
                    serial,
                ) && writer.wf(),
                Err(e) => start_error(head@, tags@) == Some(e),
            },
    {
        if !head.is_valid() {
            return Err(Error::InvalidArgument("OpusHead does not describe a stream"));
        }
        if !tags.fits() {
            return Err(Error::InvalidArgument("OpusTags does not fit its length fields"));
        }
        let mut w = OggOpusWriter::after_head(sink, &head, serial);
        proof {
            lemma_laced_wf(w@, tags_bytes(tags@), 0, 0);
        }
        w.lace(&tags.to_bytes(), 0);
        w.page_granule = 0;
        w.flush(false, false, NO_PACKET_GRANULE);
        Ok(w)
    }

    /// A writer that has written the identification header.
    fn after_head(sink: Vec<u8>, head: &OpusHead, serial: u32) -> (w: OggOpusWriter)
        requires
            head@.valid(),
        ensures
            w@ == after_head(sink@, head@, serial),
    {
        let mut page = OggOpusWriter {
            sink: Vec::new(),
            serial,
            sequence: 0,
            granule: 0,
            page_target: DEFAULT_PAGE_TARGET,
            segments: Vec::new(),
            payload: Vec::new(),
            page_granule: 0,
            continued: false,
        };
        assert(page@ =~= blank_writer(Seq::empty(), serial));
        proof {
            crate::ogg::header::law_head_round_trip(head@);
            lemma_short_packet(page@, head_bytes(head@), 0);
        }
        page.lace(&head.to_bytes(), 0);
        let mut out = sink;
        write_page(FLAG_BOS, 0, serial, 0, &page.segments, &page.payload, &mut out);
        let w = OggOpusWriter {
            sink: out,
            serial,
            sequence: 1,
            granule: 0,
            page_target: DEFAULT_PAGE_TARGET,
            segments: Vec::new(),
            payload: Vec::new(),
            page_granule: 0,
            continued: false,
        };
        assert(w@ =~= after_head(sink@, head@, serial));
        w
    }

    /// How much payload a page gathers before the next packet starts a new one.
    pub fn set_page_target(&mut self, bytes: usize)
        ensures
            final(self)@ == (OggWriterModel { page_target: bytes, ..old(self)@ }),
    {
        self.page_target = bytes;
    }

    /// The granule position the stream has reached: the 48 kHz samples every
    /// packet written so far is stated to decode to, pre-skip included.
    pub fn granule(&self) -> (granule: i64)
        ensures
            granule == self@.granule,
    {
        self.granule
    }

    /// Append one Opus packet, taking its duration from the packet itself.
    pub fn write_packet(&mut self, packet: &[u8]) -> (r: Result<(), Error>)
        requires
            old(self).wf(),
            old(self)@.granule + MAX_STATED_SAMPLES <= i64::MAX,
        ensures
            (r, final(self)@) == match packet_samples(packet@) {
                Err(e) => (Err(e), old(self)@),
                Ok(actual) => write_ogg(old(self)@, packet@, actual),
            },
            final(self).wf(),
    {
        let samples: usize = samples_48k(packet)?;
        self.write_packet_with_duration(packet, samples as u32)
    }

    /// Append one Opus packet, stating its duration explicitly.
    ///
    /// `samples_48k` is the packet's duration in 48 kHz samples. Stating the
    /// last packet shorter than it decodes is the end-trim: the stream then
    /// ends where the audio does.
    pub fn write_packet_with_duration(&mut self, packet: &[u8], samples_48k: u32) -> (r: Result<
        (),
        Error,
    >)
        requires
            old(self).wf(),
            old(self)@.granule + MAX_STATED_SAMPLES <= i64::MAX,
        ensures
            (r, final(self)@) == write_ogg(old(self)@, packet@, samples_48k as int),
            final(self).wf(),
    {
        if packet.len() == 0 {
            return Err(Error::InvalidArgument("Opus packets cannot be empty"));
        }
        if samples_48k > MAX_STATED_SAMPLES {
            return Err(
                Error::InvalidArgument(
                    "an Opus packet cannot exceed 120 ms (5760 samples at 48 kHz)",
                ),
            );
        }
        if self.segments.len() > 0 && self.payload.len() >= self.page_target {
            self.flush(false, false, NO_PACKET_GRANULE);
        }
        proof {
            lemma_laced_wf(self@, packet@, 0, NO_PACKET_GRANULE);
        }
        self.lace(packet, NO_PACKET_GRANULE);
        self.granule = self.granule + samples_48k as i64;
        self.page_granule = self.granule;
        Ok(())
    }

    /// Write the last page and return the sink.
    pub fn finish(self) -> (r: Result<Vec<u8>, Error>)
        requires
            self.wf(),
        ensures
            r matches Ok(sink) && sink@ == finish_ogg(self@),
    {
        let mut w = self;
        if w.segments.len() == 0 {
            w.segments.push(0);
            w.page_granule = w.granule;
            proof {
                assert(w.segments@ =~= seq![0u8]);
                assert(w.segments@.drop_last() =~= Seq::empty());
                reveal_with_fuel(lace_sum, 2);
            }
        }
        w.flush(true, false, NO_PACKET_GRANULE);
        Ok(w.sink)
    }

    /// Write out the page being gathered.
    fn flush(&mut self, eos: bool, continued: bool, idle: i64)
        requires
            old(self)@.segments.len() <= MAX_SEGMENTS,
        ensures
            final(self)@ == old(self)@.flushed(eos, continued, idle),
    {
        let flags: u8 = (if self.continued {
            FLAG_CONTINUED
        } else {
            0
        }) + (if eos {
            FLAG_EOS
        } else {
            0
        });
        write_page(
            flags,
            self.page_granule,
            self.serial,
            self.sequence,
            &self.segments,
            &self.payload,
            &mut self.sink,
        );
        self.sequence = if self.sequence == u32::MAX {
            0
        } else {
            self.sequence + 1
        };
        self.segments.clear();
        self.payload.clear();
        self.page_granule = idle;
        self.continued = continued;
        assert(self@ =~= old(self)@.flushed(eos, continued, idle));
    }

    /// Lace a packet onto the pages.
    fn lace(&mut self, packet: &[u8], idle: i64)
        requires
            old(self)@.segments.len() <= MAX_SEGMENTS,
        ensures
            final(self)@ == laced(old(self)@, packet@, 0, idle),
    {
        let mut from: usize = 0;
        let mut complete: bool = false;
        while !complete
            invariant
                from <= packet@.len(),
                self@.segments.len() <= MAX_SEGMENTS,
                !complete ==> laced(old(self)@, packet@, 0, idle) == laced(
                    self@,
                    packet@,
                    from as int,
                    idle,
                ),
                complete ==> self@ == laced(old(self)@, packet@, 0, idle),
            decreases packet@.len() - from, (if complete { 0int } else { 1 }),
        {
            if self.segments.len() >= MAX_SEGMENTS {
                self.flush(false, from > 0, idle);
            }
            let ghost roomy = self@;
            let left: usize = packet.len() - from;
            let n: usize = if left < 255 {
                left
            } else {
                255
            };
            self.segments.push(n as u8);
            push_all(&mut self.payload, &packet[from..from + n]);
            assert(self@ =~= roomy.with_segment(packet@.subrange(from as int, from + n)));
            from = from + n;
            if n < 255 {
                complete = true;
            }
        }
    }
}

/// A packet that fits one page is laced onto it.
pub proof fn lemma_short_packet(m: OggWriterModel, packet: Seq<u8>, idle: i64)
    requires
        m.segments.len() == 0,
        m.payload.len() == 0,
        packet.len() <= 509,
    ensures
        ({
            let out = laced(m, packet, 0, idle);
            &&& out == (OggWriterModel { segments: out.segments, payload: packet, ..m })
            &&& 1 <= out.segments.len() <= 2
        }),
{
    reveal_with_fuel(laced, 3);
    if packet.len() < 255 {
        assert(m.payload + packet.subrange(0, packet.len() as int) =~= packet);
    } else {
        let one = m.with_segment(packet.subrange(0, 255));
        assert(one.payload + packet.subrange(255, packet.len() as int) =~= packet);
    }
}

} // verus!
