//! Crossing from one container to the other: the packets stay as they are, and
//! so does where the audio ends.

use vstd::prelude::*;

use crate::caf;
use crate::caf::reader::{next_caf_packet, open_caf, CafReaderModel, MAX_PAKT_LEN};
use crate::caf::round_trip::{actual_samples, law_caf_round_trip};
use crate::caf::writer::{finish_caf, start_caf, CafWriterModel};
use crate::error::Error;
use crate::io::CursorModel;
use crate::ogg;
use crate::ogg::header::{tags_bytes, TagsModel};
use crate::ogg::reader::{
    next_packet, open_ogg, OggReaderModel, PacketModel, MAX_OGG_PACKET_BYTES,
};
use crate::ogg::round_trip::law_ogg_round_trip;
use crate::ogg::writer::{finish_ogg, start_ogg, OggWriterModel, MAX_STATED_SAMPLES};
use crate::packet::{lemma_packet_samples_range, packet_samples};

verus! {

/// What the first `n` packets decode to.
pub open spec fn decodable(packets: Seq<PacketModel>, n: int) -> int
    decreases n,
{
    if n <= 0 {
        0
    } else {
        decodable(packets, n - 1) + actual_samples(packets[n - 1].data)
    }
}

/// What a conversion hands to the other container's writer: every packet with
/// what it decodes to, but for the last, which carries the stream on to where
/// its audio ends.
pub open spec fn crossing(packets: Seq<PacketModel>) -> Seq<(Seq<u8>, u32)> {
    let n = packets.len();
    Seq::new(
        n,
        |i: int|
            (
                packets[i].data,
                if i == n - 1 {
                    (packets[i].page_granule - decodable(packets, i)) as u32
                } else {
                    actual_samples(packets[i].data) as u32
                },
            ),
    )
}

/// Whether packets can cross: each of them says what it decodes to, and the last
/// one ends the stream no earlier than the packets before it do, and within what
/// one packet can add.
pub open spec fn can_cross(packets: Seq<PacketModel>) -> bool {
    let n = packets.len() as int;
    &&& forall|i: int| 0 <= i < n ==> packet_samples((#[trigger] packets[i]).data) is Ok
    &&& n > 0 ==> 0 <= packets[n - 1].page_granule - decodable(packets, n - 1)
        <= MAX_STATED_SAMPLES
}

/// Where a stream of packets ends.
pub open spec fn end_of(packets: Seq<PacketModel>) -> int {
    if packets.len() == 0 {
        0
    } else {
        packets[packets.len() - 1].page_granule
    }
}

/// What crosses is stated to end where the stream did.
proof fn lemma_stated(packets: Seq<PacketModel>, n: int)
    requires
        can_cross(packets),
        0 <= n <= packets.len(),
    ensures
        ogg::round_trip::stated_total(crossing(packets), n) == (if n == packets.len() {
            end_of(packets)
        } else {
            decodable(packets, n)
        }),
        caf::round_trip::stated_total(crossing(packets), n) == (if n == packets.len() {
            end_of(packets)
        } else {
            decodable(packets, n)
        }),
        caf::round_trip::decoded_total(crossing(packets), n) == decodable(packets, n),
    decreases n,
{
    if n > 0 {
        lemma_stated(packets, n - 1);
        assert(crossing(packets)[n - 1].0 == packets[n - 1].data);
        assert(packet_samples(packets[n - 1].data) is Ok);
        lemma_packet_samples_range(packets[n - 1].data);
    }
}

/// A Core Audio file becomes an Ogg stream packet for packet: whatever packets a
/// reader gives, the stream that is written of them opens with the same header,
/// reads back every packet byte for byte, and ends where the file's audio does.
pub proof fn law_caf_crosses_to_ogg(
    r: CafReaderModel,
    packets: Seq<PacketModel>,
    sink: Seq<u8>,
    tags: TagsModel,
    serial: u32,
    page_target: usize,
    m: OggWriterModel,
)
    requires
        forall|i: int|
            0 <= i < packets.len() ==> (#[trigger] next_caf_packet(
                caf::round_trip::after_reads(r, i),
            )).0 == Ok::<Option<PacketModel>, Error>(Some(packets[i])),
        can_cross(packets),
        r.head.valid(),
        tags.fits(),
        tags_bytes(tags).len() <= MAX_OGG_PACKET_BYTES,
        forall|i: int|
            0 <= i < packets.len() ==> (#[trigger] packets[i]).data.len() <= MAX_OGG_PACKET_BYTES,
        end_of(packets) <= i64::MAX,
        ogg::round_trip::run_writes(
            OggWriterModel { page_target, ..start_ogg(sink, r.head, tags, serial) },
            crossing(packets),
            packets.len() as int,
        ) == Some(m),
    ensures
        ({
            let n = packets.len() as int;
            let opened = open_ogg(CursorModel { bytes: finish_ogg(m), position: sink.len() });
            let reader = opened->Ok_0;
            &&& opened is Ok
            &&& reader.head == r.head
            &&& forall|i: int|
                0 <= i < n ==> {
                    let read = (#[trigger] next_packet(
                        ogg::round_trip::after_reads(reader, i),
                    )).0;
                    let packet = read->Ok_0->0;
                    &&& read is Ok
                    &&& read->Ok_0 is Some
                    &&& packet.data == packets[i].data
                    &&& packet.end_of_stream == (i == n - 1)
                    &&& i == n - 1 ==> packet.page_granule == packets[i].page_granule
                }
            &&& next_packet(ogg::round_trip::after_reads(reader, n)).0 == Ok::<
                Option<PacketModel>,
                Error,
            >(None)
        }),
{
    let writes = crossing(packets);
    lemma_stated(packets, packets.len() as int);
    assert forall|i: int| 0 <= i < writes.len() implies (#[trigger] writes[i]).0.len()
        <= MAX_OGG_PACKET_BYTES by {
        assert(writes[i].0 == packets[i].data);
    }
    law_ogg_round_trip(sink, r.head, tags, serial, page_target, writes, m);
}

/// An Ogg stream becomes a Core Audio file packet for packet: whatever packets a
/// reader gives, the file that is written of them opens with the same channels
/// and pre-skip, reads back every packet byte for byte, and ends where the
/// stream's audio does, or at the pre-skip where that is later.
pub proof fn law_ogg_crosses_to_caf(
    r: OggReaderModel,
    packets: Seq<PacketModel>,
    sink: CursorModel,
    m: CafWriterModel,
)
    requires
        forall|i: int|
            0 <= i < packets.len() ==> (#[trigger] next_packet(
                ogg::round_trip::after_reads(r, i),
            )).0 == Ok::<Option<PacketModel>, Error>(Some(packets[i])),
        can_cross(packets),
        start_caf(sink, r.head) is Ok,
        caf::round_trip::run_writes(
            start_caf(sink, r.head)->Ok_0,
            crossing(packets),
            packets.len() as int,
        ) == Some(m),
        m.wf(),
        finish_caf(m).0 is Ok,
        m.pakt_body().len() <= MAX_PAKT_LEN,
        sink.bytes.len() <= m.data_end() + m.pakt_chunk().len(),
    ensures
        ({
            let n = packets.len() as int;
            let opened = open_caf(finish_caf(m).1.sink.at(sink.position));
            let reader = opened->Ok_0;
            let end = if end_of(packets) > r.head.pre_skip {
                end_of(packets)
            } else {
                r.head.pre_skip as int
            };
            &&& opened is Ok
            &&& reader.head.channel_count == r.head.channel_count
            &&& reader.head.pre_skip == r.head.pre_skip
            &&& reader.final_granule == end
            &&& forall|i: int|
                0 <= i < n ==> (#[trigger] next_caf_packet(
                    caf::round_trip::after_reads(reader, i),
                )).0 == Ok::<Option<PacketModel>, Error>(
                    Some(
                        PacketModel {
                            data: packets[i].data,
                            page_granule: if i == n - 1 {
                                end
                            } else {
                                decodable(packets, i + 1)
                            },
                            end_of_stream: i == n - 1,
                        },
                    ),
                )
            &&& next_caf_packet(caf::round_trip::after_reads(reader, n)).0 == Ok::<
                Option<PacketModel>,
                Error,
            >(None)
        }),
{
    let writes = crossing(packets);
    let n = packets.len() as int;
    lemma_stated(packets, n);
    law_caf_round_trip(sink, r.head, writes, m);
    let reader = open_caf(finish_caf(m).1.sink.at(sink.position))->Ok_0;
    assert forall|i: int| 0 <= i < n implies (#[trigger] next_caf_packet(
        caf::round_trip::after_reads(reader, i),
    )).0 == Ok::<Option<PacketModel>, Error>(
        Some(
            PacketModel {
                data: packets[i].data,
                page_granule: if i == n - 1 {
                    caf::round_trip::file_end(writes, r.head.pre_skip)
                } else {
                    decodable(packets, i + 1)
                },
                end_of_stream: i == n - 1,
            },
        ),
    ) by {
        lemma_stated(packets, i + 1);
        assert(writes[i].0 == packets[i].data);
    }
}

} // verus!
