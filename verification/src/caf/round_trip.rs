//! The container's promise: a file holds the packets that were written to it.

use vstd::prelude::*;

use crate::bytes::{
    be_bytes, be_value, lemma_be_bytes_len, lemma_be_round_trip, lemma_pow256_values, signed64,
    unsigned64,
};
use crate::caf::chunk::{
    chunk_header_bytes, desc_bytes, varint_bytes, Desc, DATA_EDIT_COUNT_LEN, DESC_LEN, MAGIC,
    SIZE_TO_END, VERSION,
};
use crate::caf::chunk_type;
use crate::caf::laws::{law_desc_round_trip, law_pakt_header_round_trip, law_varint_round_trip};
use crate::caf::reader::{
    any_over_limit, count_fits, next_caf_packet, open_caf, open_chunks, over_limit, packet_table,
    rate_ticks, stated_samples, table_values, total_size, walk_file, walk_from, CafReaderModel,
    ChunksModel, DurationModel, TableModel, MAX_PAKT_LEN, RATE_48000_BITS,
};
use crate::caf::writer::{
    data_opening, finish_caf, layout_tag, leading_chunks, lemma_opening_lengths, shared_frames,
    start_caf, table_bytes, uniform, write_caf, CafWriterModel, CHAN_LEN, ENCODER_KEY, INFO_LEN,
};
use crate::error::Error;
use crate::io::{overwrite, CursorModel};
use crate::ogg::header::{plain_head, HeadModel, VENDOR};
use crate::ogg::reader::PacketModel;
use crate::packet::{lemma_packet_samples_range, packet_samples};

verus! {

/// The writer after the first `n` of some packets and stated durations, when it
/// accepted them all.
pub open spec fn run_writes(m: CafWriterModel, writes: Seq<(Seq<u8>, u32)>, n: int) -> Option<
    CafWriterModel,
>
    decreases n,
{
    if n <= 0 {
        Some(m)
    } else {
        match run_writes(m, writes, n - 1) {
            None => None,
            Some(k) => match write_caf(k, writes[n - 1].0, writes[n - 1].1 as int) {
                (Ok(_), next) => Some(next),
                (Err(_), _) => None,
            },
        }
    }
}

/// The first `n` packets, one after the other.
pub open spec fn packet_data(writes: Seq<(Seq<u8>, u32)>, n: int) -> Seq<u8>
    decreases n,
{
    if n <= 0 {
        Seq::empty()
    } else {
        packet_data(writes, n - 1) + writes[n - 1].0
    }
}

/// What one packet decodes to.
pub open spec fn actual_samples(packet: Seq<u8>) -> int {
    packet_samples(packet)->Ok_0
}

/// What the first `n` packets decode to.
pub open spec fn decoded_total(writes: Seq<(Seq<u8>, u32)>, n: int) -> int
    decreases n,
{
    if n <= 0 {
        0
    } else {
        decoded_total(writes, n - 1) + actual_samples(writes[n - 1].0)
    }
}

/// What the first `n` packets are stated to decode to.
pub open spec fn stated_total(writes: Seq<(Seq<u8>, u32)>, n: int) -> int
    decreases n,
{
    if n <= 0 {
        0
    } else {
        stated_total(writes, n - 1) + writes[n - 1].1
    }
}

/// The first `n` packets' sizes and durations.
pub open spec fn entries(writes: Seq<(Seq<u8>, u32)>, n: int) -> Seq<(u64, u32)> {
    Seq::new(
        n as nat,
        |i: int| (writes[i].0.len() as u64, actual_samples(writes[i].0) as u32),
    )
}

/// What lies ahead of a file that is written to a sink: the sink up to its
/// position, filled up with zeros where it stands past its end.
pub open spec fn ahead_of_file(sink: CursorModel) -> Seq<u8> {
    if sink.position <= sink.bytes.len() {
        sink.bytes.subrange(0, sink.position as int)
    } else {
        sink.bytes + Seq::new((sink.position - sink.bytes.len()) as nat, |i: int| 0u8)
    }
}

/// What `n` bytes written to a sink leave of it behind them.
pub open spec fn left_behind(sink: CursorModel, n: int) -> Seq<u8> {
    if sink.position + n < sink.bytes.len() {
        sink.bytes.subrange(sink.position + n, sink.bytes.len() as int)
    } else {
        Seq::empty()
    }
}

/// Writing the first bytes to a sink.
proof fn lemma_overwrite_first(sink: CursorModel, data: Seq<u8>)
    ensures
        overwrite(sink.bytes, sink.position, data) == ahead_of_file(sink) + data + left_behind(
            sink,
            data.len() as int,
        ),
        ahead_of_file(sink).len() == sink.position,
{
    assert(overwrite(sink.bytes, sink.position, data) =~= ahead_of_file(sink) + data + left_behind(
        sink,
        data.len() as int,
    ));
}

/// Writing more bytes to a sink, after the first `n`.
proof fn lemma_overwrite_next(sink: CursorModel, written: Seq<u8>, n: int, data: Seq<u8>)
    requires
        0 <= n,
    ensures
        overwrite(written + left_behind(sink, n), written.len(), data) == written + data
            + left_behind(sink, n + data.len()),
{
    assert(overwrite(written + left_behind(sink, n), written.len(), data) =~= written + data
        + left_behind(sink, n + data.len()));
}

/// Writing over a part replaces it.
proof fn lemma_overwrite_part(before: Seq<u8>, part: Seq<u8>, after: Seq<u8>, data: Seq<u8>)
    requires
        part.len() == data.len(),
    ensures
        overwrite(before + part + after, before.len(), data) == before + data + after,
{
    assert(overwrite(before + part + after, before.len(), data) =~= before + data + after);
}

/// What every one of the first `n` packets is, once the writer accepted it.
spec fn accepted(writes: Seq<(Seq<u8>, u32)>, n: int) -> bool {
    forall|i: int|
        0 <= i < n ==> {
            &&& packet_samples((#[trigger] writes[i]).0) is Ok
            &&& 0 < writes[i].0.len() <= usize::MAX
            &&& 120 <= actual_samples(writes[i].0) <= 5760
        }
}

/// The writer after `n` packets, spelled out.
#[verifier::rlimit(30)]
proof fn lemma_written(
    sink: CursorModel,
    head: HeadModel,
    writes: Seq<(Seq<u8>, u32)>,
    n: int,
)
    requires
        start_caf(sink, head) is Ok,
        0 <= n <= writes.len(),
        run_writes(start_caf(sink, head)->Ok_0, writes, n) is Some,
    ensures
        accepted(writes, n),
        ({
            let m = run_writes(start_caf(sink, head)->Ok_0, writes, n)->0;
            let data = packet_data(writes, n);
            &&& m.sink.bytes == ahead_of_file(sink) + (leading_chunks(head.channel_count, 0)
                + data_opening(SIZE_TO_END as int)) + data + left_behind(sink, 132int + data.len())
            &&& ahead_of_file(sink).len() == sink.position
            &&& m.sink.position == sink.position + 132 + data.len()
            &&& m.pre_skip == head.pre_skip
            &&& m.frames_per_packet_pos == sink.position + 40
            &&& m.data_size_pos == sink.position + 120
            &&& m.packets == entries(writes, n)
            &&& m.data_bytes == packet_data(writes, n).len()
            &&& m.granule == stated_total(writes, n)
            &&& m.decoded == decoded_total(writes, n)
            &&& !m.finished
        }),
    decreases n,
{
    let start = start_caf(sink, head)->Ok_0;
    lemma_opening_lengths(head.channel_count, 0, SIZE_TO_END as int);
    let opening = leading_chunks(head.channel_count, 0) + data_opening(SIZE_TO_END as int);
    let before = ahead_of_file(sink);
    assert(opening.len() == 132);
    if n == 0 {
        lemma_overwrite_first(sink, opening);
        assert(packet_data(writes, 0) =~= Seq::empty());
        assert(start.sink.bytes =~= before + opening + packet_data(writes, 0) + left_behind(
            sink,
            132,
        ));
        assert(entries(writes, 0) =~= Seq::empty());
    } else {
        lemma_written(sink, head, writes, n - 1);
        let k = run_writes(start, writes, n - 1)->0;
        let packet = writes[n - 1].0;
        lemma_packet_samples_range(packet);
        let so_far = before + opening + packet_data(writes, n - 1);
        let len = 132int + packet_data(writes, n - 1).len();
        lemma_overwrite_next(sink, so_far, len, packet);
        let m = run_writes(start, writes, n)->0;
        assert(m.sink.bytes =~= before + opening + packet_data(writes, n) + left_behind(
            sink,
            len + packet.len(),
        ));
        assert(m.packets =~= entries(writes, n));
        assert(accepted(writes, n)) by {
            assert forall|i: int| 0 <= i < n implies {
                &&& packet_samples((#[trigger] writes[i]).0) is Ok
                &&& 0 < writes[i].0.len() <= usize::MAX
                &&& 120 <= actual_samples(writes[i].0) <= 5760
            } by {
                if i < n - 1 {
                    assert(accepted(writes, n - 1));
                }
            }
        }
    }
}

/// A file's bytes ahead of its frame count.
pub open spec fn before_frames() -> Seq<u8> {
    MAGIC@ + be_bytes(VERSION as nat, 2) + be_bytes(0, 2) + chunk_header_bytes(
        chunk_type::DESC@,
        DESC_LEN as int,
    ) + be_bytes(RATE_48000_BITS as nat, 8) + crate::caf::chunk::FORMAT_OPUS@ + be_bytes(0, 4)
        + be_bytes(0, 4)
}

/// A file's bytes from its frame count to its `data` chunk.
pub open spec fn after_frames(channels: u8) -> Seq<u8> {
    be_bytes(channels as nat, 4) + be_bytes(0, 4) + chunk_header_bytes(
        chunk_type::CHAN@,
        CHAN_LEN as int,
    ) + be_bytes(layout_tag(channels), 4) + be_bytes(0, 4) + be_bytes(0, 4) + chunk_header_bytes(
        chunk_type::INFO@,
        INFO_LEN as int,
    ) + be_bytes(1, 4) + ENCODER_KEY@ + VENDOR@ + seq![0u8]
}

/// The frame count is 40 bytes into the file.
pub proof fn lemma_frames_field(channels: u8, frames: u32)
    ensures
        leading_chunks(channels, frames) == before_frames() + be_bytes(frames as nat, 4)
            + after_frames(channels),
        before_frames().len() == 40,
        be_bytes(frames as nat, 4).len() == 4,
{
    lemma_be_bytes_len(VERSION as nat, 2);
    lemma_be_bytes_len(0, 2);
    lemma_be_bytes_len(0, 4);
    lemma_be_bytes_len(unsigned64(DESC_LEN as int), 8);
    lemma_be_bytes_len(RATE_48000_BITS as nat, 8);
    lemma_be_bytes_len(frames as nat, 4);
    assert(leading_chunks(channels, frames) =~= before_frames() + be_bytes(frames as nat, 4)
        + after_frames(channels));
}

/// The bytes of a finished file.
pub open spec fn caf_file(
    channels: u8,
    shared: u32,
    packets: Seq<u8>,
    pakt_chunk: Seq<u8>,
) -> Seq<u8> {
    leading_chunks(channels, shared) + data_opening((packets.len() + DATA_EDIT_COUNT_LEN) as int)
        + packets + pakt_chunk
}

/// Patching the frame count into a file.
proof fn lemma_patch_frames(before: Seq<u8>, channels: u8, shared: u32, rest: Seq<u8>)
    ensures
        overwrite(
            before + leading_chunks(channels, 0) + rest,
            before.len() + 40,
            be_bytes(shared as nat, 4),
        ) == before + leading_chunks(channels, shared) + rest,
{
    lemma_frames_field(channels, 0);
    lemma_frames_field(channels, shared);
    let head_part = before + before_frames();
    let tail_part = after_frames(channels) + rest;
    assert(before + leading_chunks(channels, 0) + rest =~= head_part + be_bytes(0, 4) + tail_part);
    lemma_overwrite_part(head_part, be_bytes(0, 4), tail_part, be_bytes(shared as nat, 4));
    assert(head_part + be_bytes(shared as nat, 4) + tail_part =~= before + leading_chunks(
        channels,
        shared,
    ) + rest);
}

/// Patching the size of a file's audio into it.
proof fn lemma_patch_size(before: Seq<u8>, size: int, rest: Seq<u8>)
    ensures
        overwrite(
            before + data_opening(SIZE_TO_END as int) + rest,
            before.len() + 4,
            be_bytes(unsigned64(size), 8),
        ) == before + data_opening(size) + rest,
{
    lemma_be_bytes_len(unsigned64(SIZE_TO_END as int), 8);
    lemma_be_bytes_len(unsigned64(size), 8);
    lemma_be_bytes_len(0, 4);
    let head_part = before + chunk_type::DATA@;
    let tail_part = be_bytes(0, 4) + rest;
    let open_size = be_bytes(unsigned64(SIZE_TO_END as int), 8);
    assert(before + data_opening(SIZE_TO_END as int) + rest =~= head_part + open_size + tail_part);
    lemma_overwrite_part(head_part, open_size, tail_part, be_bytes(unsigned64(size), 8));
    assert(head_part + be_bytes(unsigned64(size), 8) + tail_part =~= before + data_opening(size)
        + rest);
}

/// Finishing leaves the file that the header, the packets and the table spell,
/// between what lay ahead of it and what it did not reach.
#[verifier::rlimit(30)]
proof fn lemma_finished(
    sink: CursorModel,
    head: HeadModel,
    writes: Seq<(Seq<u8>, u32)>,
)
    requires
        start_caf(sink, head) is Ok,
        run_writes(start_caf(sink, head)->Ok_0, writes, writes.len() as int) is Some,
    ensures
        ({
            let m = run_writes(start_caf(sink, head)->Ok_0, writes, writes.len() as int)->0;
            let file = caf_file(
                head.channel_count,
                shared_frames(m.packets),
                packet_data(writes, writes.len() as int),
                m.pakt_chunk(),
            );
            &&& m.finished_sink().bytes == ahead_of_file(sink) + file + left_behind(
                sink,
                file.len() as int,
            )
            &&& sink.position + file.len() == m.data_end() + m.pakt_chunk().len()
        }),
{
    let n = writes.len() as int;
    lemma_written(sink, head, writes, n);
    let m = run_writes(start_caf(sink, head)->Ok_0, writes, n)->0;
    let channels = head.channel_count;
    let shared = shared_frames(m.packets);
    let data = packet_data(writes, n);
    let size = m.data_bytes + DATA_EDIT_COUNT_LEN;
    lemma_opening_lengths(channels, 0, SIZE_TO_END as int);
    lemma_opening_lengths(channels, shared, size);

    let before = ahead_of_file(sink);
    let lead = leading_chunks(channels, shared);
    let rest = left_behind(sink, 132int + data.len());
    let open_end = data_opening(SIZE_TO_END as int);

    let after_lead = open_end + data + rest;
    assert(m.sink.bytes =~= before + leading_chunks(channels, 0) + after_lead);
    lemma_patch_frames(before, channels, shared, after_lead);
    lemma_be_bytes_len(shared as nat, 4);
    let one = m.sink.at(m.frames_per_packet_pos as nat).after_write(be_bytes(shared as nat, 4));
    assert(one.bytes == before + lead + after_lead);

    let before_data = before + lead;
    assert(one.bytes =~= before_data + open_end + (data + rest));
    assert(before_data.len() + 4 == m.data_size_pos);
    lemma_patch_size(before_data, size, data + rest);
    let two = one.at(m.data_size_pos as nat).after_write(be_bytes(unsigned64(size), 8));
    assert(two.bytes == before_data + data_opening(size) + (data + rest));

    let written = before_data + data_opening(size) + data;
    assert(two.bytes =~= written + rest);
    assert(written.len() == m.data_end());
    lemma_overwrite_next(sink, written, 132int + data.len(), m.pakt_chunk());
    let file = caf_file(channels, shared, data, m.pakt_chunk());
    assert(written + m.pakt_chunk() =~= before + file);
}

/// A chunk header reads back.
proof fn lemma_chunk_header(file: Seq<u8>, pos: int, kind: Seq<u8>, size: int)
    requires
        0 <= pos,
        pos + 12 <= file.len(),
        kind.len() == 4,
        -1 <= size <= i64::MAX,
        file.subrange(pos, pos + 12) == chunk_header_bytes(kind, size),
    ensures
        file.subrange(pos, pos + 4) == kind,
        signed64(be_value(file.subrange(pos + 4, pos + 12))) == size,
{
    lemma_pow256_values();
    lemma_be_round_trip(unsigned64(size), 8);
    assert(file.subrange(pos, pos + 4) =~= file.subrange(pos, pos + 12).subrange(0, 4));
    assert(file.subrange(pos + 4, pos + 12) =~= file.subrange(pos, pos + 12).subrange(4, 12));
    assert(chunk_header_bytes(kind, size).subrange(0, 4) =~= kind);
    assert(chunk_header_bytes(kind, size).subrange(4, 12) =~= be_bytes(unsigned64(size), 8));
}

/// The chunk types are told apart.
proof fn lemma_kinds()
    ensures
        chunk_type::CHAN@ != chunk_type::DESC@,
        chunk_type::CHAN@ != chunk_type::PAKT@,
        chunk_type::CHAN@ != chunk_type::DATA@,
        chunk_type::INFO@ != chunk_type::DESC@,
        chunk_type::INFO@ != chunk_type::PAKT@,
        chunk_type::INFO@ != chunk_type::DATA@,
        chunk_type::DATA@ != chunk_type::DESC@,
        chunk_type::DATA@ != chunk_type::PAKT@,
        chunk_type::PAKT@ != chunk_type::DESC@,
{
    assert(chunk_type::CHAN@[0] != chunk_type::DESC@[0]);
    assert(chunk_type::CHAN@[0] != chunk_type::PAKT@[0]);
    assert(chunk_type::CHAN@[0] != chunk_type::DATA@[0]);
    assert(chunk_type::INFO@[0] != chunk_type::DESC@[0]);
    assert(chunk_type::INFO@[0] != chunk_type::PAKT@[0]);
    assert(chunk_type::INFO@[0] != chunk_type::DATA@[0]);
    assert(chunk_type::DATA@[1] != chunk_type::DESC@[1]);
    assert(chunk_type::DATA@[0] != chunk_type::PAKT@[0]);
    assert(chunk_type::PAKT@[0] != chunk_type::DESC@[0]);
}

/// The `desc` chunk of a finished file.
pub open spec fn file_desc(channels: u8, shared: u32) -> Desc {
    Desc {
        sample_rate_bits: RATE_48000_BITS,
        bytes_per_packet: 0,
        frames_per_packet: shared,
        channels: channels as u32,
    }
}

/// Joining is associative.
proof fn lemma_join_two(a: Seq<u8>, b: Seq<u8>, c: Seq<u8>)
    ensures
        a + b + c == a + (b + c),
{
    assert(a + b + c =~= a + (b + c));
}

/// Joining is associative, once more.
proof fn lemma_join_three(a: Seq<u8>, b: Seq<u8>, c: Seq<u8>, d: Seq<u8>)
    ensures
        a + b + c + d == a + (b + c + d),
{
    assert(a + b + c + d =~= a + (b + c + d));
}

/// Where seven parts of these lengths are.
proof fn lemma_seven(
    a: Seq<u8>,
    b: Seq<u8>,
    c: Seq<u8>,
    d: Seq<u8>,
    e: Seq<u8>,
    f: Seq<u8>,
    g: Seq<u8>,
)
    requires
        a.len() == 8,
        b.len() == 12,
        c.len() == 32,
        d.len() == 12,
        e.len() == 12,
        f.len() == 12,
        g.len() == 28,
    ensures
        ({
            let all = a + b + c + d + e + f + g;
            &&& all.len() == 116
            &&& all.subrange(0, 8) == a
            &&& all.subrange(8, 20) == b
            &&& all.subrange(20, 52) == c
            &&& all.subrange(52, 64) == d
            &&& all.subrange(76, 88) == f
        }),
{
    let all = a + b + c + d + e + f + g;
    assert(all.subrange(0, 8) =~= a);
    assert(all.subrange(8, 20) =~= b);
    assert(all.subrange(20, 52) =~= c);
    assert(all.subrange(52, 64) =~= d);
    assert(all.subrange(76, 88) =~= f);
}

/// Where the parts of a file ahead of its `data` chunk are.
pub proof fn lemma_lead_parts(channels: u8, shared: u32)
    ensures
        leading_chunks(channels, shared).len() == 116,
        leading_chunks(channels, shared).subrange(0, 4) == MAGIC@,
        leading_chunks(channels, shared).subrange(4, 6) == be_bytes(VERSION as nat, 2),
        leading_chunks(channels, shared).subrange(8, 20) == chunk_header_bytes(
            chunk_type::DESC@,
            32,
        ),
        leading_chunks(channels, shared).subrange(20, 52) == desc_bytes(
            file_desc(channels, shared),
        ),
        leading_chunks(channels, shared).subrange(52, 64) == chunk_header_bytes(
            chunk_type::CHAN@,
            12,
        ),
        leading_chunks(channels, shared).subrange(76, 88) == chunk_header_bytes(
            chunk_type::INFO@,
            28,
        ),
{
    lemma_opening_lengths(channels, shared, 0);
    lemma_be_bytes_len(VERSION as nat, 2);
    lemma_be_bytes_len(0, 2);
    lemma_be_bytes_len(0, 4);
    lemma_be_bytes_len(1, 4);
    lemma_be_bytes_len(layout_tag(channels), 4);
    lemma_be_bytes_len(unsigned64(DESC_LEN as int), 8);
    lemma_be_bytes_len(unsigned64(CHAN_LEN as int), 8);
    lemma_be_bytes_len(unsigned64(INFO_LEN as int), 8);
    law_desc_round_trip(file_desc(channels, shared));
    let lead = leading_chunks(channels, shared);
    let file = MAGIC@ + be_bytes(VERSION as nat, 2) + be_bytes(0, 2);
    let desc_header = chunk_header_bytes(chunk_type::DESC@, 32);
    let desc = desc_bytes(file_desc(channels, shared));
    let chan_header = chunk_header_bytes(chunk_type::CHAN@, 12);
    let chan = be_bytes(layout_tag(channels), 4) + be_bytes(0, 4) + be_bytes(0, 4);
    let info_header = chunk_header_bytes(chunk_type::INFO@, 28);
    let info = be_bytes(1, 4) + ENCODER_KEY@ + VENDOR@ + seq![0u8];
    let to_chan = file + desc_header + desc + chan_header;
    lemma_join_three(
        to_chan,
        be_bytes(layout_tag(channels), 4),
        be_bytes(0, 4),
        be_bytes(0, 4),
    );
    let to_info = to_chan + chan + info_header;
    lemma_join_three(to_info, be_bytes(1, 4), ENCODER_KEY@, VENDOR@);
    lemma_join_two(to_info, be_bytes(1, 4) + ENCODER_KEY@ + VENDOR@, seq![0u8]);
    assert(lead == to_info + info);
    lemma_seven(file, desc_header, desc, chan_header, chan, info_header, info);
    assert(file.subrange(0, 4) =~= MAGIC@);
    assert(file.subrange(4, 6) =~= be_bytes(VERSION as nat, 2));
    assert(lead.subrange(0, 4) =~= lead.subrange(0, 8).subrange(0, 4));
    assert(lead.subrange(4, 6) =~= lead.subrange(0, 8).subrange(4, 6));
}

/// Where the parts of a finished file are.
proof fn lemma_file_parts(
    before: Seq<u8>,
    lead: Seq<u8>,
    opening: Seq<u8>,
    data: Seq<u8>,
    chunk: Seq<u8>,
)
    requires
        lead.len() == 116,
        opening.len() == 16,
        chunk.len() >= 12,
    ensures
        ({
            let file = before + (lead + opening + data + chunk);
            let p = before.len() as int;
            let q = p + 132 + data.len();
            &&& forall|a: int, b: int|
                0 <= a <= b <= 116 ==> #[trigger] file.subrange(p + a, p + b) == lead.subrange(a, b)
            &&& file.subrange(p + 116, p + 128) == opening.subrange(0, 12)
            &&& file.subrange(p + 132, q) == data
            &&& file.subrange(q, q + 12) == chunk.subrange(0, 12)
            &&& file.subrange(q + 12, file.len() as int) == chunk.subrange(12, chunk.len() as int)
            &&& file.len() == q + chunk.len()
        }),
{
    let file = before + (lead + opening + data + chunk);
    let p = before.len() as int;
    let q = p + 132 + data.len();
    assert forall|a: int, b: int| 0 <= a <= b <= 116 implies #[trigger] file.subrange(p + a, p + b)
        == lead.subrange(a, b) by {
        assert(file.subrange(p + a, p + b) =~= lead.subrange(a, b));
    }
    assert(file.subrange(p + 116, p + 128) =~= opening.subrange(0, 12));
    assert(file.subrange(p + 132, q) =~= data);
    assert(file.subrange(q, q + 12) =~= chunk.subrange(0, 12));
    assert(file.subrange(q + 12, file.len() as int) =~= chunk.subrange(12, chunk.len() as int));
}

/// One step of the walk over a `desc` chunk.
proof fn lemma_walk_desc(file: Seq<u8>, pos: int, desc: Desc, found: ChunksModel)
    requires
        0 <= pos,
        pos + 44 <= file.len(),
        file.subrange(pos, pos + 12) == chunk_header_bytes(chunk_type::DESC@, 32),
        file.subrange(pos + 12, pos + 44) == desc_bytes(desc),
    ensures
        walk_from(file, pos, found) == walk_from(
            file,
            pos + 44,
            ChunksModel { desc: Some(desc), ..found },
        ),
{
    lemma_chunk_header(file, pos, chunk_type::DESC@, 32);
    law_desc_round_trip(desc);
}

/// One step of the walk over a chunk that is none of the three.
proof fn lemma_walk_other(file: Seq<u8>, pos: int, kind: Seq<u8>, size: int, found: ChunksModel)
    requires
        0 <= pos,
        pos + 12 <= file.len(),
        kind.len() == 4,
        0 <= size <= i64::MAX,
        kind != chunk_type::DESC@,
        kind != chunk_type::PAKT@,
        kind != chunk_type::DATA@,
        file.subrange(pos, pos + 12) == chunk_header_bytes(kind, size),
    ensures
        walk_from(file, pos, found) == walk_from(file, pos + 12 + size, found),
{
    lemma_chunk_header(file, pos, kind, size);
}

/// One step of the walk over a `data` chunk.
proof fn lemma_walk_data(file: Seq<u8>, pos: int, size: int, found: ChunksModel)
    requires
        0 <= pos,
        pos + 12 <= file.len(),
        4 <= size <= i64::MAX,
        file.subrange(pos, pos + 12) == chunk_header_bytes(chunk_type::DATA@, size),
    ensures
        walk_from(file, pos, found) == walk_from(
            file,
            pos + 12 + size,
            ChunksModel { data: Some((pos + 12, size - 4)), ..found },
        ),
{
    lemma_kinds();
    lemma_chunk_header(file, pos, chunk_type::DATA@, size);
}

/// One step of the walk over a `pakt` chunk.
proof fn lemma_walk_pakt(file: Seq<u8>, pos: int, pakt: Seq<u8>, found: ChunksModel)
    requires
        0 <= pos,
        24 <= pakt.len() <= MAX_PAKT_LEN,
        pos + 12 + pakt.len() <= file.len(),
        file.subrange(pos, pos + 12) == chunk_header_bytes(chunk_type::PAKT@, pakt.len() as int),
        file.subrange(pos + 12, pos + 12 + pakt.len()) == pakt,
    ensures
        walk_from(file, pos, found) == walk_from(
            file,
            pos + 12 + pakt.len(),
            ChunksModel { pakt: Some(pakt), ..found },
        ),
{
    lemma_kinds();
    lemma_chunk_header(file, pos, chunk_type::PAKT@, pakt.len() as int);
}

/// The walk over a file that has these parts in these places.
proof fn lemma_walk_parts(file: Seq<u8>, p: int, desc: Desc, data_len: int, pakt: Seq<u8>)
    requires
        0 <= p,
        0 <= data_len,
        data_len + 4 <= i64::MAX,
        24 <= pakt.len() <= MAX_PAKT_LEN,
        file.len() == p + 132 + data_len + 12 + pakt.len(),
        file.subrange(p, p + 4) == MAGIC@,
        file.subrange(p + 4, p + 6) == be_bytes(VERSION as nat, 2),
        file.subrange(p + 8, p + 20) == chunk_header_bytes(chunk_type::DESC@, 32),
        file.subrange(p + 20, p + 52) == desc_bytes(desc),
        file.subrange(p + 52, p + 64) == chunk_header_bytes(chunk_type::CHAN@, 12),
        file.subrange(p + 76, p + 88) == chunk_header_bytes(chunk_type::INFO@, 28),
        file.subrange(p + 116, p + 128) == chunk_header_bytes(chunk_type::DATA@, data_len + 4),
        file.subrange(p + 132 + data_len, p + 144 + data_len) == chunk_header_bytes(
            chunk_type::PAKT@,
            pakt.len() as int,
        ),
        file.subrange(p + 144 + data_len, file.len() as int) == pakt,
    ensures
        walk_file(CursorModel { bytes: file, position: p as nat }) == Ok::<ChunksModel, Error>(
            ChunksModel {
                desc: Some(desc),
                pakt: Some(pakt),
                data: Some((p + 128, data_len)),
            },
        ),
{
    lemma_kinds();
    let none = ChunksModel { desc: None, pakt: None, data: None };
    let with_desc = ChunksModel { desc: Some(desc), ..none };
    let with_data = ChunksModel { data: Some((p + 128, data_len)), ..with_desc };
    lemma_walk_desc(file, p + 8, desc, none);
    lemma_walk_other(file, p + 52, chunk_type::CHAN@, 12, with_desc);
    lemma_walk_other(file, p + 76, chunk_type::INFO@, 28, with_desc);
    lemma_walk_data(file, p + 116, data_len + 4, with_desc);
    lemma_walk_pakt(file, p + 132 + data_len, pakt, with_data);
    lemma_pow256_values();
    lemma_be_round_trip(VERSION as nat, 2);
}

/// The walk over a file whose chunks ahead of the audio are in these places.
proof fn lemma_walk_lead(before: Seq<u8>, lead: Seq<u8>, desc: Desc, data: Seq<u8>, pakt: Seq<u8>)
    requires
        24 <= pakt.len() <= MAX_PAKT_LEN,
        data.len() + 4 <= i64::MAX,
        lead.len() == 116,
        lead.subrange(0, 4) == MAGIC@,
        lead.subrange(4, 6) == be_bytes(VERSION as nat, 2),
        lead.subrange(8, 20) == chunk_header_bytes(chunk_type::DESC@, 32),
        lead.subrange(20, 52) == desc_bytes(desc),
        lead.subrange(52, 64) == chunk_header_bytes(chunk_type::CHAN@, 12),
        lead.subrange(76, 88) == chunk_header_bytes(chunk_type::INFO@, 28),
    ensures
        ({
            let opening = data_opening((data.len() + DATA_EDIT_COUNT_LEN) as int);
            let chunk = chunk_header_bytes(chunk_type::PAKT@, pakt.len() as int) + pakt;
            let file = before + (lead + opening + data + chunk);
            walk_file(CursorModel { bytes: file, position: before.len() }) == Ok::<
                ChunksModel,
                Error,
            >(
                ChunksModel {
                    desc: Some(desc),
                    pakt: Some(pakt),
                    data: Some((before.len() as int + 128, data.len() as int)),
                },
            )
        }),
{
    let header = chunk_header_bytes(chunk_type::PAKT@, pakt.len() as int);
    let chunk = header + pakt;
    let size = (data.len() + DATA_EDIT_COUNT_LEN) as int;
    let opening = data_opening(size);
    let file = before + (lead + opening + data + chunk);
    let p = before.len() as int;
    lemma_be_bytes_len(unsigned64(pakt.len() as int), 8);
    lemma_be_bytes_len(unsigned64(size), 8);
    lemma_be_bytes_len(0, 4);
    assert(header.len() == 12 && opening.len() == 16);
    assert(chunk.subrange(0, 12) =~= header);
    assert(chunk.subrange(12, chunk.len() as int) =~= pakt);
    assert(opening.subrange(0, 12) =~= chunk_header_bytes(chunk_type::DATA@, size));
    lemma_file_parts(before, lead, opening, data, chunk);
    assert(file.subrange(p + 0, p + 4) == MAGIC@);
    assert(file.subrange(p + 4, p + 6) == be_bytes(VERSION as nat, 2));
    assert(file.subrange(p + 8, p + 20) == chunk_header_bytes(chunk_type::DESC@, 32));
    assert(file.subrange(p + 20, p + 52) == desc_bytes(desc));
    assert(file.subrange(p + 52, p + 64) == chunk_header_bytes(chunk_type::CHAN@, 12));
    assert(file.subrange(p + 76, p + 88) == chunk_header_bytes(chunk_type::INFO@, 28));
    lemma_walk_parts(file, p, desc, data.len() as int, pakt);
}

/// The walk over a finished file finds its three chunks.
#[verifier::rlimit(30)]
proof fn lemma_walk_file(
    before: Seq<u8>,
    channels: u8,
    shared: u32,
    data: Seq<u8>,
    pakt: Seq<u8>,
)
    requires
        24 <= pakt.len() <= MAX_PAKT_LEN,
        data.len() + 4 <= i64::MAX,
    ensures
        ({
            let chunk = chunk_header_bytes(chunk_type::PAKT@, pakt.len() as int) + pakt;
            let file = before + caf_file(channels, shared, data, chunk);
            walk_file(CursorModel { bytes: file, position: before.len() }) == Ok::<
                ChunksModel,
                Error,
            >(
                ChunksModel {
                    desc: Some(file_desc(channels, shared)),
                    pakt: Some(pakt),
                    data: Some((before.len() as int + 128, data.len() as int)),
                },
            )
        }),
{
    let lead = leading_chunks(channels, shared);
    lemma_lead_parts(channels, shared);
    lemma_walk_lead(before, lead, file_desc(channels, shared), data, pakt);
}

/// The integers of a table's first `n` entries.
spec fn table_numbers(packets: Seq<(u64, u32)>, n: int, shared: u32) -> Seq<u64>
    decreases n,
{
    if n <= 0 {
        Seq::empty()
    } else {
        let sized = table_numbers(packets, n - 1, shared).push(packets[n - 1].0);
        if shared == 0 {
            sized.push(packets[n - 1].1 as u64)
        } else {
            sized
        }
    }
}

/// What the integers of a table are.
proof fn lemma_table_numbers(packets: Seq<(u64, u32)>, n: int, shared: u32)
    requires
        0 <= n <= packets.len(),
    ensures
        shared != 0 ==> table_numbers(packets, n, shared).len() == n && forall|i: int|
            0 <= i < n ==> table_numbers(packets, n, shared)[i] == (#[trigger] packets[i]).0,
        shared == 0 ==> table_numbers(packets, n, shared).len() == 2 * n && forall|i: int|
            0 <= i < n ==> table_numbers(packets, n, shared)[2 * i] == (#[trigger] packets[i]).0
                && table_numbers(packets, n, shared)[2 * i + 1] == packets[i].1,
    decreases n,
{
    if n > 0 {
        lemma_table_numbers(packets, n - 1, shared);
    }
}

/// A table starts with the entries of its first packets, and has a byte or more
/// for each.
proof fn lemma_table_prefix(packets: Seq<(u64, u32)>, k: int, n: int, shared: u32)
    requires
        0 <= k <= n <= packets.len(),
    ensures
        table_bytes(packets, k, shared).len() + (n - k) <= table_bytes(packets, n, shared).len(),
        table_bytes(packets, n, shared).subrange(
            0,
            table_bytes(packets, k, shared).len() as int,
        ) == table_bytes(packets, k, shared),
    decreases n,
{
    let part = table_bytes(packets, k, shared);
    let whole = table_bytes(packets, n, shared);
    if k == n {
        assert(whole.subrange(0, part.len() as int) =~= part);
    } else {
        lemma_table_prefix(packets, k, n - 1, shared);
        let shorter = table_bytes(packets, n - 1, shared);
        law_varint_round_trip(Seq::empty(), packets[n - 1].0, Seq::empty());
        assert(whole.subrange(0, part.len() as int) =~= shorter.subrange(0, part.len() as int));
    }
}

/// Reading a table up to its `k`th entry gives the integers written there.
proof fn lemma_table_reads(packets: Seq<(u64, u32)>, k: int, n: int, shared: u32)
    requires
        0 <= k <= n <= packets.len(),
    ensures
        table_values(table_bytes(packets, n, shared), 0, Seq::empty()) == table_values(
            table_bytes(packets, n, shared),
            table_bytes(packets, k, shared).len() as int,
            table_numbers(packets, k, shared),
        ),
    decreases k,
{
    if k > 0 {
        lemma_table_reads(packets, k - 1, n, shared);
        lemma_table_prefix(packets, k, n, shared);
        lemma_table_prefix(packets, k - 1, n, shared);
        let whole = table_bytes(packets, n, shared);
        let before = table_bytes(packets, k - 1, shared);
        let part = table_bytes(packets, k, shared);
        let (size, frames) = packets[k - 1];
        let size_bytes = varint_bytes(size as nat);
        let rest = whole.subrange((before.len() + size_bytes.len()) as int, whole.len() as int);
        assert(part.subrange(0, (before.len() + size_bytes.len()) as int) =~= before + size_bytes);
        assert(whole =~= before + size_bytes + rest) by {
            assert(whole.subrange(0, part.len() as int) == part);
            assert forall|i: int| 0 <= i < part.len() implies whole[i] == part[i] by {
                assert(whole.subrange(0, part.len() as int)[i] == whole[i]);
            }
        }
        law_varint_round_trip(before, size, rest);
        let numbers = table_numbers(packets, k - 1, shared);
        let after_size = (before.len() + size_bytes.len()) as int;
        assert(table_values(whole, before.len() as int, numbers) == table_values(
            whole,
            after_size,
            numbers.push(size),
        ));
        if shared == 0 {
            let frame_bytes = varint_bytes(frames as nat);
            let lead = before + size_bytes;
            let tail = whole.subrange(part.len() as int, whole.len() as int);
            law_varint_round_trip(lead, frames as u64, tail);
            assert(whole =~= lead + frame_bytes + tail) by {
                assert(part =~= lead + frame_bytes);
                assert forall|i: int| 0 <= i < part.len() implies whole[i] == part[i] by {
                    assert(whole.subrange(0, part.len() as int)[i] == whole[i]);
                }
            }
            assert(table_values(whole, after_size, numbers.push(size)) == table_values(
                whole,
                part.len() as int,
                numbers.push(size).push(frames as u64),
            ));
        } else {
            assert(part =~= before + size_bytes);
        }
    }
}

/// The packets' data only grows.
proof fn lemma_data_grows(writes: Seq<(Seq<u8>, u32)>, k: int, n: int)
    requires
        0 <= k <= n <= writes.len(),
    ensures
        packet_data(writes, k).len() <= packet_data(writes, n).len(),
        packet_data(writes, n).subrange(0, packet_data(writes, k).len() as int) == packet_data(
            writes,
            k,
        ),
    decreases n,
{
    if k == n {
        assert(packet_data(writes, n).subrange(0, packet_data(writes, k).len() as int)
            =~= packet_data(writes, k));
    } else {
        lemma_data_grows(writes, k, n - 1);
        assert(packet_data(writes, n).subrange(0, packet_data(writes, k).len() as int)
            =~= packet_data(writes, n - 1).subrange(0, packet_data(writes, k).len() as int));
    }
}

/// The packets' sizes add up to their data.
proof fn lemma_sizes_add_up(writes: Seq<(Seq<u8>, u32)>, sizes: Seq<u64>, i: int)
    requires
        0 <= i <= writes.len(),
        sizes.len() == writes.len(),
        accepted(writes, writes.len() as int),
        forall|k: int| 0 <= k < sizes.len() ==> sizes[k] == (#[trigger] writes[k]).0.len(),
        packet_data(writes, writes.len() as int).len() <= u64::MAX,
    ensures
        total_size(sizes, i, packet_data(writes, i).len() as int) == Ok::<int, Error>(
            packet_data(writes, writes.len() as int).len() as int,
        ),
    decreases writes.len() - i,
{
    if i < writes.len() {
        lemma_data_grows(writes, i + 1, writes.len() as int);
        assert(packet_data(writes, i + 1).len() == packet_data(writes, i).len()
            + writes[i].0.len());
        assert(sizes[i] == writes[i].0.len());
        assert(writes[i].0.len() > 0);
        lemma_sizes_add_up(writes, sizes, i + 1);
    }
}

/// The table of a finished file, as a reader takes it apart.
pub open spec fn file_table(m: CafWriterModel) -> TableModel {
    let sizes = Seq::new(m.packets.len(), |i: int| m.packets[i].0);
    let frames = Seq::new(m.packets.len(), |i: int| m.packets[i].1 as u64);
    TableModel {
        header: m.pakt_header(),
        sizes,
        duration: if shared_frames(m.packets) == 0 {
            DurationModel::PerPacket(frames)
        } else {
            DurationModel::Constant(shared_frames(m.packets) as u64)
        },
    }
}

/// A finished file's table reads back.
proof fn lemma_table_round_trip(writes: Seq<(Seq<u8>, u32)>, m: CafWriterModel, channels: u8)
    requires
        accepted(writes, writes.len() as int),
        m.wf(),
        m.packets == entries(writes, writes.len() as int),
        m.data_bytes == packet_data(writes, writes.len() as int).len(),
        m.remainder_frames() <= i32::MAX,
        m.pakt_body().len() <= MAX_PAKT_LEN,
    ensures
        packet_table(
            file_desc(channels, shared_frames(m.packets)),
            m.pakt_body(),
            m.data_bytes,
            1,
        ) == Ok::<TableModel, Error>(file_table(m)),
        m.pakt_body().len() >= 24,
{
    let n = writes.len() as int;
    let packets = m.packets;
    let shared = shared_frames(packets);
    let header = m.pakt_header();
    let table = table_bytes(packets, n, shared);
    let pakt = m.pakt_body();
    let desc = file_desc(channels, shared);
    law_pakt_header_round_trip(header, table);
    lemma_table_prefix(packets, 0, n, shared);
    assert(pakt.subrange(24, pakt.len() as int) =~= table);
    lemma_table_reads(packets, n, n, shared);
    lemma_table_numbers(packets, n, shared);
    let values = table_numbers(packets, n, shared);
    assert(table_bytes(packets, 0, shared).len() == 0);
    assert(n <= table.len());
    assert(header.packets == n);
    assert(count_fits(desc, n, table.len() as int, m.data_bytes));
    assert(table_values(table, 0, Seq::empty()) == Ok::<Seq<u64>, Error>(values));

    let sizes = Seq::new(packets.len(), |i: int| packets[i].0);
    let frames = Seq::new(packets.len(), |i: int| packets[i].1 as u64);
    assert forall|k: int| 0 <= k < sizes.len() implies sizes[k] == (#[trigger] writes[k]).0.len()
        && 120 <= frames[k] <= 5760 by {
        assert(packets[k] == entries(writes, n)[k]);
    }
    if shared != 0 {
        assert(values =~= sizes);
        if n > 0 {
            assert(packets[0] == entries(writes, n)[0]);
            assert(writes[0].0.len() > 0);
            assert(!over_limit(shared as u64, 1));
        }
    } else {
        assert(n > 0);
        assert forall|i: int| 0 <= i < n implies values[2 * i] == sizes[i] && values[2 * i + 1]
            == frames[i] by {
            assert(packets[i].0 == sizes[i]);
        }
        assert(Seq::new(n as nat, |i: int| values[2 * i]) =~= sizes);
        assert(Seq::new(n as nat, |i: int| values[2 * i + 1]) =~= frames);
        assert(!any_over_limit(frames, 1)) by {
            assert forall|i: int| 0 <= i < frames.len() implies !#[trigger] over_limit(
                frames[i],
                1,
            ) by {
                assert(sizes[i] == writes[i].0.len());
            }
        }
    }
    assert(packet_data(writes, 0).len() == 0);
    lemma_sizes_add_up(writes, sizes, 0);
}

/// The reader after `n` packets.
pub open spec fn after_reads(r: CafReaderModel, n: int) -> CafReaderModel
    decreases n,
{
    if n <= 0 {
        r
    } else {
        next_caf_packet(after_reads(r, n - 1)).1
    }
}

/// Where the audio of a finished file ends: where the stated durations do, but
/// never ahead of the pre-skip.
pub open spec fn file_end(writes: Seq<(Seq<u8>, u32)>, pre_skip: u16) -> int {
    if stated_total(writes, writes.len() as int) > pre_skip {
        stated_total(writes, writes.len() as int)
    } else {
        pre_skip as int
    }
}

/// The `i`th packet as it comes back: its bytes, the samples decodable through
/// it, and whether it is the last, which reports where the audio ends.
pub open spec fn packet_back(writes: Seq<(Seq<u8>, u32)>, pre_skip: u16, i: int) -> PacketModel {
    let last = i + 1 == writes.len();
    PacketModel {
        data: writes[i].0,
        page_granule: if last {
            file_end(writes, pre_skip)
        } else {
            decoded_total(writes, i + 1)
        },
        end_of_stream: last,
    }
}

/// What packets decode to only grows.
proof fn lemma_decoded_grows(writes: Seq<(Seq<u8>, u32)>, k: int, n: int)
    requires
        0 <= k <= n <= writes.len(),
        accepted(writes, writes.len() as int),
    ensures
        0 <= decoded_total(writes, k) <= decoded_total(writes, n),
    decreases n,
{
    if n > 0 {
        assert(actual_samples(writes[n - 1].0) >= 120);
        if k < n {
            lemma_decoded_grows(writes, k, n - 1);
        } else {
            lemma_decoded_grows(writes, n - 1, n - 1);
        }
    }
}

/// The reader after `i` packets, spelled out.
proof fn lemma_reads(
    r: CafReaderModel,
    writes: Seq<(Seq<u8>, u32)>,
    pre_skip: u16,
    start: int,
    i: int,
)
    requires
        accepted(writes, writes.len() as int),
        0 <= i <= writes.len(),
        0 <= start,
        r.source.position == start,
        start + packet_data(writes, writes.len() as int).len() <= r.source.bytes.len(),
        r.source.bytes.subrange(
            start,
            start + packet_data(writes, writes.len() as int).len(),
        ) == packet_data(writes, writes.len() as int),
        r.sizes.len() == writes.len(),
        forall|k: int| 0 <= k < writes.len() ==> r.sizes[k] == (#[trigger] writes[k]).0.len(),
        forall|k: int|
            0 <= k < writes.len() ==> stated_samples(
                r.duration,
                k,
                r.ticks,
                (#[trigger] writes[k]).0,
            ) == actual_samples(writes[k].0),
        r.next == 0,
        r.granule == 0,
        r.final_granule == file_end(writes, pre_skip),
        decoded_total(writes, writes.len() as int) <= i64::MAX,
    ensures
        after_reads(r, i) == (CafReaderModel {
            source: r.source.at((start + packet_data(writes, i).len()) as nat),
            next: i,
            granule: if i > 0 && i == writes.len() {
                file_end(writes, pre_skip)
            } else {
                decoded_total(writes, i)
            },
            ..r
        }),
        i < writes.len() ==> next_caf_packet(after_reads(r, i)).0 == Ok::<
            Option<PacketModel>,
            Error,
        >(Some(packet_back(writes, pre_skip, i))),
        i == writes.len() ==> next_caf_packet(after_reads(r, i)).0 == Ok::<
            Option<PacketModel>,
            Error,
        >(None),
    decreases i,
{
    let n = writes.len() as int;
    let all = packet_data(writes, n);
    if i > 0 {
        lemma_reads(r, writes, pre_skip, start, i - 1);
        assert(packet_data(writes, i).len() == packet_data(writes, i - 1).len() + writes[i
            - 1].0.len());
        assert(r.sizes[i - 1] == writes[i - 1].0.len());
        lemma_data_grows(writes, i, n);
        lemma_decoded_grows(writes, i, n);
        assert(stated_samples(r.duration, i - 1, r.ticks, writes[i - 1].0) == actual_samples(
            writes[i - 1].0,
        ));
        assert(decoded_total(writes, i) == decoded_total(writes, i - 1) + actual_samples(
            writes[i - 1].0,
        ));
    } else {
        assert(packet_data(writes, 0).len() == 0);
        assert(r.source =~= r.source.at(start as nat));
    }
    let m = after_reads(r, i);
    if i < n {
        let before = packet_data(writes, i);
        let upto = packet_data(writes, i + 1);
        lemma_data_grows(writes, i + 1, n);
        lemma_data_grows(writes, i, n);
        lemma_decoded_grows(writes, i + 1, n);
        assert(r.sizes[i] == writes[i].0.len());
        assert(upto == before + writes[i].0);
        let data = m.source.ahead(writes[i].0.len());
        assert(data =~= writes[i].0) by {
            let b = before.len() as int;
            assert forall|k: int| 0 <= k < writes[i].0.len() implies data[k] == writes[i].0[k] by {
                assert(all.subrange(0, upto.len() as int)[b + k] == upto[b + k]);
                assert(r.source.bytes.subrange(start, start + all.len())[b + k] == all[b + k]);
            }
        }
        assert(stated_samples(r.duration, i, r.ticks, writes[i].0) == actual_samples(
            writes[i].0,
        ));
        assert(decoded_total(writes, i + 1) == decoded_total(writes, i) + actual_samples(
            writes[i].0,
        ));
    }
}

/// The reader that a finished file opens to.
spec fn opened_reader(
    sink: CursorModel,
    head: HeadModel,
    writes: Seq<(Seq<u8>, u32)>,
    m: CafWriterModel,
) -> CafReaderModel {
    CafReaderModel {
        source: CursorModel {
            bytes: finish_caf(m).1.sink.bytes,
            position: sink.position + 132,
        },
        head: HeadModel { pre_skip: head.pre_skip, ..plain_head(head.channel_count, 48_000) },
        sizes: file_table(m).sizes,
        duration: file_table(m).duration,
        next: 0,
        granule: 0,
        final_granule: file_end(writes, head.pre_skip),
        ticks: 1,
    }
}

/// The chunks of a finished file open to its reader.
proof fn lemma_open_chunks(
    source: CursorModel,
    channels: u8,
    pre_skip: u16,
    end: int,
    body: int,
    m: CafWriterModel,
)
    requires
        channels == 1 || channels == 2,
        m.wf(),
        m.pre_skip == pre_skip,
        end == (if m.granule > pre_skip {
            m.granule
        } else {
            pre_skip as int
        }),
        0 <= body,
        body + 4 <= source.bytes.len(),
        body + 4 <= u64::MAX,
        packet_table(
            file_desc(channels, shared_frames(m.packets)),
            m.pakt_body(),
            m.data_bytes,
            1,
        ) == Ok::<TableModel, Error>(file_table(m)),
    ensures
        open_chunks(
            source,
            ChunksModel {
                desc: Some(file_desc(channels, shared_frames(m.packets))),
                pakt: Some(m.pakt_body()),
                data: Some((body, m.data_bytes)),
            },
        ) == Ok::<CafReaderModel, Error>(
            CafReaderModel {
                source: source.at((body + 4) as nat),
                head: HeadModel { pre_skip, ..plain_head(channels, 48_000) },
                sizes: file_table(m).sizes,
                duration: file_table(m).duration,
                next: 0,
                granule: 0,
                final_granule: end,
                ticks: 1,
            },
        ),
{
    let header = m.pakt_header();
    let frames = header.priming_frames + header.valid_frames;
    assert(header.priming_frames == pre_skip);
    assert(header.valid_frames == m.valid_frames());
    let ticks = rate_ticks(RATE_48000_BITS)->0 as int;
    assert(ticks == 1);
    assert(header.priming_frames * ticks == pre_skip) by (nonlinear_arith)
        requires
            ticks == 1,
            header.priming_frames == pre_skip,
    ;
    assert(frames * ticks == end) by (nonlinear_arith)
        requires
            ticks == 1,
            frames == end,
    ;
    assert((channels as u32) as u8 == channels);
}

/// A finished file opens, and its packets are where the reader looks for them.
#[verifier::rlimit(30)]
proof fn lemma_opened(
    sink: CursorModel,
    head: HeadModel,
    writes: Seq<(Seq<u8>, u32)>,
    m: CafWriterModel,
)
    requires
        start_caf(sink, head) is Ok,
        run_writes(start_caf(sink, head)->Ok_0, writes, writes.len() as int) == Some(m),
        m.wf(),
        finish_caf(m).0 is Ok,
        m.pakt_body().len() <= MAX_PAKT_LEN,
        sink.bytes.len() <= m.data_end() + m.pakt_chunk().len(),
    ensures
        open_caf(finish_caf(m).1.sink.at(sink.position)) == Ok::<CafReaderModel, Error>(
            opened_reader(sink, head, writes, m),
        ),
        ({
            let data = packet_data(writes, writes.len() as int);
            let start = sink.position + 132;
            let bytes = finish_caf(m).1.sink.bytes;
            &&& start + data.len() <= bytes.len()
            &&& bytes.subrange(start as int, (start + data.len()) as int) == data
        }),
{
    let n = writes.len() as int;
    let channels = head.channel_count;
    lemma_written(sink, head, writes, n);
    lemma_finished(sink, head, writes);
    lemma_table_round_trip(writes, m, channels);
    let shared = shared_frames(m.packets);
    let data = packet_data(writes, n);
    let pakt = m.pakt_body();
    let chunk = m.pakt_chunk();
    let before = ahead_of_file(sink);
    lemma_walk_file(before, channels, shared, data, pakt);
    let file = before + caf_file(channels, shared, data, chunk);
    let source = finish_caf(m).1.sink.at(sink.position);
    assert(source.bytes =~= file);
    assert(source =~= CursorModel { bytes: file, position: before.len() });
    let size = (data.len() + DATA_EDIT_COUNT_LEN) as int;
    lemma_opening_lengths(channels, shared, size);
    lemma_be_bytes_len(unsigned64(pakt.len() as int), 8);
    lemma_file_parts(before, leading_chunks(channels, shared), data_opening(size), data, chunk);
    assert(sink.position + 132 <= m.data_end());
    lemma_open_chunks(
        source,
        channels,
        head.pre_skip,
        file_end(writes, head.pre_skip),
        sink.position as int + 128,
        m,
    );
}

/// A file holds the packets that were written to it. Whatever packets a writer
/// accepted, and however it was told to end, the file it finishes opens at the
/// place where it was started, with the header's channel count and pre-skip,
/// and reads back every packet byte for byte: each reports the samples that the
/// packets through it decode to, except the last, which alone ends the stream
/// and reports where the stated durations end (or the pre-skip, when they end
/// ahead of it). The sink may hold anything ahead of the file, may stand past its
/// end, and may be written over; one that holds more than the finished file
/// reaches is left out, since what stays behind the file would be read as chunks
/// of it, and so is a table over the length that a reader will load.
pub proof fn law_caf_round_trip(
    sink: CursorModel,
    head: HeadModel,
    writes: Seq<(Seq<u8>, u32)>,
    m: CafWriterModel,
)
    requires
        start_caf(sink, head) is Ok,
        run_writes(start_caf(sink, head)->Ok_0, writes, writes.len() as int) == Some(m),
        m.wf(),
        finish_caf(m).0 is Ok,
        m.pakt_body().len() <= MAX_PAKT_LEN,
        sink.bytes.len() <= m.data_end() + m.pakt_chunk().len(),
    ensures
        ({
            let opened = open_caf(finish_caf(m).1.sink.at(sink.position));
            let reader = opened->Ok_0;
            &&& opened is Ok
            &&& reader.head == (HeadModel {
                pre_skip: head.pre_skip,
                ..plain_head(head.channel_count, 48_000)
            })
            &&& reader.sizes.len() == writes.len()
            &&& reader.final_granule == file_end(writes, head.pre_skip)
            &&& forall|i: int|
                0 <= i < writes.len() ==> (#[trigger] next_caf_packet(after_reads(reader, i))).0
                    == Ok::<Option<PacketModel>, Error>(
                    Some(packet_back(writes, head.pre_skip, i)),
                )
            &&& next_caf_packet(after_reads(reader, writes.len() as int)).0 == Ok::<
                Option<PacketModel>,
                Error,
            >(None)
        }),
{
    let n = writes.len() as int;
    lemma_opened(sink, head, writes, m);
    lemma_written(sink, head, writes, n);
    let reader = opened_reader(sink, head, writes, m);
    let start = (sink.position + 132) as int;
    lemma_file_durations(writes, m);
    assert forall|i: int| 0 <= i < n implies (#[trigger] next_caf_packet(
        after_reads(reader, i),
    )).0 == Ok::<Option<PacketModel>, Error>(Some(packet_back(writes, head.pre_skip, i))) by {
        lemma_reads(reader, writes, head.pre_skip, start, i);
    }
    lemma_reads(reader, writes, head.pre_skip, start, n);
}

/// A finished file's table states what every packet decodes to.
proof fn lemma_file_durations(writes: Seq<(Seq<u8>, u32)>, m: CafWriterModel)
    requires
        accepted(writes, writes.len() as int),
        m.packets == entries(writes, writes.len() as int),
    ensures
        file_table(m).sizes.len() == writes.len(),
        forall|k: int|
            0 <= k < writes.len() ==> file_table(m).sizes[k] == (#[trigger] writes[k]).0.len(),
        forall|k: int|
            0 <= k < writes.len() ==> stated_samples(
                file_table(m).duration,
                k,
                1,
                (#[trigger] writes[k]).0,
            ) == actual_samples(writes[k].0),
{
    let n = writes.len() as int;
    assert forall|k: int| 0 <= k < n implies file_table(m).sizes[k] == (#[trigger]
    writes[k]).0.len() && stated_samples(file_table(m).duration, k, 1, writes[k].0)
        == actual_samples(writes[k].0) by {
        assert(m.packets[k] == entries(writes, n)[k]);
        if shared_frames(m.packets) != 0 {
            assert(uniform(m.packets));
            assert(m.packets[k].1 == m.packets[0].1);
        }
    }
}

/// The three frame counts of a finished file add up to what its packets decode
/// to, as long as that is no less than the pre-skip.
pub proof fn law_frame_counts_add_up(m: CafWriterModel)
    requires
        m.wf(),
        m.granule <= m.decoded,
        m.pre_skip <= m.decoded,
        m.remainder_frames() <= i32::MAX,
    ensures
        m.pakt_header().priming_frames + m.pakt_header().valid_frames
            + m.pakt_header().remainder_frames == m.decoded,
{
}

/// Once a file has errored or ended, polling gives nothing more, for good.
pub proof fn law_polling_stays_over(r: CafReaderModel)
    ensures
        ({
            let (polled, next, done) = crate::caf::reader::poll_caf(r, false);
            &&& (polled is None || polled->0 is Err) ==> done
            &&& done ==> crate::caf::reader::poll_caf(next, done) == (
                None::<Result<PacketModel, Error>>,
                next,
                true,
            )
            &&& (polled matches Some(Err(_))) ==> next_caf_packet(next).0 == Ok::<
                Option<PacketModel>,
                Error,
            >(None)
        }),
{
}

} // verus!
