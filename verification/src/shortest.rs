//! What is short about the shortest packets, and what fills the others.

use vstd::prelude::*;

use crate::framing::{
    cut, frame_table, law_parsed_frames_pack, lemma_constant_bounds,
    lemma_cut_lengths, lemma_padding_bounds, lemma_sizes_count, lemma_sum_grows,
    lemma_table_count, lemma_variable_bounds, parse_packet, read_padding, read_sizes, size_bytes,
    size_sum,
};
use crate::repacketizer::{
    add_packet, counted_packet, equally_long, joined, length_fields, lemma_joined_len, lengths_of,
    padding_lengths, shortest_packet, GatheredFrames,
};
use crate::toc::config_samples;

verus! {

/// Length fields take what the lengths need, whoever wrote them.
proof fn lemma_fields_len(data: Seq<u8>, pos: int, frames: Seq<Seq<u8>>, n: int)
    requires
        0 <= n <= frames.len(),
        read_sizes(data, pos, n) matches Some((sizes, _)) && forall|i: int|
            0 <= i < n ==> #[trigger] sizes[i] == frames[i].len(),
    ensures
        (read_sizes(data, pos, n)->0).1 == pos + length_fields(frames, n).len(),
    decreases n,
{
    if n > 0 {
        let (sizes, _) = read_sizes(data, pos, n)->0;
        let (before, at) = read_sizes(data, pos, n - 1)->0;
        lemma_sizes_count(data, pos, n - 1);
        assert forall|i: int| 0 <= i < n - 1 implies #[trigger] before[i] == frames[i].len() by {
            assert(sizes[i] == before[i]);
        }
        lemma_fields_len(data, pos, frames, n - 1);
        assert(sizes[n - 1] == frames[n - 1].len());
    }
}

/// The sums of equal lists are equal.
proof fn lemma_same_sum(a: Seq<int>, b: Seq<int>, n: int)
    requires
        0 <= n <= a.len(),
        n <= b.len(),
        forall|i: int| 0 <= i < n ==> #[trigger] a[i] == b[i],
    ensures
        size_sum(a, n) == size_sum(b, n),
    decreases n,
{
    if n > 0 {
        lemma_same_sum(a, b, n - 1);
        assert(a[n - 1] == b[n - 1]);
    }
}

/// The shortest packet of some frames is the shortest: whatever else holds the same
/// frames, none of it is shorter.
pub proof fn law_no_packet_is_shorter(data: Seq<u8>)
    requires
        parse_packet(data, false) is Some,
    ensures
        ({
            let p = parse_packet(data, false)->0;
            shortest_packet(p.toc, p.frames, false).len() <= data.len()
        }),
{
    let p = parse_packet(data, false)->0;
    let table = frame_table(data, false)->0;
    let frames = p.frames;
    let n = table.sizes.len() as int;
    let len = data.len() as int;
    law_parsed_frames_pack(data, false);
    lemma_table_count(data, false);
    reveal(frame_table);
    let code = data[0] % 4;
    let count = data[1] as int % 64;
    let padded = (data[1] as int / 64) % 2 == 1;
    let (padding, at) = if code < 3 {
        (0int, 1int)
    } else if padded {
        read_padding(data, 2, 0)->0
    } else {
        (0int, 2int)
    };
    lemma_padding_bounds(data, 2, 0);
    if code == 0 {
        lemma_constant_bounds(data, 1, len, 1, 0, false);
    } else if code == 1 {
        lemma_constant_bounds(data, 1, len, 2, 0, false);
    } else if code == 2 {
        lemma_variable_bounds(data, 1, len, 2, 0, false);
    } else if data[1] >= 128 {
        lemma_variable_bounds(data, at, len - padding, count, padding, false);
    } else {
        lemma_constant_bounds(data, at, len - padding, count, padding, false);
    }
    lemma_sum_grows(table.sizes, 0, n);
    lemma_cut_lengths(data, table.start, table.sizes, n);
    assert(frames == cut(data, table.start, table.sizes, n));
    assert forall|i: int| 0 <= i < n implies #[trigger] lengths_of(frames)[i]
        == table.sizes[i] by {
        assert(cut(data, table.start, table.sizes, n)[i].len() == table.sizes[i]);
    }
    lemma_joined_len(frames, n);
    lemma_same_sum(lengths_of(frames), table.sizes, n);
    let body = joined(frames, n);
    if code == 2 || (code == 3 && data[1] >= 128) {
        let end = if code == 2 {
            len
        } else {
            len - padding
        };
        let within = data.subrange(0, end);
        let (sizes, next) = read_sizes(within, at, n - 1)->0;
        lemma_sizes_count(within, at, n - 1);
        assert forall|i: int| 0 <= i < n - 1 implies #[trigger] sizes[i] == frames[i].len() by {
            assert(table.sizes[i] == sizes[i]);
            assert(lengths_of(frames)[i] == table.sizes[i]);
        }
        lemma_fields_len(within, at, frames, n - 1);
        if n == 2 {
            assert(length_fields(frames, 0) =~= Seq::<u8>::empty());
            assert(length_fields(frames, 1) =~= size_bytes(frames[0].len() as int));
        }
    } else {
        assert forall|i: int| 0 <= i < frames.len() implies (#[trigger] frames[i]).len()
            == frames[0].len() by {
            assert(lengths_of(frames)[i] == table.sizes[i]);
            assert(lengths_of(frames)[0] == table.sizes[0]);
        }
        assert(equally_long(frames));
    }
}

/// How padding is said: 255 is 254 of it and more to come, and what says it counts
/// with it. It ends in zeros, which are all that it holds.
pub proof fn law_padding_is_zeros(
    toc: u8,
    frames: Seq<Seq<u8>>,
    self_delimited: bool,
    padding: int,
    i: int,
)
    requires
        1 <= frames.len(),
        1 <= padding,
        1 <= i <= padding - (padding + 254) / 255,
    ensures
        ({
            let packet = counted_packet(toc, frames, self_delimited, padding);
            packet.len() >= i && packet[packet.len() - i] == 0
        }),
{
    let n = frames.len() as int;
    assert(padding_lengths(padding).len() == (padding + 254) / 255);
}

/// The least that frames need: their bytes, a byte for what they share, and then, for
/// more than two, one for how many there are; and the length of each but the last
/// where they differ.
pub proof fn law_shortest_packets_have_a_size(toc: u8, frames: Seq<Seq<u8>>)
    requires
        1 <= frames.len(),
    ensures
        ({
            let n = frames.len() as int;
            let bytes = joined(frames, n).len();
            let packet = shortest_packet(toc, frames, false);
            &&& n <= 2 && equally_long(frames) ==> packet.len() == 1 + bytes
            &&& n > 2 && equally_long(frames) ==> packet.len() == 2 + bytes
            &&& n == 2 && frames[0].len() < 252 && frames[1].len() != frames[0].len()
                ==> packet.len() == 2 + bytes
            &&& n == 2 && frames[0].len() >= 252 && frames[1].len() != frames[0].len()
                ==> packet.len() == 3 + bytes
            &&& n > 2 && !equally_long(frames) ==> packet.len() == 2 + length_fields(
                frames,
                n - 1,
            ).len() + bytes
        }),
{
    let n = frames.len() as int;
    if n == 1 {
        assert(equally_long(frames));
    }
    if n == 2 && frames[1].len() != frames[0].len() {
        assert(!equally_long(frames));
    }
}

/// Frames are gathered one packet after the other, as long as they are of the same
/// kind and together no longer than 120 ms; what does not fit changes nothing.
pub proof fn law_frames_are_gathered(m: GatheredFrames, packet: Seq<u8>)
    ensures
        ({
            let (r, after) = add_packet(m, packet);
            let parsed = parse_packet(packet, false);
            &&& r is Err ==> after == m
            &&& r is Ok ==> parsed is Some && after.frames == m.frames + (parsed->0).frames
                && after.toc == (parsed->0).toc && (m.frames.len() > 0 ==> after.toc == m.toc)
                && after.frames.len() * config_samples(after.toc as int / 8) <= 5_760
            &&& parsed is Some && m.frames.len() == 0 ==> r is Ok
            &&& parsed is Some && m.toc == (parsed->0).toc && (m.frames.len()
                + (parsed->0).frames.len()) * config_samples(m.toc as int / 8) <= 5_760 ==> r is Ok
        }),
{
    law_parsed_frames_pack(packet, false);
}

} // verus!
