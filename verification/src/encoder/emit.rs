//! Writing one coded frame out as a packet.

use vstd::prelude::*;

use crate::bytes::push_all;
use crate::framing::{packable, parse_packet, PacketFrames, MAX_FRAME_BYTES};
use crate::math::{least, min_usize};
use crate::repacketizer::{
    counted_packet, equally_long, joined, law_packet_round_trip, padded_packet, padding_lengths,
    push_repeated, shortest_packet,
};

verus! {

/// The largest packet that can hold its payload as a single unframed Opus frame.
///
/// One frame is capped at 1275 bytes, so a code 0 packet tops out at 1276
/// with the TOC.
pub const MAX_ONE_FRAME_PACKET: usize = 1276;

/// The packet that holds one frame in `total` bytes: a frame that fills the
/// target or more is cut to it, and one that does not is padded.
pub open spec fn one_frame_packet(toc: u8, frame: Seq<u8>, total: int) -> Seq<u8> {
    if frame.len() + 1 >= total {
        seq![toc] + frame.subrange(0, least(frame.len() as int, total - 1))
    } else {
        padded_packet(toc, seq![frame], false, total)
    }
}

/// The padded form of a one-frame packet, spelled out.
proof fn lemma_one_frame(toc: u8, frame: Seq<u8>, total: int)
    requires
        frame.len() + 1 < total,
    ensures
        one_frame_packet(toc, frame, total) == (if total == frame.len() + 2 {
            seq![(toc + 3) as u8, 1u8] + frame
        } else {
            seq![(toc + 3) as u8, 0x41u8] + padding_lengths(total - frame.len() - 2) + frame
                + Seq::new(
                (total - frame.len() - 2 - padding_lengths(total - frame.len() - 2).len()) as nat,
                |i: int| 0u8,
            )
        }),
{
    let frames = seq![frame];
    assert(equally_long(frames));
    assert(joined(frames, 0) =~= Seq::empty());
    assert(joined(frames, 1) =~= frame);
    let none = Seq::<u8>::empty();
    assert(shortest_packet(toc, frames, false) =~= seq![toc] + frame);
    let bare = counted_packet(toc, frames, false, 0);
    assert(bare =~= seq![(toc + 3) as u8, 1u8] + frame);
    let padding = total - frame.len() - 2;
    if padding > 0 {
        assert(counted_packet(toc, frames, false, padding) =~= seq![(toc + 3) as u8, 0x41u8]
            + padding_lengths(padding) + frame + Seq::new(
            (padding - padding_lengths(padding).len()) as nat,
            |i: int| 0u8,
        ));
    }
}

/// Put bytes into a buffer at `at`.
pub(crate) fn put(output: &mut [u8], at: usize, data: &[u8])
    requires
        at + data@.len() <= old(output)@.len(),
    ensures
        final(output)@ == old(output)@.subrange(0, at as int) + data@ + old(output)@.subrange(
            at + data@.len(),
            old(output)@.len() as int,
        ),
{
    let mut i: usize = 0;
    assert(at + data@.len() <= output.len());
    while i < data.len()
        invariant
            i <= data@.len(),
            at + data@.len() <= old(output)@.len(),
            old(output)@.len() <= usize::MAX,
            output@.len() == old(output)@.len(),
            forall|k: int| 0 <= k < at ==> output@[k] == old(output)@[k],
            forall|k: int| at <= k < at + i ==> output@[k] == data@[k - at],
            forall|k: int| at + i <= k < output@.len() ==> output@[k] == old(output)@[k],
        decreases data@.len() - i,
    {
        output[at + i] = data[i];
        i = i + 1;
    }
    assert(output@ =~= old(output)@.subrange(0, at as int) + data@ + old(output)@.subrange(
        at + data@.len(),
        old(output)@.len() as int,
    ));
}

/// Write `frame` into `output` as a complete one-frame packet of `target_total`
/// bytes, returning how many bytes were written.
///
/// A CBR target can be larger than a frame is allowed to be: 60 ms stereo above
/// roughly 170 kbps asks for more than 1275 bytes. The surplus becomes code 3
/// padding rather than an over-long frame.
pub fn emit_one_frame_packet(output: &mut [u8], toc: u8, frame: &[u8], target_total: usize) -> (n:
    usize)
    requires
        toc % 4 == 0,
        1 <= target_total,
        1 <= old(output)@.len(),
        frame@.len() + 2 <= usize::MAX,
    ensures
        ({
            let total = least(target_total as int, old(output)@.len() as int);
            let packet = one_frame_packet(toc, frame@, total);
            &&& n == packet.len()
            &&& n <= total
            &&& final(output)@ == packet + old(output)@.subrange(n as int, old(output)@.len() as int)
        }),
{
    let total: usize = min_usize(target_total, output.len());
    let packet: Vec<u8> = if frame.len() + 1 >= total {
        cut_packet(toc, frame, total)
    } else {
        filled_packet(toc, frame, total)
    };
    put(output, 0, &packet);
    assert(output@ =~= packet@ + old(output)@.subrange(
        packet@.len() as int,
        old(output)@.len() as int,
    ));
    packet.len()
}

/// A frame that already fills the target: plain code 0, no framing overhead.
fn cut_packet(toc: u8, frame: &[u8], total: usize) -> (packet: Vec<u8>)
    requires
        1 <= total <= frame@.len() + 1,
    ensures
        packet@ == one_frame_packet(toc, frame@, total as int),
        packet@.len() <= total,
{
    let copied: usize = min_usize(frame.len(), total - 1);
    let mut packet: Vec<u8> = Vec::with_capacity(total);
    packet.push(toc);
    push_all(&mut packet, &frame[0..copied]);
    assert(packet@ =~= seq![toc] + frame@.subrange(0, copied as int));
    packet
}

/// A frame that does not fill the target: code 3, CBR, one frame. The
/// frame-count byte absorbs a single spare byte; what is left is padding, whose
/// length bytes count themselves.
fn filled_packet(toc: u8, frame: &[u8], total: usize) -> (packet: Vec<u8>)
    requires
        toc % 4 == 0,
        frame@.len() + 1 < total,
    ensures
        packet@ == one_frame_packet(toc, frame@, total as int),
        packet@.len() == total,
{
    proof {
        lemma_one_frame(toc, frame@, total as int);
    }
    let mut packet: Vec<u8> = Vec::with_capacity(total);
    packet.push(toc + 3);
    if frame.len() + 2 >= total {
        packet.push(0x01);
        push_all(&mut packet, frame);
        assert(packet@ =~= seq![(toc + 3) as u8, 1u8] + frame@);
        return packet;
    }
    packet.push(0x41);
    let padding: usize = total - frame.len() - 2;
    let full: usize = (padding - 1) / 255;
    push_repeated(&mut packet, 255, full);
    packet.push((padding - 255 * full - 1) as u8);
    assert(packet@ =~= seq![(toc + 3) as u8, 0x41u8] + padding_lengths(padding as int));
    push_all(&mut packet, frame);
    push_repeated(&mut packet, 0, padding - full - 1);
    packet
}

/// A frame that fits its target comes out of the packet as it went in, and the
/// packet has exactly the size that was asked for.
pub proof fn law_one_frame_round_trip(toc: u8, frame: Seq<u8>, total: int)
    requires
        toc % 4 == 0,
        frame.len() <= MAX_FRAME_BYTES,
        frame.len() + 1 <= total,
    ensures
        one_frame_packet(toc, frame, total).len() == total,
        parse_packet(one_frame_packet(toc, frame, total), false) == Some(
            PacketFrames { toc, frames: seq![frame], consumed: total },
        ),
{
    let frames = seq![frame];
    assert(packable(toc, frames));
    law_packet_round_trip(toc, frames, false, total, Seq::empty());
    assert(joined(frames, 0) =~= Seq::empty());
    assert(joined(frames, 1) =~= frame);
    assert(shortest_packet(toc, frames, false) =~= seq![toc] + frame);
    let packet = padded_packet(toc, frames, false, total);
    assert(packet + Seq::<u8>::empty() =~= packet);
    if frame.len() + 1 == total {
        assert(frame.subrange(0, frame.len() as int) =~= frame);
    }
}

} // verus!
