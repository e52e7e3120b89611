//! Multistream packets: the streams' packets, one after the other. All but the
//! last are self-delimited, so that each stream's end can be found.

use vstd::prelude::*;

use crate::bytes::push_all;
use crate::encoder::emit::put;
use crate::error::Error;
use crate::framing::{law_parsed_frames_pack, parse_packet};
use crate::repacketizer::{
    law_packet_round_trip, padded_packet, shortest_packet, take_self_delimited_into, Repacketizer,
};

verus! {

/// A stream's packet as it stands in a multistream packet, or why it cannot.
pub open spec fn framed(packet: Seq<u8>, last: bool) -> Result<Seq<u8>, Error> {
    if last {
        Ok(packet)
    } else {
        match parse_packet(packet, false) {
            None => Err(Error::InvalidPacket("packet framing is inconsistent")),
            Some(p) => Ok(shortest_packet(p.toc, p.frames, true)),
        }
    }
}

/// A multistream packet in the making.
#[derive(Debug)]
pub struct MultiPacket {
    streams: usize,
    added: usize,
    bytes: Vec<u8>,
    framer: Repacketizer,
}

/// What a [`MultiPacket`] holds.
#[verifier::ext_equal]
pub struct MultiPacketModel {
    /// How many streams share the packet.
    pub streams: int,
    /// How many of them are there.
    pub added: int,
    /// Their bytes.
    pub bytes: Seq<u8>,
}

impl View for MultiPacket {
    type V = MultiPacketModel;

    closed spec fn view(&self) -> MultiPacketModel {
        MultiPacketModel {
            streams: self.streams as int,
            added: self.added as int,
            bytes: self.bytes@,
        }
    }
}

impl MultiPacket {
    /// Whether no more streams are there than should be.
    pub closed spec fn wf(&self) -> bool {
        self.added <= self.streams && self.framer.wf()
    }

    /// A packet of `streams` streams, without any yet.
    pub fn new(streams: usize) -> (p: Self)
        ensures
            p.wf(),
            p@ == (MultiPacketModel { streams: streams as int, added: 0, bytes: Seq::empty() }),
    {
        let p = MultiPacket { streams, added: 0, bytes: Vec::new(), framer: Repacketizer::new() };
        assert(p@.bytes =~= Seq::empty());
        p
    }

    /// Add the next stream's packet. One that does not add up is an error, and
    /// leaves the others as they were.
    pub fn add_stream(&mut self, packet: &[u8]) -> (r: Result<(), Error>)
        requires
            old(self).wf(),
            old(self)@.added < old(self)@.streams,
        ensures
            final(self).wf(),
            match framed(packet@, old(self)@.added + 1 == old(self)@.streams) {
                Ok(bytes) => r is Ok && final(self)@ == (MultiPacketModel {
                    added: old(self)@.added + 1,
                    bytes: old(self)@.bytes + bytes,
                    ..old(self)@
                }),
                Err(e) => r == Err::<(), Error>(e) && final(self)@ == old(self)@,
            },
    {
        if self.added + 1 == self.streams {
            push_all(&mut self.bytes, packet);
        } else {
            proof {
                law_parsed_frames_pack(packet@, false);
            }
            self.framer.clear();
            let ghost none = self.framer@;
            match self.framer.cat(packet) {
                Ok(()) => {},
                Err(e) => return Err(e),
            }
            assert(none.frames + parse_packet(packet@, false)->0.frames =~= parse_packet(
                packet@,
                false,
            )->0.frames);
            match self.framer.out_self_delimited_into(&mut self.bytes) {
                Ok(()) => {},
                Err(e) => return Err(e),
            }
        }
        self.added = self.added + 1;
        Ok(())
    }

    /// Write the packet to `output`, and say how long it is. Unlike a single
    /// stream's, the buffer is a plain capacity and not a byte budget.
    pub fn finish(&self, output: &mut [u8]) -> (r: Result<usize, Error>)
        ensures
            if old(output)@.len() < self@.bytes.len() {
                &&& r matches Err(Error::BufferTooSmall { needed, provided }) && needed
                    == self@.bytes.len() && provided == old(output)@.len()
                &&& final(output)@ == old(output)@
            } else {
                &&& r matches Ok(n) && n == self@.bytes.len()
                &&& final(output)@ == self@.bytes + old(output)@.subrange(
                    self@.bytes.len() as int,
                    old(output)@.len() as int,
                )
            },
    {
        if output.len() < self.bytes.len() {
            return Err(Error::buffer_too_small(self.bytes.len(), output.len()));
        }
        put(output, 0, &self.bytes);
        assert(output@ =~= self.bytes@ + old(output)@.subrange(
            self.bytes@.len() as int,
            old(output)@.len() as int,
        ));
        Ok(self.bytes.len())
    }
}

/// A walk through the streams of a multistream packet.
#[derive(Debug)]
pub struct StreamWalk<'a> {
    data: &'a [u8],
    at: usize,
    left: usize,
}

/// What a [`StreamWalk`] has still to go through.
#[verifier::ext_equal]
pub struct WalkModel {
    /// The bytes that are left.
    pub rest: Seq<u8>,
    /// The streams that are left.
    pub left: int,
}

impl<'a> View for StreamWalk<'a> {
    type V = WalkModel;

    closed spec fn view(&self) -> WalkModel {
        WalkModel {
            rest: self.data@.subrange(self.at as int, self.data@.len() as int),
            left: self.left as int,
        }
    }
}

/// The next stream's packet, as an ordinary one, and what is left after it. The
/// last stream is a normal packet; every earlier one has its length prefix
/// stripped.
pub open spec fn next_stream(w: WalkModel) -> (Result<Seq<u8>, Error>, WalkModel) {
    if w.left == 1 {
        (Ok(w.rest), w)
    } else {
        match parse_packet(w.rest, true) {
            None => (Err(Error::InvalidPacket("packet framing is inconsistent")), w),
            Some(p) => (
                Ok(shortest_packet(p.toc, p.frames, false)),
                WalkModel {
                    rest: w.rest.subrange(p.consumed, w.rest.len() as int),
                    left: w.left - 1,
                },
            ),
        }
    }
}

impl<'a> StreamWalk<'a> {
    /// Whether the walk is within the packet.
    pub closed spec fn wf(&self) -> bool {
        self.at <= self.data@.len()
    }

    /// A walk through a packet of `streams` streams.
    pub fn new(data: &'a [u8], streams: usize) -> (w: Self)
        ensures
            w.wf(),
            w@ == (WalkModel { rest: data@, left: streams as int }),
    {
        let w = StreamWalk { data, at: 0, left: streams };
        assert(w@.rest =~= data@);
        w
    }

    /// The next stream's packet. One that does not add up is an error, and the
    /// walk stays where it is.
    pub fn next_packet(&mut self) -> (r: Result<Vec<u8>, Error>)
        requires
            old(self).wf(),
            old(self)@.left >= 1,
        ensures
            final(self).wf(),
            final(self)@ == next_stream(old(self)@).1,
            match (r, next_stream(old(self)@).0) {
                (Ok(packet), Ok(bytes)) => packet@ == bytes,
                (Err(e), Err(expected)) => e == expected,
                _ => false,
            },
    {
        let rest: &[u8] = &self.data[self.at..self.data.len()];
        let mut packet: Vec<u8> = Vec::new();
        if self.left == 1 {
            push_all(&mut packet, rest);
            assert(packet@ =~= self@.rest);
            return Ok(packet);
        }
        let n: usize = match take_self_delimited_into(rest, &mut packet) {
            Ok(n) => n,
            Err(e) => return Err(e),
        };
        self.at = self.at + n;
        self.left = self.left - 1;
        assert(self@.rest =~= old(self)@.rest.subrange(n as int, old(self)@.rest.len() as int));
        Ok(packet)
    }
}

/// The bytes of some streams' packets, from stream `k` on.
pub open spec fn joined_from(packets: Seq<Seq<u8>>, k: int) -> Seq<u8>
    decreases packets.len() - k,
{
    if k < 0 || k >= packets.len() {
        Seq::empty()
    } else if k == packets.len() - 1 {
        packets[k]
    } else {
        framed(packets[k], false)->Ok_0 + joined_from(packets, k + 1)
    }
}

/// The packets that a walk hands out.
pub open spec fn walked(w: WalkModel, n: int) -> Seq<Seq<u8>>
    decreases n,
{
    if n <= 0 {
        Seq::empty()
    } else {
        seq![next_stream(w).0->Ok_0] + walked(next_stream(w).1, n - 1)
    }
}

/// What becomes of a stream's packet on its way: the last one is as it was, and
/// the others hold the same frames in as few bytes as they can.
pub open spec fn repacked(packets: Seq<Seq<u8>>, s: int) -> Seq<u8> {
    if s == packets.len() - 1 {
        packets[s]
    } else {
        let p = parse_packet(packets[s], false)->0;
        shortest_packet(p.toc, p.frames, false)
    }
}

/// Walking through a multistream packet hands out the streams' packets that it
/// was put together from: the last as it was, the others without padding.
pub proof fn law_streams_come_apart(packets: Seq<Seq<u8>>, k: int)
    requires
        0 <= k < packets.len(),
        forall|s: int|
            0 <= s < packets.len() - 1 ==> parse_packet(#[trigger] packets[s], false) is Some,
    ensures
        ({
            let w = WalkModel { rest: joined_from(packets, k), left: packets.len() - k };
            let out = walked(w, packets.len() - k);
            &&& next_stream(w).0 is Ok
            &&& out.len() == packets.len() - k
            &&& forall|s: int|
                k <= s < packets.len() ==> #[trigger] out[s - k] == repacked(packets, s)
        }),
    decreases packets.len() - k,
{
    let w = WalkModel { rest: joined_from(packets, k), left: packets.len() - k };
    let n = packets.len() - k;
    let out = walked(w, n);
    if k == packets.len() - 1 {
        assert(walked(next_stream(w).1, 0).len() == 0);
        assert(out[0] == packets[k]);
    } else {
        let p = parse_packet(packets[k], false)->0;
        law_parsed_frames_pack(packets[k], false);
        let own = shortest_packet(p.toc, p.frames, true);
        let rest = joined_from(packets, k + 1);
        law_packet_round_trip(p.toc, p.frames, true, 0, rest);
        assert(padded_packet(p.toc, p.frames, true, 0) == own);
        assert(w.rest == own + rest);
        let next = next_stream(w).1;
        assert(next.rest =~= rest);
        law_streams_come_apart(packets, k + 1);
        let tail = walked(next, n - 1);
        assert(out =~= seq![next_stream(w).0->Ok_0] + tail);
        assert forall|s: int| k <= s < packets.len() implies #[trigger] out[s - k] == repacked(
            packets,
            s,
        ) by {
            if s > k {
                assert(out[s - k] == tail[s - (k + 1)]);
            }
        }
    }
}

} // verus!
