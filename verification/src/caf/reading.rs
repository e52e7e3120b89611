//! What the whole run of reads gives, of every file that opens.

use vstd::prelude::*;

use crate::caf::chunk::DATA_EDIT_COUNT_LEN;
use crate::caf::reader::{
    next_caf_packet, open_caf, packet_table, rate_ticks, saturating_granule, stated_samples,
    total_size, walk_file, CafReaderModel, DurationModel,
};
use crate::caf::round_trip::after_reads;
use crate::error::Error;
use crate::io::CursorModel;
use crate::math::least;
use crate::ogg::reader::PacketModel;
use crate::packet::lemma_packet_samples_range;

verus! {

/// The bytes of the first `n` packets of a table.
pub open spec fn bytes_before(sizes: Seq<u64>, n: int) -> int
    decreases n,
{
    if n <= 0 {
        0
    } else {
        bytes_before(sizes, n - 1) + sizes[n - 1]
    }
}

impl CafReaderModel {
    /// The `i`th packet: the bytes that the table says are its own.
    pub open spec fn slice(self, i: int) -> Seq<u8> {
        let start = self.source.position;
        self.source.bytes.subrange(
            start + bytes_before(self.sizes, i),
            start + bytes_before(self.sizes, i + 1),
        )
    }

    /// The 48 kHz samples of the first `n` packets.
    pub open spec fn samples_before(self, n: int) -> int
        decreases n,
    {
        if n <= 0 {
            0
        } else {
            self.samples_before(n - 1) + stated_samples(
                self.duration,
                n - 1,
                self.ticks,
                self.slice(n - 1),
            )
        }
    }

    /// The granule that the `i`th packet reports: the samples through it, held
    /// at the largest granule there is, but for the last, which reports where
    /// the audio ends.
    pub open spec fn granule_of(self, i: int) -> int {
        if i == self.sizes.len() - 1 {
            self.final_granule
        } else {
            least(self.samples_before(i + 1), i64::MAX as int)
        }
    }

    /// A reader that has just been opened, after `n` of its packets.
    pub open spec fn past(self, n: int) -> CafReaderModel {
        CafReaderModel {
            source: self.source.at((self.source.position + bytes_before(self.sizes, n)) as nat),
            next: n,
            granule: if n == 0 {
                0
            } else {
                self.granule_of(n - 1)
            },
            ..self
        }
    }
}

/// Sizes only add up.
pub proof fn lemma_bytes_grow(sizes: Seq<u64>, k: int, n: int)
    requires
        0 <= k <= n <= sizes.len(),
    ensures
        0 <= bytes_before(sizes, k) <= bytes_before(sizes, n),
    decreases n,
{
    if k < n {
        lemma_bytes_grow(sizes, k, n - 1);
    } else if n > 0 {
        lemma_bytes_grow(sizes, n - 1, n - 1);
    }
}

/// Packets never take samples back.
proof fn lemma_samples_grow(r: CafReaderModel, n: int)
    requires
        0 <= n,
        1 <= r.ticks,
    ensures
        0 <= r.samples_before(n),
        n > 0 ==> r.samples_before(n - 1) <= r.samples_before(n),
    decreases n,
{
    if n > 0 {
        lemma_samples_grow(r, n - 1);
        lemma_packet_samples_range(r.slice(n - 1));
        match r.duration {
            DurationModel::Constant(frames) => {
                assert(0 <= frames * r.ticks) by (nonlinear_arith)
                    requires
                        0 <= frames,
                        1 <= r.ticks,
                ;
            },
            DurationModel::PerPacket(frames) => {
                let f = frames[n - 1];
                assert(0 <= f * r.ticks) by (nonlinear_arith)
                    requires
                        0 <= f,
                        1 <= r.ticks,
                ;
            },
            DurationModel::FromPacket => {},
        }
    }
}

/// The sum of the sizes is the bytes of all packets.
pub proof fn lemma_total(sizes: Seq<u64>, i: int)
    requires
        0 <= i <= sizes.len(),
        total_size(sizes, i, bytes_before(sizes, i)) is Ok,
    ensures
        total_size(sizes, i, bytes_before(sizes, i)) == Ok::<int, Error>(
            bytes_before(sizes, sizes.len() as int),
        ),
    decreases sizes.len() - i,
{
    if i < sizes.len() {
        lemma_total(sizes, i + 1);
    }
}

/// The first reads of a reader that has just been opened.
proof fn lemma_past(r: CafReaderModel, n: int)
    requires
        r.next == 0,
        r.granule == 0,
        1 <= r.ticks,
        0 <= n <= r.sizes.len(),
        r.source.position + bytes_before(r.sizes, r.sizes.len() as int) <= r.source.bytes.len(),
    ensures
        after_reads(r, n) == r.past(n),
        n < r.sizes.len() ==> next_caf_packet(r.past(n)) == (
            Ok::<Option<PacketModel>, Error>(
                Some(
                    PacketModel {
                        data: r.slice(n),
                        page_granule: r.granule_of(n),
                        end_of_stream: n == r.sizes.len() - 1,
                    },
                ),
            ),
            r.past(n + 1),
        ),
    decreases n,
{
    let count = r.sizes.len() as int;
    if n > 0 {
        lemma_past(r, n - 1);
    } else {
        assert(r.source.at(r.source.position) == r.source);
        assert(r.past(0) == r);
    }
    if n < count {
        lemma_bytes_grow(r.sizes, n, n);
        lemma_bytes_grow(r.sizes, n + 1, count);
        lemma_samples_grow(r, n);
        lemma_samples_grow(r, n + 1);
        let m = r.past(n);
        assert(m.source.ahead(r.sizes[n] as nat) == r.slice(n));
        if n < count - 1 {
            assert(r.granule_of(n) == saturating_granule(
                m.granule,
                stated_samples(r.duration, n, r.ticks, r.slice(n)),
            ));
        }
        assert(next_caf_packet(m).1 == r.past(n + 1));
    }
}

/// The packets of every file that opens are what its table says. As long as the
/// file holds the bytes that the table speaks of, the reads give one slice after
/// the other, each with the samples through it, and the last, which alone ends
/// the stream, with where the audio ends; every later read finds the file over,
/// and the count of packets stays what it was.
pub proof fn law_reads_follow_the_table(source: CursorModel, r: CafReaderModel)
    requires
        open_caf(source) == Ok::<CafReaderModel, Error>(r),
        r.source.position + bytes_before(r.sizes, r.sizes.len() as int) <= r.source.bytes.len(),
    ensures
        ({
            // The slices are the packets of the `data` chunk, all of them.
            let (body, len) = walk_file(source)->Ok_0.data->0;
            &&& r.source == source.at(least(body + DATA_EDIT_COUNT_LEN, u64::MAX as int) as nat)
            &&& bytes_before(r.sizes, r.sizes.len() as int) == len
        }),
        forall|i: int|
            0 <= i < r.sizes.len() ==> (#[trigger] next_caf_packet(after_reads(r, i))).0 == Ok::<
                Option<PacketModel>,
                Error,
            >(
                Some(
                    PacketModel {
                        data: r.slice(i),
                        page_granule: r.granule_of(i),
                        end_of_stream: i == r.sizes.len() - 1,
                    },
                ),
            ),
        forall|k: int|
            r.sizes.len() <= k ==> (#[trigger] next_caf_packet(after_reads(r, k))).0 == Ok::<
                Option<PacketModel>,
                Error,
            >(None),
        forall|k: int| (#[trigger] after_reads(r, k)).sizes == r.sizes,
{
    let n = r.sizes.len() as int;
    let chunks = walk_file(source)->Ok_0;
    let ticks = rate_ticks((chunks.desc->0).sample_rate_bits)->0 as int;
    let table = packet_table(chunks.desc->0, chunks.pakt->0, (chunks.data->0).1, ticks)->Ok_0;
    assert(r.sizes == table.sizes);
    lemma_total(table.sizes, 0);
    assert forall|i: int| 0 <= i < n implies (#[trigger] next_caf_packet(after_reads(r, i))).0
        == Ok::<Option<PacketModel>, Error>(
        Some(
            PacketModel {
                data: r.slice(i),
                page_granule: r.granule_of(i),
                end_of_stream: i == n - 1,
            },
        ),
    ) by {
        lemma_past(r, i);
    }
    assert forall|k: int| n <= k implies (#[trigger] next_caf_packet(after_reads(r, k))).0 == Ok::<
        Option<PacketModel>,
        Error,
    >(None) by {
        lemma_past(r, n);
        lemma_over(r, n, k);
    }
    assert forall|k: int| (#[trigger] after_reads(r, k)).sizes == r.sizes by {
        lemma_table_stays(r, k);
    }
}

/// A file that is over stays over.
proof fn lemma_over(r: CafReaderModel, n: int, k: int)
    requires
        0 <= n <= k,
        after_reads(r, n).next >= after_reads(r, n).sizes.len(),
    ensures
        after_reads(r, k) == after_reads(r, n),
    decreases k,
{
    if n < k {
        lemma_over(r, n, k - 1);
    }
}

/// Reading leaves the table as it is.
proof fn lemma_table_stays(r: CafReaderModel, k: int)
    ensures
        after_reads(r, k).sizes == r.sizes,
    decreases k,
{
    if k > 0 {
        lemma_table_stays(r, k - 1);
    }
}

} // verus!
