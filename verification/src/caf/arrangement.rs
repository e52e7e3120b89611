//! The order of a file's chunks, and the chunks of other kinds between them, make
//! no difference to what is read from it.

use vstd::prelude::*;

use crate::bytes::{be_value, signed64};
use crate::caf::chunk::{
    parse_desc, CHUNK_HEADER_LEN, DATA_EDIT_COUNT_LEN, DESC_LEN, FILE_HEADER_LEN, MAGIC,
    PAKT_HEADER_LEN, SIZE_TO_END, VERSION,
};
use crate::caf::chunk_type;
use crate::caf::reader::{
    lemma_sizes_positive, next_caf_packet, open_caf, open_chunks, packet_table, rate_ticks,
    walk_file, walk_from, CafReaderModel, ChunksModel, MAX_PAKT_LEN,
};
use crate::caf::reading::{bytes_before, lemma_bytes_grow, lemma_total};
use crate::caf::round_trip::after_reads;
use crate::error::Error;
use crate::io::CursorModel;
use crate::math::least;

verus! {

/// A chunk of a file.
#[verifier::ext_equal]
pub struct ChunkModel {
    /// What kind of chunk it is.
    pub kind: Seq<u8>,
    /// The eight bytes that state its size.
    pub stated: Seq<u8>,
    /// The bytes that it has.
    pub body: Seq<u8>,
}

impl ChunkModel {
    /// Its bytes in the file.
    pub open spec fn bytes(self) -> Seq<u8> {
        self.kind + self.stated + self.body
    }

    /// The size that it states.
    pub open spec fn size(self) -> int {
        signed64(be_value(self.stated))
    }

    /// The length that it claims to have.
    pub open spec fn len(self) -> int {
        if self.size() == SIZE_TO_END {
            self.body.len() as int
        } else {
            self.size()
        }
    }

    /// Whether a reader makes something of it.
    pub open spec fn is_known(self) -> bool {
        self.kind == chunk_type::DESC@ || self.kind == chunk_type::PAKT@ || self.kind
            == chunk_type::DATA@
    }

    /// Whether nothing is wrong with it.
    pub open spec fn readable(self) -> bool {
        &&& self.size() >= SIZE_TO_END
        &&& if self.kind == chunk_type::DESC@ {
            self.size() == DESC_LEN && self.body.len() == DESC_LEN && parse_desc(self.body) is Ok
        } else if self.kind == chunk_type::PAKT@ {
            PAKT_HEADER_LEN <= self.size() <= MAX_PAKT_LEN && self.body.len() == self.size()
        } else if self.kind == chunk_type::DATA@ {
            self.len() >= DATA_EDIT_COUNT_LEN
        } else {
            self.size() != SIZE_TO_END
        }
    }
}

/// Some chunks, one after the other.
pub open spec fn list_bytes(l: Seq<ChunkModel>) -> Seq<u8>
    decreases l.len(),
{
    if l.len() == 0 {
        Seq::empty()
    } else {
        l[0].bytes() + list_bytes(l.drop_first())
    }
}

/// Whether chunks can stand one after the other: each but the last has the bytes
/// that it states, and the last one may be cut short, or run to the end.
pub open spec fn placed(l: Seq<ChunkModel>) -> bool {
    forall|i: int|
        0 <= i < l.len() ==> {
            let c = #[trigger] l[i];
            &&& c.kind.len() == 4
            &&& c.stated.len() == 8
            &&& c.size() == c.body.len() || (i == l.len() - 1 && (c.size() == SIZE_TO_END
                || c.body.len() < c.size()))
        }
}

/// Whether nothing is wrong with any of some chunks.
pub open spec fn all_readable(l: Seq<ChunkModel>) -> bool {
    forall|i: int| 0 <= i < l.len() ==> (#[trigger] l[i]).readable()
}

/// What a file of some chunks is made of: the last of each kind that counts.
#[verifier::ext_equal]
pub struct Parts {
    /// The stream's format.
    pub desc: Option<Seq<u8>>,
    /// The packet table.
    pub pakt: Option<Seq<u8>>,
    /// The audio: the length it claims to have, and the bytes that it has.
    pub data: Option<(int, Seq<u8>)>,
}

/// What a chunk adds.
pub open spec fn with_chunk(f: Parts, c: ChunkModel) -> Parts {
    if c.kind == chunk_type::DESC@ {
        Parts { desc: Some(c.body), ..f }
    } else if c.kind == chunk_type::PAKT@ {
        Parts { pakt: Some(c.body), ..f }
    } else if c.kind == chunk_type::DATA@ {
        Parts { data: Some((c.len(), c.body)), ..f }
    } else {
        f
    }
}

/// What some chunks add.
pub open spec fn with_chunks(f: Parts, l: Seq<ChunkModel>) -> Parts
    decreases l.len(),
{
    if l.len() == 0 {
        f
    } else {
        with_chunks(with_chunk(f, l[0]), l.drop_first())
    }
}

/// What a file of some chunks is made of.
pub open spec fn parts_of(l: Seq<ChunkModel>) -> Parts {
    with_chunks(Parts { desc: None, pakt: None, data: None }, l)
}

/// Whether a source stands at a file of some chunks.
pub open spec fn is_file(s: CursorModel, l: Seq<ChunkModel>) -> bool {
    let pos = s.position as int;
    &&& pos + FILE_HEADER_LEN <= s.bytes.len() <= u64::MAX
    &&& s.bytes.subrange(pos, pos + 4) == MAGIC@
    &&& be_value(s.bytes.subrange(pos + 4, pos + 6)) == VERSION
    &&& s.bytes.subrange(pos + FILE_HEADER_LEN, s.bytes.len() as int) == list_bytes(l)
    &&& placed(l)
    &&& all_readable(l)
}

/// Whether a chunk walk has found what chunks are made of.
spec fn agree(file: Seq<u8>, found: ChunksModel, f: Parts) -> bool {
    &&& found.desc is Some <==> f.desc is Some
    &&& f.desc matches Some(d) ==> parse_desc(d) == Ok::<crate::caf::chunk::Desc, Error>(
        found.desc->0,
    )
    &&& found.pakt == f.pakt
    &&& found.data is Some <==> f.data is Some
    &&& f.data matches Some((len, body)) ==> {
        let (at, n) = found.data->0;
        &&& n == len - DATA_EDIT_COUNT_LEN
        &&& 0 <= n
        &&& 0 <= at
        &&& body.len() <= len
        &&& at + body.len() <= file.len()
        &&& file.subrange(at, at + body.len()) == body
        &&& body.len() < len ==> at + body.len() == file.len()
    }
}

/// The first chunk of some, where they stand in a file.
proof fn lemma_first_chunk(file: Seq<u8>, pos: int, l: Seq<ChunkModel>)
    requires
        0 <= pos <= file.len(),
        l.len() > 0,
        placed(l),
        file.subrange(pos, file.len() as int) == list_bytes(l),
    ensures
        ({
            let c = l[0];
            let body = pos + CHUNK_HEADER_LEN;
            let next = body + c.body.len();
            &&& next <= file.len()
            &&& file.subrange(pos, pos + 4) == c.kind
            &&& file.subrange(pos + 4, pos + 12) == c.stated
            &&& file.subrange(body, next) == c.body
            &&& file.subrange(next, file.len() as int) == list_bytes(l.drop_first())
            &&& l.len() == 1 ==> next == file.len()
            &&& placed(l.drop_first())
        }),
{
    let c = l[0];
    let rest = list_bytes(l.drop_first());
    let all = file.subrange(pos, file.len() as int);
    let body = pos + CHUNK_HEADER_LEN;
    let next = body + c.body.len();
    assert(c.kind.len() == 4 && c.stated.len() == 8);
    assert(all == c.kind + c.stated + c.body + rest);
    assert(all.len() == 12 + c.body.len() + rest.len());
    assert forall|i: int| 0 <= i < all.len() implies all[i] == file[pos + i] by {}
    assert(file.subrange(pos, pos + 4) =~= c.kind) by {
        assert forall|i: int| 0 <= i < 4 implies file[pos + i] == c.kind[i] by {
            assert(all[i] == file[pos + i]);
        }
    }
    assert(file.subrange(pos + 4, pos + 12) =~= c.stated) by {
        assert forall|i: int| 0 <= i < 8 implies file[pos + 4 + i] == c.stated[i] by {
            assert(all[4 + i] == file[pos + (4 + i)]);
        }
    }
    assert(file.subrange(body, next) =~= c.body) by {
        assert forall|i: int| 0 <= i < c.body.len() implies file[body + i] == c.body[i] by {
            assert(all[12 + i] == file[pos + (12 + i)]);
        }
    }
    assert(file.subrange(next, file.len() as int) =~= rest) by {
        assert forall|i: int| 0 <= i < rest.len() implies file[next + i] == rest[i] by {
            assert(all[12 + c.body.len() + i] == file[pos + (12 + c.body.len() + i)]);
        }
    }
    let others = l.drop_first();
    assert forall|i: int| 0 <= i < others.len() implies ({
        let c = #[trigger] others[i];
        &&& c.kind.len() == 4
        &&& c.stated.len() == 8
        &&& c.size() == c.body.len() || (i == others.len() - 1 && (c.size() == SIZE_TO_END
            || c.body.len() < c.size()))
    }) by {
        assert(others[i] == l[i + 1]);
    }
}

/// The kinds that count are told apart.
proof fn lemma_kinds_differ()
    ensures
        chunk_type::DATA@ != chunk_type::PAKT@,
        chunk_type::DESC@ != chunk_type::PAKT@,
        chunk_type::DESC@ != chunk_type::DATA@,
{
    assert(chunk_type::DATA@[0] != chunk_type::PAKT@[0]);
    assert(chunk_type::DESC@[0] != chunk_type::PAKT@[0]);
    assert(chunk_type::DESC@[1] != chunk_type::DATA@[1]);
}

/// A chunk walk finds what the chunks are made of.
proof fn lemma_walk(file: Seq<u8>, pos: int, found: ChunksModel, l: Seq<ChunkModel>, f: Parts)
    requires
        0 <= pos <= file.len(),
        placed(l),
        all_readable(l),
        file.subrange(pos, file.len() as int) == list_bytes(l),
        agree(file, found, f),
    ensures
        walk_from(file, pos, found) is Ok,
        agree(file, walk_from(file, pos, found)->Ok_0, with_chunks(f, l)),
    decreases l.len(),
{
    if l.len() == 0 {
        assert(file.subrange(pos, file.len() as int).len() == 0);
    } else {
        lemma_first_chunk(file, pos, l);
        let c = l[0];
        let rest = l.drop_first();
        assert(c.readable());
        assert(all_readable(rest)) by {
            assert forall|i: int| 0 <= i < rest.len() implies (#[trigger] rest[i]).readable() by {
                assert(rest[i] == l[i + 1]);
            }
        }
        let body = pos + CHUNK_HEADER_LEN;
        let next = body + c.body.len();
        let g = with_chunk(f, c);
        // A chunk that is cut short, or runs to the end, is the last.
        if c.size() != c.body.len() {
            assert(l.len() == 1);
            assert(next == file.len());
        }
        let found2 = if c.kind == chunk_type::DESC@ {
            ChunksModel { desc: Some(parse_desc(c.body)->Ok_0), ..found }
        } else if c.kind == chunk_type::PAKT@ {
            ChunksModel { pakt: Some(c.body), ..found }
        } else if c.kind == chunk_type::DATA@ {
            ChunksModel { data: Some((body, c.len() - DATA_EDIT_COUNT_LEN)), ..found }
        } else {
            found
        };
        assert(agree(file, found2, g));
        lemma_walk(file, next, found2, rest, g);
        lemma_kinds_differ();
        assert(file.subrange(pos, pos + 4) == c.kind);
        assert(signed64(be_value(file.subrange(pos + 4, pos + 12))) == c.size());
        if c.kind == chunk_type::DESC@ {
            assert(file.subrange(body, body + DESC_LEN) == c.body);
            assert(walk_from(file, pos, found) == walk_from(file, next, found2));
        } else if c.kind == chunk_type::PAKT@ {
            assert(file.subrange(body, body + c.size()) == c.body);
            assert(walk_from(file, pos, found) == walk_from(file, next, found2));
        } else if c.kind == chunk_type::DATA@ {
            if c.size() == SIZE_TO_END {
                assert(file.len() - body == c.len());
                assert(walk_from(file, pos, found) == Ok::<ChunksModel, Error>(found2));
            } else {
                assert(walk_from(file, pos, found) == walk_from(file, body + c.size(), found2));
            }
        } else {
            assert(walk_from(file, pos, found) == walk_from(file, body + c.size(), found2));
        }
        assert(walk_from(file, pos, found) == walk_from(file, next, found2));
        if next == file.len() {
            assert(list_bytes(rest).len() == 0);
            if rest.len() > 0 {
                assert(rest[0].kind.len() == 4);
                assert(list_bytes(rest).len() >= rest[0].bytes().len());
            }
        }
    }
}

/// The chunks that a file has from `pos` on.
pub open spec fn chunks_from(file: Seq<u8>, pos: int) -> Seq<ChunkModel>
    decreases (if pos < file.len() { file.len() - pos } else { 0 }),
{
    if pos < 0 || pos + CHUNK_HEADER_LEN > file.len() {
        Seq::empty()
    } else {
        let stated = file.subrange(pos + 4, pos + 12);
        let size = signed64(be_value(stated));
        let body = pos + CHUNK_HEADER_LEN;
        let end = if size < 0 {
            file.len() as int
        } else {
            least(body + size, file.len() as int)
        };
        seq![ChunkModel { kind: file.subrange(pos, pos + 4), stated, body: file.subrange(body, end) }]
            + chunks_from(file, end)
    }
}

/// A file whose chunks can be walked is its chunks, and nothing is wrong with any
/// of them.
proof fn lemma_chunks(file: Seq<u8>, pos: int, found: ChunksModel)
    requires
        0 <= pos <= file.len(),
        walk_from(file, pos, found) is Ok,
    ensures
        file.subrange(pos, file.len() as int) == list_bytes(chunks_from(file, pos)),
        placed(chunks_from(file, pos)),
        all_readable(chunks_from(file, pos)),
    decreases file.len() - pos,
{
    let l = chunks_from(file, pos);
    if pos == file.len() {
        assert(file.subrange(pos, file.len() as int) =~= Seq::<u8>::empty());
    } else {
        let kind = file.subrange(pos, pos + 4);
        let stated = file.subrange(pos + 4, pos + 12);
        let size = signed64(be_value(stated));
        let body = pos + CHUNK_HEADER_LEN;
        let end = if size < 0 {
            file.len() as int
        } else {
            least(body + size, file.len() as int)
        };
        let c = ChunkModel { kind, stated, body: file.subrange(body, end) };
        let rest = chunks_from(file, end);
        assert(l == seq![c] + rest);
        // What is found goes on from there, and at the end there is nothing left.
        let found2 = if kind == chunk_type::DESC@ {
            ChunksModel { desc: Some(parse_desc(file.subrange(body, body + DESC_LEN))->Ok_0), ..found }
        } else if kind == chunk_type::PAKT@ {
            ChunksModel { pakt: Some(file.subrange(body, body + size)), ..found }
        } else if kind == chunk_type::DATA@ {
            let len = if size == SIZE_TO_END {
                file.len() - body
            } else {
                size
            };
            ChunksModel { data: Some((body, len - DATA_EDIT_COUNT_LEN)), ..found }
        } else {
            found
        };
        assert(walk_from(file, end, found2) is Ok);
        assert(c.readable());
        lemma_chunks(file, end, found2);
        assert(l.drop_first() =~= rest);
        assert(file.subrange(pos, file.len() as int) =~= c.bytes() + file.subrange(
            end,
            file.len() as int,
        ));
        assert forall|i: int| 0 <= i < l.len() implies ({
            let c = #[trigger] l[i];
            &&& c.kind.len() == 4
            &&& c.stated.len() == 8
            &&& c.size() == c.body.len() || (i == l.len() - 1 && (c.size() == SIZE_TO_END
                || c.body.len() < c.size()))
            &&& c.readable()
        }) by {
            if i > 0 {
                assert(l[i] == rest[i - 1]);
            }
        }
    }
}

/// Every file that opens is its chunks, one after the other, and nothing is wrong
/// with any of them.
pub proof fn law_every_file_is_its_chunks(s: CursorModel)
    requires
        open_caf(s) is Ok,
        s.bytes.len() <= u64::MAX,
    ensures
        is_file(s, chunks_from(s.bytes, s.position + FILE_HEADER_LEN)),
{
    lemma_chunks(
        s.bytes,
        s.position + FILE_HEADER_LEN,
        ChunksModel { desc: None, pakt: None, data: None },
    );
}

/// Whether two sources have the same next `n` bytes, as far as they have them.
spec fn same_ahead(a: CursorModel, b: CursorModel, n: int) -> bool {
    &&& least(n, a.remaining() as int) == least(n, b.remaining() as int)
    &&& forall|i: int|
        0 <= i < least(n, a.remaining() as int) ==> #[trigger] a.bytes[a.position + i]
            == b.bytes[b.position + i]
}

/// Whether two readers will give the same packets.
spec fn alike(a: CafReaderModel, b: CafReaderModel) -> bool {
    &&& b == CafReaderModel { source: b.source, ..a }
    &&& 0 <= a.next <= a.sizes.len()
    &&& forall|i: int| 0 <= i < a.sizes.len() ==> #[trigger] a.sizes[i] > 0
    &&& same_ahead(
        a.source,
        b.source,
        bytes_before(a.sizes, a.sizes.len() as int) - bytes_before(a.sizes, a.next),
    )
}

/// Readers that will give the same packets give the same next one.
proof fn lemma_alike(a: CafReaderModel, b: CafReaderModel)
    requires
        alike(a, b),
    ensures
        next_caf_packet(a).0 == next_caf_packet(b).0,
        alike(next_caf_packet(a).1, next_caf_packet(b).1),
{
    if a.next < a.sizes.len() {
        let total = bytes_before(a.sizes, a.sizes.len() as int);
        let left = total - bytes_before(a.sizes, a.next);
        let size = a.sizes[a.next] as int;
        lemma_bytes_grow(a.sizes, a.next + 1, a.sizes.len() as int);
        assert(size <= left);
        if size <= a.source.remaining() {
            assert(size <= b.source.remaining());
            let data = a.source.ahead(size as nat);
            assert(data =~= b.source.ahead(size as nat)) by {
                assert forall|i: int| 0 <= i < size implies #[trigger] data[i] == b.source.ahead(
                    size as nat,
                )[i] by {
                    assert(a.source.bytes[a.source.position + i] == b.source.bytes[b.source.position
                        + i]);
                }
            }
            let a2 = next_caf_packet(a).1;
            let b2 = next_caf_packet(b).1;
            assert forall|i: int| 0 <= i < least(left - size, a2.source.remaining() as int) implies
                #[trigger] a2.source.bytes[a2.source.position + i] == b2.source.bytes[
                b2.source.position + i] by {
                assert(a.source.bytes[a.source.position + (size + i)] == b.source.bytes[
                b.source.position + (size + i)]);
            }
        }
    }
}

/// They give the same packets all along.
proof fn lemma_alike_reads(a: CafReaderModel, b: CafReaderModel, k: int)
    requires
        alike(a, b),
    ensures
        alike(after_reads(a, k), after_reads(b, k)),
        next_caf_packet(after_reads(a, k)).0 == next_caf_packet(after_reads(b, k)).0,
    decreases k,
{
    if k > 0 {
        lemma_alike_reads(a, b, k - 1);
        lemma_alike(after_reads(a, k - 1), after_reads(b, k - 1));
    }
    lemma_alike(after_reads(a, k), after_reads(b, k));
}

/// What chunks are made of decides what they open to, wherever they stand.
proof fn lemma_opens_alike(s: CursorModel, t: CursorModel, c: ChunksModel, d: ChunksModel, f: Parts)
    requires
        agree(s.bytes, c, f),
        agree(t.bytes, d, f),
        s.bytes.len() <= u64::MAX,
        t.bytes.len() <= u64::MAX,
        open_chunks(s, c) is Ok,
    ensures
        open_chunks(t, d) is Ok,
        alike(open_chunks(s, c)->Ok_0, open_chunks(t, d)->Ok_0),
{
    let r = open_chunks(s, c)->Ok_0;
    let q = open_chunks(t, d)->Ok_0;
    let (len, body) = f.data->0;
    let (at, n) = c.data->0;
    let (to, m) = d.data->0;
    assert(c.desc == d.desc && n == m);
    let ticks = rate_ticks((c.desc->0).sample_rate_bits)->0 as int;
    let table = packet_table(c.desc->0, c.pakt->0, n, ticks)->Ok_0;
    assert(r.sizes == table.sizes);
    lemma_total(table.sizes, 0);
    lemma_sizes_positive(table.sizes, 0, 0);
    assert(bytes_before(r.sizes, r.sizes.len() as int) == n);
    assert(bytes_before(r.sizes, 0) == 0);
    assert forall|i: int| 0 <= i < least(n, r.source.remaining() as int) implies
        #[trigger] r.source.bytes[r.source.position + i] == q.source.bytes[q.source.position + i] by {
        assert(s.bytes.subrange(at, at + body.len())[i + 4] == body[i + 4]);
        assert(t.bytes.subrange(to, to + body.len())[i + 4] == body[i + 4]);
    }
}

/// What is read from a file depends only on what its chunks are made of: the
/// format, the packet table and the audio. Where they stand, in what order, what
/// other chunks stand between them, and whether a last `data` chunk states its
/// size or is left open, makes no difference to the header, the sizes, the
/// granules and the packets.
pub proof fn law_arrangement_does_not_matter(
    s: CursorModel,
    t: CursorModel,
    a: Seq<ChunkModel>,
    b: Seq<ChunkModel>,
)
    requires
        is_file(s, a),
        is_file(t, b),
        parts_of(a) == parts_of(b),
        open_caf(s) is Ok,
    ensures
        ({
            let r = open_caf(s)->Ok_0;
            let q = open_caf(t)->Ok_0;
            &&& open_caf(t) is Ok
            &&& q == (CafReaderModel { source: q.source, ..r })
            &&& forall|k: int|
                (#[trigger] next_caf_packet(after_reads(q, k))).0 == next_caf_packet(
                    after_reads(r, k),
                ).0
        }),
{
    let empty = ChunksModel { desc: None, pakt: None, data: None };
    let none = Parts { desc: None, pakt: None, data: None };
    lemma_walk(s.bytes, s.position + FILE_HEADER_LEN, empty, a, none);
    lemma_walk(t.bytes, t.position + FILE_HEADER_LEN, empty, b, none);
    lemma_opens_alike(s, t, walk_file(s)->Ok_0, walk_file(t)->Ok_0, parts_of(a));
    let r = open_caf(s)->Ok_0;
    let q = open_caf(t)->Ok_0;
    assert forall|k: int|
        (#[trigger] next_caf_packet(after_reads(q, k))).0 == next_caf_packet(after_reads(r, k)).0 by {
        lemma_alike_reads(r, q, k);
    }
}

/// Some chunks and then others.
proof fn lemma_parts_join(f: Parts, a: Seq<ChunkModel>, b: Seq<ChunkModel>)
    ensures
        with_chunks(f, a + b) == with_chunks(with_chunks(f, a), b),
    decreases a.len(),
{
    if a.len() == 0 {
        assert(a + b =~= b);
    } else {
        assert((a + b).drop_first() =~= a.drop_first() + b);
        lemma_parts_join(with_chunk(f, a[0]), a.drop_first(), b);
    }
}

/// One chunk.
proof fn lemma_parts_one(f: Parts, c: ChunkModel)
    ensures
        with_chunks(f, seq![c]) == with_chunk(f, c),
{
    assert(seq![c].drop_first() =~= Seq::empty());
    assert(with_chunks(with_chunk(f, c), seq![c].drop_first()) == with_chunk(f, c));
}

/// A table stays where no other takes its place.
proof fn lemma_table_stays(f: Parts, table: Option<Seq<u8>>, l: Seq<ChunkModel>)
    requires
        forall|i: int| 0 <= i < l.len() ==> (#[trigger] l[i]).kind != chunk_type::PAKT@,
    ensures
        with_chunks(Parts { pakt: table, ..f }, l) == (Parts { pakt: table, ..with_chunks(f, l) }),
    decreases l.len(),
{
    if l.len() > 0 {
        let rest = l.drop_first();
        assert(l[0].kind != chunk_type::PAKT@);
        assert forall|i: int| 0 <= i < rest.len() implies (#[trigger] rest[i]).kind
            != chunk_type::PAKT@ by {
            assert(rest[i] == l[i + 1]);
        }
        assert(with_chunk(Parts { pakt: table, ..f }, l[0]) == Parts {
            pakt: table,
            ..with_chunk(f, l[0])
        });
        lemma_table_stays(with_chunk(f, l[0]), table, rest);
    }
}

/// Chunks of other kinds change nothing: a file reads as it did with one more of
/// them anywhere between its chunks.
pub proof fn law_other_chunks_change_nothing(
    s: CursorModel,
    t: CursorModel,
    before: Seq<ChunkModel>,
    other: ChunkModel,
    after: Seq<ChunkModel>,
)
    requires
        is_file(s, before + after),
        is_file(t, before + seq![other] + after),
        !other.is_known(),
        open_caf(s) is Ok,
    ensures
        ({
            let r = open_caf(s)->Ok_0;
            let q = open_caf(t)->Ok_0;
            &&& open_caf(t) is Ok
            &&& q == (CafReaderModel { source: q.source, ..r })
            &&& forall|k: int|
                (#[trigger] next_caf_packet(after_reads(q, k))).0 == next_caf_packet(
                    after_reads(r, k),
                ).0
        }),
{
    let none = Parts { desc: None, pakt: None, data: None };
    lemma_parts_join(none, before, after);
    lemma_parts_join(none, before + seq![other], after);
    lemma_parts_join(none, before, seq![other]);
    lemma_parts_one(with_chunks(none, before), other);
    law_arrangement_does_not_matter(s, t, before + after, before + seq![other] + after);
}

/// The packet table may come ahead of the audio: a file reads as it did with its
/// table moved there, past whatever stood between them, and with the audio's size
/// stated in another way, such as left open where nothing follows it.
pub proof fn law_table_may_come_first(
    s: CursorModel,
    t: CursorModel,
    before: Seq<ChunkModel>,
    data: ChunkModel,
    between: Seq<ChunkModel>,
    table: ChunkModel,
    after: Seq<ChunkModel>,
    restated: ChunkModel,
)
    requires
        is_file(s, before + seq![data] + between + seq![table] + after),
        is_file(t, before + seq![table] + seq![restated] + between + after),
        data.kind == chunk_type::DATA@,
        restated.kind == chunk_type::DATA@,
        restated.body == data.body,
        restated.len() == data.len(),
        table.kind == chunk_type::PAKT@,
        forall|i: int| 0 <= i < between.len() ==> (#[trigger] between[i]).kind != chunk_type::PAKT@,
        open_caf(s) is Ok,
    ensures
        ({
            let r = open_caf(s)->Ok_0;
            let q = open_caf(t)->Ok_0;
            &&& open_caf(t) is Ok
            &&& q == (CafReaderModel { source: q.source, ..r })
            &&& forall|k: int|
                (#[trigger] next_caf_packet(after_reads(q, k))).0 == next_caf_packet(
                    after_reads(r, k),
                ).0
        }),
{
    let none = Parts { desc: None, pakt: None, data: None };
    let a = before + seq![data] + between + seq![table];
    let b = before + seq![table] + seq![restated] + between;
    let f = with_chunks(none, before);
    // As it was.
    lemma_parts_join(none, before, seq![data]);
    lemma_parts_one(f, data);
    lemma_parts_join(none, before + seq![data], between);
    let g = with_chunks(with_chunk(f, data), between);
    lemma_parts_join(none, before + seq![data] + between, seq![table]);
    lemma_parts_one(g, table);
    lemma_parts_join(none, a, after);
    // As it is now.
    lemma_parts_join(none, before, seq![table]);
    lemma_parts_one(f, table);
    lemma_parts_join(none, before + seq![table], seq![restated]);
    lemma_parts_one(with_chunk(f, table), restated);
    lemma_parts_join(none, before + seq![table] + seq![restated], between);
    lemma_parts_join(none, b, after);
    lemma_kinds_differ();
    lemma_table_stays(with_chunk(f, data), Some(table.body), between);
    assert(with_chunk(with_chunk(f, table), restated) == Parts {
        pakt: Some(table.body),
        ..with_chunk(f, data)
    });
    law_arrangement_does_not_matter(s, t, a + after, b + after);
}

} // verus!
