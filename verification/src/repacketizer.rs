//! Putting frames together into packets.

use vstd::prelude::*;

use crate::bytes::push_all;
use crate::error::Error;
use crate::framing::{
    constant_table, contents, cut, equal_sizes, frame_table, lemma_equal_sum, lemma_size_round_trip,
    packable, parse_packet, plain_toc, read_padding, read_sizes, size_bytes, size_sum, split_frames,
    variable_table, FrameTable, PacketFrames, MAX_FRAME_BYTES, MAX_SAMPLES,
};
use crate::toc::{config_samples, frame_samples_from_toc, toc_config};

verus! {

/// The first `n` frames, one after the other.
pub open spec fn joined(frames: Seq<Seq<u8>>, n: int) -> Seq<u8>
    decreases n,
{
    if n <= 0 {
        Seq::empty()
    } else {
        joined(frames, n - 1) + frames[n - 1]
    }
}

/// The length fields of the first `n` frames.
pub open spec fn length_fields(frames: Seq<Seq<u8>>, n: int) -> Seq<u8>
    decreases n,
{
    if n <= 0 {
        Seq::empty()
    } else {
        length_fields(frames, n - 1) + size_bytes(frames[n - 1].len() as int)
    }
}

/// Whether all frames are equally long.
pub open spec fn equally_long(frames: Seq<Seq<u8>>) -> bool {
    forall|i: int| 0 <= i < frames.len() ==> (#[trigger] frames[i]).len() == frames[0].len()
}

/// The length field that self-delimiting adds.
pub open spec fn delimiter(frames: Seq<Seq<u8>>, self_delimited: bool) -> Seq<u8> {
    if self_delimited {
        size_bytes(frames.last().len() as int)
    } else {
        Seq::empty()
    }
}

/// The length bytes of `n` bytes of padding, those bytes counted in: a 255
/// stands for 254 further ones and demands another length byte.
pub open spec fn padding_lengths(n: int) -> Seq<u8> {
    let full = (n - 1) / 255;
    Seq::new(full as nat, |i: int| 255u8).push((n - 255 * full - 1) as u8)
}

/// A packet that says how many frames it has, with `padding` bytes to spare.
pub open spec fn counted_packet(
    toc: u8,
    frames: Seq<Seq<u8>>,
    self_delimited: bool,
    padding: int,
) -> Seq<u8> {
    let n = frames.len() as int;
    let vbr = !equally_long(frames);
    let count = n + (if vbr {
        128int
    } else {
        0
    }) + (if padding > 0 {
        64int
    } else {
        0
    });
    let lengths = if padding > 0 {
        padding_lengths(padding)
    } else {
        Seq::empty()
    };
    let spare = if padding > 0 {
        Seq::new((padding - lengths.len()) as nat, |i: int| 0u8)
    } else {
        Seq::empty()
    };
    let sizes = if vbr {
        length_fields(frames, n - 1)
    } else {
        Seq::empty()
    };
    seq![(toc + 3) as u8, count as u8] + lengths + sizes + delimiter(frames, self_delimited)
        + joined(frames, n) + spare
}

/// The shortest packet that holds the frames.
pub open spec fn shortest_packet(toc: u8, frames: Seq<Seq<u8>>, self_delimited: bool) -> Seq<u8> {
    let n = frames.len() as int;
    let tail = delimiter(frames, self_delimited) + joined(frames, n);
    if n == 1 {
        seq![toc] + tail
    } else if n == 2 && equally_long(frames) {
        seq![(toc + 1) as u8] + tail
    } else if n == 2 {
        seq![(toc + 2) as u8] + size_bytes(frames[0].len() as int) + tail
    } else {
        counted_packet(toc, frames, self_delimited, 0)
    }
}

/// The packet that holds the frames in exactly `total` bytes.
pub open spec fn padded_packet(toc: u8, frames: Seq<Seq<u8>>, self_delimited: bool, total: int)
    -> Seq<u8> {
    let shortest = shortest_packet(toc, frames, self_delimited);
    if total <= shortest.len() {
        shortest
    } else {
        counted_packet(
            toc,
            frames,
            self_delimited,
            total - counted_packet(toc, frames, self_delimited, 0).len(),
        )
    }
}

/// The lengths of some frames.
pub open spec fn lengths_of(frames: Seq<Seq<u8>>) -> Seq<int> {
    Seq::new(frames.len(), |i: int| frames[i].len() as int)
}

/// The frames' lengths add up to their bytes.
pub proof fn lemma_joined_len(frames: Seq<Seq<u8>>, n: int)
    requires
        0 <= n <= frames.len(),
    ensures
        joined(frames, n).len() == size_sum(lengths_of(frames), n),
    decreases n,
{
    if n > 0 {
        lemma_joined_len(frames, n - 1);
    }
}

/// Joined frames start with the first of them.
proof fn lemma_joined_prefix(frames: Seq<Seq<u8>>, k: int, n: int)
    requires
        0 <= k <= n <= frames.len(),
    ensures
        joined(frames, k).len() <= joined(frames, n).len(),
        joined(frames, n).subrange(0, joined(frames, k).len() as int) == joined(frames, k),
    decreases n,
{
    let part = joined(frames, k);
    if k == n {
        assert(joined(frames, n).subrange(0, part.len() as int) =~= part);
    } else {
        lemma_joined_prefix(frames, k, n - 1);
        assert(joined(frames, n).subrange(0, part.len() as int) =~= joined(
            frames,
            n - 1,
        ).subrange(0, part.len() as int));
    }
}

/// Cutting where the frames were joined gives them back.
proof fn lemma_cut_joined(data: Seq<u8>, pos: int, frames: Seq<Seq<u8>>, n: int)
    requires
        0 <= n <= frames.len(),
        0 <= pos,
        pos + joined(frames, frames.len() as int).len() <= data.len(),
        data.subrange(pos, pos + joined(frames, frames.len() as int).len()) == joined(
            frames,
            frames.len() as int,
        ),
    ensures
        cut(data, pos, lengths_of(frames), n) == frames.subrange(0, n),
    decreases n,
{
    if n == 0 {
        assert(frames.subrange(0, 0) =~= Seq::empty());
    } else {
        lemma_cut_joined(data, pos, frames, n - 1);
        let all = joined(frames, frames.len() as int);
        lemma_joined_len(frames, n - 1);
        lemma_joined_prefix(frames, n, frames.len() as int);
        let at = size_sum(lengths_of(frames), n - 1);
        let upto = joined(frames, n);
        assert(upto == joined(frames, n - 1) + frames[n - 1]);
        let piece = data.subrange(pos + at, pos + at + frames[n - 1].len());
        assert(piece =~= frames[n - 1]) by {
            assert forall|k: int| 0 <= k < frames[n - 1].len() implies piece[k] == frames[n
                - 1][k] by {
                assert(all.subrange(0, upto.len() as int)[at + k] == upto[at + k]);
                assert(data.subrange(pos, pos + all.len())[at + k] == all[at + k]);
            }
        }
        assert(frames.subrange(0, n - 1).push(frames[n - 1]) =~= frames.subrange(0, n));
    }
}

/// Length fields read back.
proof fn lemma_fields_read(data: Seq<u8>, pos: int, frames: Seq<Seq<u8>>, n: int)
    requires
        0 <= n <= frames.len(),
        0 <= pos,
        forall|i: int| 0 <= i < frames.len() ==> (#[trigger] frames[i]).len() <= MAX_FRAME_BYTES,
        pos + length_fields(frames, n).len() <= data.len(),
        data.subrange(pos, pos + length_fields(frames, n).len()) == length_fields(frames, n),
    ensures
        read_sizes(data, pos, n) == Some(
            (lengths_of(frames).subrange(0, n), pos + length_fields(frames, n).len() as int),
        ),
    decreases n,
{
    let sizes = lengths_of(frames);
    if n == 0 {
        assert(sizes.subrange(0, 0) =~= Seq::empty());
    } else {
        let before = length_fields(frames, n - 1);
        let here = size_bytes(frames[n - 1].len() as int);
        let all = length_fields(frames, n);
        let whole = data.subrange(pos, pos + all.len());
        assert(data.subrange(pos, pos + before.len()) =~= whole.subrange(0, before.len() as int));
        assert(all.subrange(0, before.len() as int) =~= before);
        lemma_fields_read(data, pos, frames, n - 1);
        let at = pos + before.len();
        assert(data.subrange(at, at + here.len()) =~= whole.subrange(
            before.len() as int,
            all.len() as int,
        ));
        assert(all.subrange(before.len() as int, all.len() as int) =~= here);
        lemma_size_round_trip(data, at, frames[n - 1].len() as int);
        assert(sizes.subrange(0, n - 1).push(sizes[n - 1]) =~= sizes.subrange(0, n));
    }
}

/// What some of the lengths add up to does not depend on the others.
proof fn lemma_sum_of_first(sizes: Seq<int>, k: int, n: int)
    requires
        0 <= n <= k <= sizes.len(),
    ensures
        size_sum(sizes.subrange(0, k), n) == size_sum(sizes, n),
    decreases n,
{
    if n > 0 {
        lemma_sum_of_first(sizes, k, n - 1);
    }
}

/// Padding lengths read back.
proof fn lemma_padding_reads(data: Seq<u8>, pos: int, n: int, k: int)
    requires
        n > 0,
        0 <= pos,
        0 <= k <= (n - 1) / 255,
        pos + padding_lengths(n).len() <= data.len(),
        data.subrange(pos, pos + padding_lengths(n).len()) == padding_lengths(n),
    ensures
        read_padding(data, pos + k, 254 * k) == Some(
            (n - padding_lengths(n).len() as int, pos + padding_lengths(n).len() as int),
        ),
    decreases (n - 1) / 255 - k,
{
    let full = (n - 1) / 255;
    let s = data.subrange(pos, pos + padding_lengths(n).len());
    assert(data[pos + k] == s[k]);
    assert(0 <= n - 255 * full - 1 < 255);
    if k < full {
        lemma_padding_reads(data, pos, n, k + 1);
    }
}

/// Whether `part` stands in `data` at `pos`.
spec fn holds(data: Seq<u8>, pos: int, part: Seq<u8>) -> bool {
    &&& 0 <= pos
    &&& pos + part.len() <= data.len()
    &&& data.subrange(pos, pos + part.len()) == part
}

/// A part of a part stands where it should.
proof fn lemma_holds_part(data: Seq<u8>, pos: int, a: Seq<u8>, b: Seq<u8>)
    requires
        holds(data, pos, a + b),
    ensures
        holds(data, pos, a),
        holds(data, pos + a.len(), b),
{
    let whole = data.subrange(pos, pos + (a + b).len());
    assert(data.subrange(pos, pos + a.len()) =~= whole.subrange(0, a.len() as int));
    assert(data.subrange(pos + a.len(), pos + a.len() + b.len()) =~= whole.subrange(
        a.len() as int,
        (a + b).len() as int,
    ));
    assert((a + b).subrange(0, a.len() as int) =~= a);
    assert((a + b).subrange(a.len() as int, (a + b).len() as int) =~= b);
}

/// What stands ahead of `end` also stands there without what comes after.
proof fn lemma_holds_within(data: Seq<u8>, pos: int, part: Seq<u8>, end: int)
    requires
        holds(data, pos, part),
        pos + part.len() <= end <= data.len(),
    ensures
        holds(data.subrange(0, end), pos, part),
{
    assert(data.subrange(0, end).subrange(pos, pos + part.len()) =~= data.subrange(
        pos,
        pos + part.len(),
    ));
}

/// Equally long frames need no length fields.
proof fn lemma_constant(
    data: Seq<u8>,
    at: int,
    end: int,
    frames: Seq<Seq<u8>>,
    padding: int,
    self_delimited: bool,
)
    requires
        1 <= frames.len(),
        equally_long(frames),
        frames[0].len() <= MAX_FRAME_BYTES,
        holds(
            data,
            at,
            delimiter(frames, self_delimited) + joined(frames, frames.len() as int),
        ),
        ({
            let stop = at + delimiter(frames, self_delimited).len() + joined(
                frames,
                frames.len() as int,
            ).len();
            stop <= end <= data.len() && (!self_delimited ==> stop == end)
        }),
    ensures
        constant_table(data, at, end, frames.len() as int, padding, self_delimited) == Some(
            FrameTable {
                sizes: lengths_of(frames),
                start: at + delimiter(frames, self_delimited).len(),
                padding,
            },
        ),
{
    let n = frames.len() as int;
    let size = frames[0].len() as int;
    let d = delimiter(frames, self_delimited);
    let all = joined(frames, n);
    lemma_joined_len(frames, n);
    assert forall|i: int| 0 <= i < n implies lengths_of(frames)[i] == size by {
        assert(frames[i].len() == frames[0].len());
    }
    assert(lengths_of(frames) =~= equal_sizes(size, n));
    lemma_equal_sum(size, n, n);
    lemma_holds_part(data, at, d, all);
    if self_delimited {
        assert(frames.last().len() == frames[0].len());
        lemma_holds_within(data, at, d, end);
        lemma_size_round_trip(data.subrange(0, end), at, size);
    } else {
        assert((size * n) / n == size) by (nonlinear_arith)
            requires
                n >= 1,
        ;
    }
}

/// Frames of different lengths have length fields.
proof fn lemma_variable(
    data: Seq<u8>,
    at: int,
    end: int,
    frames: Seq<Seq<u8>>,
    padding: int,
    self_delimited: bool,
)
    requires
        1 <= frames.len(),
        forall|i: int| 0 <= i < frames.len() ==> (#[trigger] frames[i]).len() <= MAX_FRAME_BYTES,
        holds(
            data,
            at,
            length_fields(frames, frames.len() - 1) + (delimiter(frames, self_delimited) + joined(
                frames,
                frames.len() as int,
            )),
        ),
        ({
            let stop = at + length_fields(frames, frames.len() - 1).len() + delimiter(
                frames,
                self_delimited,
            ).len() + joined(frames, frames.len() as int).len();
            stop <= end <= data.len() && (!self_delimited ==> stop == end)
        }),
    ensures
        variable_table(data, at, end, frames.len() as int, padding, self_delimited) == Some(
            FrameTable {
                sizes: lengths_of(frames),
                start: at + length_fields(frames, frames.len() - 1).len() + delimiter(
                    frames,
                    self_delimited,
                ).len(),
                padding,
            },
        ),
{
    let n = frames.len() as int;
    let fields = length_fields(frames, n - 1);
    let d = delimiter(frames, self_delimited);
    let all = joined(frames, n);
    let sizes = lengths_of(frames);
    let within = data.subrange(0, end);
    lemma_holds_part(data, at, fields, d + all);
    lemma_holds_part(data, at + fields.len(), d, all);
    lemma_holds_within(data, at, fields, end);
    lemma_fields_read(within, at, frames, n - 1);
    lemma_joined_len(frames, n);
    lemma_sum_of_first(sizes, n - 1, n - 1);
    let last = frames.last().len() as int;
    assert(last == sizes[n - 1]);
    assert(size_sum(sizes, n) == size_sum(sizes, n - 1) + last);
    assert(sizes.subrange(0, n - 1).push(last) =~= sizes);
    assert(frames[n - 1].len() <= MAX_FRAME_BYTES);
    if self_delimited {
        lemma_holds_within(data, at + fields.len(), d, end);
        lemma_size_round_trip(within, at + fields.len(), last);
    }
}

/// What a frame table reads back as.
proof fn lemma_table_frames(data: Seq<u8>, frames: Seq<Seq<u8>>, start: int, padding: int)
    requires
        holds(data, start, joined(frames, frames.len() as int)),
    ensures
        cut(data, start, lengths_of(frames), frames.len() as int) == frames,
        start + size_sum(lengths_of(frames), frames.len() as int) == start + joined(
            frames,
            frames.len() as int,
        ).len(),
{
    let n = frames.len() as int;
    lemma_cut_joined(data, start, frames, n);
    assert(frames.subrange(0, n) =~= frames);
    lemma_joined_len(frames, n);
}

/// Where the parts of a packet are.
proof fn lemma_parts(
    head: Seq<u8>,
    lengths: Seq<u8>,
    sizes: Seq<u8>,
    d: Seq<u8>,
    all: Seq<u8>,
    spare: Seq<u8>,
    rest: Seq<u8>,
)
    ensures
        ({
            let packet = head + lengths + sizes + d + all + spare;
            let data = packet + rest;
            let at = (head.len() + lengths.len()) as int;
            &&& packet.len() == at + sizes.len() + d.len() + all.len() + spare.len()
            &&& forall|i: int| 0 <= i < head.len() ==> data[i] == head[i]
            &&& holds(data, head.len() as int, lengths)
            &&& holds(data, at, sizes + (d + all))
        }),
{
    let packet = head + lengths + sizes + d + all + spare;
    let data = packet + rest;
    let at = (head.len() + lengths.len()) as int;
    assert(data.subrange(head.len() as int, at) =~= lengths);
    assert(data.subrange(at, at + (sizes + (d + all)).len()) =~= sizes + (d + all));
}

/// The frame table of data that starts with a packet that says how many frames
/// it has.
proof fn lemma_counted_table(
    data: Seq<u8>,
    toc: u8,
    frames: Seq<Seq<u8>>,
    self_delimited: bool,
    at: int,
    spare: int,
    count: int,
)
    requires
        packable(toc, frames),
        2 <= at,
        0 <= spare,
        data.len() >= 2,
        data[0] == (toc + 3) as u8,
        data[1] == count,
        count % 64 == frames.len(),
        (count >= 128) == !equally_long(frames),
        (if (count / 64) % 2 == 1 {
            read_padding(data, 2, 0) == Some((spare, at))
        } else {
            at == 2 && spare == 0
        }),
        holds(
            data,
            at,
            (if equally_long(frames) {
                Seq::empty()
            } else {
                length_fields(frames, frames.len() - 1)
            }) + (delimiter(frames, self_delimited) + joined(frames, frames.len() as int)),
        ),
        ({
            let stop = at + (if equally_long(frames) {
                0
            } else {
                length_fields(frames, frames.len() - 1).len()
            }) + delimiter(frames, self_delimited).len() + joined(
                frames,
                frames.len() as int,
            ).len() + spare;
            stop <= data.len() && (!self_delimited ==> stop == data.len())
        }),
    ensures
        frame_table(data, self_delimited) == Some(
            FrameTable {
                sizes: lengths_of(frames),
                start: at + (if equally_long(frames) {
                    0
                } else {
                    length_fields(frames, frames.len() - 1).len()
                }) + delimiter(frames, self_delimited).len(),
                padding: spare,
            },
        ),
{
    reveal(frame_table);
    let n = frames.len() as int;
    let end = data.len() - spare;
    let tail = delimiter(frames, self_delimited) + joined(frames, n);
    assert(data[0] % 4 == 3);
    assert(toc_config(data[0]) == toc_config(toc));
    assert(at + spare <= data.len());
    if equally_long(frames) {
        assert(Seq::<u8>::empty() + tail =~= tail);
        assert(frames[0].len() <= MAX_FRAME_BYTES);
        lemma_constant(data, at, end, frames, spare, self_delimited);
    } else {
        lemma_variable(data, at, end, frames, spare, self_delimited);
    }
}

/// Data with this frame table reads back as these frames.
proof fn lemma_reads(
    data: Seq<u8>,
    toc: u8,
    frames: Seq<Seq<u8>>,
    self_delimited: bool,
    start: int,
    spare: int,
)
    requires
        data.len() > 0,
        plain_toc(data[0]) == toc,
        holds(data, start, joined(frames, frames.len() as int)),
        frame_table(data, self_delimited) == Some(
            FrameTable { sizes: lengths_of(frames), start, padding: spare },
        ),
    ensures
        parse_packet(data, self_delimited) == Some(
            PacketFrames {
                toc,
                frames,
                consumed: start + joined(frames, frames.len() as int).len() + spare,
            },
        ),
{
    lemma_table_frames(data, frames, start, spare);
}

/// Data that starts with a packet that says how many frames it has reads back.
proof fn lemma_counted_data(
    data: Seq<u8>,
    toc: u8,
    frames: Seq<Seq<u8>>,
    self_delimited: bool,
    padding: int,
    lengths: Seq<u8>,
    sizes: Seq<u8>,
    spare: int,
    count: int,
)
    requires
        packable(toc, frames),
        padding >= 0,
        count == frames.len() + (if equally_long(frames) {
            0int
        } else {
            128
        }) + (if padding > 0 {
            64int
        } else {
            0
        }),
        if padding > 0 {
            lengths == padding_lengths(padding) && spare == padding - lengths.len()
        } else {
            lengths.len() == 0 && spare == 0
        },
        spare >= 0,
        sizes == (if equally_long(frames) {
            Seq::empty()
        } else {
            length_fields(frames, frames.len() - 1)
        }),
        data.len() >= 2,
        data[0] == (toc + 3) as u8,
        data[1] == count as u8,
        holds(data, 2, lengths),
        holds(
            data,
            2 + lengths.len() as int,
            sizes + (delimiter(frames, self_delimited) + joined(frames, frames.len() as int)),
        ),
        ({
            let stop = 2 + lengths.len() + sizes.len() + delimiter(frames, self_delimited).len()
                + joined(frames, frames.len() as int).len() + spare;
            stop <= data.len() && (!self_delimited ==> stop == data.len())
        }),
    ensures
        parse_packet(data, self_delimited) == Some(
            PacketFrames {
                toc,
                frames,
                consumed: 2 + lengths.len() + sizes.len() + delimiter(frames, self_delimited).len()
                    + joined(frames, frames.len() as int).len() + spare,
            },
        ),
{
    let at = 2 + lengths.len() as int;
    let d = delimiter(frames, self_delimited);
    let all = joined(frames, frames.len() as int);
    if padding > 0 {
        lemma_padding_reads(data, 2, padding, 0);
    }
    lemma_counted_table(data, toc, frames, self_delimited, at, spare, count);
    lemma_holds_part(data, at, sizes, d + all);
    lemma_holds_part(data, at + sizes.len(), d, all);
    lemma_reads(data, toc, frames, self_delimited, at + sizes.len() + d.len(), spare);
}

/// A packet that says how many frames it has reads back, with anything after it
/// when it is self-delimited.
proof fn lemma_counted_reads(
    toc: u8,
    frames: Seq<Seq<u8>>,
    self_delimited: bool,
    padding: int,
    rest: Seq<u8>,
)
    requires
        packable(toc, frames),
        padding >= 0,
        self_delimited || rest.len() == 0,
    ensures
        ({
            let packet = counted_packet(toc, frames, self_delimited, padding);
            parse_packet(packet + rest, self_delimited) == Some(
                PacketFrames { toc, frames, consumed: packet.len() as int },
            )
        }),
{
    let n = frames.len() as int;
    let data = counted_packet(toc, frames, self_delimited, padding) + rest;
    let vbr = !equally_long(frames);
    let count = n + (if vbr {
        128int
    } else {
        0
    }) + (if padding > 0 {
        64int
    } else {
        0
    });
    let lengths = if padding > 0 {
        padding_lengths(padding)
    } else {
        Seq::empty()
    };
    let sizes = if vbr {
        length_fields(frames, n - 1)
    } else {
        Seq::empty()
    };
    let d = delimiter(frames, self_delimited);
    let all = joined(frames, n);
    let spare = if padding > 0 {
        Seq::new((padding - lengths.len()) as nat, |i: int| 0u8)
    } else {
        Seq::empty()
    };
    if padding > 0 {
        assert(0 <= (padding - 1) / 255 <= padding - 1);
    }
    let head = seq![(toc + 3) as u8, count as u8];
    lemma_parts(head, lengths, sizes, d, all, spare, rest);
    assert(data[0] == head[0] && data[1] == head[1]);
    lemma_counted_data(
        data,
        toc,
        frames,
        self_delimited,
        padding,
        lengths,
        sizes,
        spare.len() as int,
        count,
    );
}

/// Data that starts with a packet of one frame or two reads back.
proof fn lemma_short_data(
    data: Seq<u8>,
    toc: u8,
    frames: Seq<Seq<u8>>,
    self_delimited: bool,
    sizes: Seq<u8>,
    code: int,
)
    requires
        packable(toc, frames),
        frames.len() <= 2,
        code == (if frames.len() == 1 {
            0int
        } else if equally_long(frames) {
            1
        } else {
            2
        }),
        sizes == (if code == 2 {
            length_fields(frames, 1)
        } else {
            Seq::empty()
        }),
        data.len() >= 1,
        data[0] == (toc + code) as u8,
        holds(
            data,
            1,
            sizes + (delimiter(frames, self_delimited) + joined(frames, frames.len() as int)),
        ),
        ({
            let stop = 1 + sizes.len() + delimiter(frames, self_delimited).len() + joined(
                frames,
                frames.len() as int,
            ).len();
            stop <= data.len() && (!self_delimited ==> stop == data.len())
        }),
    ensures
        parse_packet(data, self_delimited) == Some(
            PacketFrames {
                toc,
                frames,
                consumed: 1int + sizes.len() + delimiter(frames, self_delimited).len() + joined(
                    frames,
                    frames.len() as int,
                ).len(),
            },
        ),
{
    let d = delimiter(frames, self_delimited);
    let all = joined(frames, frames.len() as int);
    let end = data.len() as int;
    assert(data[0] % 4 == code);
    assert(plain_toc(data[0]) == toc);
    lemma_holds_part(data, 1, sizes, d + all);
    lemma_holds_part(data, 1int + sizes.len(), d, all);
    assert(frame_table(data, self_delimited) == Some(
        FrameTable { sizes: lengths_of(frames), start: 1int + sizes.len() + d.len(), padding: 0 },
    )) by {
        reveal(frame_table);
        if code == 2 {
            lemma_variable(data, 1, end, frames, 0, self_delimited);
        } else {
            assert(sizes + (d + all) =~= d + all);
            assert(equally_long(frames));
            assert(frames[0].len() <= MAX_FRAME_BYTES);
            lemma_constant(data, 1, end, frames, 0, self_delimited);
        }
    }
    lemma_reads(data, toc, frames, self_delimited, 1int + sizes.len() + d.len(), 0);
}

/// The shortest packet reads back, with anything after it when it is
/// self-delimited.
proof fn lemma_shortest_reads(
    toc: u8,
    frames: Seq<Seq<u8>>,
    self_delimited: bool,
    rest: Seq<u8>,
)
    requires
        packable(toc, frames),
        self_delimited || rest.len() == 0,
    ensures
        ({
            let packet = shortest_packet(toc, frames, self_delimited);
            parse_packet(packet + rest, self_delimited) == Some(
                PacketFrames { toc, frames, consumed: packet.len() as int },
            )
        }),
{
    let n = frames.len() as int;
    if n > 2 {
        lemma_counted_reads(toc, frames, self_delimited, 0, rest);
    } else {
        let d = delimiter(frames, self_delimited);
        let all = joined(frames, n);
        let none = Seq::<u8>::empty();
        let packet = shortest_packet(toc, frames, self_delimited);
        let data = packet + rest;
        let code = if n == 1 {
            0int
        } else if equally_long(frames) {
            1
        } else {
            2
        };
        let sizes = if code == 2 {
            length_fields(frames, 1)
        } else {
            none
        };
        if code == 2 {
            assert(length_fields(frames, 0) =~= none);
            assert(sizes =~= size_bytes(frames[0].len() as int));
        }
        let head = seq![(toc + code) as u8];
        assert(packet =~= head + none + sizes + d + all + none);
        lemma_parts(head, none, sizes, d, all, none, rest);
        assert(data[0] == head[0]);
        lemma_short_data(data, toc, frames, self_delimited, sizes, code);
    }
}

/// Frames put together into a packet come apart again, padded or not. A
/// self-delimited packet ends where it should whatever follows it.
pub proof fn law_packet_round_trip(
    toc: u8,
    frames: Seq<Seq<u8>>,
    self_delimited: bool,
    total: int,
    rest: Seq<u8>,
)
    requires
        packable(toc, frames),
        self_delimited || rest.len() == 0,
    ensures
        ({
            let packet = padded_packet(toc, frames, self_delimited, total);
            &&& parse_packet(packet + rest, self_delimited) == Some(
                PacketFrames { toc, frames, consumed: packet.len() as int },
            )
            &&& packet.len() == (if total > shortest_packet(toc, frames, self_delimited).len() {
                total
            } else {
                shortest_packet(toc, frames, self_delimited).len() as int
            })
        }),
{
    let shortest = shortest_packet(toc, frames, self_delimited);
    if total <= shortest.len() {
        lemma_shortest_reads(toc, frames, self_delimited, rest);
    } else {
        let bare = counted_packet(toc, frames, self_delimited, 0);
        lemma_counted_len(toc, frames, self_delimited, total - bare.len());
        lemma_counted_reads(toc, frames, self_delimited, total - bare.len(), rest);
    }
}

/// Saying how many frames there are costs one byte more than not saying it, and
/// padding makes up any difference.
proof fn lemma_counted_len(toc: u8, frames: Seq<Seq<u8>>, self_delimited: bool, padding: int)
    requires
        1 <= frames.len(),
    ensures
        padding >= 0 ==> counted_packet(toc, frames, self_delimited, padding).len()
            == counted_packet(toc, frames, self_delimited, 0).len() + padding,
        counted_packet(toc, frames, self_delimited, 0).len() <= shortest_packet(
            toc,
            frames,
            self_delimited,
        ).len() + 1,
        counted_packet(toc, frames, self_delimited, 0).len() >= shortest_packet(
            toc,
            frames,
            self_delimited,
        ).len(),
{
    let n = frames.len() as int;
    if padding > 0 {
        assert(0 <= (padding - 1) / 255 <= padding - 1);
    }
    if n == 1 {
        assert(equally_long(frames));
    } else if n == 2 && !equally_long(frames) {
        assert(length_fields(frames, 0) =~= Seq::empty());
        assert(length_fields(frames, 1) =~= size_bytes(frames[0].len() as int));
    }
}

/// Append a frame length.
fn push_size(out: &mut Vec<u8>, n: usize)
    requires
        n <= MAX_FRAME_BYTES,
    ensures
        final(out)@ == old(out)@ + size_bytes(n as int),
{
    if n < 252 {
        out.push(n as u8);
    } else {
        out.push((252 + n % 4) as u8);
        out.push(((n - 252 - n % 4) / 4) as u8);
    }
    assert(out@ =~= old(out)@ + size_bytes(n as int));
}

/// Append the length fields of the first `n` frames.
fn push_lengths(out: &mut Vec<u8>, frames: &[Vec<u8>], n: usize)
    requires
        n <= frames@.len(),
        forall|i: int|
            0 <= i < frames@.len() ==> (#[trigger] contents(frames@)[i]).len() <= MAX_FRAME_BYTES,
    ensures
        final(out)@ == old(out)@ + length_fields(contents(frames@), n as int),
{
    let mut i: usize = 0;
    assert(out@ =~= old(out)@ + length_fields(contents(frames@), 0));
    while i < n
        invariant
            i <= n <= frames@.len(),
            forall|k: int|
                0 <= k < frames@.len() ==> (#[trigger] contents(frames@)[k]).len()
                    <= MAX_FRAME_BYTES,
            out@ == old(out)@ + length_fields(contents(frames@), i as int),
        decreases n - i,
    {
        assert(contents(frames@)[i as int] == frames@[i as int]@);
        push_size(out, frames[i].len());
        i = i + 1;
        assert(out@ =~= old(out)@ + length_fields(contents(frames@), i as int));
    }
}

/// Append the frames.
fn push_frames(out: &mut Vec<u8>, frames: &[Vec<u8>])
    ensures
        final(out)@ == old(out)@ + joined(contents(frames@), frames@.len() as int),
{
    let mut i: usize = 0;
    assert(out@ =~= old(out)@ + joined(contents(frames@), 0));
    while i < frames.len()
        invariant
            i <= frames@.len(),
            out@ == old(out)@ + joined(contents(frames@), i as int),
        decreases frames@.len() - i,
    {
        assert(contents(frames@)[i as int] == frames@[i as int]@);
        push_all(out, &frames[i]);
        i = i + 1;
        assert(out@ =~= old(out)@ + joined(contents(frames@), i as int));
    }
}

/// Whether all frames are equally long.
fn same_lengths(frames: &[Vec<u8>]) -> (yes: bool)
    ensures
        yes == equally_long(contents(frames@)),
{
    let ghost c = contents(frames@);
    let mut i: usize = 0;
    while i < frames.len()
        invariant
            i <= frames@.len(),
            c == contents(frames@),
            forall|k: int| 0 <= k < i ==> (#[trigger] c[k]).len() == c[0].len(),
        decreases frames@.len() - i,
    {
        assert(c[i as int] == frames@[i as int]@);
        assert(c[0] == frames@[0]@);
        if frames[i].len() != frames[0].len() {
            assert(c[i as int].len() != c[0].len());
            return false;
        }
        i = i + 1;
    }
    true
}

/// Append some equal bytes.
pub fn push_repeated(out: &mut Vec<u8>, b: u8, n: usize)
    ensures
        final(out)@ == old(out)@ + Seq::new(n as nat, |i: int| b),
{
    let mut i: usize = 0;
    assert(out@ =~= old(out)@ + Seq::new(0, |k: int| b));
    while i < n
        invariant
            i <= n,
            out@ == old(out)@ + Seq::new(i as nat, |k: int| b),
        decreases n - i,
    {
        out.push(b);
        i = i + 1;
        assert(out@ =~= old(out)@ + Seq::new(i as nat, |k: int| b));
    }
}

/// A packet that says how many frames it has.
fn build_counted(toc: u8, frames: &[Vec<u8>], self_delimited: bool, padding: usize) -> (out: Vec<u8>)
    requires
        packable(toc, contents(frames@)),
    ensures
        out@ == counted_packet(toc, contents(frames@), self_delimited, padding as int),
{
    let ghost c = contents(frames@);
    let n: usize = frames.len();
    let vbr: bool = !same_lengths(frames);
    let mut out: Vec<u8> = Vec::new();
    out.push(toc + 3);
    let count: u8 = n as u8 + (if vbr {
        128
    } else {
        0
    }) + (if padding > 0 {
        64
    } else {
        0
    });
    out.push(count);
    let full: usize = if padding > 0 {
        (padding - 1) / 255
    } else {
        0
    };
    if padding > 0 {
        push_repeated(&mut out, 255, full);
        out.push((padding - 255 * full - 1) as u8);
    }
    if vbr {
        push_lengths(&mut out, frames, n - 1);
    }
    if self_delimited {
        assert(c[n - 1] == frames@[n - 1]@);
        push_size(&mut out, frames[n - 1].len());
    }
    push_frames(&mut out, frames);
    if padding > 0 {
        push_repeated(&mut out, 0, padding - full - 1);
    }
    assert(out@ =~= counted_packet(toc, c, self_delimited, padding as int));
    out
}

/// The shortest packet that holds the frames.
fn build_shortest(toc: u8, frames: &[Vec<u8>], self_delimited: bool) -> (out: Vec<u8>)
    requires
        packable(toc, contents(frames@)),
    ensures
        out@ == shortest_packet(toc, contents(frames@), self_delimited),
{
    let ghost c = contents(frames@);
    let n: usize = frames.len();
    if n > 2 {
        return build_counted(toc, frames, self_delimited, 0);
    }
    let mut out: Vec<u8> = Vec::new();
    assert(c[0] == frames@[0]@);
    if n == 1 {
        out.push(toc);
    } else if same_lengths(frames) {
        out.push(toc + 1);
    } else {
        out.push(toc + 2);
        push_size(&mut out, frames[0].len());
    }
    if self_delimited {
        assert(c[n - 1] == frames@[n - 1]@);
        push_size(&mut out, frames[n - 1].len());
    }
    push_frames(&mut out, frames);
    assert(out@ =~= shortest_packet(toc, c, self_delimited));
    out
}

/// Gathers the frames of packets, and puts them together again.
#[derive(Debug)]
pub struct Repacketizer {
    toc: u8,
    frames: Vec<Vec<u8>>,
}

/// What a [`Repacketizer`] holds: the first byte that its frames share, without
/// the frame-count code, and the frames.
#[verifier::ext_equal]
pub struct GatheredFrames {
    /// The first byte that the frames share. Of no meaning without frames.
    pub toc: u8,
    /// The frames.
    pub frames: Seq<Seq<u8>>,
}

impl View for Repacketizer {
    type V = GatheredFrames;

    closed spec fn view(&self) -> GatheredFrames {
        GatheredFrames { toc: self.toc, frames: contents(self.frames@) }
    }
}

impl GatheredFrames {
    /// What holds of every repacketizer: its frames can share a packet.
    pub open spec fn wf(self) -> bool {
        self.frames.len() > 0 ==> packable(self.toc, self.frames)
    }
}

/// What adding a packet's frames gives, and the frames afterwards. A packet that
/// cannot be added leaves them as they were.
pub open spec fn add_packet(m: GatheredFrames, packet: Seq<u8>) -> (
    Result<(), Error>,
    GatheredFrames,
) {
    match parse_packet(packet, false) {
        None => (Err(Error::InvalidPacket("packet framing is inconsistent")), m),
        Some(parsed) => if m.frames.len() > 0 && parsed.toc != m.toc {
            (Err(Error::InvalidPacket("frames of one packet share their configuration")), m)
        } else if (m.frames.len() + parsed.frames.len()) * config_samples(toc_config(parsed.toc))
            > MAX_SAMPLES {
            (Err(Error::InvalidPacket("packet is longer than 120 ms")), m)
        } else {
            (Ok(()), GatheredFrames { toc: parsed.toc, frames: m.frames + parsed.frames })
        },
    }
}

impl Repacketizer {
    /// What holds of every repacketizer.
    pub open spec fn wf(&self) -> bool {
        self@.wf()
    }

    /// A repacketizer with no frames.
    pub fn new() -> (r: Self)
        ensures
            r@.frames.len() == 0,
            r.wf(),
    {
        Repacketizer { toc: 0, frames: Vec::new() }
    }

    /// Drop all frames.
    pub fn clear(&mut self)
        ensures
            final(self)@.frames.len() == 0,
            final(self).wf(),
    {
        self.frames.clear();
    }

    /// How many frames there are.
    pub fn nb_frames(&self) -> (n: usize)
        ensures
            n == self@.frames.len(),
    {
        self.frames.len()
    }

    /// Add the frames of a packet.
    pub fn cat(&mut self, packet: &[u8]) -> (r: Result<(), Error>)
        requires
            old(self).wf(),
        ensures
            (r, final(self)@) == add_packet(old(self)@, packet@),
            final(self).wf(),
    {
        let parsed = split_frames(packet, false)?;
        let ghost before = self@;
        let ghost model = parsed@;
        let held: usize = self.frames.len();
        if held > 0 && parsed.toc != self.toc {
            return Err(Error::InvalidPacket("frames of one packet share their configuration"));
        }
        let samples: usize = frame_samples_from_toc(parsed.toc);
        let total: usize = held + parsed.frames.len();
        assert(total * samples <= 96 * 2880) by (nonlinear_arith)
            requires
                total <= 96,
                samples <= 2880,
        ;
        if total * samples > MAX_SAMPLES {
            return Err(Error::InvalidPacket("packet is longer than 120 ms"));
        }
        assert(total <= 48) by (nonlinear_arith)
            requires
                total * samples <= 5760,
                samples >= 120,
        ;
        self.toc = parsed.toc;
        let mut more = parsed.frames;
        let ghost first = self.frames@;
        self.frames.append(&mut more);
        assert(contents(self.frames@) =~= contents(first) + model.frames);
        Ok(())
    }

    /// The frames from `begin` to `end` as a packet, padded to exactly `pad_to`
    /// bytes when that is given.
    pub fn out_range_impl(&self, begin: usize, end: usize, pad_to: Option<usize>) -> (r: Result<
        Vec<u8>,
        Error,
    >)
        requires
            self.wf(),
        ensures
            ({
                let frames = self@.frames.subrange(begin as int, end as int);
                let shortest = shortest_packet(self@.toc, frames, false);
                if begin >= end || end > self@.frames.len() {
                    r == Err::<Vec<u8>, Error>(
                        Error::InvalidArgument("no such range of frames"),
                    )
                } else if pad_to is Some && shortest.len() > pad_to->0 {
                    r matches Err(Error::BufferTooSmall { needed, provided }) && needed
                        == shortest.len() && provided == pad_to->0
                } else {
                    r matches Ok(packet) && packet@ == (match pad_to {
                        Some(total) => padded_packet(self@.toc, frames, false, total as int),
                        None => shortest,
                    })
                }
            }),
    {
        if begin >= end || end > self.frames.len() {
            return Err(Error::InvalidArgument("no such range of frames"));
        }
        let frames: &[Vec<u8>] = &self.frames[begin..end];
        let ghost model = self@.frames.subrange(begin as int, end as int);
        proof {
            assert(contents(frames@) =~= model);
            assert(model.len() * config_samples(toc_config(self.toc)) <= MAX_SAMPLES)
                by (nonlinear_arith)
                requires
                    model.len() <= self@.frames.len(),
                    self@.frames.len() * config_samples(toc_config(self.toc)) <= MAX_SAMPLES,
                    config_samples(toc_config(self.toc)) >= 0,
            ;
            assert forall|i: int| 0 <= i < model.len() implies (#[trigger] model[i]).len()
                <= MAX_FRAME_BYTES by {
                assert(model[i] == self@.frames[begin + i]);
            }
            lemma_counted_len(self.toc, model, false, 0);
        }
        let shortest = build_shortest(self.toc, frames, false);
        match pad_to {
            None => Ok(shortest),
            Some(total) => {
                if shortest.len() > total {
                    return Err(Error::buffer_too_small(shortest.len(), total));
                }
                if shortest.len() == total {
                    return Ok(shortest);
                }
                let bare: usize = build_counted(self.toc, frames, false, 0).len();
                Ok(build_counted(self.toc, frames, false, total - bare))
            },
        }
    }

    /// Append all the frames as a self-delimited packet.
    pub fn out_self_delimited_into(&self, out: &mut Vec<u8>) -> (r: Result<(), Error>)
        requires
            self.wf(),
        ensures
            if self@.frames.len() == 0 {
                r == Err::<(), Error>(Error::InvalidArgument("no such range of frames"))
                    && final(out)@ == old(out)@
            } else {
                r is Ok && final(out)@ == old(out)@ + shortest_packet(
                    self@.toc,
                    self@.frames,
                    true,
                )
            },
    {
        if self.frames.len() == 0 {
            return Err(Error::InvalidArgument("no such range of frames"));
        }
        let packet = build_shortest(self.toc, &self.frames, true);
        push_all(out, &packet);
        Ok(())
    }
}

/// Take a self-delimited packet off the front of `data`: write it to `out`
/// without its delimiter, and say how many bytes it took.
pub fn take_self_delimited_into(data: &[u8], out: &mut Vec<u8>) -> (r: Result<usize, Error>)
    ensures
        match (r, parse_packet(data@, true)) {
            (Ok(n), Some(parsed)) => n == parsed.consumed && n <= data@.len() && final(out)@
                == shortest_packet(parsed.toc, parsed.frames, false),
            (Err(e), None) => e == Error::InvalidPacket("packet framing is inconsistent")
                && final(out)@ == old(out)@,
            _ => false,
        },
{
    let parsed = split_frames(data, true)?;
    *out = build_shortest(parsed.toc, &parsed.frames, false);
    Ok(parsed.consumed)
}

} // verus!
