//! How a packet holds its frames: the four frame-count
//! codes, the length fields, the padding, and the self-delimited variant that
//! multistream packets are made of.

use vstd::prelude::*;

use crate::error::Error;
use crate::toc::{config_samples, frame_samples_from_toc, toc_config};

verus! {

/// The longest a frame can be.
pub const MAX_FRAME_BYTES: usize = 1275;

/// The most samples a packet may decode to, at 48 kHz.
pub const MAX_SAMPLES: usize = 5760;

/// A frame length as a packet spells it: one byte up to 251, two above.
pub open spec fn size_bytes(n: int) -> Seq<u8> {
    if n < 252 {
        seq![n as u8]
    } else {
        seq![(252 + n % 4) as u8, ((n - 252 - n % 4) / 4) as u8]
    }
}

/// The frame length at `pos`, and where it ends.
pub open spec fn read_size(data: Seq<u8>, pos: int) -> Option<(int, int)> {
    if pos >= data.len() {
        None
    } else if data[pos] < 252 {
        Some((data[pos] as int, pos + 1))
    } else if pos + 1 >= data.len() {
        None
    } else {
        Some((data[pos] as int + 4 * data[pos + 1], pos + 2))
    }
}

/// The first `n` frame lengths at `pos`, and where they end.
pub open spec fn read_sizes(data: Seq<u8>, pos: int, n: int) -> Option<(Seq<int>, int)>
    decreases n,
{
    if n <= 0 {
        Some((Seq::empty(), pos))
    } else {
        match read_sizes(data, pos, n - 1) {
            None => None,
            Some((sizes, at)) => match read_size(data, at) {
                None => None,
                Some((size, next)) => Some((sizes.push(size), next)),
            },
        }
    }
}

/// The sum of the first `n` of some lengths.
pub open spec fn size_sum(sizes: Seq<int>, n: int) -> int
    decreases n,
{
    if n <= 0 {
        0
    } else {
        size_sum(sizes, n - 1) + sizes[n - 1]
    }
}

/// The first `n` frames of these lengths, one after the other from `pos`.
pub open spec fn cut(data: Seq<u8>, pos: int, sizes: Seq<int>, n: int) -> Seq<Seq<u8>>
    decreases n,
{
    if n <= 0 {
        Seq::empty()
    } else {
        let at = pos + size_sum(sizes, n - 1);
        cut(data, pos, sizes, n - 1).push(data.subrange(at, at + sizes[n - 1]))
    }
}

/// The padding that the length bytes at `pos` announce, and where they end. A
/// 255 stands for 254 bytes of padding and another length byte.
pub open spec fn read_padding(data: Seq<u8>, pos: int, so_far: int) -> Option<(int, int)>
    decreases data.len() - pos,
{
    if pos >= data.len() {
        None
    } else if data[pos] == 255 {
        read_padding(data, pos + 1, so_far + 254)
    } else {
        Some((so_far + data[pos], pos + 1))
    }
}

/// A packet taken apart.
#[verifier::ext_equal]
pub struct PacketFrames {
    /// The first byte, without its frame-count code.
    pub toc: u8,
    /// The frames.
    pub frames: Seq<Seq<u8>>,
    /// How many bytes the packet takes.
    pub consumed: int,
}

/// Where a packet's frames are: their lengths, where the first starts, and the
/// padding after the last.
#[verifier::ext_equal]
pub struct FrameTable {
    /// The frames' lengths.
    pub sizes: Seq<int>,
    /// Where the first frame starts.
    pub start: int,
    /// Padding after the last frame.
    pub padding: int,
}

/// `n` equal lengths.
pub open spec fn equal_sizes(size: int, n: int) -> Seq<int> {
    Seq::new(n as nat, |i: int| size)
}

/// The frame table of a packet with no length fields but the one that
/// self-delimiting adds: `count` equal frames between `at` and `end`.
pub open spec fn constant_table(
    data: Seq<u8>,
    at: int,
    end: int,
    count: int,
    padding: int,
    self_delimited: bool,
) -> Option<FrameTable> {
    if self_delimited {
        match read_size(data.subrange(0, end), at) {
            None => None,
            Some((size, start)) => if start + size * count > end {
                None
            } else {
                Some(FrameTable { sizes: equal_sizes(size, count), start, padding })
            },
        }
    } else {
        let size = (end - at) / count;
        if size * count != end - at || size > MAX_FRAME_BYTES {
            None
        } else {
            Some(FrameTable { sizes: equal_sizes(size, count), start: at, padding })
        }
    }
}

/// The frame table of a packet with a length field for each frame but the last,
/// and for the last one too when it is self-delimited.
pub open spec fn variable_table(
    data: Seq<u8>,
    at: int,
    end: int,
    count: int,
    padding: int,
    self_delimited: bool,
) -> Option<FrameTable> {
    let within = data.subrange(0, end);
    match read_sizes(within, at, count - 1) {
        None => None,
        Some((sizes, next)) => if self_delimited {
            match read_size(within, next) {
                None => None,
                Some((size, start)) => if start + size_sum(sizes, count - 1) + size > end {
                    None
                } else {
                    Some(FrameTable { sizes: sizes.push(size), start, padding })
                },
            }
        } else {
            let last = end - next - size_sum(sizes, count - 1);
            if last < 0 || last > MAX_FRAME_BYTES {
                None
            } else {
                Some(FrameTable { sizes: sizes.push(last), start: next, padding })
            }
        },
    }
}

/// Where a packet's frames are, or `None` when it does not add up.
#[verifier::opaque]
pub open spec fn frame_table(data: Seq<u8>, self_delimited: bool) -> Option<FrameTable> {
    let len = data.len() as int;
    if len == 0 {
        None
    } else {
        let code = data[0] % 4;
        if code == 0 {
            constant_table(data, 1, len, 1, 0, self_delimited)
        } else if code == 1 {
            constant_table(data, 1, len, 2, 0, self_delimited)
        } else if code == 2 {
            variable_table(data, 1, len, 2, 0, self_delimited)
        } else if len < 2 {
            None
        } else {
            let count = data[1] as int % 64;
            let padded = (data[1] as int / 64) % 2 == 1;
            let pad = if padded {
                read_padding(data, 2, 0)
            } else {
                Some((0int, 2int))
            };
            if count == 0 || count * config_samples(toc_config(data[0])) > MAX_SAMPLES {
                None
            } else {
                match pad {
                    None => None,
                    Some((padding, at)) => if at + padding > len {
                        None
                    } else if data[1] >= 128 {
                        variable_table(data, at, len - padding, count, padding, self_delimited)
                    } else {
                        constant_table(data, at, len - padding, count, padding, self_delimited)
                    },
                }
            }
        }
    }
}

/// A packet's first byte without its frame-count code.
pub open spec fn plain_toc(toc: u8) -> u8 {
    (toc - toc % 4) as u8
}

/// A packet taken apart, or `None` when it does not add up.
pub open spec fn parse_packet(data: Seq<u8>, self_delimited: bool) -> Option<PacketFrames> {
    match frame_table(data, self_delimited) {
        None => None,
        Some(table) => {
            let n = table.sizes.len() as int;
            Some(
                PacketFrames {
                    toc: plain_toc(data[0]),
                    frames: cut(data, table.start, table.sizes, n),
                    consumed: table.start + size_sum(table.sizes, n) + table.padding,
                },
            )
        },
    }
}

/// Whether frames can share a packet.
pub open spec fn packable(toc: u8, frames: Seq<Seq<u8>>) -> bool {
    &&& toc % 4 == 0
    &&& 1 <= frames.len() <= 48
    &&& frames.len() * config_samples(toc_config(toc)) <= MAX_SAMPLES
    &&& forall|i: int| 0 <= i < frames.len() ==> (#[trigger] frames[i]).len() <= MAX_FRAME_BYTES
}

/// A frame length reads back.
pub proof fn lemma_size_round_trip(data: Seq<u8>, pos: int, n: int)
    requires
        0 <= n <= MAX_FRAME_BYTES,
        0 <= pos,
        pos + size_bytes(n).len() <= data.len(),
        data.subrange(pos, pos + size_bytes(n).len()) == size_bytes(n),
    ensures
        read_size(data, pos) == Some((n, pos + size_bytes(n).len() as int)),
{
    let s = data.subrange(pos, pos + size_bytes(n).len());
    assert(data[pos] == s[0]);
    if n >= 252 {
        assert(data[pos + 1] == s[1]);
    }
}

/// The frame length at `pos`, and where it ends.
fn take_size(data: &[u8], end: usize, pos: usize) -> (r: Option<(usize, usize)>)
    requires
        end <= data@.len(),
        pos <= end,
    ensures
        match (r, read_size(data@.subrange(0, end as int), pos as int)) {
            (Some((size, next)), Some((model, at))) => size == model && next == at && pos < next
                <= end && size <= MAX_FRAME_BYTES,
            (None, None) => true,
            _ => false,
        },
{
    let ghost within = data@.subrange(0, end as int);
    if pos >= end {
        return None;
    }
    assert(within[pos as int] == data@[pos as int]);
    if data[pos] < 252 {
        return Some((data[pos] as usize, pos + 1));
    }
    if pos + 1 >= end {
        return None;
    }
    assert(within[pos + 1] == data@[pos + 1]);
    Some((data[pos] as usize + 4 * data[pos + 1] as usize, pos + 2))
}

/// Where a packet's frames are.
pub struct FrameMap {
    /// The frames' lengths.
    pub sizes: Vec<usize>,
    /// Where the first frame starts.
    pub start: usize,
    /// Padding after the last frame.
    pub padding: usize,
}

/// Lengths as numbers.
pub open spec fn as_ints(sizes: Seq<usize>) -> Seq<int> {
    Seq::new(sizes.len(), |i: int| sizes[i] as int)
}

impl FrameMap {
    /// The table that the map stands for.
    pub open spec fn model(self) -> FrameTable {
        FrameTable {
            sizes: as_ints(self.sizes@),
            start: self.start as int,
            padding: self.padding as int,
        }
    }
}

/// Whether a map is what a table says, both being absent together.
pub open spec fn same_table(r: Option<FrameMap>, model: Option<FrameTable>, len: nat) -> bool {
    match (r, model) {
        (Some(map), Some(table)) => {
            &&& map.model() == table
            &&& map.start + size_sum(table.sizes, table.sizes.len() as int) + map.padding <= len
            &&& forall|i: int|
                0 <= i < table.sizes.len() ==> #[trigger] table.sizes[i] <= MAX_FRAME_BYTES
        },
        (None, None) => true,
        _ => false,
    }
}

/// The sum of equal lengths.
pub proof fn lemma_equal_sum(size: int, count: int, n: int)
    requires
        0 <= n <= count,
    ensures
        size_sum(equal_sizes(size, count), n) == size * n,
    decreases n,
{
    if n > 0 {
        lemma_equal_sum(size, count, n - 1);
        assert(size * n == size * (n - 1) + size) by (nonlinear_arith);
    } else {
        assert(size * n == 0) by (nonlinear_arith)
            requires
                n == 0,
        ;
    }
}

/// The map of a packet with no length fields but the one that self-delimiting
/// adds.
fn constant_map(
    data: &[u8],
    at: usize,
    end: usize,
    count: usize,
    padding: usize,
    self_delimited: bool,
) -> (r: Option<FrameMap>)
    requires
        at <= end,
        end + padding == data@.len(),
        1 <= count <= 63,
    ensures
        same_table(
            r,
            constant_table(
                data@,
                at as int,
                end as int,
                count as int,
                padding as int,
                self_delimited,
            ),
            data@.len(),
        ),
{
    let (size, start): (usize, usize) = if self_delimited {
        match take_size(data, end, at) {
            None => return None,
            Some((size, start)) => {
                assert(size * count <= 1275 * 63) by (nonlinear_arith)
                    requires
                        size <= 1275,
                        count <= 63,
                ;
                if size * count > end - start {
                    return None;
                }
                (size, start)
            },
        }
    } else {
        let size: usize = (end - at) / count;
        if (end - at) % count != 0 || size > MAX_FRAME_BYTES {
            proof {
                lemma_divides((end - at) as int, count as int);
            }
            return None;
        }
        proof {
            lemma_divides((end - at) as int, count as int);
        }
        (size, at)
    };
    let sizes: Vec<usize> = vec![size; count];
    proof {
        assert(as_ints(sizes@) =~= equal_sizes(size as int, count as int));
        lemma_equal_sum(size as int, count as int, count as int);
    }
    Some(FrameMap { sizes, start, padding })
}

/// A quotient times its divisor is the number exactly when nothing is left over.
proof fn lemma_divides(a: int, b: int)
    requires
        0 <= a,
        0 < b,
    ensures
        (a / b) * b == a <==> a % b == 0,
{
    assert((a / b) * b + a % b == a) by (nonlinear_arith)
        requires
            0 < b,
    ;
}

/// The map of a packet with a length field for each frame but the last.
fn variable_map(
    data: &[u8],
    at: usize,
    end: usize,
    count: usize,
    padding: usize,
    self_delimited: bool,
) -> (r: Option<FrameMap>)
    requires
        at <= end,
        end + padding == data@.len(),
        1 <= count <= 63,
    ensures
        same_table(
            r,
            variable_table(
                data@,
                at as int,
                end as int,
                count as int,
                padding as int,
                self_delimited,
            ),
            data@.len(),
        ),
{
    let ghost within = data@.subrange(0, end as int);
    let mut sizes: Vec<usize> = Vec::new();
    let mut next: usize = at;
    let mut sum: usize = 0;
    let mut i: usize = 0;
    assert(as_ints(sizes@) =~= Seq::empty());
    while i + 1 < count
        invariant
            i < count <= 63,
            next <= end,
            end <= data@.len(),
            within == data@.subrange(0, end as int),
            sizes@.len() == i,
            read_sizes(within, at as int, i as int) == Some((as_ints(sizes@), next as int)),
            sum == size_sum(as_ints(sizes@), i as int),
            sum <= 1275 * i,
            forall|k: int| 0 <= k < i ==> #[trigger] as_ints(sizes@)[k] <= MAX_FRAME_BYTES,
        decreases count - i,
    {
        let ghost before = as_ints(sizes@);
        match take_size(data, end, next) {
            None => {
                proof {
                    lemma_sizes_fail(within, at as int, i + 1, count - 1);
                }
                return None;
            },
            Some((size, after)) => {
                sizes.push(size);
                next = after;
                sum = sum + size;
                i = i + 1;
                proof {
                    assert(as_ints(sizes@) =~= before.push(size as int));
                    lemma_sum_prefix(before, size as int, i - 1);
                }
            },
        }
    }
    let ghost before = as_ints(sizes@);
    let (last, start): (usize, usize) = if self_delimited {
        match take_size(data, end, next) {
            None => return None,
            Some((size, start)) => {
                if sum + size > end - start {
                    return None;
                }
                (size, start)
            },
        }
    } else {
        if sum > end - next || end - next - sum > MAX_FRAME_BYTES {
            return None;
        }
        (end - next - sum, next)
    };
    sizes.push(last);
    proof {
        assert(as_ints(sizes@) =~= before.push(last as int));
        lemma_sum_prefix(before, last as int, count - 1);
    }
    Some(FrameMap { sizes, start, padding })
}

/// One more length leaves the sum of those before it.
pub proof fn lemma_sum_prefix(sizes: Seq<int>, more: int, n: int)
    requires
        0 <= n <= sizes.len(),
    ensures
        size_sum(sizes.push(more), n) == size_sum(sizes, n),
        n == sizes.len() ==> size_sum(sizes.push(more), n + 1) == size_sum(sizes, n) + more,
    decreases n,
{
    if n > 0 {
        lemma_sum_prefix(sizes, more, n - 1);
    }
    if n == sizes.len() {
        assert(sizes.push(more)[n] == more);
        assert(size_sum(sizes.push(more), n + 1) == size_sum(sizes.push(more), n) + more);
    }
}

/// Lengths that cannot be read cannot be read among more of them either.
proof fn lemma_sizes_fail(data: Seq<u8>, pos: int, i: int, n: int)
    requires
        i <= n,
        read_sizes(data, pos, i) is None,
    ensures
        read_sizes(data, pos, n) is None,
    decreases n - i,
{
    if i < n {
        lemma_sizes_fail(data, pos, i, n - 1);
    }
}

/// The padding that the length bytes at `pos` announce, and where they end.
fn take_padding(data: &[u8], pos: usize) -> (r: Option<(u128, usize)>)
    requires
        pos <= data@.len(),
    ensures
        match (r, read_padding(data@, pos as int, 0)) {
            (Some((padding, next)), Some((model, at))) => next == at && pos < next <= data@.len()
                && padding == model,
            (None, None) => true,
            _ => false,
        },
{
    let mut at: usize = pos;
    let mut padding: u128 = 0;
    while at < data.len()
        invariant
            pos <= at <= data@.len(),
            padding == 254 * (at - pos),
            read_padding(data@, pos as int, 0) == read_padding(data@, at as int, padding as int),
        decreases data@.len() - at,
    {
        let b: u8 = data[at];
        at = at + 1;
        if b != 255 {
            return Some((padding + b as u128, at));
        }
        padding = padding + 254;
    }
    None
}

/// Where a packet's frames are.
pub fn map_frames(data: &[u8], self_delimited: bool) -> (r: Option<FrameMap>)
    ensures
        same_table(r, frame_table(data@, self_delimited), data@.len()),
{
    proof {
        reveal(frame_table);
    }
    let len: usize = data.len();
    if len == 0 {
        return None;
    }
    let code: u8 = data[0] % 4;
    if code == 0 {
        return constant_map(data, 1, len, 1, 0, self_delimited);
    }
    if code == 1 {
        return constant_map(data, 1, len, 2, 0, self_delimited);
    }
    if code == 2 {
        return variable_map(data, 1, len, 2, 0, self_delimited);
    }
    if len < 2 {
        return None;
    }
    let count: usize = (data[1] % 64) as usize;
    let samples: usize = frame_samples_from_toc(data[0]);
    assert(count * samples <= 63 * 2880) by (nonlinear_arith)
        requires
            count <= 63,
            samples <= 2880,
    ;
    if count == 0 || count * samples > MAX_SAMPLES {
        return None;
    }
    let (padding, at): (u128, usize) = if (data[1] / 64) % 2 == 1 {
        match take_padding(data, 2) {
            None => return None,
            Some((padding, at)) => (padding, at),
        }
    } else {
        (0, 2)
    };
    if padding > (len - at) as u128 {
        return None;
    }
    let pad: usize = padding as usize;
    if data[1] >= 128 {
        variable_map(data, at, len - pad, count, pad, self_delimited)
    } else {
        constant_map(data, at, len - pad, count, pad, self_delimited)
    }
}

/// A packet taken apart.
#[derive(Debug, Clone, PartialEq, Eq)]
pub struct Frames {
    /// The first byte, without its frame-count code.
    pub toc: u8,
    /// The frames.
    pub frames: Vec<Vec<u8>>,
    /// How many bytes the packet takes.
    pub consumed: usize,
}

/// Byte strings taken by their contents.
pub open spec fn contents(frames: Seq<Vec<u8>>) -> Seq<Seq<u8>> {
    Seq::new(frames.len(), |i: int| frames[i]@)
}

impl View for Frames {
    type V = PacketFrames;

    open spec fn view(&self) -> PacketFrames {
        PacketFrames {
            toc: self.toc,
            frames: contents(self.frames@),
            consumed: self.consumed as int,
        }
    }
}

/// Nonnegative lengths add up to no less than any of their first ones.
pub proof fn lemma_sum_grows(sizes: Seq<int>, k: int, n: int)
    requires
        0 <= k <= n <= sizes.len(),
        forall|i: int| 0 <= i < sizes.len() ==> sizes[i] >= 0,
    ensures
        0 <= size_sum(sizes, k) <= size_sum(sizes, n),
    decreases n,
{
    if n > 0 {
        if k < n {
            lemma_sum_grows(sizes, k, n - 1);
        } else {
            lemma_sum_grows(sizes, n - 1, n - 1);
        }
    }
}

/// Take a packet apart into its frames.
pub fn split_frames(data: &[u8], self_delimited: bool) -> (r: Result<Frames, Error>)
    ensures
        match (r, parse_packet(data@, self_delimited)) {
            (Ok(frames), Some(model)) => frames@ == model && frames.consumed <= data@.len()
                && packable(model.toc, model.frames),
            (Err(e), None) => e == Error::InvalidPacket("packet framing is inconsistent"),
            _ => false,
        },
{
    let map = match map_frames(data, self_delimited) {
        None => return Err(Error::InvalidPacket("packet framing is inconsistent")),
        Some(map) => map,
    };
    let ghost table = map.model();
    let ghost count = table.sizes.len() as int;
    let mut frames: Vec<Vec<u8>> = Vec::new();
    let mut at: usize = map.start;
    let mut i: usize = 0;
    assert(contents(frames@) =~= Seq::empty());
    proof {
        lemma_sum_grows(table.sizes, 0, count);
        lemma_table_count(data@, self_delimited);
    }
    while i < map.sizes.len()
        invariant
            i <= map.sizes@.len(),
            table == map.model(),
            count == table.sizes.len(),
            table.sizes == as_ints(map.sizes@),
            map.start + size_sum(table.sizes, count) + map.padding <= data@.len(),
            at == map.start + size_sum(table.sizes, i as int),
            at <= data@.len(),
            frames@.len() == i,
            contents(frames@) == cut(data@, map.start as int, table.sizes, i as int),
            forall|k: int|
                0 <= k < table.sizes.len() ==> #[trigger] table.sizes[k] <= MAX_FRAME_BYTES,
            forall|k: int| 0 <= k < i ==> (#[trigger] contents(frames@)[k]).len() <= MAX_FRAME_BYTES,
        decreases map.sizes@.len() - i,
    {
        let size: usize = map.sizes[i];
        proof {
            lemma_sum_grows(table.sizes, i + 1, count);
            assert(table.sizes[i as int] == size);
            assert(at + size <= data.len());
        }
        let mut frame: Vec<u8> = Vec::with_capacity(size);
        crate::bytes::push_all(&mut frame, &data[at..at + size]);
        let ghost before = contents(frames@);
        assert(frame@ =~= data@.subrange(at as int, at + size));
        frames.push(frame);
        at = at + size;
        i = i + 1;
        assert(contents(frames@) =~= before.push(frame@));
    }
    Ok(Frames { toc: data[0] - data[0] % 4, frames, consumed: at + map.padding })
}

/// A packet with length fields holds as many frames as it says.
proof fn lemma_variable_count(
    data: Seq<u8>,
    at: int,
    end: int,
    count: int,
    padding: int,
    self_delimited: bool,
)
    requires
        count >= 1,
    ensures
        variable_table(data, at, end, count, padding, self_delimited) matches Some(table)
            ==> table.sizes.len() == count,
{
    lemma_sizes_count(data.subrange(0, end), at, count - 1);
}

/// As many lengths are read as are asked for.
pub proof fn lemma_sizes_count(data: Seq<u8>, pos: int, n: int)
    requires
        0 <= n,
    ensures
        read_sizes(data, pos, n) matches Some((sizes, _)) ==> sizes.len() == n,
    decreases n,
{
    if n > 0 {
        lemma_sizes_count(data, pos, n - 1);
    }
}

/// A packet that adds up holds at least one frame, and no more than 120 ms.
pub proof fn lemma_table_count(data: Seq<u8>, self_delimited: bool)
    ensures
        frame_table(data, self_delimited) matches Some(table) ==> data.len() > 0
            && table.sizes.len() >= 1 && table.sizes.len() * config_samples(toc_config(data[0]))
            <= MAX_SAMPLES && table.sizes.len() <= 48,
{
    reveal(frame_table);
    if data.len() > 0 {
        let samples = config_samples(toc_config(data[0]));
        if data.len() >= 2 {
            let count = data[1] as int % 64;
            assert(count * samples <= MAX_SAMPLES ==> count <= 48) by (nonlinear_arith)
                requires
                    samples >= 120,
            ;
            if count >= 1 {
                if let Some((padding, at)) = read_padding(data, 2, 0) {
                    lemma_variable_count(
                        data,
                        at,
                        data.len() - padding,
                        count,
                        padding,
                        self_delimited,
                    );
                }
                lemma_variable_count(data, 2, data.len() as int, count, 0, self_delimited);
            }
        }
        lemma_variable_count(data, 1, data.len() as int, 2, 0, self_delimited);
    }
}

/// Lengths that are read are a frame's, and stand within the data.
proof fn lemma_read_sizes_bounds(data: Seq<u8>, pos: int, n: int)
    requires
        0 <= pos,
    ensures
        read_sizes(data, pos, n) matches Some((sizes, at)) ==> at >= pos && forall|i: int|
            0 <= i < sizes.len() ==> 0 <= #[trigger] sizes[i] <= MAX_FRAME_BYTES,
    decreases n,
{
    if n > 0 {
        lemma_read_sizes_bounds(data, pos, n - 1);
    }
}

/// The frames of equal length lie within the data.
pub proof fn lemma_constant_bounds(
    data: Seq<u8>,
    at: int,
    end: int,
    count: int,
    padding: int,
    self_delimited: bool,
)
    requires
        1 <= count,
        0 <= at <= end <= data.len(),
    ensures
        constant_table(data, at, end, count, padding, self_delimited) matches Some(table)
            ==> table.start >= at && table.start + size_sum(table.sizes, count) <= end
            && table.sizes.len() == count && forall|i: int|
            0 <= i < count ==> 0 <= #[trigger] table.sizes[i] <= MAX_FRAME_BYTES,
{
    if let Some(table) = constant_table(data, at, end, count, padding, self_delimited) {
        let size = table.sizes[0];
        lemma_equal_sum(size, count, count);
        assert((end - at) / count >= 0) by (nonlinear_arith)
            requires
                end >= at,
                count >= 1,
        ;
        assert(table.sizes =~= equal_sizes(size, count));
        assert(size * count == count * size) by (nonlinear_arith);
    }
}

/// The frames with length fields lie within the data.
pub proof fn lemma_variable_bounds(
    data: Seq<u8>,
    at: int,
    end: int,
    count: int,
    padding: int,
    self_delimited: bool,
)
    requires
        1 <= count,
        0 <= at <= end <= data.len(),
    ensures
        variable_table(data, at, end, count, padding, self_delimited) matches Some(table)
            ==> table.start >= at && table.start + size_sum(table.sizes, count) <= end
            && table.sizes.len() == count && forall|i: int|
            0 <= i < count ==> 0 <= #[trigger] table.sizes[i] <= MAX_FRAME_BYTES,
{
    let within = data.subrange(0, end);
    lemma_sizes_count(within, at, count - 1);
    lemma_read_sizes_bounds(within, at, count - 1);
    if let Some((sizes, next)) = read_sizes(within, at, count - 1) {
        if let Some(table) = variable_table(data, at, end, count, padding, self_delimited) {
            let last = table.sizes[count - 1];
            lemma_sum_prefix(sizes, last, count - 1);
            assert(table.sizes =~= sizes.push(last));
        }
    }
}

/// Where padding ends.
pub proof fn lemma_padding_bounds(data: Seq<u8>, pos: int, so_far: int)
    requires
        0 <= pos,
        0 <= so_far,
    ensures
        read_padding(data, pos, so_far) matches Some((padding, at)) ==> padding >= 0 && at > pos,
    decreases data.len() - pos,
{
    if pos < data.len() && data[pos] == 255 {
        lemma_padding_bounds(data, pos + 1, so_far + 254);
    }
}

/// Frames have the lengths that they are cut to.
pub proof fn lemma_cut_lengths(data: Seq<u8>, pos: int, sizes: Seq<int>, n: int)
    requires
        0 <= pos,
        0 <= n <= sizes.len(),
        forall|i: int| 0 <= i < sizes.len() ==> 0 <= #[trigger] sizes[i],
        pos + size_sum(sizes, n) <= data.len(),
    ensures
        cut(data, pos, sizes, n).len() == n,
        forall|i: int| 0 <= i < n ==> (#[trigger] cut(data, pos, sizes, n)[i]).len() == sizes[i],
    decreases n,
{
    if n > 0 {
        lemma_sum_grows(sizes, n - 1, n);
        assert(sizes[n - 1] >= 0);
        lemma_cut_lengths(data, pos, sizes, n - 1);
    }
}

/// The frames of a packet that adds up can share a packet again, and the packet
/// takes no more bytes than there are.
pub proof fn law_parsed_frames_pack(data: Seq<u8>, self_delimited: bool)
    ensures
        parse_packet(data, self_delimited) matches Some(p) ==> packable(p.toc, p.frames) && 0
            < p.consumed <= data.len(),
{
    lemma_table_count(data, self_delimited);
    if let Some(table) = frame_table(data, self_delimited) {
        let len = data.len() as int;
        let n = table.sizes.len() as int;
        assert(1 <= table.start && 0 <= table.padding && table.start + size_sum(table.sizes, n)
            + table.padding <= len && forall|i: int|
            0 <= i < n ==> 0 <= #[trigger] table.sizes[i] <= MAX_FRAME_BYTES) by {
            reveal(frame_table);
            let code = data[0] % 4;
            if code == 0 {
                lemma_constant_bounds(data, 1, len, 1, 0, self_delimited);
            } else if code == 1 {
                lemma_constant_bounds(data, 1, len, 2, 0, self_delimited);
            } else if code == 2 {
                lemma_variable_bounds(data, 1, len, 2, 0, self_delimited);
            } else {
                let count = data[1] as int % 64;
                let padded = (data[1] as int / 64) % 2 == 1;
                let (padding, at) = if padded {
                    read_padding(data, 2, 0)->0
                } else {
                    (0int, 2int)
                };
                lemma_padding_bounds(data, 2, 0);
                if data[1] >= 128 {
                    lemma_variable_bounds(data, at, len - padding, count, padding, self_delimited);
                } else {
                    lemma_constant_bounds(data, at, len - padding, count, padding, self_delimited);
                }
            }
        }
        lemma_sum_grows(table.sizes, 0, n);
        lemma_cut_lengths(data, table.start, table.sizes, n);
        let frames = cut(data, table.start, table.sizes, n);
        assert forall|i: int| 0 <= i < frames.len() implies (#[trigger] frames[i]).len()
            <= MAX_FRAME_BYTES by {
            assert(frames[i].len() == table.sizes[i]);
        }
        let toc = plain_toc(data[0]);
        assert(toc as int / 8 == data[0] as int / 8);
    }
}

/// A frame's length is one byte up to 251, and above that two, the second of which
/// counts four times.
pub proof fn law_frame_lengths(data: Seq<u8>, pos: int)
    requires
        0 <= pos,
        pos + 2 <= data.len(),
    ensures
        data[pos] <= 251 ==> read_size(data, pos) == Some((data[pos] as int, pos + 1)),
        data[pos] >= 252 ==> read_size(data, pos) == Some(
            (data[pos] + 4 * data[pos + 1], pos + 2),
        ),
{
}

/// What a packet holds by the lowest two bits of its first byte, whoever made it.
/// With none set it is one frame; with the first, two frames of the same length; and
/// with the second, two frames, of which the first says its length. The rest of the
/// byte is what the frames share.
pub proof fn law_short_packets_are_read(data: Seq<u8>)
    requires
        data.len() >= 1,
    ensures
        ({
            let p = parse_packet(data, false);
            let rest = data.subrange(1, data.len() as int);
            let half = rest.len() as int / 2;
            let code = data[0] as int % 4;
            &&& p is Some && code < 3 ==> p->0.toc == data[0] - code && p->0.consumed == data.len()
            &&& code == 0 && rest.len() <= 1_275 ==> p is Some && p->0.frames == seq![rest]
            &&& code == 0 && rest.len() > 1_275 ==> p is None
            &&& code == 1 && rest.len() == 2 * half && half <= 1_275 ==> p is Some && p->0.frames
                == seq![rest.subrange(0, half), rest.subrange(half, rest.len() as int)]
            &&& code == 1 && rest.len() != 2 * half ==> p is None
            &&& code == 2 && rest.len() == 0 ==> p is None
            &&& code == 2 && rest.len() >= 1 && rest[0] <= 251 && 1 + rest[0] <= rest.len()
                && rest.len() - 1 - rest[0] <= 1_275 ==> p is Some && p->0.frames == seq![
                rest.subrange(1, 1 + rest[0]),
                rest.subrange(1 + rest[0], rest.len() as int),
            ]
            &&& code == 2 && rest.len() >= 1 && rest[0] <= 251 && 1 + rest[0] > rest.len()
                ==> p is None
            &&& code == 2 && rest.len() >= 2 && rest[0] >= 252 && 2 + rest[0] + 4 * rest[1]
                <= rest.len() && rest.len() - 2 - rest[0] - 4 * rest[1] <= 1_275 ==> p is Some
                && p->0.frames == seq![
                rest.subrange(2, 2 + rest[0] + 4 * rest[1]),
                rest.subrange(2 + rest[0] + 4 * rest[1], rest.len() as int),
            ]
        }),
{
    reveal(frame_table);
    let rest = data.subrange(1, data.len() as int);
    let len = data.len() as int;
    let within = data.subrange(0, len);
    assert(within =~= data);
    reveal_with_fuel(read_sizes, 3);
    reveal_with_fuel(size_sum, 4);
    reveal_with_fuel(cut, 4);
    if let Some(p) = parse_packet(data, false) {
        let code = data[0] as int % 4;
        if code == 0 {
            assert(data.subrange(1, 1 + (len - 1)) =~= rest);
            assert(p.frames =~= seq![rest]);
        } else if code == 1 {
            let half = rest.len() as int / 2;
            assert(data.subrange(1, 1 + half) =~= rest.subrange(0, half));
            assert(data.subrange(1 + half, 1 + half + half) =~= rest.subrange(half, half + half));
            assert(p.frames =~= seq![
                rest.subrange(0, half),
                rest.subrange(half, rest.len() as int),
            ]);
        } else if code == 2 {
            assert(rest[0] == data[1]);
            let (n, at) = if rest[0] <= 251 {
                (rest[0] as int, 1int)
            } else {
                assert(rest[1] == data[2]);
                (rest[0] + 4 * rest[1], 2int)
            };
            assert(data.subrange(1 + at, 1 + at + n) =~= rest.subrange(at, at + n));
            assert(data.subrange(1 + at + n, len) =~= rest.subrange(at + n, rest.len() as int));
            assert(p.frames =~= seq![
                rest.subrange(at, at + n),
                rest.subrange(at + n, rest.len() as int),
            ]);
        }
    }
}

/// What a packet of any number of frames says in its second byte: how many there are
/// in its lowest six bits, whether there is padding in the next, and whether each
/// frame says its length in the highest. Without either of those the frames share
/// what follows evenly. None at all, or more than 120 ms, is no packet.
pub proof fn law_counted_packets_are_read(data: Seq<u8>, i: int)
    requires
        data.len() >= 2,
        data[0] as int % 4 == 3,
    ensures
        ({
            let p = parse_packet(data, false);
            let count = data[1] as int % 64;
            let rest = data.subrange(2, data.len() as int);
            let each = rest.len() as int / count;
            let too_long = count * config_samples(data[0] as int / 8) > 5_760;
            &&& count == 0 || too_long ==> p is None
            &&& p is Some ==> p->0.frames.len() == count && p->0.toc == data[0] - 3
            &&& data[1] < 64 && count > 0 && !too_long && rest.len() == each * count && each
                <= 1_275 ==> p is Some
            &&& data[1] < 64 && count > 0 && rest.len() != each * count ==> p is None
            &&& data[1] < 64 && p is Some && 0 <= i < count ==> p->0.frames[i] == rest.subrange(
                each * i,
                each * i + each,
            )
        }),
{
    reveal(frame_table);
    let count = data[1] as int % 64;
    let rest = data.subrange(2, data.len() as int);
    let each = rest.len() as int / count;
    if let Some(table) = frame_table(data, false) {
        lemma_cut_len(data, table.start, table.sizes, table.sizes.len() as int);
        lemma_read_sizes_len(
            data.subrange(0, data.len() - table.padding),
            if let Some((_, at)) = read_padding(data, 2, 0) {
                at
            } else {
                2
            },
            count - 1,
        );
        lemma_read_sizes_len(data.subrange(0, data.len() - table.padding), 2, count - 1);
        if data[1] < 64 && 0 <= i < count {
            lemma_equal_cut(data, 2, each, count, i);
            let at = 2 + each * i;
            assert(data.subrange(at, at + each) =~= rest.subrange(each * i, each * i + each)) by {
                assert(each * i + each <= each * count) by (nonlinear_arith)
                    requires
                        0 <= each,
                        i + 1 <= count,
                ;
                assert(0 <= each * i) by (nonlinear_arith)
                    requires
                        0 <= each,
                        0 <= i,
                ;
            }
        }
    }
}

/// Frames that are cut out are as many as their lengths.
proof fn lemma_cut_len(data: Seq<u8>, pos: int, sizes: Seq<int>, n: int)
    requires
        0 <= n,
    ensures
        cut(data, pos, sizes, n).len() == n,
    decreases n,
{
    if n > 0 {
        lemma_cut_len(data, pos, sizes, n - 1);
    }
}

/// Lengths that are read are as many as were asked for.
proof fn lemma_read_sizes_len(data: Seq<u8>, pos: int, n: int)
    ensures
        read_sizes(data, pos, n) matches Some((sizes, _)) ==> sizes.len() == (if n > 0 {
            n
        } else {
            0
        }),
    decreases n,
{
    if n > 0 {
        lemma_read_sizes_len(data, pos, n - 1);
    }
}

/// Frames of equal lengths follow each other evenly.
proof fn lemma_equal_cut(data: Seq<u8>, pos: int, each: int, n: int, i: int)
    requires
        0 <= i < n,
    ensures
        cut(data, pos, equal_sizes(each, n), n)[i] == data.subrange(
            pos + each * i,
            pos + each * i + each,
        ),
        cut(data, pos, equal_sizes(each, n), n).len() == n,
{
    lemma_equal_cut_some(data, pos, each, n, n, i);
}

/// The first of them do.
proof fn lemma_equal_cut_some(data: Seq<u8>, pos: int, each: int, n: int, k: int, i: int)
    requires
        0 <= i < k <= n,
    ensures
        cut(data, pos, equal_sizes(each, n), k)[i] == data.subrange(
            pos + each * i,
            pos + each * i + each,
        ),
        cut(data, pos, equal_sizes(each, n), k).len() == k,
    decreases k,
{
    lemma_equal_sum(each, n, k - 1);
    lemma_cut_len(data, pos, equal_sizes(each, n), k - 1);
    if i < k - 1 {
        lemma_equal_cut_some(data, pos, each, n, k - 1, i);
    }
}

/// Padding is taken off the end of a packet: the byte after the count says how much,
/// and a 255 there is 254 and another byte to come.
pub proof fn law_padding_is_taken_off(data: Seq<u8>, pos: int)
    requires
        0 <= pos,
        pos + 2 <= data.len(),
    ensures
        data[pos] < 255 ==> read_padding(data, pos, 0) == Some((data[pos] as int, pos + 1)),
        data[pos] == 255 && data[pos + 1] < 255 ==> read_padding(data, pos, 0) == Some(
            (254 + data[pos + 1], pos + 2),
        ),
{
    reveal_with_fuel(read_padding, 3);
}

/// One frame with padding behind it is read as that frame.
pub proof fn law_padded_frame_is_read(toc: u8, frame: Seq<u8>, padding: Seq<u8>)
    requires
        toc as int % 4 == 0,
        frame.len() <= 1_275,
        padding.len() < 255,
    ensures
        parse_packet(
            seq![(toc + 3) as u8, 0x41u8, padding.len() as u8] + frame + padding,
            false,
        ) matches Some(p) && p.toc == toc && p.frames == seq![frame],
{
    let data = seq![(toc + 3) as u8, 0x41u8, padding.len() as u8] + frame + padding;
    reveal(frame_table);
    reveal_with_fuel(read_padding, 2);
    reveal_with_fuel(size_sum, 3);
    reveal_with_fuel(cut, 3);
    let n = frame.len() as int;
    assert(data.subrange(3, 3 + n) =~= frame);
    assert(data[0] == toc + 3 && data[1] == 0x41 && data[2] == padding.len());
    assert(data.len() == 3 + n + padding.len());
    assert(config_samples(toc_config(data[0])) <= MAX_SAMPLES);
    assert(read_padding(data, 2, 0) == Some((padding.len() as int, 3int)));
    assert(n / 1 == n && n % 1 == 0);
    assert(data[1] as int % 64 == 1 && (data[1] as int / 64) % 2 == 1);
    assert(1 * config_samples(toc_config(data[0])) <= MAX_SAMPLES);
    assert(frame_table(data, false) == constant_table(
        data,
        3,
        3 + n,
        1,
        padding.len() as int,
        false,
    ));
    let p = parse_packet(data, false);
    assert(p is Some);
    assert(p->0.frames =~= seq![frame]);
}

/// A packet that says where it ends says the length of its one frame first, and takes
/// no more than that of what follows.
pub proof fn law_delimited_frame_is_read(toc: u8, frame: Seq<u8>, rest: Seq<u8>)
    requires
        toc as int % 4 == 0,
        frame.len() <= 251,
    ensures
        parse_packet(seq![toc, frame.len() as u8] + frame + rest, true) matches Some(p) && p.toc
            == toc && p.frames == seq![frame] && p.consumed == 2 + frame.len(),
{
    let data = seq![toc, frame.len() as u8] + frame + rest;
    reveal(frame_table);
    reveal_with_fuel(size_sum, 3);
    reveal_with_fuel(cut, 3);
    let n = frame.len() as int;
    assert(data.subrange(2, 2 + n) =~= frame);
    let within = data.subrange(0, data.len() as int);
    assert(within =~= data);
    let p = parse_packet(data, true);
    assert(p is Some);
    assert(p->0.frames =~= seq![frame]);
}

} // verus!
