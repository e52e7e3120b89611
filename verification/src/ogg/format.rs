//! The bytes of an Ogg Opus stream, one by one: what every reader of such files
//! expects, and every writer puts, in each place.

use vstd::prelude::*;

use crate::bytes::{le_bytes, le_value, lemma_le_bytes_len, unsigned16, unsigned64};
use crate::error::Error;
use crate::io::CursorModel;
use crate::ogg::header::{
    comments_bytes, field_bytes, head_bytes, key_allowed, law_tags_round_trip, parse_comments,
    parse_field, parse_head, parse_tags, plain_head, tags_bytes, HeadModel, TagsModel, HEAD_MAGIC,
};
use crate::ogg::page::{
    crc_bit, crc_byte, crc_of, flag_bos, flag_continued, flag_eos, lace_sum, lemma_crc_concat,
    page_bytes, page_crc, page_header_bytes, parse_page_header, PageHeader, PageModel,
    CAPTURE_PATTERN,
};
use crate::ogg::reader::{
    next_header, next_packet, split_page, take_page, OggReaderModel, PacketModel,
};
use crate::ogg::writer::{
    after_head, blank_writer, derived_serial, finish_ogg, head_page, laced, lemma_laced_wf,
    next_sequence, start_error, start_ogg, write_ogg, OggWriterModel, NO_PACKET_GRANULE,
};

verus! {

/// The number that two bytes spell, the low one first.
pub open spec fn two_bytes(b: Seq<u8>, i: int) -> int {
    b[i] + 256 * b[i + 1]
}

/// The number that four bytes spell, the low one first.
pub open spec fn four_bytes(b: Seq<u8>, i: int) -> int {
    two_bytes(b, i) + 65_536 * two_bytes(b, i + 2)
}

/// Two bytes, as the parsers read them.
proof fn lemma_two(b: Seq<u8>, i: int)
    requires
        0 <= i,
        i + 2 <= b.len(),
    ensures
        le_value(b.subrange(i, i + 2)) == two_bytes(b, i),
{
    let s = b.subrange(i, i + 2);
    reveal_with_fuel(le_value, 3);
    assert(s.subrange(1, 2)[0] == b[i + 1]);
    assert(s.subrange(1, 2).subrange(1, 1).len() == 0);
}

/// Four bytes, as the parsers read them.
proof fn lemma_four(b: Seq<u8>, i: int)
    requires
        0 <= i,
        i + 4 <= b.len(),
    ensures
        le_value(b.subrange(i, i + 4)) == four_bytes(b, i),
{
    let s = b.subrange(i, i + 4);
    reveal_with_fuel(le_value, 5);
    let s1 = s.subrange(1, 4);
    let s2 = s1.subrange(1, 3);
    let s3 = s2.subrange(1, 2);
    assert(s1[0] == b[i + 1] && s2[0] == b[i + 2] && s3[0] == b[i + 3]);
    assert(s3.subrange(1, 1).len() == 0);
}

/// Two bytes, as the writers put them.
proof fn lemma_put_two(v: nat)
    ensures
        le_bytes(v, 2).len() == 2,
        v < 65_536 ==> two_bytes(le_bytes(v, 2), 0) == v,
{
    reveal_with_fuel(le_bytes, 3);
}

/// Four bytes, as the writers put them.
proof fn lemma_put_four(v: nat)
    ensures
        le_bytes(v, 4).len() == 4,
        v < 0x1_0000_0000 ==> four_bytes(le_bytes(v, 4), 0) == v,
{
    reveal_with_fuel(le_bytes, 5);
    let (a, b, c) = (v / 256, v / 256 / 256, v / 256 / 256 / 256);
    assert(le_bytes(v, 4)[0] == v % 256);
    assert(le_bytes(v, 4)[1] == a % 256);
    assert(le_bytes(v, 4)[2] == b % 256);
    assert(le_bytes(v, 4)[3] == c % 256);
    assert(v == v % 256 + 256 * a && a == a % 256 + 256 * b && b == b % 256 + 256 * c);
}

/// Whether bytes start with `Opus` and then `Head` or `Tags`.
pub open spec fn starts_with_opus(b: Seq<u8>, head: bool) -> bool {
    &&& b.len() >= 8
    &&& b[0] == 0x4f && b[1] == 0x70 && b[2] == 0x75 && b[3] == 0x73
    &&& head ==> b[4] == 0x48 && b[5] == 0x65 && b[6] == 0x61 && b[7] == 0x64
    &&& !head ==> b[4] == 0x54 && b[5] == 0x61 && b[6] == 0x67 && b[7] == 0x73
}

/// An identification header is `OpusHead`, the version 1, the channels, the
/// pre-skip, the rate, the gain in two's complement, and the mapping family; and,
/// but for family 0, the streams, those of them that are coupled, and a byte for
/// each channel.
pub proof fn law_head_bytes(h: HeadModel)
    ensures
        ({
            let b = head_bytes(h);
            &&& starts_with_opus(b, true)
            &&& b[8] == 1
            &&& b[9] == h.channel_count
            &&& two_bytes(b, 10) == h.pre_skip
            &&& four_bytes(b, 12) == h.input_sample_rate
            &&& two_bytes(b, 16) == (if h.output_gain_q8 < 0 {
                h.output_gain_q8 + 65_536
            } else {
                h.output_gain_q8 as int
            })
            &&& b[18] == h.mapping_family
            &&& h.mapping_family == 0 ==> b.len() == 19
            &&& h.mapping_family != 0 ==> {
                &&& b.len() == 21 + h.channel_mapping.len()
                &&& b[19] == h.stream_count && b[20] == h.coupled_count
                &&& forall|i: int|
                    0 <= i < h.channel_mapping.len() ==> #[trigger] b[21 + i]
                        == h.channel_mapping[i]
            }
        }),
{
    let b = head_bytes(h);
    let skip = le_bytes(h.pre_skip as nat, 2);
    let rate = le_bytes(h.input_sample_rate as nat, 4);
    let gain = le_bytes(unsigned16(h.output_gain_q8 as int), 2);
    lemma_put_two(h.pre_skip as nat);
    lemma_put_four(h.input_sample_rate as nat);
    lemma_put_two(unsigned16(h.output_gain_q8 as int));
    assert(b[10] == skip[0] && b[11] == skip[1]);
    assert(b[12] == rate[0] && b[13] == rate[1] && b[14] == rate[2] && b[15] == rate[3]);
    assert(b[16] == gain[0] && b[17] == gain[1]);
}

/// What every file's identification header is read as, whoever wrote it: any
/// version below 16, with the fields where they belong. A header of family 0 is
/// read whatever follows it, and so is one of another family that maps every
/// channel to one that its streams carry, or to silence.
pub proof fn law_heads_are_read(b: Seq<u8>)
    requires
        b.len() >= 19,
        starts_with_opus(b, true),
        b[8] < 16,
        b[9] >= 1,
        b[18] == 0 ==> b[9] <= 2,
        b[18] != 0 ==> {
            &&& b.len() >= 21 + b[9]
            &&& 1 <= b[19]
            &&& b[20] <= b[19]
            &&& b[19] + b[20] <= 255
            &&& forall|i: int|
                21 <= i < 21 + b[9] ==> #[trigger] b[i] == 255 || b[i] < b[19] + b[20]
        },
    ensures
        ({
            let h = parse_head(b)->Ok_0;
            &&& parse_head(b) is Ok
            &&& h.channel_count == b[9]
            &&& h.pre_skip == two_bytes(b, 10)
            &&& h.input_sample_rate == four_bytes(b, 12)
            &&& h.output_gain_q8 == (if b[17] >= 128 {
                two_bytes(b, 16) - 65_536
            } else {
                two_bytes(b, 16)
            })
            &&& h.mapping_family == b[18]
            &&& b[18] == 0 ==> {
                &&& h.stream_count == 1 && h.coupled_count == b[9] - 1
                &&& h.channel_mapping.len() == b[9] && h.channel_mapping[0] == 0
                &&& b[9] == 2 ==> h.channel_mapping[1] == 1
            }
            &&& b[18] != 0 ==> {
                &&& h.stream_count == b[19] && h.coupled_count == b[20]
                &&& h.channel_mapping == b.subrange(21, 21 + b[9])
            }
        }),
{
    lemma_two(b, 10);
    lemma_four(b, 12);
    lemma_two(b, 16);
    assert(b.subrange(0, 8) =~= HEAD_MAGIC@);
    if b[18] != 0 {
        let mapping = b.subrange(21, 21 + b[9]);
        assert forall|i: int| 0 <= i < mapping.len() implies #[trigger] mapping[i] == 255
            || mapping[i] < b[19] + b[20] by {
            assert(mapping[i] == b[21 + i]);
        }
    }
}

/// What is not such a header is refused: one that starts otherwise, is shorter, has
/// no channels, or is of a version that changes the format.
pub proof fn law_other_heads_are_refused(b: Seq<u8>)
    ensures
        b.len() < 19 ==> parse_head(b) is Err,
        b.len() >= 19 && !starts_with_opus(b, true) ==> parse_head(b) is Err,
        b.len() >= 19 && b[8] >= 16 ==> parse_head(b) is Err,
        b.len() >= 19 && b[9] == 0 ==> parse_head(b) is Err,
        b.len() >= 19 && b[18] == 0 && b[9] > 2 ==> parse_head(b) is Err,
        b.len() >= 19 && b[18] != 0 && b.len() < 21 + b[9] ==> parse_head(b) is Err,
{
    if b.len() >= 19 {
        let m = HEAD_MAGIC@;
        let s = b.subrange(0, 8);
        if s == m {
            assert(s[0] == m[0] && s[1] == m[1] && s[2] == m[2] && s[3] == m[3]);
            assert(s[4] == m[4] && s[5] == m[5] && s[6] == m[6] && s[7] == m[7]);
        }
    }
}

/// A header without anything unusual is mono or stereo of family 0, skips 312
/// samples, and changes no gain.
pub proof fn law_plain_heads(channels: u8, rate: u32)
    requires
        channels == 1 || channels == 2,
    ensures
        ({
            let h = plain_head(channels, rate);
            &&& h.valid()
            &&& h.channel_count == channels && h.input_sample_rate == rate
            &&& h.pre_skip == 312 && h.output_gain_q8 == 0
            &&& h.mapping_family == 0 && h.stream_count == 1 && h.coupled_count == channels - 1
        }),
{
}

/// A comment header is `OpusTags`, the length of the vendor's name and the name,
/// the number of comments, and then for each its length and itself.
pub proof fn law_tags_bytes(t: TagsModel)
    requires
        t.fits(),
    ensures
        ({
            let b = tags_bytes(t);
            let v = t.vendor.len() as int;
            &&& starts_with_opus(b, false)
            &&& four_bytes(b, 8) == v
            &&& b.subrange(12, 12 + v) == t.vendor
            &&& four_bytes(b, 12 + v) == t.comments.len()
            &&& t.comments.len() == 0 ==> b.len() == 16 + v
            &&& t.comments.len() > 0 ==> {
                let c = t.comments[0];
                &&& b.len() >= 20 + v + c.len()
                &&& four_bytes(b, 16 + v) == c.len()
                &&& b.subrange(20 + v, 20 + v + c.len()) == c
                &&& t.comments.len() == 1 ==> b.len() == 20 + v + c.len()
            }
        }),
{
    let b = tags_bytes(t);
    let v = t.vendor.len() as int;
    let n = t.comments.len() as int;
    let name_len = le_bytes(t.vendor.len(), 4);
    let count = le_bytes(t.comments.len(), 4);
    lemma_put_four(t.vendor.len());
    lemma_put_four(t.comments.len());
    assert(b[8] == name_len[0] && b[9] == name_len[1] && b[10] == name_len[2] && b[11]
        == name_len[3]);
    assert(b.subrange(12, 12 + v) =~= t.vendor);
    assert(b[12 + v] == count[0] && b[13 + v] == count[1] && b[14 + v] == count[2] && b[15 + v]
        == count[3]);
    if n > 0 {
        let c = t.comments[0];
        let len = le_bytes(c.len(), 4);
        lemma_put_four(c.len());
        lemma_first_comment(t.comments, n);
        let all = comments_bytes(t.comments, n);
        assert(b.subrange(16 + v, b.len() as int) =~= all);
        assert(all.subrange(0, 4int + c.len()) == len + c);
        assert forall|i: int| 0 <= i < 4 + c.len() implies b[16 + v + i] == (len + c)[i] by {
            assert(all.subrange(0, 4int + c.len())[i] == all[i]);
            assert(b.subrange(16 + v, b.len() as int)[i] == b[16 + v + i]);
        }
        assert(len.len() == 4);
        assert forall|i: int| 0 <= i < 4 implies #[trigger] len[i] == b[16 + v + i] by {
            assert(b[16 + v + i] == (len + c)[i]);
        }
        assert(four_bytes(b, 16 + v) == four_bytes(len, 0)) by {
            assert(len[0] == b[16 + v + 0]);
            assert(len[1] == b[16 + v + 1]);
            assert(len[2] == b[16 + v + 2]);
            assert(len[3] == b[16 + v + 3]);
        }
        assert(b.subrange(20 + v, 20 + v + c.len()) =~= c) by {
            assert forall|i: int| 0 <= i < c.len() implies b[20 + v + i] == c[i] by {
                assert(b[16 + v + (4 + i)] == (len + c)[4 + i]);
            }
        }
    }
}

/// The first comment comes first.
proof fn lemma_first_comment(comments: Seq<Seq<u8>>, n: int)
    requires
        1 <= n <= comments.len(),
        comments[0].len() <= u32::MAX,
    ensures
        ({
            let all = comments_bytes(comments, n);
            let len = 4 + comments[0].len();
            &&& all.len() >= len
            &&& all.subrange(0, len as int) == le_bytes(comments[0].len(), 4) + comments[0]
            &&& n == 1 ==> all.len() == len
        }),
    decreases n,
{
    let all = comments_bytes(comments, n);
    let first = le_bytes(comments[0].len(), 4) + comments[0];
    lemma_le_bytes_len(comments[0].len(), 4);
    if n == 1 {
        assert(comments_bytes(comments, 0) =~= Seq::empty());
        assert(all =~= first);
        assert(all.subrange(0, first.len() as int) =~= first);
    } else {
        lemma_first_comment(comments, n - 1);
        let before = comments_bytes(comments, n - 1);
        assert(all.subrange(0, first.len() as int) =~= before.subrange(0, first.len() as int));
    }
}

/// A comment's key is printable ASCII without the equals sign and the tilde, and
/// not empty.
pub proof fn law_comment_keys(key: Seq<u8>, i: int)
    requires
        0 <= i < key.len(),
    ensures
        key_allowed(key) ==> 32 <= key[i] <= 125 && key[i] != 61,
        !(32 <= key[i] <= 125) || key[i] == 61 ==> !key_allowed(key),
        !key_allowed(Seq::empty()),
        32 <= key[i] <= 125 && key[i] != 61 ==> key_allowed(seq![key[i]]),
{
    let one = seq![key[i]];
    assert(one[0] == key[i]);
}

/// A page is `OggS`, a zero, the flags, the granule position, the serial number,
/// the page's number, the checksum, and the number of segments; then the lacing
/// values and the payload. The checksum is of the page with zeros in its place.
pub proof fn law_page_bytes(p: PageModel)
    requires
        p.segments.len() <= 255,
    ensures
        ({
            let b = page_bytes(p);
            let n = p.segments.len() as int;
            let whole = if p.granule < 0 {
                p.granule + 0x1_0000_0000_0000_0000
            } else {
                p.granule as int
            };
            &&& b.len() == 27 + n + p.payload.len()
            &&& b[0] == 0x4f && b[1] == 0x67 && b[2] == 0x67 && b[3] == 0x53
            &&& b[4] == 0
            &&& b[5] == p.flags
            &&& four_bytes(b, 6) + 0x1_0000_0000 * four_bytes(b, 10) == whole
            &&& four_bytes(b, 14) == p.serial
            &&& four_bytes(b, 18) == p.sequence
            &&& b[26] == n
            &&& b.subrange(27, 27 + n) == p.segments
            &&& b.subrange(27 + n, b.len() as int) == p.payload
            &&& four_bytes(b, 22) == crc_of(
                b.subrange(0, 22) + seq![0u8, 0, 0, 0] + b.subrange(26, b.len() as int),
                0,
            )
        }),
{
    let b = page_bytes(p);
    let n = p.segments.len() as int;
    let whole = unsigned64(p.granule as int);
    let granule = le_bytes(whole, 8);
    let serial = le_bytes(p.serial as nat, 4);
    let sequence = le_bytes(p.sequence as nat, 4);
    let crc = le_bytes(page_crc(p) as nat, 4);
    lemma_le_bytes_len(whole, 8);
    lemma_put_four(p.serial as nat);
    lemma_put_four(p.sequence as nat);
    lemma_put_four(page_crc(p) as nat);
    lemma_put_four(0);
    lemma_put_eight(whole);
    assert forall|i: int| 0 <= i < 8 implies #[trigger] granule[i] == b[6 + i] by {}
    assert(b[6] == granule[0] && b[7] == granule[1] && b[8] == granule[2] && b[9] == granule[3]);
    assert(b[10] == granule[4] && b[11] == granule[5] && b[12] == granule[6] && b[13]
        == granule[7]);
    assert(b[14] == serial[0] && b[15] == serial[1] && b[16] == serial[2] && b[17] == serial[3]);
    assert(b[18] == sequence[0] && b[19] == sequence[1] && b[20] == sequence[2] && b[21]
        == sequence[3]);
    assert(b[22] == crc[0] && b[23] == crc[1] && b[24] == crc[2] && b[25] == crc[3]);
    assert(b.subrange(27, 27 + n) =~= p.segments);
    assert(b.subrange(27 + n, b.len() as int) =~= p.payload);
    let zero = le_bytes(0, 4);
    assert(zero =~= seq![0u8, 0, 0, 0]) by {
        reveal_with_fuel(le_bytes, 5);
    }
    let blank = page_header_bytes(p, 0) + p.segments + p.payload;
    assert(b.subrange(0, 22) + seq![0u8, 0, 0, 0] + b.subrange(26, b.len() as int) =~= blank);
}

/// Eight bytes, as the writers put them.
proof fn lemma_put_eight(v: nat)
    requires
        v < 0x1_0000_0000_0000_0000,
    ensures
        le_bytes(v, 8).len() == 8,
        four_bytes(le_bytes(v, 8), 0) + 0x1_0000_0000 * four_bytes(le_bytes(v, 8), 4) == v,
{
    let low = v % 0x1_0000_0000;
    let high = v / 0x1_0000_0000;
    lemma_split_eight(v);
    lemma_put_four(low);
    lemma_put_four(high);
    let (a, b) = (le_bytes(low, 4), le_bytes(high, 4));
    let all = le_bytes(v, 8);
    assert(all[0] == a[0] && all[1] == a[1] && all[2] == a[2] && all[3] == a[3]);
    assert(all[4] == b[0] && all[5] == b[1] && all[6] == b[2] && all[7] == b[3]);
}

/// Eight bytes are four and four.
proof fn lemma_split_eight(v: nat)
    ensures
        le_bytes(v, 8) == le_bytes((v % 0x1_0000_0000) as nat, 4) + le_bytes(
            (v / 0x1_0000_0000) as nat,
            4,
        ),
{
    let low = (v % 0x1_0000_0000) as nat;
    let high = (v / 0x1_0000_0000) as nat;
    reveal_with_fuel(le_bytes, 9);
    let (v1, v2, v3) = (v / 256, v / 256 / 256, v / 256 / 256 / 256);
    let (l1, l2, l3) = (low / 256, low / 256 / 256, low / 256 / 256 / 256);
    assert(v3 / 256 == high);
    assert(low % 256 == v % 256);
    assert(l1 % 256 == v1 % 256);
    assert(l2 % 256 == v2 % 256);
    assert(l3 % 256 == v3 % 256);
    assert(le_bytes(v, 8) =~= le_bytes(low, 4) + le_bytes(high, 4));
}

/// What every page header is read as: the fields where they belong, the granule
/// position in two's complement, and only of the version zero.
pub proof fn law_page_headers_are_read(raw: Seq<u8>)
    requires
        raw.len() == 27,
        raw[0] == 0x4f && raw[1] == 0x67 && raw[2] == 0x67 && raw[3] == 0x53,
    ensures
        raw[4] == 0 <==> parse_page_header(raw) is Ok,
        parse_page_header(raw) matches Ok(h) ==> {
            let granule = four_bytes(raw, 6) + 0x1_0000_0000 * four_bytes(raw, 10);
            &&& h.flags == raw[5]
            &&& h.granule_position == (if raw[13] >= 128 {
                granule - 0x1_0000_0000_0000_0000
            } else {
                granule
            })
            &&& h.serial == four_bytes(raw, 14)
            &&& h.crc == four_bytes(raw, 22)
            &&& h.segment_count == raw[26]
        },
{
    assert(raw.subrange(0, 4) =~= CAPTURE_PATTERN@);
    lemma_four(raw, 6);
    lemma_four(raw, 10);
    lemma_four(raw, 14);
    lemma_four(raw, 22);
    lemma_eight(raw, 6);
}

/// Eight bytes, as the parsers read them.
proof fn lemma_eight(b: Seq<u8>, i: int)
    requires
        0 <= i,
        i + 8 <= b.len(),
    ensures
        le_value(b.subrange(i, i + 8)) == four_bytes(b, i) + 0x1_0000_0000 * four_bytes(b, i + 4),
{
    let s = b.subrange(i, i + 8);
    let s1 = s.subrange(1, 8);
    let s2 = s1.subrange(1, 7);
    let s3 = s2.subrange(1, 6);
    let s4 = s3.subrange(1, 5);
    assert(s4 =~= b.subrange(i + 4, i + 8));
    lemma_four(b, i + 4);
    assert(s[0] == b[i] && s1[0] == b[i + 1] && s2[0] == b[i + 2] && s3[0] == b[i + 3]);
    assert(le_value(s3) == s3[0] + 256 * le_value(s4));
    assert(le_value(s2) == s2[0] + 256 * le_value(s3));
    assert(le_value(s1) == s1[0] + 256 * le_value(s2));
    assert(le_value(s) == s[0] + 256 * le_value(s1));
}

/// The lowest flag says that the page continues a packet, the next that it is the
/// first of its stream, and the one above that it is the last.
pub proof fn law_page_flags(flags: u8)
    ensures
        flag_continued(flags) == (flags & 1u8 != 0),
        flag_bos(flags) == (flags & 2u8 != 0),
        flag_eos(flags) == (flags & 4u8 != 0),
{
    assert(flags % 2 == 1 <==> flags & 1u8 != 0) by (bit_vector);
    assert((flags / 2) % 2 == 1 <==> flags & 2u8 != 0) by (bit_vector);
    assert((flags / 4) % 2 == 1 <==> flags & 4u8 != 0) by (bit_vector);
}

/// The checksum is the remainder of a division by the polynomial `0x104c11db7`,
/// bit by bit from the top: a bit that leaves the register takes the polynomial
/// with it, and one that is not set takes nothing.
pub proof fn law_checksum_divides(c: u32)
    ensures
        c < 0x8000_0000 ==> crc_bit(c) == 2 * c,
        c >= 0x8000_0000 ==> crc_bit(c) ^ 0x04c1_1db7u32 == 2 * (c - 0x8000_0000),
        forall|init: u32| crc_of(Seq::empty(), init) == init,
        forall|b: u8, init: u32|
            #![trigger crc_of(seq![b], init)]
            crc_of(seq![b], init) == crc_of(seq![0u8], init ^ ((b as u32) << 24u32)),
        forall|s: Seq<u8>, t: Seq<u8>, init: u32|
            #![trigger crc_of(s + t, init)]
            crc_of(s + t, init) == crc_of(t, crc_of(s, init)),
{
    assert(c < 0x8000_0000u32 ==> c & 0x8000_0000u32 == 0 && c << 1u32 == 2 * c) by (bit_vector);
    let d = c & 0x7fff_ffffu32;
    assert(c >= 0x8000_0000u32 ==> c & 0x8000_0000u32 != 0 && ((c << 1u32) ^ 0x04c1_1db7u32)
        ^ 0x04c1_1db7u32 == 2 * (c & 0x7fff_ffffu32) && (c & 0x7fff_ffffu32) + 0x8000_0000u32 == c)
        by (bit_vector);
    assert forall|b: u8, init: u32|
        #![trigger crc_of(seq![b], init)]
        crc_of(seq![b], init) == crc_of(seq![0u8], init ^ ((b as u32) << 24u32)) by {
        assert(seq![b].drop_last() =~= Seq::empty());
        assert(seq![0u8].drop_last() =~= Seq::empty());
        assert((init ^ ((b as u32) << 24u32)) ^ ((0u8 as u32) << 24u32) == init ^ ((b as u32)
            << 24u32)) by (bit_vector);
        reveal_with_fuel(crc_of, 2);
    }
    assert forall|s: Seq<u8>, t: Seq<u8>, init: u32|
        #![trigger crc_of(s + t, init)]
        crc_of(s + t, init) == crc_of(t, crc_of(s, init)) by {
        lemma_crc_concat(s, t, init);
    }
}

/// The first page of a stream is flagged as that alone, is numbered zero, has a
/// granule of zero, and holds the identification header and nothing else.
pub proof fn law_first_page_is_the_header(h: HeadModel, serial: u32)
    requires
        head_bytes(h).len() <= 276,
    ensures
        ({
            let p = head_page(h, serial);
            &&& p.flags == 2
            &&& p.granule == 0
            &&& p.serial == serial
            &&& p.sequence == 0
            &&& p.payload == head_bytes(h)
        }),
{
    let b = head_bytes(h);
    let m = blank_writer(Seq::empty(), serial);
    reveal_with_fuel(laced, 3);
    assert(Seq::<u8>::empty() + b.subrange(0, b.len() as int) =~= b);
    if b.len() >= 255 {
        assert(Seq::<u8>::empty() + b.subrange(0, 255) + b.subrange(255, b.len() as int) =~= b);
    }
}

/// A page that a writer closes is flagged by whether it starts inside a packet and
/// whether it is the last, has the next number, and completes what it was counted
/// to.
pub proof fn law_pages_are_flagged(m: OggWriterModel, eos: bool)
    ensures
        ({
            let p = m.pending_page(eos);
            &&& p.flags == (if m.continued {
                1int
            } else {
                0
            }) + (if eos {
                4int
            } else {
                0
            })
            &&& p.granule == m.page_granule && p.serial == m.serial && p.sequence == m.sequence
            &&& m.sequence < u32::MAX ==> next_sequence(m.sequence) == m.sequence + 1
            &&& next_sequence(u32::MAX) == 0
        }),
{
}

/// A packet is laced as segments of 255 bytes and one shorter one that ends it,
/// even where that is empty.
pub proof fn law_packets_are_laced(m: OggWriterModel, packet: Seq<u8>)
    requires
        m.segments.len() + packet.len() / 255 < 255,
    ensures
        ({
            let after = laced(m, packet, 0, 0);
            let whole = packet.len() as int / 255;
            &&& after.sink == m.sink
            &&& after.payload == m.payload + packet
            &&& after.segments.len() == m.segments.len() + whole + 1
            &&& forall|i: int|
                0 <= i < m.segments.len() ==> #[trigger] after.segments[i] == m.segments[i]
            &&& forall|i: int|
                m.segments.len() <= i < m.segments.len() + whole ==> #[trigger] after.segments[i]
                    == 255
            &&& after.segments.last() == packet.len() as int % 255
        }),
{
    lemma_laced_from(m, packet, 0);
    assert(packet.subrange(0, packet.len() as int) =~= packet);
}

/// The rest of a packet is laced so.
proof fn lemma_laced_from(m: OggWriterModel, packet: Seq<u8>, from: int)
    requires
        0 <= from <= packet.len(),
        m.segments.len() + (packet.len() - from) / 255 < 255,
    ensures
        ({
            let after = laced(m, packet, from, 0);
            let rest = packet.subrange(from, packet.len() as int);
            let whole = (packet.len() - from) / 255;
            &&& after.sink == m.sink
            &&& after.payload == m.payload + rest
            &&& after.segments.len() == m.segments.len() + whole + 1
            &&& forall|i: int|
                0 <= i < m.segments.len() ==> #[trigger] after.segments[i] == m.segments[i]
            &&& forall|i: int|
                m.segments.len() <= i < m.segments.len() + whole ==> #[trigger] after.segments[i]
                    == 255
            &&& after.segments.last() == (packet.len() - from) % 255
        }),
    decreases packet.len() - from,
{
    let left = packet.len() - from;
    if left >= 255 {
        let head = packet.subrange(from, from + 255);
        let next = m.with_segment(head);
        assert((left - 255) / 255 == left / 255 - 1);
        assert((left - 255) % 255 == left % 255);
        lemma_laced_from(next, packet, from + 255);
        let after = laced(m, packet, from, 0);
        assert(after == laced(next, packet, from + 255, 0));
        let rest = packet.subrange(from, packet.len() as int);
        assert(m.payload + head + packet.subrange(from + 255, packet.len() as int) =~= m.payload
            + rest);
        assert forall|i: int| 0 <= i < m.segments.len() implies #[trigger] after.segments[i]
            == m.segments[i] by {
            assert(next.segments[i] == m.segments[i]);
        }
        assert forall|i: int|
            m.segments.len() <= i < m.segments.len() + left / 255 implies #[trigger] after.segments[i]
            == 255 by {
            if i == m.segments.len() {
                assert(next.segments[i] == 255);
                assert(i < next.segments.len());
            }
        }
    } else {
        let after = laced(m, packet, from, 0);
        assert forall|i: int| 0 <= i < m.segments.len() implies #[trigger] after.segments[i]
            == m.segments[i] by {}
    }
}

/// Writing a packet moves the granule on by what it is stated to decode to, up to
/// 120 ms, and by nothing where it is refused: an empty packet, or one stated to be
/// longer.
pub proof fn law_granules_count_samples(m: OggWriterModel, packet: Seq<u8>, samples: int)
    requires
        m.wf(),
        0 <= samples,
        m.granule + samples <= i64::MAX,
    ensures
        ({
            let (r, after) = write_ogg(m, packet, samples);
            &&& r is Ok <==> packet.len() > 0 && samples <= 5_760
            &&& r is Ok ==> after.granule == m.granule + samples && after.page_granule
                == m.granule + samples
            &&& r is Err ==> after == m
        }),
{
    let ready = if m.segments.len() > 0 && m.payload.len() >= m.page_target {
        m.flushed(false, false, NO_PACKET_GRANULE)
    } else {
        m
    };
    lemma_laced_wf(ready, packet, 0, NO_PACKET_GRANULE);
}

/// A page's segments are taken for packets wherever one is shorter than 255 bytes:
/// one short segment is a packet of its own after what was pending, and a full one
/// leaves it pending. Only a packet that ends the last page's last segment ends the
/// stream.
pub proof fn law_segments_end_packets(partial: Seq<u8>, data: Seq<u8>, granule: int, eos: bool)
    requires
        data.len() <= 255,
        partial.len() + data.len() <= 1_000_000,
    ensures
        ({
            let s = split_page(partial, seq![data.len() as u8], data, granule, eos, 1);
            &&& !s.too_big
            &&& data.len() == 255 ==> s.packets.len() == 0 && s.partial == partial + data
            &&& data.len() < 255 ==> s.partial.len() == 0
            &&& data.len() < 255 && (partial + data).len() > 0 ==> s.packets == seq![
                PacketModel { data: partial + data, page_granule: granule, end_of_stream: eos },
            ]
            &&& data.len() < 255 && (partial + data).len() == 0 ==> s.packets.len() == 0
        }),
{
    let laces = seq![data.len() as u8];
    assert(laces.drop_last() =~= Seq::empty());
    reveal_with_fuel(split_page, 2);
    assert(lace_sum(laces.drop_last()) == 0);
    assert(data.subrange(0, data.len() as int) =~= data);
    let s = split_page(partial, laces, data, granule, eos, 1);
    if data.len() < 255 && (partial + data).len() > 0 {
        assert(s.packets =~= seq![
            PacketModel { data: partial + data, page_granule: granule, end_of_stream: eos },
        ]);
    }
}

/// What a byte does to a register whose top it clears: the rest moves up.
proof fn lemma_crc_clears(c: u32, b: u8)
    requires
        b == (c >> 24u32) as u8,
    ensures
        crc_of(seq![b], c) == c << 8u32,
{
    reveal_with_fuel(crc_of, 2);
    assert(seq![b].drop_last() =~= Seq::empty());
    let x = c ^ ((b as u32) << 24u32);
    assert(x == c & 0x00ff_ffffu32) by (bit_vector)
        requires
            b == (c >> 24u32) as u8,
            x == c ^ ((b as u32) << 24u32),
    ;
    let x1 = x << 1u32;
    let x2 = x1 << 1u32;
    let x3 = x2 << 1u32;
    let x4 = x3 << 1u32;
    let x5 = x4 << 1u32;
    let x6 = x5 << 1u32;
    let x7 = x6 << 1u32;
    let x8 = x7 << 1u32;
    assert(x & 0x8000_0000u32 == 0 && x1 & 0x8000_0000u32 == 0 && x2 & 0x8000_0000u32 == 0 && x3
        & 0x8000_0000u32 == 0 && x4 & 0x8000_0000u32 == 0 && x5 & 0x8000_0000u32 == 0 && x6
        & 0x8000_0000u32 == 0 && x7 & 0x8000_0000u32 == 0 && x8 == c << 8u32) by (bit_vector)
        requires
            x == c & 0x00ff_ffffu32,
            x1 == x << 1u32,
            x2 == x1 << 1u32,
            x3 == x2 << 1u32,
            x4 == x3 << 1u32,
            x5 == x4 << 1u32,
            x6 == x5 << 1u32,
            x7 == x6 << 1u32,
            x8 == x7 << 1u32,
    ;
    assert(crc_byte(x) == x8);
}

/// A checksum checks itself: whatever it is followed by its own checksum, the high
/// byte first, has a checksum of zero.
pub proof fn law_checksum_checks_itself(s: Seq<u8>, init: u32)
    ensures
        ({
            let c = crc_of(s, init);
            crc_of(
                s + seq![(c >> 24u32) as u8] + seq![(c >> 16u32) as u8] + seq![(c >> 8u32) as u8]
                    + seq![c as u8],
                init,
            ) == 0
        }),
{
    let c = crc_of(s, init);
    let a = seq![(c >> 24u32) as u8];
    let b = seq![(c >> 16u32) as u8];
    let d = seq![(c >> 8u32) as u8];
    let e = seq![c as u8];
    lemma_crc_concat(s, a, init);
    lemma_crc_concat(s + a, b, init);
    lemma_crc_concat(s + a + b, d, init);
    lemma_crc_concat(s + a + b + d, e, init);
    let c1 = c << 8u32;
    let c2 = c1 << 8u32;
    let c3 = c2 << 8u32;
    assert((c1 >> 24u32) as u8 == (c >> 16u32) as u8 && (c2 >> 24u32) as u8 == (c >> 8u32) as u8
        && (c3 >> 24u32) as u8 == c as u8 && c3 << 8u32 == 0) by (bit_vector)
        requires
            c1 == c << 8u32,
            c2 == c1 << 8u32,
            c3 == c2 << 8u32,
    ;
    lemma_crc_clears(c, a[0]);
    lemma_crc_clears(c1, b[0]);
    lemma_crc_clears(c2, d[0]);
    lemma_crc_clears(c3, e[0]);
}

/// A page is closed once it holds what it aims at, 4096 bytes unless it was told
/// otherwise: the packet after that starts the next page. Until then it joins the
/// others.
pub proof fn law_pages_are_filled(m: OggWriterModel, packet: Seq<u8>, samples: int, serial: u32)
    requires
        m.wf(),
        0 < packet.len() < 255,
        0 <= samples <= 5_760,
        m.granule + samples <= i64::MAX,
        0 < m.segments.len() < 255,
    ensures
        blank_writer(Seq::empty(), serial).page_target == 4_096,
        ({
            let after = write_ogg(m, packet, samples).1;
            &&& m.payload.len() < m.page_target ==> after.sink == m.sink && after.sequence
                == m.sequence && after.payload == m.payload + packet && after.segments
                == m.segments.push(packet.len() as u8)
            &&& m.payload.len() >= m.page_target ==> after.sink == m.sink + page_bytes(
                m.pending_page(false),
            ) && after.sequence == next_sequence(m.sequence) && after.payload == packet
                && after.segments == seq![packet.len() as u8] && !after.continued
        }),
{
    assert(packet.subrange(0, packet.len() as int) =~= packet);
    assert(Seq::<u8>::empty() + packet =~= packet);
    assert(Seq::<u8>::empty().push(packet.len() as u8) =~= seq![packet.len() as u8]);
}

/// A stream that has been started has no samples yet, and its next page completes no
/// packet until one is written, which is what a granule of -1 says.
pub proof fn law_streams_start_empty(sink: Seq<u8>, head: HeadModel, tags: TagsModel, serial: u32)
    ensures
        ({
            let m = start_ogg(sink, head, tags, serial);
            &&& m.granule == 0
            &&& m.page_granule == -1
            &&& m.segments.len() == 0
            &&& m.payload.len() == 0
            &&& !m.continued
            &&& m.serial == serial
            &&& m.page_target == 4_096
        }),
{
    lemma_lacing_keeps(
        after_head(sink, head, serial),
        tags_bytes(tags),
        0,
        0,
    );
}

/// Lacing changes nothing but the pages.
proof fn lemma_lacing_keeps(m: OggWriterModel, packet: Seq<u8>, from: int, idle: i64)
    ensures
        laced(m, packet, from, idle).granule == m.granule,
        laced(m, packet, from, idle).serial == m.serial,
        laced(m, packet, from, idle).page_target == m.page_target,
    decreases packet.len() - from,
{
    if packet.len() - from >= 255 {
        let roomy = m.with_room(from, idle);
        lemma_lacing_keeps(
            roomy.with_segment(packet.subrange(from, from + 255)),
            packet,
            from + 255,
            idle,
        );
    }
}

/// Finishing flags the last page as that: the one that is pending, or, where there is
/// none, one with an empty segment, which completes all that was written.
pub proof fn law_last_page_is_flagged(m: OggWriterModel)
    ensures
        m.segments.len() > 0 ==> finish_ogg(m) == m.sink + page_bytes(m.pending_page(true)),
        m.segments.len() == 0 ==> ({
            let last = PageModel {
                flags: if m.continued {
                    5
                } else {
                    4
                },
                granule: m.granule,
                serial: m.serial,
                sequence: m.sequence,
                segments: seq![0u8],
                payload: m.payload,
            };
            finish_ogg(m) == m.sink + page_bytes(last)
        }),
{
}

/// A page is taken into its stream where it belongs: one that does not begin a stream
/// has to be of the same, and it has to begin inside a packet where one is pending and
/// only there. What is refused for that loses what was pending.
pub proof fn law_pages_belong_together(
    m: OggReaderModel,
    header: PageHeader,
    segments: Seq<u8>,
    payload: Seq<u8>,
)
    ensures
        ({
            let (r, after) = take_page(m, header, segments, payload);
            let first = (header.flags as int / 2) % 2 == 1;
            let continued = header.flags as int % 2 == 1;
            let last = (header.flags as int / 4) % 2 == 1;
            &&& !first && header.serial != m.serial ==> r is Err && after == m
            &&& (first || header.serial == m.serial) && continued && m.partial.len() == 0
                ==> r is Err && after.ready == m.ready
            &&& (first || header.serial == m.serial) && !continued && m.partial.len() > 0
                ==> r is Err && after.partial.len() == 0 && after.ready == m.ready
            &&& r is Ok ==> after.serial == header.serial && (after.saw_eos <==> last)
            &&& r is Ok ==> after.source == m.source && after.head == m.head
        }),
{
}

/// A packet is read as long as it is no more than 16 MiB; what is longer is given up,
/// and so is what has been read of it.
pub proof fn law_packets_are_bounded(partial: Seq<u8>, data: Seq<u8>, granule: int, eos: bool)
    requires
        data.len() <= 255,
    ensures
        ({
            let s = split_page(partial, seq![data.len() as u8], data, granule, eos, 1);
            &&& s.too_big <==> partial.len() + data.len() > 0x100_0000
            &&& s.too_big ==> s.partial.len() == 0 && s.packets.len() == 0
        }),
{
    let laces = seq![data.len() as u8];
    assert(laces.drop_last() =~= Seq::empty());
    reveal_with_fuel(split_page, 2);
    assert(lace_sum(laces.drop_last()) == 0);
}

/// A stream ends where its bytes do: nothing more is a header, and less than 27 bytes
/// are an error. Otherwise a header is what starts with `OggS` there.
pub proof fn law_headers_are_found(c: CursorModel)
    requires
        c.position <= c.bytes.len(),
    ensures
        ({
            let (r, after) = next_header(c);
            let at = c.position as int;
            let left = c.bytes.len() - at;
            &&& left == 0 ==> r is Ok && r->Ok_0 is None && after == c
            &&& 0 < left < 27 ==> r is Err && after.position == c.bytes.len()
            &&& left >= 27 && c.bytes[at] == 0x4f && c.bytes[at + 1] == 0x67 && c.bytes[at + 2]
                == 0x67 && c.bytes[at + 3] == 0x53 ==> r is Ok && r->Ok_0 == Some(
                c.bytes.subrange(at, at + 27),
            ) && after.position == at + 27
        }),
{
    let at = c.position as int;
    if c.bytes.len() - at >= 27 && c.bytes[at] == 0x4f && c.bytes[at + 1] == 0x67 && c.bytes[at + 2]
        == 0x67 && c.bytes[at + 3] == 0x53 {
        assert(c.bytes.subrange(at, at + 4) =~= CAPTURE_PATTERN@);
    }
}

/// Packets come in the order in which they were completed; once the last page has been
/// read and they are used up, there are no more.
pub proof fn law_packets_come_in_order(m: OggReaderModel)
    ensures
        m.ready.len() > 0 ==> next_packet(m).0 == Ok::<
            Option<PacketModel>,
            Error,
        >(Some(m.ready[0])) && next_packet(m).1.ready == m.ready.drop_first(),
        m.ready.len() == 0 && m.partial.len() == 0 && (m.saw_eos || m.exhausted) ==> next_packet(m)
            == (Ok::<Option<PacketModel>, Error>(None), m),
        m.ready.len() == 0 && m.partial.len() > 0 && (m.saw_eos || m.exhausted) ==> next_packet(
            m,
        ).0 is Err,
{
}

/// A header whose mapping does not hold together is refused: one without streams, with
/// more of them coupled than there are, with more channels than there are values, or
/// with a channel of a value that no stream has.
pub proof fn law_inconsistent_heads_are_refused(b: Seq<u8>, i: int)
    requires
        b.len() >= 21,
        b[18] != 0,
    ensures
        b[19] == 0 ==> parse_head(b) is Err,
        b[20] > b[19] ==> parse_head(b) is Err,
        b[19] + b[20] > 255 ==> parse_head(b) is Err,
        21 <= i < 21 + b[9] && i < b.len() && b[19] + b[20] <= b[i] < 255 ==> parse_head(b) is Err,
{
    if parse_head(b) is Ok {
        let mapping = b.subrange(21, 21 + b[9]);
        if 21 <= i < 21 + b[9] {
            assert(mapping[i - 21] == b[i]);
        }
    }
}

/// A stream can be started with any header that holds together and any tags that fit.
pub proof fn law_streams_can_be_started(head: HeadModel, tags: TagsModel)
    ensures
        start_error(head, tags) is None <==> head.valid() && tags.fits(),
{
}

/// What follows changes nothing about a field that is there.
proof fn lemma_field_extends(b: Seq<u8>, more: Seq<u8>, pos: int)
    requires
        0 <= pos,
        parse_field(b, pos) is Some,
    ensures
        parse_field(b + more, pos) == parse_field(b, pos),
{
    let longer = b + more;
    assert(longer.subrange(pos, pos + 4) =~= b.subrange(pos, pos + 4));
    let n = le_value(b.subrange(pos, pos + 4)) as int;
    assert(longer.subrange(pos + 4, pos + 4 + n) =~= b.subrange(pos + 4, pos + 4 + n));
}

/// What follows changes nothing about comments that are there, and they take the bytes
/// that they would be written in.
proof fn lemma_comments_extend(
    b: Seq<u8>,
    more: Seq<u8>,
    pos: int,
    left: nat,
    read: Seq<Seq<u8>>,
)
    requires
        0 <= pos <= b.len(),
        parse_comments(b, pos, left, read) is Some,
    ensures
        parse_comments(b + more, pos, left, read) == parse_comments(b, pos, left, read),
        ({
            let c = parse_comments(b, pos, left, read)->0;
            comments_bytes(c, c.len() as int).len() + pos <= b.len() + comments_bytes(
                read,
                read.len() as int,
            ).len()
        }),
    decreases left,
{
    if left > 0 {
        lemma_field_extends(b, more, pos);
        let (comment, next) = parse_field(b, pos)->0;
        let grown = read.push(comment);
        lemma_comments_extend(b, more, next, (left - 1) as nat, grown);
        lemma_comments_of_first(grown, read, read.len() as int);
        assert(comments_bytes(grown, grown.len() as int) == comments_bytes(
            grown,
            read.len() as int,
        ) + field_bytes(comment));
        lemma_le_bytes_len(comment.len(), 4);
    }
}

/// The bytes of the first comments are theirs alone.
proof fn lemma_comments_of_first(a: Seq<Seq<u8>>, b: Seq<Seq<u8>>, n: int)
    requires
        0 <= n <= a.len(),
        n <= b.len(),
        forall|i: int| 0 <= i < n ==> #[trigger] a[i] == b[i],
    ensures
        comments_bytes(a, n) == comments_bytes(b, n),
    decreases n,
{
    if n > 0 {
        lemma_comments_of_first(a, b, n - 1);
        assert(a[n - 1] == b[n - 1]);
    }
}

/// A comment header that is cut short anywhere is refused.
pub proof fn law_cut_tags_are_refused(t: TagsModel, k: int)
    requires
        t.fits(),
        0 <= k < tags_bytes(t).len(),
    ensures
        parse_tags(tags_bytes(t).subrange(0, k)) is Err,
{
    let whole = tags_bytes(t);
    let b = whole.subrange(0, k);
    let more = whole.subrange(k, whole.len() as int);
    assert(b + more =~= whole);
    law_tags_round_trip(t);
    if parse_tags(b) is Ok {
        assert(whole.subrange(0, 8) =~= b.subrange(0, 8));
        let (vendor, pos) = parse_field(b, 8)->0;
        lemma_field_extends(b, more, 8);
        assert(whole.subrange(pos, pos + 4) =~= b.subrange(pos, pos + 4));
        let left = le_value(b.subrange(pos, pos + 4));
        lemma_comments_extend(b, more, pos + 4, left, Seq::empty());
        let comments = parse_comments(b, pos + 4, left, Seq::empty())->0;
        assert(t == (TagsModel { vendor, comments }));
        assert(comments_bytes(Seq::<Seq<u8>>::empty(), 0).len() == 0);
        lemma_le_bytes_len(t.vendor.len(), 4);
        lemma_le_bytes_len(t.comments.len(), 4);
    }
}

/// A serial number that is derived from a header is its checksum.
pub proof fn law_serials_are_checksums(head: HeadModel)
    ensures
        ({
            let s = derived_serial(head);
            crc_of(
                head_bytes(head) + seq![(s >> 24u32) as u8] + seq![(s >> 16u32) as u8] + seq![(s
                    >> 8u32) as u8] + seq![s as u8],
                0,
            ) == 0
        }),
{
    law_checksum_checks_itself(head_bytes(head), 0);
}

} // verus!
