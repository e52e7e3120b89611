//! The two header packets of an Ogg Opus stream: the identification header
//! `OpusHead` and the comment header `OpusTags`.

use vstd::prelude::*;
use vstd::string::StringSliceAdditionalSpecFns;

use crate::bytes::{
    le_bytes, le_value, lemma_le_bytes_len, lemma_le_round_trip, lemma_pow256_values, push_all,
    push_le, read_le,
    same_bytes, signed16, to_signed16, to_unsigned16, unsigned16,
};
use crate::error::Error;

verus! {

/// The magic of the identification header, `OpusHead`.
pub const HEAD_MAGIC: [u8; 8] = [0x4f, 0x70, 0x75, 0x73, 0x48, 0x65, 0x61, 0x64];

/// The magic of the comment header, `OpusTags`.
pub const TAGS_MAGIC: [u8; 8] = [0x4f, 0x70, 0x75, 0x73, 0x54, 0x61, 0x67, 0x73];

/// The header version this crate writes.
pub const HEAD_VERSION: u8 = 1;

/// The part of the identification header that every stream has.
pub const HEAD_FIXED_LEN: usize = 19;

/// The conventional encoder delay at 48 kHz, in samples.
pub const RECOMMENDED_PRE_SKIP: u16 = 312;

/// The name this crate gives itself in the comment header: `opus-pure 0.2.0`.
pub const VENDOR: [u8; 15] = [
    0x6f, 0x70, 0x75, 0x73, 0x2d, 0x70, 0x75, 0x72, 0x65, 0x20, 0x30, 0x2e, 0x32, 0x2e, 0x30,
];

/// The identification header: what a player has to know before the first
/// packet.
#[derive(Debug, Clone, PartialEq, Eq)]
pub struct OpusHead {
    /// Channels in the decoded output.
    pub channel_count: u8,
    /// Samples at 48 kHz to drop from the start of the decoded output.
    pub pre_skip: u16,
    /// The rate of the audio before it was encoded. Informational.
    pub input_sample_rate: u32,
    /// The gain to apply to the decoded output, in dB with 8 fraction bits.
    pub output_gain_q8: i16,
    /// The channel mapping family: 0 for mono and stereo.
    pub mapping_family: u8,
    /// Opus streams in each packet.
    pub stream_count: u8,
    /// How many of those streams are stereo.
    pub coupled_count: u8,
    /// Which decoded channel each output channel takes; 255 is silence.
    pub channel_mapping: Vec<u8>,
}

/// What an [`OpusHead`] holds.
#[verifier::ext_equal]
pub struct HeadModel {
    /// Channels in the decoded output.
    pub channel_count: u8,
    /// Samples at 48 kHz to drop from the start.
    pub pre_skip: u16,
    /// The rate of the audio before it was encoded.
    pub input_sample_rate: u32,
    /// The gain, in dB with 8 fraction bits.
    pub output_gain_q8: i16,
    /// The channel mapping family.
    pub mapping_family: u8,
    /// Opus streams in each packet.
    pub stream_count: u8,
    /// How many of those are stereo.
    pub coupled_count: u8,
    /// Which decoded channel each output channel takes.
    pub channel_mapping: Seq<u8>,
}

impl View for OpusHead {
    type V = HeadModel;

    open spec fn view(&self) -> HeadModel {
        HeadModel {
            channel_count: self.channel_count,
            pre_skip: self.pre_skip,
            input_sample_rate: self.input_sample_rate,
            output_gain_q8: self.output_gain_q8,
            mapping_family: self.mapping_family,
            stream_count: self.stream_count,
            coupled_count: self.coupled_count,
            channel_mapping: self.channel_mapping@,
        }
    }
}

/// The channel mapping of family 0: one stream, coupled when there are two
/// channels.
pub open spec fn plain_mapping(channels: int) -> Seq<u8> {
    if channels == 1 {
        seq![0u8]
    } else {
        seq![0u8, 1u8]
    }
}

/// The header of a mono or stereo stream with nothing unusual about it.
pub open spec fn plain_head(channels: u8, rate: u32) -> HeadModel {
    HeadModel {
        channel_count: channels,
        pre_skip: RECOMMENDED_PRE_SKIP,
        input_sample_rate: rate,
        output_gain_q8: 0,
        mapping_family: 0,
        stream_count: 1,
        coupled_count: (channels - 1) as u8,
        channel_mapping: plain_mapping(channels as int),
    }
}

/// Whether every output channel takes a channel the streams decode to, or none.
pub open spec fn mapping_in_range(mapping: Seq<u8>, decoded: int) -> bool {
    forall|i: int| 0 <= i < mapping.len() ==> #[trigger] mapping[i] == 255 || mapping[i] < decoded
}

impl HeadModel {
    /// Whether the header describes a stream.
    pub open spec fn valid(self) -> bool {
        if self.mapping_family == 0 {
            &&& self.channel_count == 1 || self.channel_count == 2
            &&& self.stream_count == 1
            &&& self.coupled_count == self.channel_count - 1
            &&& self.channel_mapping == plain_mapping(self.channel_count as int)
        } else {
            &&& self.channel_count >= 1
            &&& self.stream_count >= 1
            &&& self.coupled_count <= self.stream_count
            &&& self.stream_count + self.coupled_count <= 255
            &&& self.channel_mapping.len() == self.channel_count
            &&& mapping_in_range(self.channel_mapping, self.stream_count + self.coupled_count)
        }
    }
}

/// The bytes of an identification header.
pub open spec fn head_bytes(h: HeadModel) -> Seq<u8> {
    let fixed = HEAD_MAGIC@ + seq![HEAD_VERSION, h.channel_count] + le_bytes(h.pre_skip as nat, 2)
        + le_bytes(h.input_sample_rate as nat, 4) + le_bytes(
        unsigned16(h.output_gain_q8 as int),
        2,
    ) + seq![h.mapping_family];
    if h.mapping_family == 0 {
        fixed
    } else {
        fixed + seq![h.stream_count, h.coupled_count] + h.channel_mapping
    }
}

/// What an identification header says, or why it is not one.
pub open spec fn parse_head(b: Seq<u8>) -> Result<HeadModel, Error> {
    if b.len() < HEAD_FIXED_LEN || b.subrange(0, 8) != HEAD_MAGIC@ {
        Err(Error::InvalidStream("first packet is not OpusHead"))
    } else if b[8] >= 16 {
        Err(Error::InvalidStream("unsupported OpusHead version"))
    } else {
        let channels = b[9];
        let pre_skip = le_value(b.subrange(10, 12)) as u16;
        let rate = le_value(b.subrange(12, 16)) as u32;
        let gain = signed16(le_value(b.subrange(16, 18))) as i16;
        let family = b[18];
        if channels == 0 {
            Err(Error::InvalidStream("OpusHead has no channels"))
        } else if family == 0 {
            if channels > 2 {
                Err(Error::InvalidStream("OpusHead mapping family 0 is mono or stereo"))
            } else {
                Ok(
                    HeadModel {
                        pre_skip,
                        output_gain_q8: gain,
                        ..plain_head(channels, rate)
                    },
                )
            }
        } else if b.len() < 21 + channels {
            Err(Error::InvalidStream("OpusHead channel mapping is truncated"))
        } else {
            let h = HeadModel {
                channel_count: channels,
                pre_skip,
                input_sample_rate: rate,
                output_gain_q8: gain,
                mapping_family: family,
                stream_count: b[19],
                coupled_count: b[20],
                channel_mapping: b.subrange(21, 21 + channels),
            };
            if h.valid() {
                Ok(h)
            } else {
                Err(Error::InvalidStream("OpusHead channel mapping is inconsistent"))
            }
        }
    }
}

/// Whether every entry of a mapping is a decoded channel or silence.
fn check_mapping(mapping: &[u8], decoded: usize) -> (ok: bool)
    ensures
        ok == mapping_in_range(mapping@, decoded as int),
{
    let mut i: usize = 0;
    while i < mapping.len()
        invariant
            i <= mapping@.len(),
            forall|k: int| 0 <= k < i ==> #[trigger] mapping@[k] == 255 || mapping@[k] < decoded,
        decreases mapping@.len() - i,
    {
        if mapping[i] != 255 && mapping[i] as usize >= decoded {
            return false;
        }
        i = i + 1;
    }
    true
}

impl OpusHead {
    /// A mono or stereo header with the conventional pre-skip and no gain.
    pub fn new(channels: u8, input_sample_rate: u32) -> (r: Result<OpusHead, Error>)
        ensures
            match r {
                Ok(head) => (channels == 1 || channels == 2) && head@ == plain_head(
                    channels,
                    input_sample_rate,
                ) && head@.valid(),
                Err(e) => channels != 1 && channels != 2 && e == Error::InvalidArgument(
                    "an OpusHead without a channel mapping is mono or stereo",
                ),
            },
    {
        if channels != 1 && channels != 2 {
            return Err(
                Error::InvalidArgument("an OpusHead without a channel mapping is mono or stereo"),
            );
        }
        let mut mapping: Vec<u8> = Vec::new();
        mapping.push(0);
        if channels == 2 {
            mapping.push(1);
        }
        assert(mapping@ =~= plain_mapping(channels as int));
        Ok(
            OpusHead {
                channel_count: channels,
                pre_skip: RECOMMENDED_PRE_SKIP,
                input_sample_rate,
                output_gain_q8: 0,
                mapping_family: 0,
                stream_count: 1,
                coupled_count: channels - 1,
                channel_mapping: mapping,
            },
        )
    }

    /// Whether the header describes a stream.
    pub fn is_valid(&self) -> (ok: bool)
        ensures
            ok == self@.valid(),
    {
        if self.mapping_family == 0 {
            if self.channel_count != 1 && self.channel_count != 2 {
                return false;
            }
            if self.stream_count != 1 || self.coupled_count != self.channel_count - 1 {
                return false;
            }
            if self.channel_count == 1 {
                let plain: [u8; 1] = [0];
                assert(plain@ =~= plain_mapping(1));
                same_bytes(&self.channel_mapping, &plain)
            } else {
                let plain: [u8; 2] = [0, 1];
                assert(plain@ =~= plain_mapping(2));
                same_bytes(&self.channel_mapping, &plain)
            }
        } else {
            let decoded: usize = self.stream_count as usize + self.coupled_count as usize;
            self.channel_count >= 1 && self.stream_count >= 1 && self.coupled_count
                <= self.stream_count && decoded <= 255 && self.channel_mapping.len()
                == self.channel_count as usize && check_mapping(&self.channel_mapping, decoded)
        }
    }

    /// Read an identification header.
    pub fn parse(b: &[u8]) -> (r: Result<OpusHead, Error>)
        ensures
            match (r, parse_head(b@)) {
                (Ok(head), Ok(model)) => head@ == model && head@.valid(),
                (Err(e), Err(expected)) => e == expected,
                _ => false,
            },
    {
        if b.len() < HEAD_FIXED_LEN || !same_bytes(&b[0..8], &HEAD_MAGIC) {
            return Err(Error::InvalidStream("first packet is not OpusHead"));
        }
        if b[8] >= 16 {
            return Err(Error::InvalidStream("unsupported OpusHead version"));
        }
        proof {
            lemma_pow256_values();
        }
        let channels: u8 = b[9];
        let pre_skip: u16 = read_le(b, 10, 2) as u16;
        let rate: u32 = read_le(b, 12, 4) as u32;
        let gain: i16 = to_signed16(read_le(b, 16, 2) as u16);
        let family: u8 = b[18];
        if channels == 0 {
            return Err(Error::InvalidStream("OpusHead has no channels"));
        }
        if family == 0 {
            if channels > 2 {
                return Err(Error::InvalidStream("OpusHead mapping family 0 is mono or stereo"));
            }
            let mut head = OpusHead::new(channels, rate)?;
            head.pre_skip = pre_skip;
            head.output_gain_q8 = gain;
            return Ok(head);
        }
        if b.len() < 21 + channels as usize {
            return Err(Error::InvalidStream("OpusHead channel mapping is truncated"));
        }
        let mut mapping: Vec<u8> = Vec::new();
        push_all(&mut mapping, &b[21..21 + channels as usize]);
        assert(mapping@ =~= b@.subrange(21, 21 + channels));
        let head = OpusHead {
            channel_count: channels,
            pre_skip,
            input_sample_rate: rate,
            output_gain_q8: gain,
            mapping_family: family,
            stream_count: b[19],
            coupled_count: b[20],
            channel_mapping: mapping,
        };
        if !head.is_valid() {
            return Err(Error::InvalidStream("OpusHead channel mapping is inconsistent"));
        }
        Ok(head)
    }

    /// The header as a packet.
    pub fn to_bytes(&self) -> (out: Vec<u8>)
        ensures
            out@ == head_bytes(self@),
    {
        let mut out: Vec<u8> = Vec::new();
        push_all(&mut out, &HEAD_MAGIC);
        out.push(HEAD_VERSION);
        out.push(self.channel_count);
        push_le(&mut out, self.pre_skip as u64, 2);
        push_le(&mut out, self.input_sample_rate as u64, 4);
        push_le(&mut out, to_unsigned16(self.output_gain_q8) as u64, 2);
        out.push(self.mapping_family);
        if self.mapping_family != 0 {
            out.push(self.stream_count);
            out.push(self.coupled_count);
            push_all(&mut out, &self.channel_mapping);
        }
        assert(out@ =~= head_bytes(self@));
        out
    }
}

/// A valid identification header reads back as it was written.
pub proof fn law_head_round_trip(h: HeadModel)
    requires
        h.valid(),
    ensures
        parse_head(head_bytes(h)) == Ok::<HeadModel, Error>(h),
        19 <= head_bytes(h).len() <= 276,
{
    lemma_pow256_values();
    lemma_le_round_trip(h.pre_skip as nat, 2);
    lemma_le_round_trip(h.input_sample_rate as nat, 4);
    lemma_le_round_trip(unsigned16(h.output_gain_q8 as int), 2);
    let b = head_bytes(h);
    assert(b.subrange(0, 8) =~= HEAD_MAGIC@);
    assert(b.subrange(10, 12) =~= le_bytes(h.pre_skip as nat, 2));
    assert(b.subrange(12, 16) =~= le_bytes(h.input_sample_rate as nat, 4));
    assert(b.subrange(16, 18) =~= le_bytes(unsigned16(h.output_gain_q8 as int), 2));
    if h.mapping_family != 0 {
        assert(b.subrange(21, 21 + h.channel_count) =~= h.channel_mapping);
    }
}

/// The comment header: who encoded the stream, and what it is.
#[derive(Debug, Clone, PartialEq, Eq)]
pub struct OpusTags {
    /// The encoder's name.
    pub vendor: Vec<u8>,
    /// The comments, each `KEY=value`.
    pub comments: Vec<Vec<u8>>,
}

/// What an [`OpusTags`] holds.
#[verifier::ext_equal]
pub struct TagsModel {
    /// The encoder's name.
    pub vendor: Seq<u8>,
    /// The comments.
    pub comments: Seq<Seq<u8>>,
}

impl View for OpusTags {
    type V = TagsModel;

    open spec fn view(&self) -> TagsModel {
        TagsModel {
            vendor: self.vendor@,
            comments: Seq::new(self.comments@.len(), |i: int| self.comments@[i]@),
        }
    }
}

impl TagsModel {
    /// Whether every length fits the header's 32-bit counts.
    pub open spec fn fits(self) -> bool {
        &&& self.vendor.len() <= u32::MAX
        &&& self.comments.len() <= u32::MAX
        &&& forall|i: int|
            0 <= i < self.comments.len() ==> (#[trigger] self.comments[i]).len() <= u32::MAX
    }
}

/// A byte string with its length ahead of it.
pub open spec fn field_bytes(s: Seq<u8>) -> Seq<u8> {
    le_bytes(s.len(), 4) + s
}

/// The first `n` comments.
pub open spec fn comments_bytes(comments: Seq<Seq<u8>>, n: int) -> Seq<u8>
    decreases n,
{
    if n <= 0 {
        Seq::empty()
    } else {
        comments_bytes(comments, n - 1) + field_bytes(comments[n - 1])
    }
}

/// The bytes of a comment header.
pub open spec fn tags_bytes(t: TagsModel) -> Seq<u8> {
    TAGS_MAGIC@ + field_bytes(t.vendor) + le_bytes(t.comments.len(), 4) + comments_bytes(
        t.comments,
        t.comments.len() as int,
    )
}

/// The byte string at `pos` with its length ahead of it, and where it ends.
pub open spec fn parse_field(b: Seq<u8>, pos: int) -> Option<(Seq<u8>, int)> {
    if pos + 4 > b.len() {
        None
    } else {
        let n = le_value(b.subrange(pos, pos + 4)) as int;
        if pos + 4 + n > b.len() {
            None
        } else {
            Some((b.subrange(pos + 4, pos + 4 + n), pos + 4 + n))
        }
    }
}

/// The `left` comments at `pos`, after those in `read`.
pub open spec fn parse_comments(b: Seq<u8>, pos: int, left: nat, read: Seq<Seq<u8>>) -> Option<
    Seq<Seq<u8>>,
>
    decreases left,
{
    if left == 0 {
        Some(read)
    } else {
        match parse_field(b, pos) {
            None => None,
            Some((comment, next)) => parse_comments(b, next, (left - 1) as nat, read.push(comment)),
        }
    }
}

/// What a comment header says, or why it is not one. What follows the comments
/// is padding.
pub open spec fn parse_tags(b: Seq<u8>) -> Result<TagsModel, Error> {
    if b.len() < 8 || b.subrange(0, 8) != TAGS_MAGIC@ {
        Err(Error::InvalidStream("second packet is not OpusTags"))
    } else {
        match parse_field(b, 8) {
            None => Err(Error::InvalidStream("OpusTags is truncated")),
            Some((vendor, pos)) => if pos + 4 > b.len() {
                Err(Error::InvalidStream("OpusTags is truncated"))
            } else {
                match parse_comments(
                    b,
                    pos + 4,
                    le_value(b.subrange(pos, pos + 4)),
                    Seq::empty(),
                ) {
                    None => Err(Error::InvalidStream("OpusTags is truncated")),
                    Some(comments) => Ok(TagsModel { vendor, comments }),
                }
            },
        }
    }
}

/// The byte string at `pos` with its length ahead of it, and where it ends.
fn read_field(b: &[u8], pos: usize) -> (r: Option<(Vec<u8>, usize)>)
    requires
        pos <= b@.len(),
    ensures
        match (r, parse_field(b@, pos as int)) {
            (Some((field, next)), Some((model, end))) => field@ == model && next == end && next
                <= b@.len(),
            (None, None) => true,
            _ => false,
        },
{
    if b.len() - pos < 4 {
        return None;
    }
    proof {
        lemma_pow256_values();
    }
    let n: u64 = read_le(b, pos, 4);
    let from: usize = pos + 4;
    if n > (b.len() - from) as u64 {
        return None;
    }
    let to: usize = from + n as usize;
    let mut field: Vec<u8> = Vec::new();
    push_all(&mut field, &b[from..to]);
    assert(field@ =~= b@.subrange(from as int, to as int));
    Some((field, to))
}

/// Whether a byte may stand in a comment's key: printable ASCII but for `~` and
/// the equals sign.
pub open spec fn key_byte(b: u8) -> bool {
    0x20 <= b <= 0x7d && b != 0x3d
}

/// Whether a byte string may be a comment's key.
pub open spec fn key_allowed(key: Seq<u8>) -> bool {
    key.len() > 0 && forall|i: int| 0 <= i < key.len() ==> key_byte(#[trigger] key[i])
}

/// Whether a byte string may be a comment's key.
fn check_key(key: &[u8]) -> (ok: bool)
    ensures
        ok == key_allowed(key@),
{
    if key.len() == 0 {
        return false;
    }
    let mut i: usize = 0;
    while i < key.len()
        invariant
            i <= key@.len(),
            forall|k: int| 0 <= k < i ==> key_byte(#[trigger] key@[k]),
        decreases key@.len() - i,
    {
        let b: u8 = key[i];
        if b < 0x20 || b > 0x7d || b == 0x3d {
            assert(!key_byte(key@[i as int]));
            return false;
        }
        i = i + 1;
    }
    true
}

impl OpusTags {
    /// A comment header with this crate's name and no comments.
    pub fn new() -> (tags: OpusTags)
        ensures
            tags@ == (TagsModel { vendor: VENDOR@, comments: Seq::empty() }),
            tags@.fits(),
    {
        let mut vendor: Vec<u8> = Vec::new();
        push_all(&mut vendor, &VENDOR);
        let tags = OpusTags { vendor, comments: Vec::new() };
        assert(tags@.vendor =~= VENDOR@);
        assert(tags@.comments =~= Seq::empty());
        tags
    }

    /// Add a comment.
    pub fn push(&mut self, key: &str, value: &str) -> (r: Result<(), Error>)
        ensures
            match r {
                Ok(_) => key_allowed(key.spec_bytes()) && final(self)@ == (TagsModel {
                    vendor: old(self)@.vendor,
                    comments: old(self)@.comments.push(
                        key.spec_bytes() + seq![0x3du8] + value.spec_bytes(),
                    ),
                }),
                Err(e) => !key_allowed(key.spec_bytes()) && final(self)@ == old(self)@ && e
                    == Error::InvalidArgument("a comment key is printable ASCII without `=`"),
            },
    {
        if !check_key(key.as_bytes()) {
            return Err(Error::InvalidArgument("a comment key is printable ASCII without `=`"));
        }
        let mut comment: Vec<u8> = Vec::new();
        push_all(&mut comment, key.as_bytes());
        comment.push(0x3d);
        push_all(&mut comment, value.as_bytes());
        assert(comment@ =~= key.spec_bytes() + seq![0x3du8] + value.spec_bytes());
        self.comments.push(comment);
        assert(self@.comments =~= old(self)@.comments.push(comment@));
        Ok(())
    }

    /// Whether every length fits the header's 32-bit counts.
    pub fn fits(&self) -> (ok: bool)
        ensures
            ok == self@.fits(),
    {
        if self.vendor.len() as u64 > u32::MAX as u64 || self.comments.len() as u64
            > u32::MAX as u64 {
            return false;
        }
        let mut i: usize = 0;
        while i < self.comments.len()
            invariant
                i <= self.comments@.len(),
                forall|k: int|
                    0 <= k < i ==> (#[trigger] self@.comments[k]).len() <= u32::MAX,
            decreases self.comments@.len() - i,
        {
            if self.comments[i].len() as u64 > u32::MAX as u64 {
                assert(self@.comments[i as int].len() > u32::MAX);
                return false;
            }
            i = i + 1;
        }
        true
    }

    /// Read a comment header.
    pub fn parse(b: &[u8]) -> (r: Result<OpusTags, Error>)
        ensures
            match (r, parse_tags(b@)) {
                (Ok(tags), Ok(model)) => tags@ == model,
                (Err(e), Err(expected)) => e == expected,
                _ => false,
            },
    {
        if b.len() < 8 || !same_bytes(&b[0..8], &TAGS_MAGIC) {
            return Err(Error::InvalidStream("second packet is not OpusTags"));
        }
        let (vendor, at): (Vec<u8>, usize) = match read_field(b, 8) {
            Some((vendor, at)) => (vendor, at),
            None => return Err(Error::InvalidStream("OpusTags is truncated")),
        };
        if b.len() - at < 4 {
            return Err(Error::InvalidStream("OpusTags is truncated"));
        }
        let count: u64 = read_le(b, at, 4);
        let mut left: u64 = count;
        let mut pos: usize = at + 4;
        let mut comments: Vec<Vec<u8>> = Vec::new();
        let ghost read = Seq::<Seq<u8>>::empty();
        while left > 0
            invariant
                pos <= b@.len(),
                read == Seq::new(comments@.len(), |i: int| comments@[i]@),
                parse_comments(b@, at + 4, count as nat, Seq::empty()) == parse_comments(
                    b@,
                    pos as int,
                    left as nat,
                    read,
                ),
                b@.len() >= 8,
                b@.subrange(0, 8) == TAGS_MAGIC@,
                parse_field(b@, 8) == Some((vendor@, at as int)),
                at + 4 <= b@.len(),
                count == le_value(b@.subrange(at as int, at + 4)),
            decreases left,
        {
            match read_field(b, pos) {
                None => return Err(Error::InvalidStream("OpusTags is truncated")),
                Some((comment, next)) => {
                    proof {
                        read = read.push(comment@);
                    }
                    comments.push(comment);
                    pos = next;
                    left = left - 1;
                    assert(read =~= Seq::new(comments@.len(), |i: int| comments@[i]@));
                },
            }
        }
        Ok(OpusTags { vendor, comments })
    }

    /// The header as a packet.
    pub fn to_bytes(&self) -> (out: Vec<u8>)
        requires
            self@.fits(),
        ensures
            out@ == tags_bytes(self@),
    {
        let mut out: Vec<u8> = Vec::new();
        push_all(&mut out, &TAGS_MAGIC);
        push_le(&mut out, self.vendor.len() as u64, 4);
        push_all(&mut out, &self.vendor);
        push_le(&mut out, self.comments.len() as u64, 4);
        let ghost opening = TAGS_MAGIC@ + field_bytes(self@.vendor) + le_bytes(
            self@.comments.len(),
            4,
        );
        assert(out@ =~= opening + comments_bytes(self@.comments, 0));
        let mut i: usize = 0;
        while i < self.comments.len()
            invariant
                i <= self.comments@.len(),
                out@ == opening + comments_bytes(self@.comments, i as int),
            decreases self.comments@.len() - i,
        {
            let comment: &Vec<u8> = &self.comments[i];
            push_le(&mut out, comment.len() as u64, 4);
            push_all(&mut out, comment);
            i = i + 1;
            assert(self@.comments[i - 1] == comment@);
            assert(out@ =~= opening + comments_bytes(self@.comments, i as int));
        }
        out
    }
}

/// A byte string with its length ahead of it reads back.
proof fn lemma_field_reads(b: Seq<u8>, before: Seq<u8>, s: Seq<u8>, after: Seq<u8>)
    requires
        b == before + field_bytes(s) + after,
        s.len() <= u32::MAX,
    ensures
        parse_field(b, before.len() as int) == Some(
            (s, (before.len() + field_bytes(s).len()) as int),
        ),
        field_bytes(s).len() == 4 + s.len(),
{
    lemma_pow256_values();
    lemma_le_round_trip(s.len(), 4);
    let pos = before.len() as int;
    assert(b.subrange(pos, pos + 4) =~= le_bytes(s.len(), 4));
    assert(b.subrange(pos + 4, pos + 4 + s.len()) =~= s);
}

/// The comments from the `i`th on read back.
proof fn lemma_comments_read(
    b: Seq<u8>,
    before: Seq<u8>,
    comments: Seq<Seq<u8>>,
    after: Seq<u8>,
    i: int,
)
    requires
        b == before + comments_bytes(comments, comments.len() as int) + after,
        forall|k: int| 0 <= k < comments.len() ==> (#[trigger] comments[k]).len() <= u32::MAX,
        0 <= i <= comments.len(),
    ensures
        parse_comments(b, before.len() as int, comments.len(), Seq::empty()) == parse_comments(
            b,
            (before.len() + comments_bytes(comments, i).len()) as int,
            (comments.len() - i) as nat,
            comments.subrange(0, i),
        ),
    decreases i,
{
    if i == 0 {
        assert(comments.subrange(0, 0) =~= Seq::empty());
    } else {
        lemma_comments_read(b, before, comments, after, i - 1);
        lemma_comments_prefix(comments, i, comments.len() as int);
        let all = comments_bytes(comments, comments.len() as int);
        let upto = comments_bytes(comments, i);
        let lead = before + comments_bytes(comments, i - 1);
        let rest = all.subrange(upto.len() as int, all.len() as int) + after;
        assert(b =~= lead + field_bytes(comments[i - 1]) + rest) by {
            assert(all =~= upto + all.subrange(upto.len() as int, all.len() as int)) by {
                assert forall|k: int| 0 <= k < upto.len() implies all[k] == upto[k] by {
                    assert(all.subrange(0, upto.len() as int)[k] == all[k]);
                }
            }
        }
        lemma_field_reads(b, lead, comments[i - 1], rest);
        assert(comments.subrange(0, i - 1).push(comments[i - 1]) =~= comments.subrange(0, i));
    }
}

/// Comments start with their first ones.
proof fn lemma_comments_prefix(comments: Seq<Seq<u8>>, i: int, n: int)
    requires
        0 <= i <= n <= comments.len(),
    ensures
        comments_bytes(comments, i).len() <= comments_bytes(comments, n).len(),
        comments_bytes(comments, n).subrange(0, comments_bytes(comments, i).len() as int)
            == comments_bytes(comments, i),
    decreases n,
{
    let part = comments_bytes(comments, i);
    if i == n {
        assert(comments_bytes(comments, n).subrange(0, part.len() as int) =~= part);
    } else {
        lemma_comments_prefix(comments, i, n - 1);
        assert(comments_bytes(comments, n).subrange(0, part.len() as int) =~= comments_bytes(
            comments,
            n - 1,
        ).subrange(0, part.len() as int));
    }
}

/// A comment header reads back as it was written.
pub proof fn law_tags_round_trip(t: TagsModel)
    requires
        t.fits(),
    ensures
        parse_tags(tags_bytes(t)) == Ok::<TagsModel, Error>(t),
        tags_bytes(t).len() >= 16,
{
    law_padded_tags_read_back(t, Seq::empty());
    assert(tags_bytes(t) + Seq::<u8>::empty() =~= tags_bytes(t));
    lemma_le_bytes_len(t.vendor.len(), 4);
    lemma_le_bytes_len(t.comments.len(), 4);
}

/// A comment header reads back whatever follows its comments: encoders leave room
/// there for tags that are added later.
pub proof fn law_padded_tags_read_back(t: TagsModel, padding: Seq<u8>)
    requires
        t.fits(),
    ensures
        parse_tags(tags_bytes(t) + padding) == Ok::<TagsModel, Error>(t),
{
    let b = tags_bytes(t) + padding;
    let count = le_bytes(t.comments.len(), 4);
    let comments = comments_bytes(t.comments, t.comments.len() as int);
    lemma_pow256_values();
    lemma_le_round_trip(t.comments.len(), 4);
    assert(b.subrange(0, 8) =~= TAGS_MAGIC@);
    assert(b =~= TAGS_MAGIC@ + field_bytes(t.vendor) + (count + comments + padding));
    lemma_field_reads(b, TAGS_MAGIC@, t.vendor, count + comments + padding);
    let before = TAGS_MAGIC@ + field_bytes(t.vendor) + count;
    let pos = (8 + field_bytes(t.vendor).len()) as int;
    assert(b.subrange(pos, pos + 4) =~= count);
    assert(b =~= before + comments + padding);
    lemma_comments_read(b, before, t.comments, padding, t.comments.len() as int);
    assert(t.comments.subrange(0, t.comments.len() as int) =~= t.comments);
}

} // verus!
