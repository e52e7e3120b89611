//! What a frame says between its coarse energies and its allocation: the
//! time-frequency resolution, the spread, the boosts and the tilt, in that
//! order.

use vstd::prelude::*;

use crate::celt::bands::{MAX_LM, NB_EBANDS};
use crate::celt::decisions::{
    decode_spread, decode_trim, encode_spread, encode_trim, law_spread_comes_back,
    law_trim_comes_back, read_spread, read_trim, says_spread, says_trim, write_spread, write_trim,
    SPREAD_NORMAL,
};
use crate::celt::dynalloc::{
    decode_boosts, encode_boosts, law_boosts_come_back, lemma_write_boosts, read_boosts,
    write_boosts, MAX_TOTAL,
};
use crate::celt::step::{in_step, lemma_names_earlier};
use crate::celt::tf::{
    are_flags, law_tf_comes_back, lemma_tf_written, numbers, tf_decode, tf_encode, tf_read,
    tf_written,
};
use crate::range_coder::alphabet::Alphabet;
use crate::range_coder::decoder::{DecoderState, RangeDecoder};
use crate::range_coder::encoder::{EncoderState, RangeEncoder};
use crate::range_coder::laws::names;

verus! {

/// A frame as far as its hints depend on it.
#[derive(Debug, Clone, Copy, PartialEq, Eq, Structural)]
pub struct HintFrame {
    /// The first band that is coded.
    pub start: usize,
    /// The band after the last.
    pub end: usize,
    /// Which of the mode's frame sizes it is.
    pub lm: usize,
    /// Whether it is cut into short blocks.
    pub transient: bool,
    /// Channels of the bitstream.
    pub channels: usize,
    /// Its bits.
    pub total_bits: i32,
}

impl HintFrame {
    /// Whether the numbers are within their bounds.
    pub open spec fn wf(self) -> bool {
        &&& self.start <= self.end <= NB_EBANDS
        &&& self.lm <= MAX_LM
        &&& 1 <= self.channels <= 2
        &&& 0 <= self.total_bits <= MAX_TOTAL
    }

    /// How many bands are coded.
    pub open spec fn bands(self) -> int {
        self.end - self.start
    }
}

/// What a frame says, as both sides know it afterwards.
#[verifier::ext_equal]
pub struct Hints {
    /// The changes of time-frequency resolution, band by band.
    pub tf: Seq<int>,
    /// How much the pulses are spread.
    pub spread: int,
    /// The boosts, band by band.
    pub boosts: Seq<int>,
    /// Their sum.
    pub boosted: int,
    /// How the allocation is tilted.
    pub trim: int,
}

/// What the encoder would like to say.
pub struct Wishes {
    /// A flag of time-frequency resolution for each band.
    pub flags: Seq<int>,
    /// Which table they use.
    pub select: int,
    /// How much the pulses are spread.
    pub spread: int,
    /// The boosts of all bands.
    pub wants: Seq<int>,
    /// How the allocation is tilted.
    pub trim: int,
}

impl Wishes {
    /// Whether the wishes can be spelled out.
    pub open spec fn wf(self, f: HintFrame) -> bool {
        &&& self.flags.len() == f.bands()
        &&& are_flags(self.flags)
        &&& 0 <= self.select <= 1
        &&& 0 <= self.spread < 4
        &&& 0 <= self.trim <= 10
    }
}

/// The coder once the resolution is said.
pub open spec fn after_tf(e: EncoderState, f: HintFrame, w: Wishes) -> EncoderState {
    tf_written(e, f.transient, w.flags, f.lm as int, w.select).1
}

/// The coder once the spread is said too.
pub open spec fn after_spread(e: EncoderState, f: HintFrame, w: Wishes) -> EncoderState {
    write_spread(after_tf(e, f, w), w.spread, f.total_bits as int)
}

/// What a frame says, coded: what both sides know of it, and the coder.
pub open spec fn write_hints(e: EncoderState, f: HintFrame, w: Wishes, caps: Seq<int>) -> (
    Hints,
    EncoderState,
) {
    let b = write_boosts(
        after_spread(e, f, w),
        f.start as int,
        w.wants,
        caps,
        8 * f.total_bits,
        f.lm as int,
        f.channels as int,
        f.bands(),
    );
    let (trim, after) = write_trim(b.e, w.trim, f.total_bits as int, b.boosted);
    (
        Hints {
            tf: tf_written(e, f.transient, w.flags, f.lm as int, w.select).0,
            spread: w.spread,
            boosts: b.boosts,
            boosted: b.boosted,
            trim,
        },
        after,
    )
}

/// What a frame says, read.
pub open spec fn read_hints(d: DecoderState, f: HintFrame, caps: Seq<int>) -> (
    Hints,
    DecoderState,
) {
    let (tf, d1) = tf_read(d, f.transient, f.bands(), f.lm as int);
    let (spread, d2) = read_spread(d1, f.total_bits as int);
    let b = read_boosts(
        d2,
        f.start as int,
        caps,
        8 * f.total_bits,
        f.lm as int,
        f.channels as int,
        f.bands(),
    );
    let (trim, d4) = read_trim(b.d, f.total_bits as int, b.boosted);
    (Hints { tf, spread, boosts: b.boosts, boosted: b.boosted, trim }, d4)
}

/// The decoder knows of a frame what the encoder could tell it: the same
/// resolution, spread, boosts and tilt, whatever the bits were too few for. It is
/// in step afterwards, so that both divide what is left alike. The one thing that
/// it cannot know is a spread other than the usual one that there were no bits
/// for.
pub proof fn law_hints_come_back(
    d: DecoderState,
    e: EncoderState,
    f: HintFrame,
    w: Wishes,
    caps: Seq<int>,
)
    requires
        f.wf(),
        w.wf(f),
        in_step(d, e),
        d.data.len() == e.storage,
        says_spread(after_tf(e, f, w).meter().tell(), f.total_bits as int) || w.spread
            == SPREAD_NORMAL,
        names(d.data, write_hints(e, f, w, caps).1.interval),
    ensures
        read_hints(d, f, caps).0 == write_hints(e, f, w, caps).0,
        in_step(read_hints(d, f, caps).1, write_hints(e, f, w, caps).1),
{
    let total = f.total_bits as int;
    let lm = f.lm as int;
    let n = f.bands();
    let e1 = after_tf(e, f, w);
    lemma_tf_written(d.data, e, f.transient, w.flags, lm, w.select);
    let e2 = after_spread(e, f, w);
    assert(e2.interval.wf()) by {
        crate::range_coder::interval::lemma_part(e1.interval, Alphabet::Spread, w.spread);
    }
    let b = write_boosts(e2, f.start as int, w.wants, caps, 8 * total, lm, f.channels as int, n);
    lemma_write_boosts(
        d.data,
        e2,
        f.start as int,
        w.wants,
        caps,
        8 * total,
        lm,
        f.channels as int,
        n,
    );
    // From the last back to the first: the number lies in every interval.
    if says_trim(b.e.meter().tell_frac(), total, b.boosted) {
        lemma_names_earlier(d.data, b.e, Alphabet::Trim, w.trim);
    }
    assert(names(d.data, e2.interval));
    if says_spread(e1.meter().tell(), total) {
        lemma_names_earlier(d.data, e1, Alphabet::Spread, w.spread);
    }
    // From the first to the last: the decoder goes along.
    law_tf_comes_back(d, e, f.transient, w.flags, lm, w.select);
    let (tf, d1) = tf_read(d, f.transient, n, lm);
    assert(d1.data == d.data) by {
        crate::celt::tf::lemma_tf_read_data(d, f.transient, n, lm);
    }
    law_spread_comes_back(d1, e1, w.spread, total);
    let (spread, d2) = read_spread(d1, total);
    law_boosts_come_back(
        d2,
        e2,
        f.start as int,
        w.wants,
        caps,
        8 * total,
        lm,
        f.channels as int,
        n,
    );
    let r = read_boosts(d2, f.start as int, caps, 8 * total, lm, f.channels as int, n);
    law_trim_comes_back(r.d, b.e, w.trim, total, b.boosted);
}

/// What a frame says, spelled out: `tf_res` and `offsets` hold the flags and the
/// wanted boosts of all bands, and the coded bands' are replaced by what the
/// decoder will find. Returns the boosts' sum and the tilt that both sides go by.
pub fn encode_hints(
    f: HintFrame,
    tf_res: &mut Vec<i32>,
    tf_select: usize,
    spread: u32,
    offsets: &mut Vec<i32>,
    caps: &Vec<i32>,
    trim: u32,
    rc: &mut RangeEncoder,
) -> (r: (i32, u32))
    requires
        f.wf(),
        old(tf_res)@.len() == NB_EBANDS,
        old(offsets)@.len() == NB_EBANDS,
        caps@.len() == NB_EBANDS,
        forall|i: int| 0 <= i < caps@.len() ==> 0 <= #[trigger] caps@[i] <= 0x8000,
        are_flags(numbers(old(tf_res)@.subrange(f.start as int, f.end as int))),
        tf_select <= 1,
        spread < 4,
        trim <= 10,
        old(rc).wf(),
        old(rc)@.meter().bits() <= 0x40_0000,
        8 * old(rc)@.storage <= i32::MAX,
    ensures
        final(rc).wf(),
        final(tf_res)@.len() == NB_EBANDS,
        final(offsets)@.len() == NB_EBANDS,
        ({
            let w = Wishes {
                flags: numbers(old(tf_res)@.subrange(f.start as int, f.end as int)),
                select: tf_select as int,
                spread: spread as int,
                wants: numbers(old(offsets)@),
                trim: trim as int,
            };
            let (hints, after) = write_hints(old(rc)@, f, w, numbers(caps@));
            &&& final(rc)@ == after
            &&& hints == (Hints {
                tf: numbers(final(tf_res)@.subrange(f.start as int, f.end as int)),
                spread: spread as int,
                boosts: numbers(final(offsets)@.subrange(f.start as int, f.end as int)),
                boosted: r.0 as int,
                trim: r.1 as int,
            })
        }),
{
    tf_encode(f.start, f.end, f.transient, tf_res, f.lm, tf_select, rc);
    encode_spread(spread, f.total_bits, rc);
    let total_boost: i32 = encode_boosts(
        f.start,
        f.end,
        offsets,
        caps,
        f.total_bits,
        f.lm,
        f.channels,
        rc,
    );
    let used: u32 = encode_trim(trim, f.total_bits, total_boost, rc);
    (total_boost, used)
}

/// What a frame says, read into `tf_res` and `offsets`. Returns the spread, the
/// boosts' sum and the tilt.
pub fn decode_hints(
    f: HintFrame,
    tf_res: &mut Vec<i32>,
    offsets: &mut Vec<i32>,
    caps: &Vec<i32>,
    rc: &mut RangeDecoder,
) -> (r: (u32, i32, u32))
    requires
        f.wf(),
        old(tf_res)@.len() == NB_EBANDS,
        old(offsets)@.len() == NB_EBANDS,
        caps@.len() == NB_EBANDS,
        forall|i: int| 0 <= i < caps@.len() ==> 0 <= #[trigger] caps@[i] <= 0x8000,
        old(rc).wf(),
        old(rc)@.meter().bits() <= 0x40_0000,
        8 * old(rc)@.data.len() <= i32::MAX,
    ensures
        final(rc).wf(),
        final(tf_res)@.len() == NB_EBANDS,
        final(offsets)@.len() == NB_EBANDS,
        (
            Hints {
                tf: numbers(final(tf_res)@.subrange(f.start as int, f.end as int)),
                spread: r.0 as int,
                boosts: numbers(final(offsets)@.subrange(f.start as int, f.end as int)),
                boosted: r.1 as int,
                trim: r.2 as int,
            },
            final(rc)@,
        ) == read_hints(old(rc)@, f, numbers(caps@)),
        r.0 < 4,
        r.2 <= 10,
{
    tf_decode(f.start, f.end, f.transient, tf_res, f.lm, rc);
    let spread: u32 = decode_spread(f.total_bits, rc);
    let total_boost: i32 = decode_boosts(
        f.start,
        f.end,
        offsets,
        caps,
        f.total_bits,
        f.lm,
        f.channels,
        rc,
    );
    let trim: u32 = decode_trim(f.total_bits, total_boost, rc);
    (spread, total_boost, trim)
}

} // verus!
