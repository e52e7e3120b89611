//! The boosts that bands get beyond their share, as the frame spells them out.

use vstd::prelude::*;

use crate::celt::bands::{band_width, width_of, MAX_LM, NB_EBANDS};
use crate::celt::step::{in_step, lemma_in_step, lemma_names_earlier};
use crate::celt::tf::numbers;
use crate::math::{greatest, least, max_i32, min_i32};
use crate::range_coder::alphabet::Alphabet;
use crate::range_coder::decoder::{DecoderState, RangeDecoder};
use crate::range_coder::encoder::{EncoderState, RangeEncoder};
use crate::range_coder::interval::{
    law_bits_are_eighths_rounded_up, lemma_part, lemma_settled_length, Meter,
};
use crate::range_coder::laws::names;

verus! {

/// How rarely the first boost of a band is, to start with.
pub const FIRST_LOGP: u32 = 6;

/// The most boosts that the budget of a frame can hold.
pub const MAX_TOTAL: i32 = 0x20_0000;

/// The size of one boost of a band, in eighths of a bit.
pub open spec fn quantum(width: int) -> int {
    least(8 * width, greatest(48, width))
}

/// The size of one boost of a band, in eighths of a bit.
pub fn quanta(width: i32) -> (q: i32)
    requires
        1 <= width <= 352,
    ensures
        q == quantum(width as int),
        8 <= q <= 352,
{
    min_i32(8 * width, max_i32(48, width))
}

/// Whether one more flag is spelled out: it has to fit the budget, and the band
/// has to have room.
pub open spec fn asks(m: Meter, logp: int, total: int, boosted: int, boost: int, cap: int) -> bool {
    m.tell_frac() + 8 * logp < total - boosted && boost < cap
}

/// A band's boost once it is coded.
#[verifier::ext_equal]
pub struct BoostWritten {
    /// The coder.
    pub e: EncoderState,
    /// The boost.
    pub boost: int,
    /// All boosts so far.
    pub boosted: int,
}

/// Code up to `want` boosts of a band.
pub open spec fn write_boost(
    e: EncoderState,
    want: int,
    boost: int,
    boosted: int,
    logp: int,
    total: int,
    q: int,
    cap: int,
) -> BoostWritten
    decreases want,
{
    let bit = Alphabet::Bit { logp: logp as u32 };
    if !asks(e.meter(), logp, total, boosted, boost, cap) {
        BoostWritten { e, boost, boosted }
    } else if want <= 0 {
        BoostWritten { e: e.coded(bit, 0), boost, boosted }
    } else {
        write_boost(e.coded(bit, 1), want - 1, boost + q, boosted + q, 1, total, q, cap)
    }
}

/// A band's boost once it is read.
#[verifier::ext_equal]
pub struct BoostRead {
    /// The decoder.
    pub d: DecoderState,
    /// The boost.
    pub boost: int,
    /// All boosts so far.
    pub boosted: int,
}

/// Read the boosts of a band.
pub open spec fn read_boost(
    d: DecoderState,
    boost: int,
    boosted: int,
    logp: int,
    total: int,
    q: int,
    cap: int,
) -> BoostRead
    decreases (if cap > boost {
        cap - boost
    } else {
        0
    }),
{
    let bit = Alphabet::Bit { logp: logp as u32 };
    if !asks(d.meter(), logp, total, boosted, boost, cap) || q <= 0 {
        BoostRead { d, boost, boosted }
    } else if d.value(bit) != 1 {
        BoostRead { d: d.read(bit), boost, boosted }
    } else {
        read_boost(d.read(bit), boost + q, boosted + q, 1, total, q, cap)
    }
}

/// How rarely the next band's first boost is: less so once there has been one.
pub open spec fn next_logp(logp: int, boost: int) -> int {
    if boost > 0 {
        greatest(2, logp - 1)
    } else {
        logp
    }
}

/// Some bands' boosts once they are coded.
#[verifier::ext_equal]
pub struct BoostsWritten {
    /// The coder.
    pub e: EncoderState,
    /// How rarely the next band's first boost is.
    pub logp: int,
    /// All boosts so far.
    pub boosted: int,
    /// The boosts, band by band.
    pub boosts: Seq<int>,
}

/// Code the boosts of `n` bands from `start` on.
pub open spec fn write_boosts(
    e: EncoderState,
    start: int,
    wants: Seq<int>,
    caps: Seq<int>,
    total: int,
    lm: int,
    channels: int,
    n: int,
) -> BoostsWritten
    decreases n,
{
    if n <= 0 {
        BoostsWritten { e, logp: FIRST_LOGP as int, boosted: 0, boosts: Seq::empty() }
    } else {
        let w = write_boosts(e, start, wants, caps, total, lm, channels, n - 1);
        let i = start + n - 1;
        let b = write_boost(
            w.e,
            wants[i],
            0,
            w.boosted,
            w.logp,
            total,
            quantum(band_width(i, lm, channels)),
            caps[i],
        );
        BoostsWritten {
            e: b.e,
            logp: next_logp(w.logp, b.boost),
            boosted: b.boosted,
            boosts: w.boosts.push(b.boost),
        }
    }
}

/// Some bands' boosts once they are read.
#[verifier::ext_equal]
pub struct BoostsRead {
    /// The decoder.
    pub d: DecoderState,
    /// How rarely the next band's first boost is.
    pub logp: int,
    /// All boosts so far.
    pub boosted: int,
    /// The boosts, band by band.
    pub boosts: Seq<int>,
}

/// Read the boosts of `n` bands from `start` on.
pub open spec fn read_boosts(
    d: DecoderState,
    start: int,
    caps: Seq<int>,
    total: int,
    lm: int,
    channels: int,
    n: int,
) -> BoostsRead
    decreases n,
{
    if n <= 0 {
        BoostsRead { d, logp: FIRST_LOGP as int, boosted: 0, boosts: Seq::empty() }
    } else {
        let r = read_boosts(d, start, caps, total, lm, channels, n - 1);
        let i = start + n - 1;
        let b = read_boost(
            r.d,
            0,
            r.boosted,
            r.logp,
            total,
            quantum(band_width(i, lm, channels)),
            caps[i],
        );
        BoostsRead {
            d: b.d,
            logp: next_logp(r.logp, b.boost),
            boosted: b.boosted,
            boosts: r.boosts.push(b.boost),
        }
    }
}

/// Coding a band's boost leaves an interval that can be divided, and a number in
/// it lies in the one before.
proof fn lemma_write_boost(
    data: Seq<u8>,
    e: EncoderState,
    want: int,
    boost: int,
    boosted: int,
    logp: int,
    total: int,
    q: int,
    cap: int,
)
    requires
        e.interval.wf(),
        1 <= logp <= 15,
    ensures
        ({
            let b = write_boost(e, want, boost, boosted, logp, total, q, cap);
            &&& b.e.interval.wf()
            &&& b.e.raw == e.raw
            &&& b.e.skipped == e.skipped
            &&& b.e.storage == e.storage
            &&& names(data, b.e.interval) ==> names(data, e.interval)
        }),
    decreases want,
{
    let bit = Alphabet::Bit { logp: logp as u32 };
    if asks(e.meter(), logp, total, boosted, boost, cap) {
        lemma_part(e.interval, bit, 0);
        lemma_part(e.interval, bit, 1);
        if want <= 0 {
            if names(data, e.coded(bit, 0).interval) {
                lemma_names_earlier(data, e, bit, 0);
            }
        } else {
            lemma_write_boost(
                data,
                e.coded(bit, 1),
                want - 1,
                boost + q,
                boosted + q,
                1,
                total,
                q,
                cap,
            );
            if names(data, e.coded(bit, 1).interval) {
                lemma_names_earlier(data, e, bit, 1);
            }
        }
    }
}

/// The decoder reads the boost that was coded.
proof fn lemma_boost_comes_back(
    d: DecoderState,
    e: EncoderState,
    want: int,
    boost: int,
    boosted: int,
    logp: int,
    total: int,
    q: int,
    cap: int,
)
    requires
        in_step(d, e),
        1 <= logp <= 15,
        0 < q,
        names(
            d.data,
            write_boost(e, want, boost, boosted, logp, total, q, cap).e.interval,
        ),
    ensures
        ({
            let w = write_boost(e, want, boost, boosted, logp, total, q, cap);
            let r = read_boost(d, boost, boosted, logp, total, q, cap);
            &&& in_step(r.d, w.e)
            &&& r.d.data == d.data
            &&& r.boost == w.boost
            &&& r.boosted == w.boosted
        }),
    decreases want,
{
    let bit = Alphabet::Bit { logp: logp as u32 };
    assert(d.meter() == e.meter());
    if asks(e.meter(), logp, total, boosted, boost, cap) {
        lemma_part(e.interval, bit, 0);
        lemma_part(e.interval, bit, 1);
        if want <= 0 {
            lemma_in_step(d, e, bit, 0);
        } else {
            let next = e.coded(bit, 1);
            lemma_write_boost(
                d.data,
                next,
                want - 1,
                boost + q,
                boosted + q,
                1,
                total,
                q,
                cap,
            );
            lemma_in_step(d, e, bit, 1);
            lemma_boost_comes_back(
                d.read(bit),
                next,
                want - 1,
                boost + q,
                boosted + q,
                1,
                total,
                q,
                cap,
            );
        }
    }
}

/// What coding boosts keeps.
pub proof fn lemma_write_boosts(
    data: Seq<u8>,
    e: EncoderState,
    start: int,
    wants: Seq<int>,
    caps: Seq<int>,
    total: int,
    lm: int,
    channels: int,
    n: int,
)
    requires
        e.interval.wf(),
    ensures
        ({
            let w = write_boosts(e, start, wants, caps, total, lm, channels, n);
            &&& w.e.interval.wf()
            &&& 2 <= w.logp <= FIRST_LOGP
            &&& w.e.raw == e.raw
            &&& w.e.skipped == e.skipped
            &&& w.e.storage == e.storage
            &&& names(data, w.e.interval) ==> names(data, e.interval)
        }),
    decreases n,
{
    if n > 0 {
        lemma_write_boosts(data, e, start, wants, caps, total, lm, channels, n - 1);
        let w = write_boosts(e, start, wants, caps, total, lm, channels, n - 1);
        let i = start + n - 1;
        lemma_write_boost(
            data,
            w.e,
            wants[i],
            0,
            w.boosted,
            w.logp,
            total,
            quantum(band_width(i, lm, channels)),
            caps[i],
        );
    }
}

/// A band has bins.
proof fn lemma_width_positive(i: int, lm: int, channels: int)
    requires
        0 <= i < NB_EBANDS,
        1 <= channels,
    ensures
        1 <= band_width(i, lm, channels),
        1 <= quantum(band_width(i, lm, channels)),
{
    crate::range_coder::alphabet::lemma_two_to_monotone(
        0,
        if lm > 0 {
            lm
        } else {
            0
        },
    );
    let bins = crate::celt::bands::band_edge(i + 1) - crate::celt::bands::band_edge(i);
    let p = crate::range_coder::alphabet::two_to(lm);
    assert(channels * bins * p >= 1) by (nonlinear_arith)
        requires
            channels >= 1,
            bins >= 1,
            p >= 1,
    ;
}

/// The decoder finds the boosts that the encoder could afford, band by band, and
/// is in step with it afterwards.
pub proof fn law_boosts_come_back(
    d: DecoderState,
    e: EncoderState,
    start: int,
    wants: Seq<int>,
    caps: Seq<int>,
    total: int,
    lm: int,
    channels: int,
    n: int,
)
    requires
        in_step(d, e),
        0 <= start,
        start + n <= NB_EBANDS,
        1 <= channels <= 2,
        names(
            d.data,
            write_boosts(e, start, wants, caps, total, lm, channels, n).e.interval,
        ),
    ensures
        ({
            let w = write_boosts(e, start, wants, caps, total, lm, channels, n);
            let r = read_boosts(d, start, caps, total, lm, channels, n);
            &&& r.boosts == w.boosts
            &&& r.boosted == w.boosted
            &&& r.logp == w.logp
            &&& in_step(r.d, w.e)
            &&& r.d.data == d.data
        }),
    decreases n,
{
    if n > 0 {
        let w = write_boosts(e, start, wants, caps, total, lm, channels, n - 1);
        let i = start + n - 1;
        let q = quantum(band_width(i, lm, channels));
        lemma_write_boosts(d.data, e, start, wants, caps, total, lm, channels, n - 1);
        lemma_write_boost(d.data, w.e, wants[i], 0, w.boosted, w.logp, total, q, caps[i]);
        law_boosts_come_back(d, e, start, wants, caps, total, lm, channels, n - 1);
        lemma_width_positive(i, lm, channels);
        let r = read_boosts(d, start, caps, total, lm, channels, n - 1);
        lemma_boost_comes_back(r.d, w.e, wants[i], 0, w.boosted, w.logp, total, q, caps[i]);
    }
}

/// What may still be spelled out is within the budget.
proof fn lemma_asks_bits(m: Meter, logp: int, total: int, boosted: int, boost: int, cap: int)
    requires
        m.wf(),
        0 <= logp,
        0 <= boosted,
        asks(m, logp, total, boosted, boost, cap),
    ensures
        8 * m.bits() <= total + 300,
{
    law_bits_are_eighths_rounded_up(m);
    lemma_settled_length(m.rng);
}

/// Code the boosts of the bands from `start` to `end`, as far as the budget of
/// `total_bits` allows, and replace what was wanted by what the decoder will
/// find, in eighths of a bit. Returns the boosts' sum.
pub fn encode_boosts(
    start: usize,
    end: usize,
    offsets: &mut Vec<i32>,
    caps: &Vec<i32>,
    total_bits: i32,
    lm: usize,
    channels: usize,
    rc: &mut RangeEncoder,
) -> (total_boost: i32)
    requires
        start <= end <= NB_EBANDS,
        old(offsets)@.len() == NB_EBANDS,
        caps@.len() == NB_EBANDS,
        forall|i: int| 0 <= i < caps@.len() ==> 0 <= #[trigger] caps@[i] <= 0x8000,
        0 <= total_bits <= MAX_TOTAL,
        lm <= MAX_LM,
        1 <= channels <= 2,
        old(rc).wf(),
        old(rc)@.meter().bits() <= 0x80_0000,
    ensures
        final(rc).wf(),
        ({
            let w = write_boosts(
                old(rc)@,
                start as int,
                numbers(old(offsets)@),
                numbers(caps@),
                8 * total_bits,
                lm as int,
                channels as int,
                end - start,
            );
            &&& final(rc)@ == w.e
            &&& total_boost == w.boosted
            &&& final(offsets)@.len() == NB_EBANDS
            &&& numbers(final(offsets)@.subrange(start as int, end as int)) == w.boosts
            &&& forall|i: int|
                0 <= i < start || end <= i < NB_EBANDS ==> final(offsets)@[i] == old(
                    offsets,
                )@[i]
        }),
        final(rc)@.meter().bits() <= greatest(
            old(rc)@.meter().bits(),
            total_bits + 100,
        ),
        0 <= total_boost <= 0x10_0000,
{
    let ghost before = rc@;
    let ghost wants = numbers(offsets@);
    let ghost first = offsets@;
    let ghost cap_model = numbers(caps@);
    let ghost room = greatest(rc@.meter().bits(), total_bits + 100);
    let total: i32 = 8 * total_bits;
    let mut dynalloc_logp: u32 = FIRST_LOGP;
    let mut total_boost: i32 = 0;
    let mut i: usize = start;
    assert(numbers(offsets@.subrange(start as int, start as int)) =~= Seq::empty());
    while i < end
        invariant
            start <= i <= end <= NB_EBANDS,
            offsets@.len() == NB_EBANDS,
            first.len() == NB_EBANDS,
            wants == numbers(first),
            cap_model == numbers(caps@),
            caps@.len() == NB_EBANDS,
            forall|k: int| 0 <= k < caps@.len() ==> 0 <= #[trigger] caps@[k] <= 0x8000,
            total == 8 * total_bits,
            0 <= total_bits <= MAX_TOTAL,
            lm <= MAX_LM,
            1 <= channels <= 2,
            rc.wf(),
            rc@.meter().bits() <= room,
            room == greatest(before.meter().bits(), total_bits + 100),
            room <= 0x81_0000,
            2 <= dynalloc_logp <= FIRST_LOGP,
            0 <= total_boost <= (i - start) * 0x8200,
            ({
                let w = write_boosts(
                    before,
                    start as int,
                    wants,
                    cap_model,
                    total as int,
                    lm as int,
                    channels as int,
                    i - start,
                );
                &&& rc@ == w.e
                &&& dynalloc_logp == w.logp
                &&& total_boost == w.boosted
                &&& numbers(offsets@.subrange(start as int, i as int)) == w.boosts
            }),
            forall|k: int|
                0 <= k < start || i <= k < NB_EBANDS ==> offsets@[k] == first[k],
        decreases end - i,
    {
        let ghost entry = rc@;
        let ghost logp0 = dynalloc_logp as int;
        let ghost boosted0 = total_boost as int;
        let ghost so_far = offsets@;
        let q: i32 = quanta(width_of(i, lm, channels));
        let cap: i32 = caps[i];
        let want: i32 = offsets[i];
        assert(wants[i as int] == want);
        assert(cap_model[i as int] == cap);
        let mut logp: u32 = dynalloc_logp;
        let mut boost: i32 = 0;
        let mut left: i32 = want;
        let mut open: bool = true;
        let ghost goal = write_boost(
            entry,
            want as int,
            0,
            boosted0,
            logp0,
            total as int,
            q as int,
            cap as int,
        );
        while open
            invariant
                rc.wf(),
                rc@.meter().bits() <= room,
                room == greatest(before.meter().bits(), total_bits + 100),
                room <= 0x81_0000,
                total == 8 * total_bits,
                0 <= total_bits <= MAX_TOTAL,
                8 <= q <= 352,
                0 <= cap <= 0x8000,
                1 <= logp <= FIRST_LOGP,
                0 <= boost < cap + q,
                total_boost == boosted0 + boost,
                0 <= boosted0 <= 21 * 0x8200,
                left <= want,
                open ==> goal == write_boost(
                    rc@,
                    left as int,
                    boost as int,
                    total_boost as int,
                    logp as int,
                    total as int,
                    q as int,
                    cap as int,
                ),
                !open ==> goal == (BoostWritten {
                    e: rc@,
                    boost: boost as int,
                    boosted: total_boost as int,
                }),
            decreases (if open {
                1int
            } else {
                0
            }), cap + q - boost,
        {
            proof {
                rc.lemma_bounded();
            }
            if rc.tell_frac() + 8 * (logp as i32) < total - total_boost && boost < cap {
                proof {
                    lemma_asks_bits(
                        rc@.meter(),
                        logp as int,
                        total as int,
                        total_boost as int,
                        boost as int,
                        cap as int,
                    );
                }
                if left > 0 {
                    rc.encode(Alphabet::Bit { logp }, 1);
                    boost = boost + q;
                    total_boost = total_boost + q;
                    logp = 1;
                    left = left - 1;
                } else {
                    rc.encode(Alphabet::Bit { logp }, 0);
                    open = false;
                }
            } else {
                open = false;
            }
        }
        if boost > 0 && dynalloc_logp > 2 {
            dynalloc_logp = dynalloc_logp - 1;
        }
        offsets.set(i, boost);
        i = i + 1;
        proof {
            assert(numbers(offsets@.subrange(start as int, i as int)) =~= numbers(
                so_far.subrange(start as int, i - 1),
            ).push(boost as int));
        }
    }
    total_boost
}

/// Read the boosts of the bands from `start` to `end`, in eighths of a bit.
/// Returns their sum.
pub fn decode_boosts(
    start: usize,
    end: usize,
    offsets: &mut Vec<i32>,
    caps: &Vec<i32>,
    total_bits: i32,
    lm: usize,
    channels: usize,
    rc: &mut RangeDecoder,
) -> (total_boost: i32)
    requires
        start <= end <= NB_EBANDS,
        old(offsets)@.len() == NB_EBANDS,
        caps@.len() == NB_EBANDS,
        forall|i: int| 0 <= i < caps@.len() ==> 0 <= #[trigger] caps@[i] <= 0x8000,
        0 <= total_bits <= MAX_TOTAL,
        lm <= MAX_LM,
        1 <= channels <= 2,
        old(rc).wf(),
        old(rc)@.meter().bits() <= 0x80_0000,
    ensures
        final(rc).wf(),
        ({
            let r = read_boosts(
                old(rc)@,
                start as int,
                numbers(caps@),
                8 * total_bits,
                lm as int,
                channels as int,
                end - start,
            );
            &&& final(rc)@ == r.d
            &&& total_boost == r.boosted
            &&& final(offsets)@.len() == NB_EBANDS
            &&& numbers(final(offsets)@.subrange(start as int, end as int)) == r.boosts
            &&& forall|i: int|
                0 <= i < start || end <= i < NB_EBANDS ==> final(offsets)@[i] == old(
                    offsets,
                )@[i]
        }),
        final(rc)@.meter().bits() <= greatest(
            old(rc)@.meter().bits(),
            total_bits + 100,
        ),
        0 <= total_boost <= 0x10_0000,
{
    let ghost before = rc@;
    let ghost first = offsets@;
    let ghost cap_model = numbers(caps@);
    let ghost room = greatest(rc@.meter().bits(), total_bits + 100);
    let total: i32 = 8 * total_bits;
    let mut dynalloc_logp: u32 = FIRST_LOGP;
    let mut total_boost: i32 = 0;
    let mut i: usize = start;
    assert(numbers(offsets@.subrange(start as int, start as int)) =~= Seq::empty());
    while i < end
        invariant
            start <= i <= end <= NB_EBANDS,
            offsets@.len() == NB_EBANDS,
            first.len() == NB_EBANDS,
            cap_model == numbers(caps@),
            caps@.len() == NB_EBANDS,
            forall|k: int| 0 <= k < caps@.len() ==> 0 <= #[trigger] caps@[k] <= 0x8000,
            total == 8 * total_bits,
            0 <= total_bits <= MAX_TOTAL,
            lm <= MAX_LM,
            1 <= channels <= 2,
            rc.wf(),
            rc@.meter().bits() <= room,
            room == greatest(before.meter().bits(), total_bits + 100),
            room <= 0x81_0000,
            2 <= dynalloc_logp <= FIRST_LOGP,
            0 <= total_boost <= (i - start) * 0x8200,
            ({
                let r = read_boosts(
                    before,
                    start as int,
                    cap_model,
                    total as int,
                    lm as int,
                    channels as int,
                    i - start,
                );
                &&& rc@ == r.d
                &&& dynalloc_logp == r.logp
                &&& total_boost == r.boosted
                &&& numbers(offsets@.subrange(start as int, i as int)) == r.boosts
            }),
            forall|k: int|
                0 <= k < start || i <= k < NB_EBANDS ==> offsets@[k] == first[k],
        decreases end - i,
    {
        let ghost entry = rc@;
        let ghost logp0 = dynalloc_logp as int;
        let ghost boosted0 = total_boost as int;
        let ghost so_far = offsets@;
        let q: i32 = quanta(width_of(i, lm, channels));
        let cap: i32 = caps[i];
        assert(cap_model[i as int] == cap);
        let mut logp: u32 = dynalloc_logp;
        let mut boost: i32 = 0;
        let mut open: bool = true;
        let ghost goal = read_boost(
            entry,
            0,
            boosted0,
            logp0,
            total as int,
            q as int,
            cap as int,
        );
        while open
            invariant
                rc.wf(),
                rc@.meter().bits() <= room,
                room == greatest(before.meter().bits(), total_bits + 100),
                room <= 0x81_0000,
                total == 8 * total_bits,
                0 <= total_bits <= MAX_TOTAL,
                8 <= q <= 352,
                0 <= cap <= 0x8000,
                1 <= logp <= FIRST_LOGP,
                0 <= boost < cap + q,
                total_boost == boosted0 + boost,
                0 <= boosted0 <= 21 * 0x8200,
                open ==> goal == read_boost(
                    rc@,
                    boost as int,
                    total_boost as int,
                    logp as int,
                    total as int,
                    q as int,
                    cap as int,
                ),
                !open ==> goal == (BoostRead {
                    d: rc@,
                    boost: boost as int,
                    boosted: total_boost as int,
                }),
            decreases (if open {
                1int
            } else {
                0
            }), cap + q - boost,
        {
            if rc.tell_frac() + 8 * (logp as i32) < total - total_boost && boost < cap {
                proof {
                    lemma_asks_bits(
                        rc@.meter(),
                        logp as int,
                        total as int,
                        total_boost as int,
                        boost as int,
                        cap as int,
                    );
                }
                if rc.decode(Alphabet::Bit { logp }) == 1 {
                    boost = boost + q;
                    total_boost = total_boost + q;
                    logp = 1;
                } else {
                    open = false;
                }
            } else {
                open = false;
            }
        }
        if boost > 0 && dynalloc_logp > 2 {
            dynalloc_logp = dynalloc_logp - 1;
        }
        offsets.set(i, boost);
        i = i + 1;
        proof {
            assert(numbers(offsets@.subrange(start as int, i as int)) =~= numbers(
                so_far.subrange(start as int, i - 1),
            ).push(boost as int));
        }
    }
    total_boost
}

/// The bits that a number of boosts of a band takes, in eighths.
pub open spec fn boost_bits(boost: int, width: int) -> int {
    if width < 6 {
        8 * (boost * width)
    } else if width > 48 {
        8 * (boost * width) / 8
    } else {
        8 * (boost * 6)
    }
}

/// What becomes of the wanted boosts of some bands.
#[verifier::ext_equal]
pub struct Limited {
    /// The boosts that are asked for.
    pub offsets: Seq<int>,
    /// Their bits so far, in eighths.
    pub total: int,
    /// Whether the limit has been reached.
    pub stopped: bool,
}

/// The wanted boosts of the first `n` bands, cut off where they would take more
/// than two thirds of the frame. What is left up to there goes to the band that
/// it happens in; the bands after it get none.
pub open spec fn limited(
    wants: Seq<int>,
    widths: Seq<int>,
    limit: bool,
    bytes: int,
    n: int,
) -> Limited
    decreases n,
{
    if n <= 0 {
        Limited { offsets: Seq::empty(), total: 0, stopped: false }
    } else {
        let before = limited(wants, widths, limit, bytes, n - 1);
        let bits = boost_bits(wants[n - 1], widths[n - 1]);
        if before.stopped {
            Limited { offsets: before.offsets.push(0), ..before }
        } else if limit && (before.total + bits) / 64 > 2 * bytes / 3 {
            Limited {
                offsets: before.offsets.push(64 * (2 * bytes / 3) - before.total),
                total: before.total,
                stopped: true,
            }
        } else {
            Limited {
                offsets: before.offsets.push(wants[n - 1]),
                total: before.total + bits,
                stopped: false,
            }
        }
    }
}

/// Make sure that the boosts cannot bust the budget: `wants` are the boosts that
/// the bands from `start` on would like, and what they get is returned. The
/// limit holds at a fixed rate, and under constrained VBR for frames that are
/// not transients.
pub fn limit_boosts(
    wants: &Vec<i32>,
    start: usize,
    lm: usize,
    channels: usize,
    limit: bool,
    effective_bytes: usize,
) -> (offsets: Vec<i32>)
    requires
        start + wants@.len() <= NB_EBANDS,
        forall|k: int| 0 <= k < wants@.len() ==> 0 <= #[trigger] wants@[k] <= 64,
        lm <= MAX_LM,
        1 <= channels <= 2,
        effective_bytes <= 0x1_0000,
    ensures
        numbers(offsets@) == limited(
            numbers(wants@),
            widths_from(start as int, lm as int, channels as int, wants@.len() as int),
            limit,
            effective_bytes as int,
            wants@.len() as int,
        ).offsets,
{
    let ghost model = numbers(wants@);
    let ghost widths = widths_from(
        start as int,
        lm as int,
        channels as int,
        wants@.len() as int,
    );
    let mut offsets: Vec<i32> = Vec::new();
    let mut total: i32 = 0;
    let mut stopped: bool = false;
    let most: i32 = 2 * effective_bytes as i32 / 3;
    let mut k: usize = 0;
    assert(numbers(offsets@) =~= Seq::empty());
    while k < wants.len()
        invariant
            k <= wants@.len(),
            start + wants@.len() <= NB_EBANDS,
            forall|j: int| 0 <= j < wants@.len() ==> 0 <= #[trigger] wants@[j] <= 64,
            lm <= MAX_LM,
            1 <= channels <= 2,
            effective_bytes <= 0x1_0000,
            most == 2 * effective_bytes / 3,
            model == numbers(wants@),
            widths == widths_from(
                start as int,
                lm as int,
                channels as int,
                wants@.len() as int,
            ),
            0 <= total <= k * 200_000,
            ({
                let m = limited(model, widths, limit, effective_bytes as int, k as int);
                &&& numbers(offsets@) == m.offsets
                &&& total == m.total
                &&& stopped == m.stopped
            }),
        decreases wants@.len() - k,
    {
        let ghost so_far = offsets@;
        if stopped {
            offsets.push(0);
            assert(numbers(offsets@) =~= numbers(so_far).push(0));
        } else {
            let want: i32 = wants[k];
            let width: i32 = width_of(start + k, lm, channels);
            assert(widths[k as int] == width && model[k as int] == want);
            assert(0 <= want * width <= 64 * 352) by (nonlinear_arith)
                requires
                    0 <= want <= 64,
                    1 <= width <= 352,
            ;
            let bits: i32 = if width < 6 {
                8 * (want * width)
            } else if width > 48 {
                8 * (want * width) / 8
            } else {
                8 * (want * 6)
            };
            if limit && (total + bits) / 64 > most {
                let rest: i32 = 64 * most - total;
                offsets.push(rest);
                assert(numbers(offsets@) =~= numbers(so_far).push(rest as int));
                stopped = true;
            } else {
                offsets.push(want);
                assert(numbers(offsets@) =~= numbers(so_far).push(want as int));
                total = total + bits;
            }
        }
        k = k + 1;
    }
    offsets
}

/// The widths of some bands.
pub open spec fn widths_from(start: int, lm: int, channels: int, n: int) -> Seq<int> {
    Seq::new(n as nat, |k: int| band_width(start + k, lm, channels))
}

/// The bits of limited boosts.
proof fn lemma_limited(wants: Seq<int>, widths: Seq<int>, bytes: int, n: int)
    requires
        0 <= n,
    ensures
        limited(wants, widths, true, bytes, n).total / 64 <= 2 * bytes / 3 || n == 0
            || limited(wants, widths, true, bytes, n).total == 0,
    decreases n,
{
    if n > 0 {
        lemma_limited(wants, widths, bytes, n - 1);
    }
}

/// Where the limit holds, the boosts that are granted in full take no more than
/// two thirds of the frame.
pub proof fn law_boosts_leave_a_third(wants: Seq<int>, widths: Seq<int>, bytes: int, n: int)
    requires
        0 <= n,
        0 <= bytes,
    ensures
        limited(wants, widths, true, bytes, n).total / 64 <= 2 * bytes / 3,
{
    lemma_limited(wants, widths, bytes, n);
}

} // verus!
