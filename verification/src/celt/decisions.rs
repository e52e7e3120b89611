//! What the transform layer's encoder decides from a frame's budget.

use vstd::prelude::*;

use crate::celt::bands::{band_cap, cap_of, MAX_LM, NB_EBANDS};
use crate::celt::step::{in_step, lemma_in_step};
use crate::math::{greatest, held, hold, max_usize};
use crate::range_coder::alphabet::Alphabet;
use crate::range_coder::decoder::{DecoderState, RangeDecoder};
use crate::range_coder::encoder::{EncoderState, RangeEncoder};
use crate::range_coder::laws::names;

verus! {

/// Pulses are not spread at all.
pub const SPREAD_NONE: u32 = 0;

/// Pulses are spread as usual.
pub const SPREAD_NORMAL: u32 = 2;

/// The tilt of the allocation where none is spelled out.
pub const TRIM_DEFAULT: u32 = 5;

/// How many of the leading thresholds a value has reached.
pub open spec fn reached(val: int, thresholds: Seq<i32>, from: int) -> int
    decreases thresholds.len() - from,
{
    if from < 0 || from >= thresholds.len() || val < thresholds[from] {
        from
    } else {
        reached(val, thresholds, from + 1)
    }
}

/// A decision by thresholds that stays with the one before until a value is past
/// the threshold by a margin.
pub open spec fn with_hysteresis(
    val: int,
    thresholds: Seq<i32>,
    hysteresis: Seq<i32>,
    prev: int,
) -> int {
    let now = reached(val, thresholds, 0);
    if now > prev && val < thresholds[prev] + hysteresis[prev] {
        prev
    } else if now < prev && now > 0 && val > thresholds[prev - 1] - hysteresis[prev - 1] {
        prev
    } else {
        now
    }
}

/// How far a value gets is within the thresholds.
proof fn lemma_reached(val: int, thresholds: Seq<i32>, from: int)
    requires
        0 <= from <= thresholds.len(),
    ensures
        from <= reached(val, thresholds, from) <= thresholds.len(),
    decreases thresholds.len() - from,
{
    if from < thresholds.len() && val >= thresholds[from] {
        lemma_reached(val, thresholds, from + 1);
    }
}

/// A decision by thresholds that stays with the one before until a value is past
/// the threshold by a margin.
pub fn hysteresis_decision(val: i32, thresholds: &[i32], hysteresis: &[i32], prev: usize) -> (r:
    usize)
    requires
        thresholds@.len() == hysteresis@.len(),
        prev <= thresholds@.len(),
        forall|i: int|
            0 <= i < thresholds@.len() ==> -1_000_000 <= #[trigger] thresholds@[i] <= 1_000_000,
        forall|i: int|
            0 <= i < hysteresis@.len() ==> -1_000_000 <= #[trigger] hysteresis@[i] <= 1_000_000,
    ensures
        r == with_hysteresis(val as int, thresholds@, hysteresis@, prev as int),
        r <= thresholds@.len(),
{
    let mut i: usize = 0;
    while i < thresholds.len() && val >= thresholds[i]
        invariant
            i <= thresholds@.len(),
            reached(val as int, thresholds@, 0) == reached(val as int, thresholds@, i as int),
        decreases thresholds@.len() - i,
    {
        i = i + 1;
    }
    proof {
        lemma_reached(val as int, thresholds@, 0);
    }
    if i > prev && val < thresholds[prev] + hysteresis[prev] {
        return prev;
    }
    if i < prev && i > 0 && val > thresholds[prev - 1] - hysteresis[prev - 1] {
        return prev;
    }
    i
}

/// A decision stands as long as the value does.
pub proof fn law_decision_stands(val: int, thresholds: Seq<i32>, hysteresis: Seq<i32>, prev: int)
    requires
        0 <= prev <= thresholds.len(),
        thresholds.len() == hysteresis.len(),
    ensures
        ({
            let first = with_hysteresis(val, thresholds, hysteresis, prev);
            with_hysteresis(val, thresholds, hysteresis, first) == first
        }),
{
    lemma_reached(val, thresholds, 0);
}

/// The equivalent rates, in kb/s, from which each further band is coded in
/// stereo.
pub open spec fn intensity_thresholds() -> Seq<i32> {
    seq![
        1i32, 2, 3, 4, 5, 6, 7, 8, 16, 24, 36, 44, 50, 56, 62, 67, 72, 79, 88, 106, 134,
    ]
}

/// The margins around those rates.
pub open spec fn intensity_margins() -> Seq<i32> {
    seq![1i32, 1, 1, 1, 1, 1, 1, 2, 2, 2, 2, 2, 2, 2, 3, 3, 4, 5, 6, 8, 8]
}

/// The rate that a frame's bits would be if every frame had them.
pub open spec fn frame_rate_bps(total_bits: int, frame_size: int) -> int {
    total_bits * 48_000 / frame_size
}

/// The first band that is not coded in stereo, between the frame's first and
/// last: the allocation codes it in a field of just that width.
pub open spec fn intensity_after(
    rate: int,
    prev: int,
    start_band: int,
    end_band: int,
) -> int {
    held(
        with_hysteresis(rate / 1000, intensity_thresholds(), intensity_margins(), prev),
        start_band,
        end_band,
    )
}

/// The first band that is not coded in stereo.
pub fn intensity_decision(rate: i32, prev: usize, start_band: usize, end_band: usize) -> (r: usize)
    requires
        0 <= rate,
        prev <= NB_EBANDS,
        start_band <= end_band <= NB_EBANDS,
    ensures
        r == intensity_after(rate as int, prev as int, start_band as int, end_band as int),
        start_band <= r <= end_band,
{
    let thresholds: [i32; 21] = [
        1, 2, 3, 4, 5, 6, 7, 8, 16, 24, 36, 44, 50, 56, 62, 67, 72, 79, 88, 106, 134,
    ];
    let margins: [i32; 21] = [
        1, 1, 1, 1, 1, 1, 1, 2, 2, 2, 2, 2, 2, 2, 3, 3, 4, 5, 6, 8, 8,
    ];
    assert(thresholds@ =~= intensity_thresholds());
    assert(margins@ =~= intensity_margins());
    let decided: usize = hysteresis_decision(rate / 1000, &thresholds, &margins, prev);
    hold(decided as i32, start_band as i32, end_band as i32) as usize
}

/// The rate that a frame's bits would be if every frame had them.
pub fn equiv_rate_of(total_bits: i32, frame_size: usize) -> (rate: i32)
    requires
        0 <= total_bits,
        total_bits * 48_000 <= i32::MAX,
        1 <= frame_size <= i32::MAX,
    ensures
        rate == frame_rate_bps(total_bits as int, frame_size as int),
        0 <= rate,
{
    let ghost n = frame_size as int;
    assert(0 <= total_bits * 48_000 / n <= total_bits * 48_000) by (nonlinear_arith)
        requires
            0 <= total_bits,
            1 <= n,
    ;
    total_bits * 48_000 / frame_size as i32
}

/// What the pitch prefilter has to be worth its bits: enough bytes, all bands,
/// and the time to search.
pub open spec fn prefilter_pays(
    start_band: int,
    complexity: int,
    available_bytes: int,
    channels: int,
) -> bool {
    start_band == 0 && complexity >= 5 && available_bytes > 12 * channels
}

/// Whole bytes that are left of a frame.
pub open spec fn bytes_left(total_bits: int, tell: int) -> int {
    total_bits / 8 - (tell + 4) / 8
}

/// Whether the pitch prefilter is searched for.
pub fn prefilter_enabled(
    start_band: usize,
    complexity: i32,
    total_bits: i32,
    tell: i32,
    channels: usize,
) -> (r: (bool, i32))
    requires
        0 <= total_bits,
        1 <= tell <= 0x7fff_0000,
        1 <= channels <= 2,
    ensures
        r.1 == bytes_left(total_bits as int, tell as int),
        r.0 == prefilter_pays(start_band as int, complexity as int, r.1 as int, channels as int),
{
    let left: i32 = total_bits / 8 - (tell + 4) / 8;
    (start_band == 0 && complexity >= 5 && left > 12 * channels as i32, left)
}

/// Where the prefilter is searched for, the frame has the bits for all of the
/// postfilter's parameters, so that the decoder reads every one of them.
pub proof fn law_prefilter_has_its_bits(
    start_band: int,
    complexity: int,
    total_bits: int,
    tell: int,
    channels: int,
)
    requires
        0 <= tell,
        1 <= channels,
        prefilter_pays(start_band, complexity, bytes_left(total_bits, tell), channels),
    ensures
        tell + 1 + 18 <= total_bits,
{
}

/// Whether weak transients count: at a low rate of the high band, unless the
/// speech layer coded the low band as voiced.
pub open spec fn weak_transients_count(start_band: int, bytes: int, voiced: bool) -> bool {
    start_band != 0 && bytes < 15 && !voiced
}

/// The bytes that a frame is meant to have, before it is coded.
pub open spec fn early_bytes(vbr_rate: int, total_bits: int) -> int {
    if vbr_rate > 0 {
        vbr_rate / 64
    } else {
        total_bits / 8
    }
}

/// Whether weak transients count.
pub fn allow_weak_transients(
    start_band: usize,
    vbr_rate: i32,
    total_bits: i32,
    silk_signal_type: i32,
) -> (yes: bool)
    requires
        0 <= total_bits,
    ensures
        yes == weak_transients_count(
            start_band as int,
            early_bytes(vbr_rate as int, total_bits as int),
            silk_signal_type == 2,
        ),
{
    let bytes: i32 = if vbr_rate > 0 {
        vbr_rate / 64
    } else {
        total_bits / 8
    };
    start_band != 0 && bytes < 15 && silk_signal_type != 2
}

/// How the time-frequency resolution of a frame is settled.
#[derive(Debug, Clone, Copy, PartialEq, Eq, Structural)]
pub enum TfPlan {
    /// By looking at the spectrum, where a change from band to band costs so
    /// much.
    Analyse {
        /// The cost of a change.
        lambda: i32,
    },
    /// All flags are the same.
    Uniform {
        /// The flags' value.
        flag: i32,
        /// Which table they use.
        select: usize,
    },
}

/// How the time-frequency resolution of a frame is settled. The high band of a
/// hybrid frame is never analysed, nor is a frame of very few bytes.
pub open spec fn tf_plan_of(
    bytes: int,
    channels: int,
    hybrid: bool,
    complexity: int,
    weak_transient: bool,
    transient: bool,
    voiced: bool,
) -> TfPlan {
    if bytes >= 15 * channels && !hybrid && complexity >= 2 {
        TfPlan::Analyse { lambda: greatest(80, 20_480int / bytes + 2) as i32 }
    } else if hybrid && weak_transient {
        TfPlan::Uniform { flag: 1, select: 0 }
    } else if hybrid && bytes < 15 && !voiced {
        TfPlan::Uniform {
            flag: 0,
            select: if transient {
                1
            } else {
                0
            },
        }
    } else {
        TfPlan::Uniform {
            flag: if transient {
                1
            } else {
                0
            },
            select: 0,
        }
    }
}

/// How the time-frequency resolution of a frame is settled.
pub fn plan_tf(
    effective_bytes: usize,
    channels: usize,
    hybrid: bool,
    complexity: i32,
    weak_transient: bool,
    is_transient: bool,
    silk_signal_type: i32,
) -> (plan: TfPlan)
    requires
        1 <= effective_bytes,
        1 <= channels <= 2,
    ensures
        plan == tf_plan_of(
            effective_bytes as int,
            channels as int,
            hybrid,
            complexity as int,
            weak_transient,
            is_transient,
            silk_signal_type == 2,
        ),
{
    if effective_bytes >= 15 * channels && !hybrid && complexity >= 2 {
        let ghost n = effective_bytes as int;
        assert(0 <= 20_480int / n <= 20_480) by (nonlinear_arith)
            requires
                n >= 1,
        ;
        let lambda: usize = max_usize(80, 20_480 / effective_bytes + 2);
        TfPlan::Analyse { lambda: lambda as i32 }
    } else if hybrid && weak_transient {
        // Improving time resolution with TF on a long window is imperfect, so a
        // weak transient is better served by leaving the resolution alone.
        TfPlan::Uniform { flag: 1, select: 0 }
    } else if hybrid && effective_bytes < 15 && silk_signal_type != 2 {
        // Low-bitrate hybrid forces 5 ms temporal resolution, not 2.5 ms.
        let select: usize = if is_transient {
            1
        } else {
            0
        };
        TfPlan::Uniform { flag: 0, select }
    } else {
        let flag: i32 = if is_transient {
            1
        } else {
            0
        };
        TfPlan::Uniform { flag, select: 0 }
    }
}

/// The bytes that a frame's decisions go by.
pub fn effective_bytes_of(total_bits: i32) -> (n: usize)
    requires
        0 <= total_bits,
    ensures
        n == greatest(total_bits as int / 8, 1),
{
    max_usize((total_bits / 8) as usize, 1)
}

/// Whether a value is spelled out in four bits' worth.
pub open spec fn says_spread(tell: int, total_bits: int) -> bool {
    tell + 4 <= total_bits
}

/// How the pulses' spread is settled, before it is spelled out.
#[derive(Debug, Clone, Copy, PartialEq, Eq, Structural)]
pub enum SpreadPlan {
    /// It is known.
    Known {
        /// The spread.
        spread: u32,
    },
    /// By looking at the spectrum.
    Analyse,
}

/// How the pulses' spread is settled: without the time to look there is none;
/// where it cannot be told the decoder, and for a transient or a frame of few
/// bytes, it is the usual one.
pub open spec fn spread_plan_of(
    tell: int,
    total_bits: int,
    complexity: int,
    transient: bool,
    bytes: int,
    channels: int,
) -> SpreadPlan {
    if complexity == 0 {
        SpreadPlan::Known { spread: SPREAD_NONE }
    } else if !says_spread(tell, total_bits) || transient || complexity < 3 || bytes < 10
        * channels {
        SpreadPlan::Known { spread: SPREAD_NORMAL }
    } else {
        SpreadPlan::Analyse
    }
}

/// How the pulses' spread is settled.
pub fn plan_spread(
    tell: i32,
    total_bits: i32,
    complexity: i32,
    is_transient: bool,
    effective_bytes: usize,
    channels: usize,
) -> (plan: SpreadPlan)
    requires
        1 <= channels <= 2,
        tell <= 0x7fff_0000,
    ensures
        plan == spread_plan_of(
            tell as int,
            total_bits as int,
            complexity as int,
            is_transient,
            effective_bytes as int,
            channels as int,
        ),
{
    if complexity == 0 {
        SpreadPlan::Known { spread: SPREAD_NONE }
    } else if tell + 4 <= total_bits {
        if is_transient || complexity < 3 || effective_bytes < 10 * channels {
            SpreadPlan::Known { spread: SPREAD_NORMAL }
        } else {
            SpreadPlan::Analyse
        }
    } else {
        SpreadPlan::Known { spread: SPREAD_NORMAL }
    }
}

/// The pulses' spread, coded where there are the bits for it.
pub open spec fn write_spread(e: EncoderState, spread: int, total_bits: int) -> EncoderState {
    if says_spread(e.meter().tell(), total_bits) {
        e.coded(Alphabet::Spread, spread)
    } else {
        e
    }
}

/// The pulses' spread, read; the usual one where there are no bits for it.
pub open spec fn read_spread(d: DecoderState, total_bits: int) -> (int, DecoderState) {
    if says_spread(d.meter().tell(), total_bits) {
        (d.value(Alphabet::Spread), d.read(Alphabet::Spread))
    } else {
        (SPREAD_NORMAL as int, d)
    }
}

/// Code the pulses' spread.
pub fn encode_spread(spread: u32, total_bits: i32, rc: &mut RangeEncoder)
    requires
        old(rc).wf(),
        old(rc).counts(),
        spread < 4,
        0 <= total_bits,
    ensures
        final(rc).wf(),
        final(rc)@ == write_spread(old(rc)@, spread as int, total_bits as int),
        final(rc)@.meter().bits() <= old(rc)@.meter().bits() + 32,
{
    if rc.tell() + 4 <= total_bits {
        rc.encode(Alphabet::Spread, spread);
    }
}

/// Read the pulses' spread.
pub fn decode_spread(total_bits: i32, rc: &mut RangeDecoder) -> (spread: u32)
    requires
        old(rc).wf(),
        old(rc).counts(),
        0 <= total_bits,
    ensures
        final(rc).wf(),
        (spread as int, final(rc)@) == read_spread(old(rc)@, total_bits as int),
        spread < 4,
        final(rc)@.meter().bits() <= old(rc)@.meter().bits() + 32,
{
    if rc.tell() + 4 <= total_bits {
        rc.decode(Alphabet::Spread)
    } else {
        SPREAD_NORMAL
    }
}

/// The decoder spreads the pulses as the encoder did, but where an encoder that
/// takes no time could not tell it that it did not.
pub proof fn law_spread_comes_back(
    d: DecoderState,
    e: EncoderState,
    spread: int,
    total_bits: int,
)
    requires
        in_step(d, e),
        0 <= spread < 4,
        says_spread(e.meter().tell(), total_bits) || spread == SPREAD_NORMAL,
        names(d.data, write_spread(e, spread, total_bits).interval),
    ensures
        read_spread(d, total_bits).0 == spread,
        in_step(read_spread(d, total_bits).1, write_spread(e, spread, total_bits)),
{
    if says_spread(e.meter().tell(), total_bits) {
        lemma_in_step(d, e, Alphabet::Spread, spread);
    }
}

/// Whether the allocation's tilt is spelled out: there have to be six bits for
/// it that no boost has taken.
pub open spec fn says_trim(tell_frac: int, total_bits: int, boosted: int) -> bool {
    tell_frac + 48 <= 8 * total_bits - boosted
}

/// The allocation's tilt, coded where there are the bits for it, and what both
/// sides go by. The decoder takes the default where it is not told, so the
/// encoder does too.
pub open spec fn write_trim(e: EncoderState, trim: int, total_bits: int, boosted: int) -> (
    int,
    EncoderState,
) {
    if says_trim(e.meter().tell_frac(), total_bits, boosted) {
        (trim, e.coded(Alphabet::Trim, trim))
    } else {
        (TRIM_DEFAULT as int, e)
    }
}

/// The allocation's tilt, read.
pub open spec fn read_trim(d: DecoderState, total_bits: int, boosted: int) -> (int, DecoderState) {
    if says_trim(d.meter().tell_frac(), total_bits, boosted) {
        (d.value(Alphabet::Trim), d.read(Alphabet::Trim))
    } else {
        (TRIM_DEFAULT as int, d)
    }
}

/// Code the allocation's tilt, and say what both sides go by.
pub fn encode_trim(trim: u32, total_bits: i32, total_boost: i32, rc: &mut RangeEncoder) -> (used:
    u32)
    requires
        old(rc).wf(),
        old(rc).counts(),
        trim <= 10,
        0 <= total_bits <= 0x20_0000,
        0 <= total_boost <= 0x10_0000,
    ensures
        final(rc).wf(),
        (used as int, final(rc)@) == write_trim(
            old(rc)@,
            trim as int,
            total_bits as int,
            total_boost as int,
        ),
        final(rc)@.meter().bits() <= old(rc)@.meter().bits() + 32,
{
    if rc.tell_frac() + 48 <= 8 * total_bits - total_boost {
        rc.encode(Alphabet::Trim, trim);
        trim
    } else {
        TRIM_DEFAULT
    }
}

/// Read the allocation's tilt.
pub fn decode_trim(total_bits: i32, total_boost: i32, rc: &mut RangeDecoder) -> (trim: u32)
    requires
        old(rc).wf(),
        old(rc).counts(),
        0 <= total_bits <= 0x20_0000,
        0 <= total_boost <= 0x10_0000,
    ensures
        final(rc).wf(),
        (trim as int, final(rc)@) == read_trim(
            old(rc)@,
            total_bits as int,
            total_boost as int,
        ),
        trim <= 10,
        final(rc)@.meter().bits() <= old(rc)@.meter().bits() + 32,
{
    if rc.tell_frac() + 48 <= 8 * total_bits - total_boost {
        rc.decode(Alphabet::Trim)
    } else {
        TRIM_DEFAULT
    }
}

/// The decoder goes by the tilt that the encoder went by, told or not.
pub proof fn law_trim_comes_back(
    d: DecoderState,
    e: EncoderState,
    trim: int,
    total_bits: int,
    boosted: int,
)
    requires
        in_step(d, e),
        0 <= trim <= 10,
        names(d.data, write_trim(e, trim, total_bits, boosted).1.interval),
    ensures
        read_trim(d, total_bits, boosted).0 == write_trim(e, trim, total_bits, boosted).0,
        in_step(
            read_trim(d, total_bits, boosted).1,
            write_trim(e, trim, total_bits, boosted).1,
        ),
{
    assert(d.meter() == e.meter());
    if says_trim(e.meter().tell_frac(), total_bits, boosted) {
        lemma_in_step(d, e, Alphabet::Trim, trim);
    }
}

/// Eighths of a bit that are kept for the anti-collapse flag: a bit, on a
/// transient of 10 ms or more that has some left.
pub open spec fn anti_collapse_reserve(
    transient: bool,
    lm: int,
    total_bits: int,
    tell_frac: int,
) -> int {
    if transient && lm >= 2 && 8 * total_bits - tell_frac - 1 >= 8 * (lm + 2) {
        8
    } else {
        0
    }
}

/// Eighths of a bit that are kept for the anti-collapse flag. They have to come
/// off the budget before it is allocated, on both sides alike.
pub fn anti_collapse_rsv(is_transient: bool, lm: usize, total_bits: i32, tell_frac: i32) -> (r: i32)
    requires
        lm <= MAX_LM,
        0 <= total_bits <= 0x20_0000,
        -0x4000_0200 <= tell_frac <= 0x4000_0000,
    ensures
        r == anti_collapse_reserve(
            is_transient,
            lm as int,
            total_bits as int,
            tell_frac as int,
        ),
{
    if is_transient && lm >= 2 {
        let remaining: i32 = 8 * total_bits - tell_frac - 1;
        if remaining >= 8 * (lm as i32 + 2) {
            8
        } else {
            0
        }
    } else {
        0
    }
}

/// The caps of all bands, from the mode's table.
pub fn caps_of(entries: &[u8], lm: usize, channels: usize) -> (caps: Vec<i32>)
    requires
        entries@.len() == 8 * NB_EBANDS,
        lm <= MAX_LM,
        1 <= channels <= 2,
    ensures
        caps@.len() == NB_EBANDS,
        forall|i: int|
            0 <= i < NB_EBANDS ==> #[trigger] caps@[i] == band_cap(
                entries@[21 * (2 * lm + channels - 1) + i] as int,
                i,
                lm as int,
                channels as int,
            ),
        forall|i: int| 0 <= i < NB_EBANDS ==> 0 <= #[trigger] caps@[i] <= 0x8000,
{
    let mut caps: Vec<i32> = Vec::new();
    let row: usize = NB_EBANDS * (2 * lm + channels - 1);
    while caps.len() < NB_EBANDS
        invariant
            caps@.len() <= NB_EBANDS,
            entries@.len() == 8 * NB_EBANDS,
            lm <= MAX_LM,
            1 <= channels <= 2,
            row == 21 * (2 * lm + channels - 1),
            forall|i: int|
                0 <= i < caps@.len() ==> #[trigger] caps@[i] == band_cap(
                    entries@[21 * (2 * lm + channels - 1) + i] as int,
                    i,
                    lm as int,
                    channels as int,
                ),
            forall|i: int| 0 <= i < caps@.len() ==> 0 <= #[trigger] caps@[i] <= 0x8000,
        decreases NB_EBANDS - caps@.len(),
    {
        let i: usize = caps.len();
        caps.push(cap_of(entries[row + i], i, lm, channels));
    }
    caps
}

} // verus!
