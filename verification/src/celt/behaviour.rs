//! What the transform layer's decisions come to, in numbers: bands and frames, losses,
//! bits and pitches.

use vstd::prelude::*;

use crate::celt::bands::{band_cap, band_edge, band_width, frame_power};
use crate::celt::decisions::{
    anti_collapse_reserve, bytes_left, early_bytes, frame_rate_bps, intensity_after,
    intensity_margins, intensity_thresholds, prefilter_pays, reached, says_spread, says_trim,
    spread_plan_of, tf_plan_of, weak_transients_count, with_hysteresis, write_trim, SpreadPlan,
};
use crate::celt::decoder::{after_losses, CeltDecoder, Comb, Concealment};
use crate::celt::dynalloc::{
    asks, boost_bits, limited, next_logp, quantum, widths_from, write_boost, write_boosts,
};
use crate::celt::encoder::{fresh_encoder, CeltEncoder, FramePlan};
use crate::celt::header::{
    law_period_fields_round_trip, octave_alphabet, octave_of, period_of, postfilter_flag,
    read_parameters, read_silence, residual_of, says_postfilter, says_transient, silence_flag,
    silent_bytes, transient_flag, write_parameters, Postfilter,
};
use crate::celt::hints::{after_spread, write_hints, HintFrame, Wishes};
use crate::celt::pitch::{
    beside, beside_coarse, candidates_from, continuity, doubled_lag, found_period, halved, halvings,
    part_of, second_check,
};
use crate::celt::tf::{
    flag_alphabet, flag_budget, keeps_select, spells_select, tf_change, tf_written, write_flags,
};
use crate::celt::tf_search::{band_metric, better_table, misfit, Search};
use crate::celt::vbr::{
    base_target, boosted_target, coded_bins, deep_target, final_target, hybrid_target,
    stereo_freedom, VbrFrame, VbrState,
};
use crate::math::{greatest, least};
use crate::range_coder::alphabet::{lemma_two_to_monotone, lemma_two_to_values, two_to, Alphabet};
use crate::range_coder::decoder::DecoderState;
use crate::range_coder::encoder::EncoderState;
use crate::range_coder::interval::{bit_length, Meter};

verus! {

/// What the first few powers of two are.
proof fn lemma_small_powers()
    ensures
        two_to(0) == 1,
        two_to(1) == 2,
        two_to(2) == 4,
        two_to(3) == 8,
{
    lemma_two_to_values();
    assert(two_to(3) == 2 * two_to(2));
}

/// Where the bands start, in steps of 200 Hz: they get wider upwards, and end at
/// 20 kHz. Frames that are longer have as many more bins of them, and two channels
/// twice as many.
pub proof fn law_bands_widen_upwards(i: int, lm: int)
    requires
        0 <= i <= 21,
        0 <= lm <= 3,
    ensures
        band_edge(i) == seq![
            0int, 1, 2, 3, 4, 5, 6, 7, 8, 10, 12, 14, 16, 20, 24, 28, 34, 40, 48, 60, 78, 100,
        ][i],
        200 * band_edge(21) == 20_000,
        i < 20 ==> band_edge(i + 1) - band_edge(i) <= band_edge(i + 2) - band_edge(i + 1),
        i < 21 ==> band_width(i, 0, 1) == band_edge(i + 1) - band_edge(i),
        i < 21 && lm < 3 ==> band_width(i, lm + 1, 1) == 2 * band_width(i, lm, 1),
        i < 21 ==> band_width(i, lm, 2) == 2 * band_width(i, lm, 1),
{
    lemma_small_powers();
    let bins = band_edge(i + 1) - band_edge(i);
    assert(1 * bins == bins && bins * 1 == bins);
    let p = two_to(lm);
    assert(two_to(lm + 1) == 2 * p);
    assert((1 * bins) * (2 * p) == 2 * ((1 * bins) * p)) by (nonlinear_arith);
    assert((2 * bins) * p == 2 * ((1 * bins) * p)) by (nonlinear_arith);
}

/// A band can take 16 eighths of a bit for each of its bins, and a quarter of one more
/// for each step of its entry.
pub proof fn law_caps_grow_with_their_entries(entry: int, i: int, lm: int, channels: int)
    ensures
        band_cap(0, i, lm, channels) == 16 * band_width(i, lm, channels),
        band_cap(entry + 4, i, lm, channels) == band_cap(entry, i, lm, channels) + band_width(
            i,
            lm,
            channels,
        ),
{
    let w = band_width(i, lm, channels);
    assert((entry + 4 + 64) * w == (entry + 64) * w + 4 * w) by (nonlinear_arith);
}

/// A frame of 2.5, 5, 10 or 20 ms is the shortest doubled none, one, two or three
/// times; nothing else is a frame of the layer.
pub proof fn law_frames_double(n: int, otherwise: int)
    ensures
        n == 48_000int / 400 ==> frame_power(n, otherwise) == 0,
        n == 48_000int / 200 ==> frame_power(n, otherwise) == 1,
        n == 48_000int / 100 ==> frame_power(n, otherwise) == 2,
        n == 48_000int / 50 ==> frame_power(n, otherwise) == 3,
        n != 120 && n != 240 && n != 480 && n != 960 ==> frame_power(n, otherwise) == otherwise,
{
}

/// A loss is counted by how long it is: each frame adds its length, in units of
/// 120 samples, and a decoded frame ends the count.
pub proof fn law_losses_are_timed(
    d: CeltDecoder,
    frame_size: int,
    start_band: int,
    end_band: int,
    pitch: int,
    seed: u32,
    pf: Option<Postfilter>,
    lm: int,
)
    requires
        d.wf(),
    ensures
        ({
            let n = frame_size * d.downsample;
            let c = d.concealment(frame_size, start_band, end_band);
            let after = d.concealed(c, pitch, seed);
            &&& (n == 120 || n == 240 || n == 480 || n == 960) && d.loss_duration <= 9_992
                ==> 120 * (after.loss_duration - d.loss_duration) == n
            &&& (n == 120 || n == 240 || n == 480 || n == 960) && d.plc_duration <= 9_992
                ==> 120 * (after.plc_duration - d.plc_duration) == n
            &&& after.loss_duration <= 10_000 && after.plc_duration <= 10_000
            &&& after.loss_duration > 0
            &&& d.loss_duration == 10_000 ==> after.loss_duration == 10_000
            &&& c.first <==> d.loss_duration == 0
        }),
        d.decoded(pf, lm, seed).loss_duration == 0,
        d.decoded(pf, lm, seed).plc_duration == d.plc_duration,
        d.loss_duration > 0 ==> d.begun(start_band).plc_duration == d.plc_duration,
        d.loss_duration > 0 ==> d.begun(start_band).skip_plc == d.skip_plc,
{
    lemma_small_powers();
    let n = frame_size * d.downsample;
    let p = frame_power(n, 3);
    lemma_two_to_monotone(0, p);
    lemma_two_to_monotone(p, 3);
}

/// A loss is filled with the last pitch for less than 100 ms, which are 40 units of
/// 2.5 ms, and with noise from there on; and with noise at once where only the upper
/// bands are coded or there is no pitch to trust. Only the first frame that repeats a
/// pitch looks for one.
pub proof fn law_noise_after_a_tenth(d: CeltDecoder, frame_size: int, end_band: int, start_band: int)
    ensures
        d.conceals_with_noise(0) <==> d.skip_plc || d.plc_duration * 25 >= 1_000,
        start_band != 0 ==> d.conceals_with_noise(start_band),
        ({
            let c = d.concealment(frame_size, start_band, end_band);
            &&& c.noise <==> d.conceals_with_noise(start_band)
            &&& c.search <==> !c.noise && !(d.last_frame_type is PlcPeriodic)
            &&& c.fold ==> c.noise && d.prefilter_and_fold
            &&& d.prefilter_and_fold && c.noise ==> c.fold
            &&& 0 <= end_band <= 21 ==> c.end_band == end_band
            &&& end_band > 21 ==> c.end_band == 21
        }),
{
}

/// What a lost frame leaves behind. Noise ends the trust in the pitch, is faded to
/// with the last filter, and leaves nothing to fold. A repeated pitch stays trusted,
/// is remembered where it was looked for, and leaves its overlap to be folded by
/// whatever comes next; a decoded frame has folded it.
pub proof fn law_losses_leave_their_marks(
    d: CeltDecoder,
    c: Concealment,
    pitch: int,
    seed: u32,
    pf: Option<Postfilter>,
    lm: int,
)
    requires
        0 <= pitch <= 720,
    ensures
        ({
            let after = d.concealed(c, pitch, seed);
            &&& c.noise ==> after.skip_plc && after.last_frame_type is PlcNoise
                && !after.prefilter_and_fold && after.comb_old == d.comb && after.rng == seed
                && after.last_pitch_index == d.last_pitch_index
            &&& !c.noise ==> after.skip_plc == d.skip_plc && after.last_frame_type is PlcPeriodic
                && after.prefilter_and_fold && after.comb_old == d.comb_old && after.rng == d.rng
            &&& !c.noise && c.search ==> after.last_pitch_index == pitch
            &&& !c.noise && !c.search ==> after.last_pitch_index == d.last_pitch_index
            &&& after.comb == d.comb
        }),
        d.decoded(pf, lm, seed).last_frame_type is Normal,
        !d.decoded(pf, lm, seed).prefilter_and_fold,
        d.decoded(pf, lm, seed).rng == seed,
{
}

/// Some frames of one size were lost: that many are missing when the next is decoded,
/// or ten where they are more, and the background rises by as many units of 2.5 ms
/// and the frame's own, up to 160.
pub proof fn law_missing_frames_are_counted(
    d: CeltDecoder,
    frame_size: int,
    start_band: int,
    end_band: int,
    pitches: Seq<int>,
    seeds: Seq<u32>,
    n: int,
)
    requires
        d.wf(),
        d.loss_duration == 0,
        0 <= n <= 1_000,
    ensures
        ({
            let lm = frame_power(frame_size * d.downsample, 3);
            let after = after_losses(d, frame_size, start_band, end_band, pitches, seeds, n);
            let unit = seq![1int, 2, 4, 8][lm];
            &&& after.downsample == d.downsample
            &&& after.loss_duration == n * unit
            &&& n == 0 ==> after.frames_missing(lm) is None
            &&& 1 <= n <= 10 ==> after.frames_missing(lm) == Some(n)
            &&& n >= 10 ==> after.frames_missing(lm) == Some(10int)
            &&& (n + 1) * unit <= 160 ==> after.background_risen(lm) == (n + 1) * unit
            &&& (n + 1) * unit >= 160 ==> after.background_risen(lm) == 160
        }),
    decreases n,
{
    lemma_small_powers();
    let lm = frame_power(frame_size * d.downsample, 3);
    let unit = seq![1int, 2, 4, 8][lm];
    assert(unit == two_to(lm));
    if n > 0 {
        law_missing_frames_are_counted(
            d,
            frame_size,
            start_band,
            end_band,
            pitches,
            seeds,
            n - 1,
        );
        assert((n - 1) * unit + unit == n * unit) by (nonlinear_arith);
        assert(0 < n * unit <= 8_000) by (nonlinear_arith)
            requires
                0 < n <= 1_000,
                1 <= unit <= 8,
        ;
    } else {
        assert(0 * unit == 0);
    }
    assert((n + 1) * unit == n * unit + unit) by (nonlinear_arith);
    vstd::arithmetic::div_mod::lemma_div_multiples_vanish(n, unit);
    assert(unit * n == n * unit) by (nonlinear_arith);
}

/// The filter of a frame is the one that it names, a step stronger than its index, or
/// none. The next frame fades from it at once after a frame that is longer than the
/// shortest, and from the one before it otherwise. Where only the upper bands are
/// coded there is none.
pub proof fn law_filters_are_handed_on(
    d: CeltDecoder,
    pf: Option<Postfilter>,
    lm: int,
    rng: u32,
    start_band: int,
)
    ensures
        pf matches Some(p) && p.gain_index < 8 ==> d.decoded(pf, lm, rng).comb == (Comb {
            period: (pf->0).pitch_index,
            gain: ((pf->0).gain_index + 1) as u32,
            tapset: (pf->0).tapset,
        }),
        pf is None ==> d.decoded(pf, lm, rng).comb == (Comb { period: 15, gain: 0, tapset: 0 }),
        lm > 0 ==> d.decoded(pf, lm, rng).comb_old == d.decoded(pf, lm, rng).comb,
        lm == 0 ==> d.decoded(pf, lm, rng).comb_old == d.comb,
        start_band != 0 ==> d.begun(start_band).comb.gain == 0,
        d.begun(start_band).comb.period == d.comb.period,
        d.begun(0).comb == d.comb,
{
}

/// A new decoder has heard nothing.
pub proof fn law_fresh_decoders(d: CeltDecoder)
    ensures
        d.blank().comb == (Comb { period: 15, gain: 0, tapset: 0 }),
        d.blank().comb_old == d.blank().comb,
        d.blank().loss_duration == 0,
        d.blank().plc_duration == 0,
        d.blank().skip_plc,
        d.blank().last_frame_type is Fresh,
        !d.blank().prefilter_and_fold,
        d.blank().last_pitch_index == 0,
        d.blank().rng == 0,
        d.blank().channels == d.channels,
        d.blank().stream_channels == d.stream_channels,
        d.blank().downsample == d.downsample,
{
}

/// A period is spelled by its octave, which starts at 15, 31, 63, 127, 255 or 511, and
/// how far above that it is. There are six octaves, and the last ends at 1022.
pub proof fn law_octaves_of_periods(octave: int, residual: int, period: int)
    requires
        0 <= octave <= 5,
        15 <= period <= 1_022,
    ensures
        period_of(octave, residual) == seq![15int, 31, 63, 127, 255, 511][octave] + residual,
        period <= 30 ==> octave_of(period) == 0 && residual_of(period) == period - 15,
        31 <= period <= 62 ==> octave_of(period) == 1 && residual_of(period) == period - 31,
        63 <= period <= 126 ==> octave_of(period) == 2 && residual_of(period) == period - 63,
        127 <= period <= 254 ==> octave_of(period) == 3 && residual_of(period) == period - 127,
        255 <= period <= 510 ==> octave_of(period) == 4 && residual_of(period) == period - 255,
        511 <= period ==> octave_of(period) == 5 && residual_of(period) == period - 511,
        octave_alphabet() == (Alphabet::Uniform { count: 6 }),
{
    lemma_small_powers();
    assert(two_to(4) == 2 * two_to(3));
    assert(two_to(5) == 2 * two_to(4));
    reveal_with_fuel(bit_length, 12);
}

/// What the frame's flags cost: silence is one frame in 32 768, a postfilter every
/// other and a transient every eighth. A flag is only said where there is room for
/// what it brings.
pub proof fn law_flags_have_their_room(tell: int, start_band: int, silent: bool, lm: int, total: int)
    ensures
        silence_flag() == (Alphabet::Bit { logp: 15 }),
        postfilter_flag() == (Alphabet::Bit { logp: 1 }),
        transient_flag() == (Alphabet::Bit { logp: 3 }),
        says_postfilter(tell, 0, false, tell + 16),
        !says_postfilter(tell, start_band, silent, tell + 15),
        total >= tell + 16 ==> (says_postfilter(tell, start_band, silent, total) <==> start_band
            == 0 && !silent),
        says_transient(tell, 1, tell + 3),
        !says_transient(tell, lm, tell + 2),
        !says_transient(tell, 0, total),
        total >= tell + 3 && lm >= 1 ==> says_transient(tell, lm, total),
{
}

/// A silent frame of varying size takes what its flag did, rounded up to bytes, and
/// two more: never more than it was given, nor fewer than two.
pub proof fn law_silence_is_short(tell: int, total: int)
    requires
        1 <= tell,
        0 <= total,
    ensures
        silent_bytes(tell, total) >= 2,
        total >= 16 ==> 8 * silent_bytes(tell, total) <= total,
        total >= tell + 23 ==> tell + 16 <= 8 * silent_bytes(tell, total) < tell + 24,
{
}

/// A change of resolution, by frame size, shortness of blocks, table and flag: level
/// up for more in time and down for more in frequency.
pub proof fn law_resolution_changes(lm: int, transient: bool, select: int, flag: int)
    requires
        0 <= lm <= 3,
        0 <= select <= 1,
        0 <= flag <= 1,
    ensures
        tf_change(lm, transient, select, flag) == seq![
            seq![0int, -1, 0, -1, 0, -1, 0, -1],
            seq![0int, -1, 0, -2, 1, 0, 1, -1],
            seq![0int, -2, 0, -3, 2, 0, 1, -1],
            seq![0int, -2, 0, -3, 3, 0, 1, -1],
        ][lm][(if transient {
            4int
        } else {
            0
        }) + 2 * select + flag],
{
}

/// The first flag is set for one band in sixteen, or in four where blocks are short;
/// each of the others differs from the one before it in one of thirty-two, or of
/// sixteen. One bit is put aside for the choice of table, where there is room for it
/// and the first flag, and the frame is not of the shortest.
pub proof fn law_resolution_flags(k: int, m: Meter, lm: int, transient: bool, storage: int)
    ensures
        flag_alphabet(false, 0) == (Alphabet::Bit { logp: 4 }),
        flag_alphabet(true, 0) == (Alphabet::Bit { logp: 2 }),
        k > 0 ==> flag_alphabet(false, k) == (Alphabet::Bit { logp: 5 }),
        k > 0 ==> flag_alphabet(true, k) == (Alphabet::Bit { logp: 4 }),
        lm > 0 && m.tell() + (if transient {
            2int
        } else {
            4
        }) < 8 * storage ==> flag_budget(m, lm, transient, storage) == 8 * storage - 1,
        lm <= 0 || m.tell() + (if transient {
            2int
        } else {
            4
        }) >= 8 * storage ==> flag_budget(m, lm, transient, storage) == 8 * storage,
{
}

/// A step of a band's boost is worth six bits, unless the band is so narrow that it is
/// a bit for each bin, or so wide that it is an eighth of one. What boosts are charged
/// is as many steps.
pub proof fn law_boosts_come_in_steps(width: int, boost: int)
    requires
        1 <= width,
    ensures
        width <= 6 ==> quantum(width) == 8 * width,
        6 <= width <= 48 ==> quantum(width) == 8 * 6,
        48 <= width ==> quantum(width) == width,
        boost_bits(boost, width) == boost * quantum(width),
{
    let q = quantum(width);
    if width < 6 {
        assert(8 * (boost * width) == boost * q) by (nonlinear_arith)
            requires
                q == 8 * width,
        ;
    } else if width > 48 {
        assert(8 * (boost * width) / 8 == boost * width);
    } else {
        assert(8 * (boost * 6) == boost * q) by (nonlinear_arith)
            requires
                q == 48,
        ;
    }
}

/// The first step of a boost is taken to be one in sixty-four, and twice as likely for
/// each band that was boosted, up to one in four. Whether there is another is even. A
/// step is only asked for where it would fit, below the band's cap.
pub proof fn law_boosts_get_likelier(
    e: EncoderState,
    start: int,
    wants: Seq<int>,
    caps: Seq<int>,
    total: int,
    lm: int,
    channels: int,
    logp: int,
    boost: int,
    m: Meter,
    boosted: int,
    cap: int,
)
    ensures
        write_boosts(e, start, wants, caps, total, lm, channels, 0).logp == 6,
        write_boosts(e, start, wants, caps, total, lm, channels, 0).boosted == 0,
        boost <= 0 ==> next_logp(logp, boost) == logp,
        boost > 0 && logp > 2 ==> next_logp(logp, boost) == logp - 1,
        boost > 0 && logp == 2 ==> next_logp(logp, boost) == 2,
        boost >= cap ==> !asks(m, logp, total, boosted, boost, cap),
        boost < cap && m.tell_frac() + boosted + 8 * logp < total ==> asks(
            m,
            logp,
            total,
            boosted,
            boost,
            cap,
        ),
        m.tell_frac() + boosted + 8 * logp >= total ==> !asks(
            m,
            logp,
            total,
            boosted,
            boost,
            cap,
        ),
{
}

/// A boost that has room for all its steps gets them, and they are charged.
pub proof fn law_boosts_are_granted(
    e: EncoderState,
    want: int,
    boosted: int,
    logp: int,
    total: int,
    q: int,
    cap: int,
    boost: int,
)
    requires
        0 <= want,
        1 <= q,
        1 <= logp,
    ensures
        ({
            let w = write_boost(e, want, boost, boosted, logp, total, q, cap);
            &&& boost <= w.boost <= boost + want * q
            &&& w.boosted - boosted == w.boost - boost
            &&& (w.boost - boost) % q == 0
            &&& w.boost < greatest(cap, boost) + q
        }),
    decreases want,
{
    let bit = Alphabet::Bit { logp: logp as u32 };
    assert(0 <= want * q) by (nonlinear_arith)
        requires
            0 <= want,
            1 <= q,
    ;
    assert(0int % q == 0) by {
        vstd::arithmetic::div_mod::lemma_small_mod(0, q as nat);
    }
    if asks(e.meter(), logp, total, boosted, boost, cap) && want > 0 {
        law_boosts_are_granted(
            e.coded(bit, 1),
            want - 1,
            boosted + q,
            1,
            total,
            q,
            cap,
            boost + q,
        );
        assert((want - 1) * q + q == want * q) by (nonlinear_arith);
        let w = write_boost(e, want, boost, boosted, logp, total, q, cap);
        vstd::arithmetic::div_mod::lemma_mod_add_multiples_vanish(w.boost - boost - q, q);
    }
}

/// How many of a rising list of thresholds are reached: all before the first that is
/// not.
proof fn lemma_reached(val: int, thresholds: Seq<i32>, from: int, k: int)
    requires
        0 <= from <= thresholds.len(),
        0 <= k < thresholds.len(),
        forall|i: int, j: int|
            0 <= i <= j < thresholds.len() ==> #[trigger] thresholds[i] <= #[trigger] thresholds[j],
    ensures
        from <= reached(val, thresholds, from) <= thresholds.len(),
        from <= k ==> (reached(val, thresholds, from) > k <==> val >= thresholds[k]),
    decreases thresholds.len() - from,
{
    if from < thresholds.len() && val >= thresholds[from] {
        lemma_reached(val, thresholds, from + 1, k);
    }
}

/// A choice between rising thresholds goes up past one only where the value reaches it,
/// and surely where it exceeds it by its margin; it goes down past one only where the
/// value is below it, and surely where it is by its margin, or below all of them. It
/// is always what it was, or what the value alone would make it.
pub proof fn law_choices_have_margins(
    val: int,
    thresholds: Seq<i32>,
    margins: Seq<i32>,
    prev: int,
    k: int,
)
    requires
        thresholds.len() == margins.len(),
        0 <= prev <= thresholds.len(),
        0 <= k < thresholds.len(),
        forall|i: int, j: int|
            0 <= i <= j < thresholds.len() ==> #[trigger] thresholds[i] <= #[trigger] thresholds[j],
        forall|i: int| 0 <= i < margins.len() ==> 0 <= #[trigger] margins[i],
        forall|i: int, j: int|
            0 <= i <= j < margins.len() ==> thresholds[i] + #[trigger] margins[i] <= thresholds[j]
                + #[trigger] margins[j],
        forall|i: int, j: int|
            0 <= i <= j < margins.len() ==> thresholds[i] - #[trigger] margins[i] <= thresholds[j]
                - #[trigger] margins[j],
    ensures
        ({
            let r = with_hysteresis(val, thresholds, margins, prev);
            &&& 0 <= r <= thresholds.len()
            &&& prev <= k && r > k ==> val >= thresholds[k]
            &&& prev <= k && val >= thresholds[k] + margins[k] ==> r > k
            &&& prev > k && r <= k ==> val < thresholds[k]
            &&& prev > k && val <= thresholds[k] - margins[k] && val < thresholds[k] ==> r <= k
            &&& val < thresholds[0] ==> r == 0 || prev == 0
            &&& r == prev || (r > k <==> val >= thresholds[k])
        }),
{
    lemma_reached(val, thresholds, 0, k);
    lemma_reached(val, thresholds, 0, 0);
    let now = reached(val, thresholds, 0);
    if prev < thresholds.len() {
        assert(thresholds[prev] + margins[prev] >= thresholds[prev]) by {
            assert(margins[prev] >= 0);
        }
        lemma_reached(val, thresholds, 0, prev);
        if prev <= k {
            assert(thresholds[prev] + margins[prev] <= thresholds[k] + margins[k]);
        }
    }
    if prev >= 1 {
        lemma_reached(val, thresholds, 0, prev - 1);
        assert(margins[prev - 1] >= 0);
        if prev > k {
            assert(thresholds[k] - margins[k] <= thresholds[prev - 1] - margins[prev - 1]);
        }
    }
}

/// Up to which band the channels of a frame are coded apart, by its rate. From below,
/// a band is taken in at the rate that it needs and some more; once it is in, it
/// stays until the rate is less by as much. Rates are in kilobits per second.
pub proof fn law_rate_keeps_channels_apart(rate: int, prev: int, k: int)
    requires
        0 <= rate,
        0 <= prev <= 21,
        0 <= k < 21,
    ensures
        ({
            let r = intensity_after(rate, prev, 0, 21);
            let surely = seq![
                2int, 3, 4, 5, 6, 7, 8, 10, 18, 26, 38, 46, 52, 58, 65, 70, 76, 84, 94, 114, 142,
            ][k];
            let needs = seq![
                1int, 2, 3, 4, 5, 6, 7, 8, 16, 24, 36, 44, 50, 56, 62, 67, 72, 79, 88, 106, 134,
            ][k];
            &&& prev <= k && rate >= 1_000 * surely ==> r > k
            &&& prev <= k && rate < 1_000 * needs ==> r <= k
            &&& prev > k && rate >= 1_000 * needs ==> r > k
            &&& prev > k && rate / 1_000 <= 2 * needs - surely ==> r <= k
        }),
        ({
            let whole = intensity_after(rate, prev, 0, 21);
            &&& k <= whole ==> intensity_after(rate, prev, k, 21) == whole
            &&& whole < k ==> intensity_after(rate, prev, k, 21) == k
            &&& whole > k ==> intensity_after(rate, prev, 0, k) == k
        }),
{
    let t = intensity_thresholds();
    let m = intensity_margins();
    assert forall|i: int, j: int| 0 <= i <= j < m.len() implies t[i] + #[trigger] m[i] <= t[j]
        + #[trigger] m[j] by {}
    assert forall|i: int, j: int| 0 <= i <= j < m.len() implies t[i] - #[trigger] m[i] <= t[j]
        - #[trigger] m[j] by {}
    law_choices_have_margins(rate / 1000, t, m, prev, k);
}

/// The rate of a frame is its bits as often as it fits into a second.
pub proof fn law_frames_per_second(bits: int, frame_size: int)
    requires
        0 <= bits,
        1 <= frame_size,
    ensures
        ({
            let rate = frame_rate_bps(bits, frame_size);
            rate * frame_size <= bits * 48_000 < (rate + 1) * frame_size
        }),
{
    let x = bits * 48_000;
    let q = x / frame_size;
    assert(q * frame_size <= x < (q + 1) * frame_size) by (nonlinear_arith)
        requires
            q == x / frame_size,
            1 <= frame_size,
    ;
}

/// The pitch filter is for frames that have all their bands, from complexity 5 on, and
/// takes more than twelve bytes for each channel. What is left of a frame is counted
/// in bytes, to the nearest.
pub proof fn law_pitch_filters_need_bytes(
    start_band: int,
    complexity: int,
    bytes: int,
    channels: int,
    total_bits: int,
    tell: int,
)
    requires
        1 <= channels <= 2,
        0 <= tell,
        0 <= total_bits,
    ensures
        start_band != 0 ==> !prefilter_pays(start_band, complexity, bytes, channels),
        complexity <= 4 ==> !prefilter_pays(start_band, complexity, bytes, channels),
        bytes <= 12 || (channels == 2 && bytes <= 24) ==> !prefilter_pays(
            start_band,
            complexity,
            bytes,
            channels,
        ),
        complexity >= 5 && bytes >= 25 ==> prefilter_pays(0, complexity, bytes, channels),
        complexity >= 5 && bytes >= 13 ==> prefilter_pays(0, complexity, bytes, 1),
        total_bits % 8 == 0 ==> -4 <= 8 * bytes_left(total_bits, tell) - (total_bits - tell) <= 4,
{
}

/// A weak transient only counts in frames of upper bands that have fewer than fifteen
/// bytes and no voice below them. The bytes are those of the rate where the size
/// varies, which counts eighths of bits, and of the frame where it does not.
pub proof fn law_weak_transients(start_band: int, bytes: int, voiced: bool, rate: int, total: int)
    ensures
        start_band > 0 && bytes <= 14 ==> (weak_transients_count(start_band, bytes, voiced)
            <==> !voiced),
        start_band == 0 || bytes >= 15 ==> !weak_transients_count(start_band, bytes, voiced),
        rate > 0 ==> 64 * early_bytes(rate, total) <= rate < 64 * early_bytes(rate, total) + 64,
        rate <= 0 ==> 8 * early_bytes(rate, total) <= total < 8 * early_bytes(rate, total) + 8,
{
}

/// When a frame's resolution is searched for rather than set: with fifteen bytes for
/// each channel, all its bands, and complexity 2. The fewer bytes, the dearer a
/// change; it is never cheaper than 80. Otherwise bands are all alike.
pub proof fn law_resolution_is_searched(
    bytes: int,
    channels: int,
    hybrid: bool,
    complexity: int,
    weak: bool,
    transient: bool,
    voiced: bool,
)
    requires
        1 <= bytes,
        1 <= channels <= 2,
    ensures
        ({
            let plan = tf_plan_of(bytes, channels, hybrid, complexity, weak, transient, voiced);
            let enough = bytes >= 30 || (channels == 1 && bytes >= 15);
            &&& plan is Analyse <==> enough && !hybrid && complexity >= 2
            &&& plan is Analyse && bytes >= 263 ==> plan->lambda == 80
            &&& plan is Analyse && bytes < 260 ==> (plan->lambda - 2) * bytes <= 20_480 < (
            plan->lambda - 1) * bytes
            &&& !(plan is Analyse) && !hybrid ==> plan->select == 0 && (plan->flag == 1
                <==> transient)
            &&& hybrid && weak ==> plan->flag == 1 && plan->select == 0
            &&& hybrid && !weak && bytes <= 14 && !voiced ==> plan->flag == 0 && (plan->select == 1
                <==> transient)
            &&& hybrid && !weak && (bytes >= 15 || voiced) ==> plan->select == 0 && (plan->flag == 1
                <==> transient)
            &&& !(plan is Analyse) ==> plan->flag <= 1 && plan->select <= 1
        }),
{
    let q = 20_480int / bytes;
    assert(q * bytes <= 20_480 < (q + 1) * bytes) by (nonlinear_arith)
        requires
            q == 20_480int / bytes,
            1 <= bytes,
    ;
    if bytes >= 263 {
        assert(q <= 77) by (nonlinear_arith)
            requires
                q * bytes <= 20_480,
                bytes >= 263,
        ;
    }
    if bytes < 260 {
        assert(q >= 78) by (nonlinear_arith)
            requires
                20_480 < (q + 1) * bytes,
                1 <= bytes < 260,
        ;
    }
}

/// How spread out a frame's pulses are is measured where there are ten bytes for each
/// channel, blocks are long, complexity is 3 and there is room to say it, four bits.
/// Otherwise it is what goes unsaid, and at no complexity at all it is none.
pub proof fn law_spread_is_measured(
    tell: int,
    total: int,
    complexity: int,
    transient: bool,
    bytes: int,
    channels: int,
)
    requires
        1 <= channels <= 2,
    ensures
        ({
            let plan = spread_plan_of(tell, total, complexity, transient, bytes, channels);
            let enough = bytes >= 20 || (channels == 1 && bytes >= 10);
            &&& plan is Analyse <==> enough && !transient && complexity >= 3 && tell + 4 <= total
            &&& complexity == 0 ==> plan == (SpreadPlan::Known { spread: 0 })
            &&& complexity != 0 && !(plan is Analyse) ==> plan == (SpreadPlan::Known { spread: 2 })
        }),
        says_spread(tell, tell + 4),
        !says_spread(tell, tell + 3),
{
}

/// The tilt of the allocation is said where six bits are left for it, and is even, at
/// five, where it is not.
pub proof fn law_tilt_is_said(tell_frac: int, total: int, boosted: int, e: EncoderState, trim: int)
    ensures
        says_trim(tell_frac, total, boosted) <==> 8 * total - boosted - tell_frac >= 8 * 6,
        8 * total - boosted - e.meter().tell_frac() < 48 ==> write_trim(e, trim, total, boosted)
            == (5int, e),
        8 * total - boosted - e.meter().tell_frac() >= 48 ==> write_trim(e, trim, total, boosted).0
            == trim,
{
}

/// A bit is put aside against collapse in transients of at least 10 ms that have it to
/// spare: more than four bits, or five in the longest frames.
pub proof fn law_collapse_bit(transient: bool, lm: int, total: int, tell_frac: int)
    requires
        0 <= lm <= 3,
    ensures
        ({
            let r = anti_collapse_reserve(transient, lm, total, tell_frac);
            let spare = 8 * total - tell_frac;
            &&& !transient || lm <= 1 ==> r == 0
            &&& transient && lm == 2 ==> r == (if spare > 32 {
                8int
            } else {
                0
            })
            &&& transient && lm == 3 ==> r == (if spare > 40 {
                8int
            } else {
                0
            })
        }),
{
}

/// Bands are kept from collapsing until there have been two transients in a row, and
/// again after a frame that was none. A frame's filter, bands and response are
/// remembered for the next.
pub proof fn law_transients_in_a_row(
    e: CeltEncoder,
    pf: Option<Postfilter>,
    plan: FramePlan,
    bands: usize,
)
    requires
        e.wf(),
    ensures
        ({
            let steady = e.ended(pf, plan, bands, false);
            let one = steady.ended(pf, plan, bands, true);
            let two = one.ended(pf, plan, bands, true);
            let three = two.ended(pf, plan, bands, true);
            &&& steady.keeps_bands_up()
            &&& one.keeps_bands_up()
            &&& !two.keeps_bands_up()
            &&& !three.keeps_bands_up()
            &&& three.ended(pf, plan, bands, false).keeps_bands_up()
            &&& pf is None ==> one.prefilter_period == 15
            &&& pf is Some ==> one.prefilter_period == (pf->0).pitch_index
            &&& one.prefilter_tapset == plan.tapset
            &&& one.last_coded_bands == bands
            &&& one.vbr == e.vbr && one.intensity == e.intensity
        }),
{
}

/// How a frame is gone about, from the encoder that does: at its own rate, with its
/// filter where that pays, and looking for transients from complexity 1 on.
pub proof fn law_plans_of_frames(
    e: CeltEncoder,
    frame_size: int,
    start_band: int,
    total: int,
    tell: int,
)
    requires
        e.wf(),
        0 <= frame_size <= 2_880,
    ensures
        ({
            let p = e.plan(frame_size, start_band, total, tell);
            &&& p.frame_size == frame_size * e.upsample
            &&& p.frame_size == 960 ==> p.lm == 3
            &&& p.frame_size == 120 ==> p.lm == 0
            &&& p.frame_size == 240 ==> p.lm == 1
            &&& p.frame_size == 480 ==> p.lm == 2
            &&& p.frame_size != 240 && p.frame_size != 480 && p.frame_size != 960 ==> p.lm == 0
            &&& p.look_for_transients <==> e.complexity > 0
            &&& p.tapset == e.tapset_decision
            &&& p.prefilter ==> start_band == 0 && e.complexity > 4
            &&& p.weak_transients ==> start_band != 0 && e.silk_signal_type != 2
        }),
{
    assert(0 <= frame_size * e.upsample <= 2_880 * 6) by (nonlinear_arith)
        requires
            0 <= frame_size <= 2_880,
            1 <= e.upsample <= 6,
    ;
}

/// What a frame of varying size aims at before its content is looked at. The transform
/// alone takes 20 bits off, and 40 more for each channel; above speech it takes 4 off
/// and 9, and stops at none. What has drifted is shared out by the frame's length.
pub proof fn law_rate_less_what_the_rest_takes(rate: int, channels: int, offset: int, lm: int)
    requires
        0 <= lm <= 3,
    ensures
        base_target(rate, 1, false, None, lm) == rate - 8 * 60,
        base_target(rate, 2, false, None, lm) == rate - 8 * 100,
        rate >= 8 * 13 ==> base_target(rate, 1, true, None, lm) == rate - 8 * 13,
        rate >= 8 * 22 ==> base_target(rate, 2, true, None, lm) == rate - 8 * 22,
        rate <= 8 * 13 ==> base_target(rate, 1, true, None, lm) == 0,
        base_target(rate, channels, false, Some(offset), 3) == base_target(
            rate,
            channels,
            false,
            None,
            3,
        ) + offset,
        ({
            let share = base_target(rate, channels, true, Some(offset), lm) - base_target(
                rate,
                channels,
                true,
                None,
                lm,
            );
            let parts = seq![8int, 4, 2, 1][lm];
            share * parts <= offset < (share + 1) * parts
        }),
{
    lemma_small_powers();
    let parts = seq![8int, 4, 2, 1][lm];
    assert(parts == two_to(3 - lm));
    let share = offset / parts;
    assert(share * parts <= offset < (share + 1) * parts) by (nonlinear_arith)
        requires
            share == offset / parts,
            1 <= parts,
    ;
}

/// Above speech, a frame gets twelve bits more for 20 ms where what is below it is
/// tonal, and eighteen fewer where it is noisy, and as much less for shorter frames;
/// and the strongest of transients get fifty bits at least.
pub proof fn law_speech_leaves_its_bits(base: int, low: int, high: int, boost: int, lm: int)
    requires
        0 <= lm <= 3,
        low < 100 < high,
    ensures
        hybrid_target(base, 100, lm, boost, false) == base + boost,
        ({
            let parts = seq![8int, 4, 2, 1][lm];
            &&& parts * (hybrid_target(base, low, lm, boost, false) - base - boost) == 8 * 12
            &&& parts * (base + boost - hybrid_target(base, high, lm, boost, false)) == 8 * 18
        }),
        hybrid_target(base, low, lm, boost, true) >= 8 * 50,
        hybrid_target(base, low, lm, boost, false) >= 400 ==> hybrid_target(
            base,
            low,
            lm,
            boost,
            true,
        ) == hybrid_target(base, low, lm, boost, false),
        hybrid_target(base, low, lm, boost, false) <= 400 ==> hybrid_target(
            base,
            low,
            lm,
            boost,
            true,
        ) == 400,
{
    lemma_small_powers();
    let parts = seq![8int, 4, 2, 1][lm];
    assert(parts == two_to(3 - lm));
    let more = 96int / parts;
    let fewer = 144int / parts;
    assert(parts * more == 96 && parts * fewer == 144) by (nonlinear_arith)
        requires
            parts == 8 || parts == 4 || parts == 2 || parts == 1,
            more == 96int / parts,
            fewer == 144int / parts,
    ;
}

/// The bins that a frame codes are those below its last band, and, for two channels,
/// those below the band where they are joined once more. What the second channel is
/// free in is a step less for each of its bands.
pub proof fn law_bins_that_are_coded(last: int, intensity: int, lm: int)
    requires
        0 <= last <= 21,
        0 <= intensity <= 21,
        0 <= lm <= 3,
    ensures
        ({
            let bands = if last == 0 {
                21int
            } else {
                last
            };
            let joined = if intensity <= bands {
                intensity
            } else {
                bands
            };
            let unit = seq![1int, 2, 4, 8][lm];
            &&& coded_bins(last, intensity, lm, 1) == unit * band_edge(bands)
            &&& coded_bins(last, intensity, lm, 2) == unit * band_edge(bands) + unit * band_edge(
                joined,
            )
            &&& stereo_freedom(last, intensity, lm) == unit * band_edge(joined) - joined
        }),
{
    lemma_small_powers();
    let bands = if last == 0 {
        21int
    } else {
        last
    };
    let joined = least(intensity, bands);
    let unit = seq![1int, 2, 4, 8][lm];
    assert(unit == two_to(lm));
    assert(unit * (band_edge(bands) + band_edge(joined)) == unit * band_edge(bands) + unit
        * band_edge(joined)) by (nonlinear_arith);
}

/// How content moves the aim: what stereo saves comes off and what boosts cost comes
/// on, all but 19 eighths of a bit for each 2.5 ms. A frame that lies deep in what it
/// can use comes down to that, but never to less than a quarter. It is never more than
/// twice what it started from.
pub proof fn law_content_moves_the_aim(
    base: int,
    saving: int,
    boost: int,
    lm: int,
    target: int,
    depth: int,
    swing: int,
)
    requires
        0 <= lm <= 3,
    ensures
        boosted_target(base, saving, boost, lm) + saving - boost - base == seq![
            -19int,
            -38,
            -76,
            -152,
        ][lm],
        deep_target(target, depth) <= target || target < 0,
        depth >= target && target >= 0 ==> deep_target(target, depth) == target,
        target >= 0 && 4 * depth >= target && depth <= target ==> deep_target(target, depth) == depth,
        target >= 0 && depth <= target / 4 ==> deep_target(target, depth) == target / 4,
        final_target(target, base, None) <= 2 * base,
        target <= 2 * base ==> final_target(target, base, None) == target,
        base + swing <= 2 * base ==> final_target(target, base, Some(swing)) == base + swing,
        swing >= base ==> final_target(target, base, Some(swing)) == 2 * base,
{
    lemma_small_powers();
}

/// How many bytes a frame can have: 1275 for 20 ms and in proportion for less, or what
/// it was given.
pub proof fn law_most_that_a_frame_takes(f: VbrFrame)
    requires
        f.wf(),
    ensures
        f.most() <= seq![159int, 318, 637, 1_275][f.lm as int],
        8 * f.most() <= f.total_bits,
        8 * f.most() + 8 > f.total_bits || f.most() == seq![159int, 318, 637, 1_275][f.lm as int],
{
    lemma_small_powers();
    let parts = two_to(3 - f.lm);
    let share = 1275int / parts;
    assert(share == seq![159int, 318, 637, 1_275][f.lm as int]) by {
        assert(1275int / 8 == 159 && 1275int / 4 == 318 && 1275int / 2 == 637 && 1275int / 1
            == 1275);
    }
}

/// How few bytes a frame can have: two more than it has taken, and above speech at
/// least 37 bits from where the layer started.
pub proof fn law_least_that_a_frame_takes(f: VbrFrame)
    requires
        f.wf(),
    ensures
        64 * f.fewest() >= f.tell_frac + f.total_boost + 128,
        f.hybrid ==> 64 * f.fewest() >= f.tell0_frac + f.total_boost + 8 * 37,
        64 * f.fewest() < f.tell_frac + f.total_boost + 192 || (f.hybrid && 64 * f.fewest()
            < f.tell0_frac + f.total_boost + 8 * 37 + 64),
{
}

/// A frame gets the bytes nearest to what it aims at, with what it has taken already,
/// where its bounds allow that and the rate is not held to. Holding to the rate only
/// adds: what the reservoir would be short of, in whole bytes.
pub proof fn law_frames_get_what_they_aim_at(s: VbrState, f: VbrFrame, rate: int)
    requires
        s.wf(),
        f.wf(),
        2 <= f.fewest() <= f.most(),
    ensures
        ({
            let free = s.bytes(f, rate, false);
            let held = s.bytes(f, rate, true);
            let aim = f.target + f.tell_frac;
            &&& f.fewest() < free < f.most() ==> -32 < 64 * free - aim <= 32
            &&& free == f.most() ==> aim >= 64 * free - 32 || free == f.fewest()
            &&& free == f.fewest() < f.most() ==> aim < 64 * free + 32
            &&& held >= free
            &&& s.reservoir + 64 * free >= rate ==> held == free
            &&& s.reservoir + 64 * free < rate && held < f.most() ==> 0 <= rate - s.reservoir - 64
                * held < 64
        }),
{
}

/// Holding to the rate, what a frame takes beyond its share is put into the reservoir,
/// and what it takes less is taken out, as far as there is any. The drift is what
/// corrects the next frames, with its sign turned. Without it nothing is kept but the
/// count of frames, which ends at 970.
pub proof fn law_reservoirs_keep_accounts(s: VbrState, f: VbrFrame, rate: int, step: int)
    requires
        s.wf(),
        f.wf(),
        0 <= rate <= 0x1000_0000,
        2 <= f.fewest() <= f.most(),
        s.reservoir <= 0x1000_0000_0000_0000 - 0x10_0000,
        -0x1000_0000 <= s.drift + step <= 0x1000_0000,
    ensures
        ({
            let free = s.bytes(f, rate, false);
            let kept = s.after(f, rate, true, step);
            let loose = s.after(f, rate, false, step);
            &&& s.reservoir + 64 * free >= rate ==> kept.reservoir == s.reservoir + 64 * free - rate
            &&& s.reservoir + 64 * free <= rate ==> kept.reservoir == 0
            &&& kept.drift == s.drift + step && kept.offset + kept.drift == 0
            &&& loose.reservoir == s.reservoir && loose.drift == s.drift && loose.offset == s.offset
            &&& kept.count == loose.count
            &&& s.count < 970 ==> kept.count == s.count + 1
            &&& s.count == 970 ==> kept.count == 970
        }),
        s.counted() == (if s.count < 970 {
            s.count + 1
        } else {
            970
        }),
{
    lemma_two_to_values();
    assert(f.most() <= 1_275) by {
        law_most_that_a_frame_takes(f);
    }
}

/// By how much a frame missed the rate is measured as if it were 20 ms long, and what
/// was known of the drift comes off.
pub proof fn law_misses_are_measured(s: VbrState, f: VbrFrame, rate: int)
    requires
        s.wf(),
        f.wf(),
    ensures
        s.miss(f, rate) == (f.target + f.tell_frac - rate) * seq![8int, 4, 2, 1][f.lm as int],
{
    lemma_small_powers();
}

/// A part of a period is the whole number nearest to it, and what is checked beside it
/// is as near to a multiple of that: twice it, three times or five, whichever shares
/// no factor with how many parts there are.
pub proof fn law_parts_of_periods(t0: int, k: int, max_period: int)
    requires
        0 <= t0,
        2 <= k <= 15,
    ensures
        -k < 2 * k * part_of(t0, k) - 2 * t0 <= k,
        second_check(k) == seq![0int, 0, 3, 2, 3, 2, 5, 2, 3, 2, 3, 2, 5, 2, 3, 2][k],
        k > 2 ==> -k < 2 * k * beside(t0, k, max_period) - 2 * second_check(k) * t0 <= k,
        k == 2 && t0 + part_of(t0, 2) <= max_period ==> beside(t0, k, max_period) == t0 + part_of(
            t0,
            2,
        ),
        k == 2 && t0 + part_of(t0, 2) > max_period ==> beside(t0, k, max_period) == t0,
{
    let a = 2 * t0 + k;
    let q = a / (2 * k);
    assert(a - 2 * k < 2 * k * q <= a) by (nonlinear_arith)
        requires
            q == a / (2 * k),
            k >= 2,
    ;
    let b = 2 * second_check(k) * t0 + k;
    let r = b / (2 * k);
    assert(b - 2 * k < 2 * k * r <= b) by (nonlinear_arith)
        requires
            r == b / (2 * k),
            k >= 2,
    ;
}

/// A period goes on from the last where it is within one of it, and nearly does where
/// it is within two and short enough a part.
pub proof fn law_periods_go_on(t1: int, prev: int, k: int, t0: int)
    ensures
        continuity(t1, prev, k, t0) is Close <==> t1 == prev - 1 || t1 == prev || t1 == prev + 1,
        continuity(t1, prev, k, t0) is Near ==> t1 == prev - 2 || t1 == prev + 2,
        t1 == prev - 2 || t1 == prev + 2 ==> (continuity(t1, prev, k, t0) is Near <==> 5 * k * k
            < t0),
{
}

/// A band's level of resolution counts double, and down where blocks are long, so that
/// a band too narrow for a split is told apart by one less. What a choice misses it by
/// is a distance.
pub proof fn law_levels_count_double(
    level: int,
    narrow: bool,
    lm: int,
    metric: int,
    transient: bool,
    select: int,
    flag: int,
)
    requires
        0 <= lm <= 3,
        0 <= level <= 4,
    ensures
        band_metric(level, true, false, lm) == 2 * level,
        band_metric(level, false, false, lm) == -2 * level,
        narrow && (level == 0 || level == lm) ==> band_metric(level, false, narrow, lm) == -2 * level
            - 1,
        narrow && level != 0 && level != lm ==> band_metric(level, false, narrow, lm) == -2 * level,
        narrow && level == 0 ==> band_metric(level, true, narrow, lm) == -1,
        narrow && level != 0 ==> band_metric(level, true, narrow, lm) == 2 * level,
        misfit(metric, lm, transient, select, flag) >= 0,
        metric >= 2 * tf_change(lm, transient, select, flag) ==> misfit(
            metric,
            lm,
            transient,
            select,
            flag,
        ) == metric - 2 * tf_change(lm, transient, select, flag),
        metric <= 2 * tf_change(lm, transient, select, flag) ==> misfit(
            metric,
            lm,
            transient,
            select,
            flag,
        ) == 2 * tf_change(lm, transient, select, flag) - metric,
{
}

/// A new encoder of the layer has complexity 9, 24 bits and no rate of its own, holds
/// to one that it is given, and knows nothing of its input.
pub proof fn law_fresh_encoders(channels: usize)
    ensures
        ({
            let e = fresh_encoder(channels);
            &&& e.channels == channels
            &&& e.upsample == 1
            &&& e.complexity == 9
            &&& e.lsb_depth == 24
            &&& e.vbr_rate == 0
            &&& e.constrained_vbr
            &&& e.silk_signal_type == 0 && e.silk_offset == 0
            &&& e.intensity == 0 && e.last_coded_bands == 0
            &&& e.spread_decision == 2
            &&& e.tapset_decision == 0 && e.prefilter_tapset == 0
            &&& e.prefilter_period == 15
            &&& e.vbr.reservoir == 0 && e.vbr.drift == 0 && e.vbr.offset == 0 && e.vbr.count == 0
            &&& e.keeps_bands_up()
        }),
{
}

/// The dearest searches are for complexity 8 and above: the angles of joint stereo, and
/// the whole of a frame in short blocks.
pub proof fn law_dear_searches(e: CeltEncoder, dual: bool, short: bool)
    requires
        e.wf(),
    ensures
        e.complexity <= 7 ==> !e.weighs_angles(dual) && !e.measures_all(short),
        e.complexity >= 8 ==> (e.measures_all(short) <==> short),
        e.complexity >= 8 && e.channels == 2 ==> (e.weighs_angles(dual) <==> !dual),
        e.channels == 1 ==> !e.weighs_angles(dual),
{
}

/// Loss weakens the filter: it is halved above 2%, halved twice above 4%, and left off
/// above 8%.
pub proof fn law_loss_weakens_the_filter(loss: int)
    ensures
        loss <= 2 ==> halvings(loss) == Some(0u32),
        3 <= loss <= 4 ==> halvings(loss) == Some(1u32),
        5 <= loss <= 8 ==> halvings(loss) == Some(2u32),
        9 <= loss ==> halvings(loss) is None,
{
}

/// A period is looked for at half the rate first, and then within two of what that
/// found, and never shorter than the shortest.
pub proof fn law_periods_are_looked_for(
    max_period: usize,
    min_period: usize,
    t0: usize,
    prev: usize,
    t: int,
    offset: int,
    i: int,
    other: int,
)
    requires
        2 <= max_period,
    ensures
        ({
            let h = halved(max_period, min_period, t0, prev);
            &&& 2 * h.max_period <= max_period <= 2 * h.max_period + 1
            &&& 2 * h.min_period <= min_period <= 2 * h.min_period + 1
            &&& 2 * h.prev_period <= prev <= 2 * h.prev_period + 1
            &&& h.t0 < h.max_period
            &&& t0 / 2 < max_period / 2 ==> 2 * h.t0 <= t0 <= 2 * h.t0 + 1
        }),
        doubled_lag(t, offset, min_period as int) >= min_period,
        2 * t + offset >= min_period ==> doubled_lag(t, offset, min_period as int) == 2 * t
            + offset,
        beside_coarse(2 * t, t, other) && beside_coarse(2 * t, other, t),
        beside_coarse(2 * t - 2, t, other) && beside_coarse(2 * t - 2, other, t),
        beside_coarse(2 * t + 2, t, other) && beside_coarse(2 * t + 2, other, t),
        i > 2 * t + 2 && i > 2 * other + 2 ==> !beside_coarse(i, t, other),
        i < 2 * t - 2 && i < 2 * other - 2 ==> !beside_coarse(i, t, other),
        2 <= t <= max_period ==> found_period(max_period as int, t) == max_period - t,
        0 <= t <= 2 ==> found_period(max_period as int, t) == max_period - 2,
{
}

/// What fills a loss is the last period, taken from twice its length of the past, or as
/// much of that as is kept, 1024 samples.
pub proof fn law_periods_are_repeated(d: CeltDecoder)
    requires
        d.wf(),
    ensures
        d.last_pitch_index >= 1 ==> d.repeated_period() == d.last_pitch_index,
        d.last_pitch_index == 0 ==> d.repeated_period() == 1,
        d.repeated_period() <= 512 ==> d.repeated_from() == 2 * d.repeated_period(),
        d.repeated_period() >= 512 ==> d.repeated_from() == 1_024,
{
}

/// Which of the two tables holds is only said where it makes a difference and a bit
/// was put aside for it: never in the shortest frames, in long blocks where any band
/// was changed, and in short blocks likewise at 5 ms, and always above that.
pub proof fn law_tables_are_told_apart(kept: bool, lm: int, transient: bool, changed: bool)
    requires
        0 <= lm <= 3,
    ensures
        !kept || lm == 0 ==> !spells_select(kept, lm, transient, changed),
        kept && !transient && lm >= 1 ==> (spells_select(kept, lm, transient, changed) <==> changed),
        kept && transient && lm == 1 ==> (spells_select(kept, lm, transient, changed) <==> changed),
        kept && transient && lm >= 2 ==> spells_select(kept, lm, transient, changed),
{
}

/// Where no bit was put aside, it is the first table that holds.
pub proof fn law_first_table_goes_unsaid(
    e: EncoderState,
    transient: bool,
    flags: Seq<int>,
    lm: int,
    select: int,
    k: int,
)
    requires
        !keeps_select(e.meter(), lm, transient, e.storage),
        0 <= k < flags.len(),
    ensures
        ({
            let w = write_flags(e, transient, flags, 8 * e.storage, flags.len() as int);
            let (written, after) = tf_written(e, transient, flags, lm, select);
            &&& after == w.e
            &&& k < w.flags.len() ==> written[k] == tf_change(lm, transient, 0, w.flags[k])
        }),
{
}

/// What is coded of a band's flag is whether it differs from the one before it, and of
/// the first whether it is set. Where there is no room left for that, it is as the one
/// before it.
pub proof fn law_flags_are_differences(
    e: EncoderState,
    transient: bool,
    flags: Seq<int>,
    budget: int,
    n: int,
)
    requires
        1 <= n <= flags.len(),
    ensures
        write_flags(e, transient, flags, budget, 0).curr == 0,
        write_flags(e, transient, flags, budget, 0).e == e,
        !write_flags(e, transient, flags, budget, 0).changed,
        ({
            let before = write_flags(e, transient, flags, budget, n - 1);
            let after = write_flags(e, transient, flags, budget, n);
            let logp = if transient {
                if n == 1 {
                    2u32
                } else {
                    4
                }
            } else {
                if n == 1 {
                    4u32
                } else {
                    5
                }
            };
            let flag = flags[n - 1];
            let room = before.e.meter().tell() + logp <= budget;
            &&& room && flag == before.curr ==> after.e == before.e.coded(
                Alphabet::Bit { logp },
                0,
            )
            &&& room && flag != before.curr ==> after.e == before.e.coded(
                Alphabet::Bit { logp },
                1,
            )
            &&& room ==> after.curr == flag && after.flags == before.flags.push(flag)
                && after.changed == (before.changed || flag == 1)
            &&& !room ==> after.e == before.e && after.curr == before.curr && after.flags
                == before.flags.push(before.curr) && after.changed == before.changed
        }),
{
}

/// Bands that want no boost get none.
pub proof fn law_boosts_are_wanted(
    e: EncoderState,
    start: int,
    wants: Seq<int>,
    caps: Seq<int>,
    total: int,
    lm: int,
    channels: int,
    n: int,
    k: int,
)
    requires
        0 <= k < n,
        forall|i: int| #[trigger] wants[i] <= 0,
    ensures
        ({
            let w = write_boosts(e, start, wants, caps, total, lm, channels, n);
            &&& w.boosts.len() == n
            &&& w.boosts[k] == 0
            &&& w.boosted == 0
            &&& w.logp == 6
        }),
    decreases n,
{
    assert(wants[start + n - 1] <= 0);
    let before = write_boosts(e, start, wants, caps, total, lm, channels, n - 1);
    if n > 1 {
        if k < n - 1 {
            law_boosts_are_wanted(e, start, wants, caps, total, lm, channels, n - 1, k);
        } else {
            law_boosts_are_wanted(e, start, wants, caps, total, lm, channels, n - 1, 0);
        }
    } else {
        assert(write_boosts(e, start, wants, caps, total, lm, channels, 0).boosts.len() == 0);
    }
    let q = quantum(band_width(start + n - 1, lm, channels));
    let b = write_boost(
        before.e,
        wants[start + n - 1],
        0,
        before.boosted,
        before.logp,
        total,
        q,
        caps[start + n - 1],
    );
    assert(b.boost == 0 && b.boosted == before.boosted);
}

/// Without a limit every band gets what it wants.
pub proof fn law_boosts_without_a_limit(
    wants: Seq<int>,
    widths: Seq<int>,
    bytes: int,
    n: int,
    k: int,
)
    requires
        0 <= k < n,
    ensures
        ({
            let l = limited(wants, widths, false, bytes, n);
            &&& l.offsets.len() == n
            &&& l.offsets[k] == wants[k]
            &&& !l.stopped
            &&& l.total == limited(wants, widths, false, bytes, n - 1).total + boost_bits(
                wants[n - 1],
                widths[n - 1],
            )
        }),
    decreases n,
{
    if n > 1 {
        law_boosts_without_a_limit(
            wants,
            widths,
            bytes,
            n - 1,
            if k < n - 1 {
                k
            } else {
                0
            },
        );
    } else {
        assert(limited(wants, widths, false, bytes, 0).offsets.len() == 0);
    }
}

/// The bands of a list are the ones from its start on.
pub proof fn law_widths_are_of_the_bands(start: int, lm: int, channels: int, n: int, k: int)
    requires
        0 <= k < n,
    ensures
        widths_from(start, lm, channels, n).len() == n,
        widths_from(start, lm, channels, n)[k] == band_width(start + k, lm, channels),
{
}

/// What a row of flags costs: for each band how far it misses what it is after, by how
/// much that matters, and the price of a change for each that differs from the one
/// before it; and for the first where it is set and blocks are long.
pub proof fn law_changes_have_a_price(s: Search, flags: Seq<int>, flag: int)
    ensures
        s.total(seq![flag]) == s.importance[0] * misfit(
            s.metric[0],
            s.lm,
            s.transient,
            s.select,
            flag,
        ) + (if flag == 1 && !s.transient {
            s.lambda
        } else {
            0
        }),
        flags.len() >= 1 ==> s.total(flags.push(flag)) == s.total(flags) + s.importance[flags.len()
            as int] * misfit(
            s.metric[flags.len() as int],
            s.lm,
            s.transient,
            s.select,
            flag,
        ) + (if flag == flags.last() {
            0
        } else {
            s.lambda
        }),
{
    reveal_with_fuel(Search::total, 2);
    assert(flags.push(flag).drop_last() =~= flags);
}

/// The cheaper of two is chosen: the set flag where both are as cheap, and the first
/// table where both are; and that is the only one in long blocks.
pub proof fn law_the_cheaper_is_chosen(s: Search, i: int, n: int)
    ensures
        s.least_cost(i, 0) < s.least_cost(i, 1) ==> s.chosen(i) == 0,
        s.least_cost(i, 1) <= s.least_cost(i, 0) ==> s.chosen(i) == 1,
        !s.transient ==> better_table(s, n) == 0,
        s.transient && s.with_select(1).best(n) < s.with_select(0).best(n) ==> better_table(s, n)
            == 1,
        s.with_select(0).best(n) <= s.with_select(1).best(n) ==> better_table(s, n) == 0,
{
}

/// A period is tried as halves, thirds and so on to fifteenths, as long as the parts
/// are not too short; one that is under three times the shortest is taken with care.
pub proof fn law_parts_are_tried_in_turn(
    t0: int,
    k: int,
    min_period: int,
    max_period: int,
    prev: int,
    i: int,
)
    requires
        2 <= k <= 16,
        0 <= t0 < max_period <= usize::MAX,
        0 <= i < candidates_from(t0, k, min_period, max_period, prev).len(),
    ensures
        ({
            let found = candidates_from(t0, k, min_period, max_period, prev);
            let c = found[i];
            let part = part_of(t0, k + i);
            &&& k + found.len() <= 16
            &&& k + found.len() == 16 || part_of(t0, k + found.len()) < min_period
            &&& part >= min_period
            &&& c.t1 == part as usize
            &&& c.t1b == beside(t0, k + i, max_period) as usize
            &&& c.short <==> part < min_period + min_period + min_period
            &&& c.continuity == continuity(part, prev, k + i, t0)
        }),
    decreases 16 - k,
{
    let rest = candidates_from(t0, k + 1, min_period, max_period, prev);
    if rest.len() > 0 {
        law_parts_are_tried_in_turn(
            t0,
            k + 1,
            min_period,
            max_period,
            prev,
            if i > 0 {
                i - 1
            } else {
                0
            },
        );
    }
    assert(candidates_from(t0, 16, min_period, max_period, prev).len() == 0);
}

/// What a filter takes of the raw bits: four and one for each octave for its period,
/// and three for its gain.
pub proof fn law_filters_take_raw_bits(e: EncoderState, pf: Postfilter)
    requires
        pf.wf(),
    ensures
        write_parameters(e, pf).raw.len() == e.raw.len() + 4 + octave_of(pf.pitch_index as int) + 3,
        write_parameters(e, pf).interval == e.interval.coded(
            Alphabet::Uniform { count: 6 },
            octave_of(pf.pitch_index as int),
        ).coded(Alphabet::Tapset, pf.tapset as int),
{
    law_period_fields_round_trip(pf.pitch_index as int);
}

/// A filter's response is the first where there are not two bits left to say it.
pub proof fn law_responses_need_room(d: DecoderState, total: int)
    ensures
        ({
            let octave = d.value(Alphabet::Uniform { count: 6 });
            let before = d.read(Alphabet::Uniform { count: 6 }).read_raw(4 + octave).read_raw(3);
            let (after, pf) = read_parameters(d, total);
            &&& total - before.meter().tell() < 2 ==> pf.tapset == 0 && after == before
            &&& total - before.meter().tell() >= 2 ==> after == before.read(Alphabet::Tapset)
                && pf.tapset == before.value(Alphabet::Tapset) as u32
        }),
{
}

/// A frame that follows a decoded one ends what was counted of losses before it.
pub proof fn law_good_frames_end_the_count(d: CeltDecoder, start_band: int)
    ensures
        d.loss_duration == 0 ==> d.begun(start_band).plc_duration == 0 && !d.begun(
            start_band,
        ).skip_plc,
        d.begun(start_band).loss_duration == d.loss_duration,
        d.begun(start_band).last_frame_type == d.last_frame_type,
{
}

/// What boosts have to share is counted in eighths of the frame's bits.
pub proof fn law_hints_share_eighths(e: EncoderState, f: HintFrame, w: Wishes, caps: Seq<int>)
    ensures
        ({
            let eighths = f.total_bits + f.total_bits + f.total_bits + f.total_bits + f.total_bits
                + f.total_bits + f.total_bits + f.total_bits;
            let b = write_boosts(
                after_spread(e, f, w),
                f.start as int,
                w.wants,
                caps,
                eighths,
                f.lm as int,
                f.channels as int,
                f.end - f.start,
            );
            let (hints, after) = write_hints(e, f, w, caps);
            &&& hints.boosts == b.boosts
            &&& hints.boosted == b.boosted
            &&& hints.spread == w.spread
            &&& (hints.trim, after) == write_trim(b.e, w.trim, f.total_bits as int, b.boosted)
        }),
{
}

/// The first band that would take the boosts over two thirds of the bytes gets what is
/// left of those, and the ones after it nothing.
pub proof fn law_limits_are_filled(wants: Seq<int>, widths: Seq<int>, bytes: int, n: int)
    requires
        1 <= n,
    ensures
        ({
            let before = limited(wants, widths, true, bytes, n - 1);
            let after = limited(wants, widths, true, bytes, n);
            let most = 2 * bytes / 3;
            let bits = boost_bits(wants[n - 1], widths[n - 1]);
            &&& before.stopped ==> after.offsets == before.offsets.push(0) && after.stopped
            &&& !before.stopped && (before.total + bits) / 64 <= most ==> after.offsets
                == before.offsets.push(wants[n - 1]) && !after.stopped && after.total
                == before.total + bits
            &&& !before.stopped && (before.total + bits) / 64 > most ==> after.stopped
                && after.offsets.last() + before.total == 64 * most && after.total == before.total
        }),
        limited(wants, widths, true, bytes, 0).total == 0,
        !limited(wants, widths, true, bytes, 0).stopped,
{
}

/// Each band is asked about in turn, with what it wants, its own step and its own cap,
/// and at what the bands before it have made likely.
pub proof fn law_bands_are_boosted_in_turn(
    e: EncoderState,
    start: int,
    wants: Seq<int>,
    caps: Seq<int>,
    total: int,
    lm: int,
    channels: int,
    k: int,
)
    requires
        0 <= k,
    ensures
        ({
            let before = write_boosts(e, start, wants, caps, total, lm, channels, k);
            let after = write_boosts(e, start, wants, caps, total, lm, channels, k + 1);
            let band = start + k;
            let b = write_boost(
                before.e,
                wants[band],
                0,
                before.boosted,
                before.logp,
                total,
                quantum(band_width(band, lm, channels)),
                caps[band],
            );
            &&& after.e == b.e
            &&& after.boosted == b.boosted
            &&& after.boosts == before.boosts.push(b.boost)
            &&& b.boost > 0 && before.logp > 2 ==> after.logp == before.logp - 1
            &&& b.boost <= 0 || before.logp == 2 ==> after.logp == before.logp
        }),
{
}

/// A frame without a bit is silent, and one that other layers have begun says nothing
/// of it.
pub proof fn law_empty_frames_are_silent(d: DecoderState, total: int)
    ensures
        d.meter().tell() >= total ==> read_silence(d, total).1 && read_silence(
            d,
            total,
        ).0.meter().tell() == total,
        d.meter().tell() < total && d.meter().tell() != 1 ==> read_silence(d, total) == (d, false),
        d.meter().tell() < total && d.meter().tell() == 1 ==> (read_silence(d, total).1
            <==> d.value(Alphabet::Bit { logp: 15 }) == 1),
{
}

} // verus!
