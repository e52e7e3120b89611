//! The bands of the 48 kHz mode, and the frame sizes that it has.

use vstd::prelude::*;

use crate::range_coder::alphabet::{lemma_two_to_monotone, lemma_two_to_values, power_of_two, two_to};

verus! {

/// How many bands there are.
pub const NB_EBANDS: usize = 21;

/// Samples in the shortest transform: 2.5 ms.
pub const SHORT_MDCT_SIZE: usize = 120;

/// The longest frame is the shortest transform times two to this.
pub const MAX_LM: usize = 3;

/// Samples that neighbouring transforms share.
pub const OVERLAP: usize = 120;

/// Where a band starts, in bins of the shortest transform; band 21 is where the
/// last one ends.
pub open spec fn band_edge(i: int) -> int {
    if i <= 8 {
        i
    } else if i <= 12 {
        8 + 2 * (i - 8)
    } else if i <= 15 {
        16 + 4 * (i - 12)
    } else if i == 16 {
        34
    } else if i == 17 {
        40
    } else if i == 18 {
        48
    } else if i == 19 {
        60
    } else if i == 20 {
        78
    } else {
        100
    }
}

/// Where a band starts, in bins of the shortest transform.
pub fn e_band(i: usize) -> (edge: i32)
    requires
        i <= NB_EBANDS,
    ensures
        edge == band_edge(i as int),
        0 <= edge <= 100,
{
    if i <= 8 {
        i as i32
    } else if i <= 12 {
        8 + 2 * (i - 8) as i32
    } else if i <= 15 {
        16 + 4 * (i - 12) as i32
    } else if i == 16 {
        34
    } else if i == 17 {
        40
    } else if i == 18 {
        48
    } else if i == 19 {
        60
    } else if i == 20 {
        78
    } else {
        100
    }
}

/// Bins of a band in a frame, over all channels.
pub open spec fn band_width(i: int, lm: int, channels: int) -> int {
    channels * (band_edge(i + 1) - band_edge(i)) * two_to(lm)
}

/// Bins of a band in a frame, over all channels.
pub fn width_of(i: usize, lm: usize, channels: usize) -> (w: i32)
    requires
        i < NB_EBANDS,
        lm <= MAX_LM,
        1 <= channels <= 2,
    ensures
        w == band_width(i as int, lm as int, channels as int),
        1 <= w <= 352,
{
    let bins: i32 = e_band(i + 1) - e_band(i);
    let short: i32 = power_of_two(lm as u32) as i32;
    proof {
        lemma_two_to_values();
        lemma_two_to_monotone(lm as int, 3);
        assert(two_to(3) == 8) by {
            assert(two_to(3) == 2 * two_to(2));
        }
    }
    assert(1 <= channels * bins <= 44) by (nonlinear_arith)
        requires
            1 <= channels <= 2,
            1 <= bins <= 22,
    ;
    let ghost cb = channels * bins;
    assert(1 <= cb * short <= 352) by (nonlinear_arith)
        requires
            1 <= cb <= 44,
            1 <= short <= 8,
    ;
    channels as i32 * bins * short
}

/// The most bits that a band can take, in eighths, from its entry in the mode's
/// table of caps.
pub open spec fn band_cap(entry: int, i: int, lm: int, channels: int) -> int {
    (entry + 64) * band_width(i, lm, channels) / 4
}

/// The most bits that a band can take, in eighths.
pub fn cap_of(entry: u8, i: usize, lm: usize, channels: usize) -> (cap: i32)
    requires
        i < NB_EBANDS,
        lm <= MAX_LM,
        1 <= channels <= 2,
    ensures
        cap == band_cap(entry as int, i as int, lm as int, channels as int),
        0 <= cap <= 28_072,
{
    let w: i32 = width_of(i, lm, channels);
    assert(0 <= (entry + 64) * w <= 319 * 352) by (nonlinear_arith)
        requires
            0 <= entry <= 255,
            1 <= w <= 352,
    ;
    (entry as i32 + 64) * w / 4
}

/// Which of the mode's frame sizes a number of samples is, as a power of two over
/// the shortest transform; `otherwise` where it is none of them.
pub open spec fn frame_power(n: int, otherwise: int) -> int {
    if n == SHORT_MDCT_SIZE {
        0
    } else if n == SHORT_MDCT_SIZE * 2 {
        1
    } else if n == SHORT_MDCT_SIZE * 4 {
        2
    } else if n == SHORT_MDCT_SIZE * 8 {
        3
    } else {
        otherwise
    }
}

/// Which of the mode's frame sizes `n` is, as a power of two over the shortest
/// transform. A number of samples that is none of them counts as the longest.
pub fn lm_for(n: usize) -> (lm: usize)
    ensures
        lm == frame_power(n as int, MAX_LM as int),
        lm <= MAX_LM,
{
    let mut lm: usize = 0;
    let mut size: usize = SHORT_MDCT_SIZE;
    while size != n && lm < MAX_LM
        invariant
            lm <= MAX_LM,
            size == (if lm == 0 {
                120int
            } else if lm == 1 {
                240
            } else if lm == 2 {
                480
            } else {
                960
            }),
            lm > 0 ==> n != 120,
            lm > 1 ==> n != 240,
            lm > 2 ==> n != 480,
        decreases MAX_LM - lm,
    {
        lm = lm + 1;
        size = size * 2;
    }
    lm
}

/// Which of the mode's frame sizes `n` is, where a number of samples that is
/// none of them counts as the shortest.
pub fn frame_lm(n: usize) -> (lm: usize)
    ensures
        lm == frame_power(n as int, 0),
        lm <= MAX_LM,
{
    let lm: usize = lm_for(n);
    if lm == MAX_LM && n != SHORT_MDCT_SIZE * 8 {
        0
    } else {
        lm
    }
}

} // verus!
