//! The lags that a pitch search looks at.

use vstd::prelude::*;

use crate::math::{greatest, least, min_usize};

verus! {

/// The most parts that a lag is divided into.
pub const MAX_DIVISOR: usize = 15;

/// The multiple of a `k`-th of a lag that is looked at beside it.
pub open spec fn second_check(k: int) -> int {
    if k == 2 || k == 4 || k == 8 || k == 10 || k == 14 {
        3
    } else if k == 6 || k == 12 {
        5
    } else {
        2
    }
}

/// The multiple of a `k`-th of a lag that is looked at beside it.
fn second_check_of(k: usize) -> (m: usize)
    ensures
        m == second_check(k as int),
        2 <= m <= 5,
{
    match k {
        2 | 4 | 8 | 10 | 14 => 3,
        6 | 12 => 5,
        _ => 2,
    }
}

/// A `k`-th of a lag, rounded.
pub open spec fn part_of(t0: int, k: int) -> int {
    (2 * t0 + k) / (2 * k)
}

/// What is looked at beside a `k`-th of a lag, to tell it from a chance.
pub open spec fn beside(t0: int, k: int, max_period: int) -> int {
    if k == 2 {
        if part_of(t0, 2) + t0 > max_period {
            t0
        } else {
            t0 + part_of(t0, 2)
        }
    } else {
        (2 * second_check(k) * t0 + k) / (2 * k)
    }
}

/// How close a lag is to the one of the frame before.
#[derive(Debug, Clone, Copy, PartialEq, Eq, Structural)]
pub enum Continuity {
    /// Within a sample.
    Close,
    /// Within two, for a lag that is not divided too far.
    Near,
    /// Further away.
    Apart,
}

/// How close a lag is to the one of the frame before.
pub open spec fn continuity(t1: int, prev: int, k: int, t0: int) -> Continuity {
    if -1 <= t1 - prev <= 1 {
        Continuity::Close
    } else if -2 <= t1 - prev <= 2 && 5 * k * k < t0 {
        Continuity::Near
    } else {
        Continuity::Apart
    }
}

/// A lag that might be the true one behind a multiple of it.
#[derive(Debug, Clone, Copy, PartialEq, Eq, Structural)]
pub struct Candidate {
    /// The lag.
    pub t1: usize,
    /// What is looked at beside it.
    pub t1b: usize,
    /// How close it is to the one of the frame before.
    pub continuity: Continuity,
    /// Whether it is short, and so has to correlate better.
    pub short: bool,
}

/// The candidate that a `k`-th of a lag is.
pub open spec fn candidate(t0: int, k: int, min_period: int, max_period: int, prev: int)
    -> Candidate {
    let t1 = part_of(t0, k);
    Candidate {
        t1: t1 as usize,
        t1b: beside(t0, k, max_period) as usize,
        continuity: continuity(t1, prev, k, t0),
        short: t1 < 3 * min_period,
    }
}

/// The candidates from `k` parts on, up to the first that is too short.
pub open spec fn candidates_from(
    t0: int,
    k: int,
    min_period: int,
    max_period: int,
    prev: int,
) -> Seq<Candidate>
    decreases MAX_DIVISOR + 1 - k,
{
    if k < 2 || k > MAX_DIVISOR || part_of(t0, k) < min_period {
        Seq::empty()
    } else {
        seq![candidate(t0, k, min_period, max_period, prev)] + candidates_from(
            t0,
            k + 1,
            min_period,
            max_period,
            prev,
        )
    }
}

/// The search is done at half the rate: the numbers that it starts from.
#[derive(Debug, Clone, Copy, PartialEq, Eq, Structural)]
pub struct HalfRate {
    /// The longest lag.
    pub max_period: usize,
    /// The shortest lag.
    pub min_period: usize,
    /// The lag that was found.
    pub t0: usize,
    /// The lag of the frame before.
    pub prev_period: usize,
}

/// A search's bounds and periods at half the rate.
pub open spec fn halved(max_period: usize, min_period: usize, t0: usize, prev_period: usize)
    -> HalfRate {
    HalfRate {
        max_period: (max_period / 2) as usize,
        min_period: (min_period / 2) as usize,
        t0: least(t0 as int / 2, max_period as int / 2 - 1) as usize,
        prev_period: (prev_period / 2) as usize,
    }
}

/// The numbers that the search starts from, at half the rate.
pub fn halve(max_period: usize, min_period: usize, t0: usize, prev_period: usize) -> (h: HalfRate)
    requires
        2 <= max_period,
    ensures
        h == halved(max_period, min_period, t0, prev_period),
        h.t0 < h.max_period,
{
    HalfRate {
        max_period: max_period / 2,
        min_period: min_period / 2,
        t0: min_usize(t0 / 2, max_period / 2 - 1),
        prev_period: prev_period / 2,
    }
}

/// What a part of a lag, and what is looked at beside it, are at most.
proof fn lemma_lags(t0: int, k: int, max_period: int)
    requires
        2 <= k <= MAX_DIVISOR,
        0 <= t0 < max_period,
    ensures
        0 <= part_of(t0, k) <= t0,
        0 <= beside(t0, k, max_period) <= max_period,
{
    let s = second_check(k);
    assert(0 <= (2 * t0 + k) / (2 * k)) by (nonlinear_arith)
        requires
            t0 >= 0,
            k >= 2,
    ;
    assert((2 * t0 + k) / (2 * k) <= t0) by (nonlinear_arith)
        requires
            t0 >= 0,
            k >= 2,
    ;
    assert(k > 2 ==> s < k);
    if k > 2 {
        assert(0 <= 2 * s * t0) by (nonlinear_arith)
            requires
                s >= 0,
                t0 >= 0,
        ;
        assert(2 * s * t0 + k < (t0 + 1) * (2 * k)) by (nonlinear_arith)
            requires
                0 <= s < k,
                t0 >= 0,
        ;
        assert(0 <= (2 * s * t0 + k) / (2 * k) <= t0) by (nonlinear_arith)
            requires
                0 <= 2 * s * t0 + k < (t0 + 1) * (2 * k),
                k > 0,
        ;
    }
}

/// The lags that might be the true one behind `t0`, from its half to its
/// fifteenth.
pub fn candidates(h: HalfRate) -> (found: Vec<Candidate>)
    requires
        h.t0 < h.max_period <= 0x1_0000,
        h.min_period <= 0x1_0000,
        h.prev_period <= 0x1_0000,
    ensures
        found@ == candidates_from(
            h.t0 as int,
            2,
            h.min_period as int,
            h.max_period as int,
            h.prev_period as int,
        ),
{
    let ghost all = candidates_from(
        h.t0 as int,
        2,
        h.min_period as int,
        h.max_period as int,
        h.prev_period as int,
    );
    let mut found: Vec<Candidate> = Vec::new();
    let mut k: usize = 2;
    assert(found@ + all =~= all);
    while k <= MAX_DIVISOR && (2 * h.t0 + k) / (2 * k) >= h.min_period
        invariant
            2 <= k <= MAX_DIVISOR + 1,
            h.t0 < h.max_period <= 0x1_0000,
            h.min_period <= 0x1_0000,
            h.prev_period <= 0x1_0000,
            found@ + candidates_from(
                h.t0 as int,
                k as int,
                h.min_period as int,
                h.max_period as int,
                h.prev_period as int,
            ) == all,
        decreases MAX_DIVISOR + 1 - k,
    {
        proof {
            lemma_lags(h.t0 as int, k as int, h.max_period as int);
        }
        let ghost rest = candidates_from(
            h.t0 as int,
            k + 1,
            h.min_period as int,
            h.max_period as int,
            h.prev_period as int,
        );
        let t1: usize = (2 * h.t0 + k) / (2 * k);
        let t1b: usize = if k == 2 {
            if t1 + h.t0 > h.max_period {
                h.t0
            } else {
                h.t0 + t1
            }
        } else {
            let m: usize = second_check_of(k);
            assert(0 <= 2 * m * h.t0 <= 10 * 0x1_0000) by (nonlinear_arith)
                requires
                    2 <= m <= 5,
                    h.t0 <= 0x1_0000,
            ;
            (2 * m * h.t0 + k) / (2 * k)
        };
        let gap: usize = if t1 > h.prev_period {
            t1 - h.prev_period
        } else {
            h.prev_period - t1
        };
        assert(5 * k * k <= 1200) by (nonlinear_arith)
            requires
                k <= 15,
        ;
        let continuity: Continuity = if gap <= 1 {
            Continuity::Close
        } else if gap <= 2 && 5 * k * k < h.t0 {
            Continuity::Near
        } else {
            Continuity::Apart
        };
        let c = Candidate { t1, t1b, continuity, short: t1 < 3 * h.min_period };
        let ghost before = found@;
        found.push(c);
        proof {
            assert(c == candidate(
                h.t0 as int,
                k as int,
                h.min_period as int,
                h.max_period as int,
                h.prev_period as int,
            ));
            assert(found@ + rest =~= before + (seq![c] + rest));
        }
        k = k + 1;
    }
    assert(found@ + Seq::<Candidate>::empty() =~= found@);
    found
}

/// Every lag that is looked at lies within the search, so that what it reads of
/// the past is there.
pub proof fn law_candidates_stay_in_range(
    t0: int,
    k: int,
    min_period: int,
    max_period: int,
    prev: int,
    i: int,
)
    requires
        2 <= k,
        0 <= t0 < max_period <= usize::MAX,
        0 <= i < candidates_from(t0, k, min_period, max_period, prev).len(),
    ensures
        ({
            let c = candidates_from(t0, k, min_period, max_period, prev)[i];
            min_period <= c.t1 <= t0 && c.t1b <= max_period
        }),
    decreases MAX_DIVISOR + 1 - k,
{
    if k <= MAX_DIVISOR && part_of(t0, k) >= min_period {
        lemma_lags(t0, k, max_period);
        if i > 0 {
            law_candidates_stay_in_range(t0, k + 1, min_period, max_period, prev, i - 1);
        }
    }
}

/// A lag of half the rate at the full one.
pub open spec fn doubled_lag(t: int, offset: int, min_period: int) -> int {
    greatest(2 * t + offset, min_period)
}

/// The lag at the full rate, refined by a sample either way, but not below the
/// shortest.
pub fn full_rate_lag(t: usize, offset: i32, min_period: usize) -> (lag: usize)
    requires
        t <= 0x1_0000,
        -1 <= offset <= 1,
        min_period <= 0x1_0000,
    ensures
        lag == doubled_lag(t as int, offset as int, min_period as int),
{
    let refined: i32 = 2 * t as i32 + offset;
    if refined < min_period as i32 {
        min_period
    } else {
        refined as usize
    }
}

/// Whether a lag is near what the coarse search found.
pub open spec fn beside_coarse(i: int, first: int, second: int) -> bool {
    -2 <= i - 2 * first <= 2 || -2 <= i - 2 * second <= 2
}

/// Whether a lag of the fine pass is near one of the two that the coarse pass
/// found at half its rate.
pub fn near_coarse(i: usize, first: usize, second: usize) -> (yes: bool)
    requires
        i <= 0x1_0000,
        first <= 0x1_0000,
        second <= 0x1_0000,
    ensures
        yes == beside_coarse(i as int, first as int, second as int),
{
    let a: i32 = i as i32 - 2 * first as i32;
    let b: i32 = i as i32 - 2 * second as i32;
    (a >= -2 && a <= 2) || (b >= -2 && b <= 2)
}

/// The period of what a search found.
pub open spec fn found_period(max_period: int, found: int) -> int {
    least(max_period - found, max_period - 2)
}

/// The period that a search's result stands for, kept where the comb filter can
/// read.
pub fn period_from_search(max_period: usize, found: usize) -> (pitch_index: usize)
    requires
        2 <= max_period,
        found <= max_period,
    ensures
        pitch_index == found_period(max_period as int, found as int),
{
    min_usize(max_period - found, max_period - 2)
}

/// How often loss halves the filter's gain; `None` where it takes it all.
pub open spec fn halvings(loss: int) -> Option<u32> {
    if loss > 8 {
        None
    } else if loss > 4 {
        Some(2)
    } else if loss > 2 {
        Some(1)
    } else {
        Some(0)
    }
}

/// How often the prefilter's gain is halved for the loss that is expected;
/// `None` where it is too much for any.
pub fn gain_halvings(loss_rate: i32) -> (n: Option<u32>)
    ensures
        n == halvings(loss_rate as int),
{
    if loss_rate > 8 {
        None
    } else if loss_rate > 4 {
        Some(2)
    } else if loss_rate > 2 {
        Some(1)
    } else {
        Some(0)
    }
}

} // verus!
