//! The interval that symbols narrow, and how many bits it stands for.

use vstd::prelude::*;

use crate::range_coder::alphabet::{
    lemma_edges, lemma_two_to_monotone, lemma_two_to_values, power_of_two, two_to, Alphabet,
};

verus! {

/// The size of the first interval.
pub const TOP: u32 = 0x8000_0000;

/// An interval of this size or less is scaled up.
pub const BOTTOM: u32 = 0x0080_0000;

/// Bits that a coder may have used before it refuses to count on.
pub const MAX_BITS: u32 = 0x0100_0000;

/// An interval of numbers. It starts with the numbers of 31 bits, and each time
/// that it is scaled up by 256 the numbers get eight more.
#[verifier::ext_equal]
pub struct Interval {
    /// Its least number.
    pub low: int,
    /// How many numbers it has.
    pub rng: int,
    /// How often it was scaled up.
    pub shifts: int,
}

/// The interval that nothing has narrowed.
pub open spec fn whole() -> Interval {
    Interval { low: 0, rng: TOP as int, shifts: 0 }
}

/// An interval scaled up until it is large enough to divide.
pub open spec fn settled(i: Interval) -> Interval
    decreases (if i.rng > 0 && i.rng <= BOTTOM {
        BOTTOM - i.rng + 1
    } else {
        0
    }),
{
    if 0 < i.rng <= BOTTOM {
        settled(Interval { low: i.low * 256, rng: i.rng * 256, shifts: i.shifts + 1 })
    } else {
        i
    }
}

impl Interval {
    /// Whether the interval is large enough to divide.
    pub open spec fn wf(self) -> bool {
        &&& 0 <= self.low
        &&& BOTTOM < self.rng <= TOP
        &&& 0 <= self.shifts
    }

    /// The part of the interval that a value has, before it is scaled up.
    pub open spec fn part(self, alphabet: Alphabet, s: int) -> Interval {
        let from = alphabet.edge(self.rng, s);
        Interval {
            low: self.low + from,
            rng: alphabet.edge(self.rng, s + 1) - from,
            shifts: self.shifts,
        }
    }

    /// The interval once a value is coded.
    pub open spec fn coded(self, alphabet: Alphabet, s: int) -> Interval {
        settled(self.part(alphabet, s))
    }
}

/// How many bits a number has.
pub open spec fn bit_length(n: int) -> int
    decreases n,
{
    if n <= 0 {
        0
    } else {
        1 + bit_length(n / 2)
    }
}

/// How many bits a number has.
pub fn ilog(n: u32) -> (l: u32)
    ensures
        l == bit_length(n as int),
        l <= 32,
{
    let mut l: u32 = 0;
    let mut rest: u32 = n;
    proof {
        lemma_two_to_values();
        assert(two_to(32) == 2 * two_to(31));
        assert(0x1_0000_0000int / two_to(0) == 0x1_0000_0000);
    }
    while rest > 0
        invariant
            l + bit_length(rest as int) == bit_length(n as int),
            l <= 32,
            rest < two_to(32 - l),
        decreases rest,
    {
        proof {
            assert(l < 32) by {
                if l == 32 {
                    assert(two_to(0) == 1);
                }
            }
            assert(two_to(32 - l) == 2 * two_to(32 - l - 1));
        }
        rest = rest / 2;
        l = l + 1;
    }
    l
}

/// A number lies between the powers of two around it.
pub proof fn lemma_bit_length(n: int)
    requires
        0 < n,
    ensures
        two_to(bit_length(n) - 1) <= n < two_to(bit_length(n)),
        1 <= bit_length(n),
    decreases n,
{
    if n > 1 {
        lemma_bit_length(n / 2);
    } else {
        assert(bit_length(0) == 0);
        assert(two_to(1) == 2 * two_to(0));
    }
}

/// Longer numbers are greater.
pub proof fn lemma_bit_length_monotone(a: int, b: int)
    requires
        0 <= a <= b,
    ensures
        bit_length(a) <= bit_length(b),
    decreases b,
{
    if a > 0 {
        lemma_bit_length_monotone(a / 2, b / 2);
    } else if b > 0 {
        lemma_bit_length(b);
    }
}

/// A settled interval's size has 24 to 32 bits.
pub proof fn lemma_settled_length(rng: int)
    requires
        BOTTOM < rng <= TOP,
    ensures
        24 <= bit_length(rng) <= 32,
{
    lemma_bit_length_monotone(BOTTOM as int, rng);
    lemma_bit_length_monotone(rng, TOP as int);
    reveal_with_fuel(bit_length, 34);
}

/// What a coder has used.
#[verifier::ext_equal]
pub struct Meter {
    /// The size of its interval.
    pub rng: int,
    /// How often that was scaled up.
    pub shifts: int,
    /// How many raw bits there are.
    pub raw: int,
    /// Bits that were declared used.
    pub skipped: int,
}

/// In eighths of a bit: how far a number of 16 bits is above 2^15 on a
/// logarithmic scale, rounded down.
pub open spec fn eighths(r: int) -> int {
    let step = r / 4096 - 8;
    step + (if r > correction(step) {
        1int
    } else {
        0
    })
}

/// Where a step of an eighth of a bit ends, among the numbers of 16 bits.
pub open spec fn correction(step: int) -> int {
    if step == 0 {
        35_733
    } else if step == 1 {
        38_967
    } else if step == 2 {
        42_495
    } else if step == 3 {
        46_340
    } else if step == 4 {
        50_535
    } else if step == 5 {
        55_109
    } else if step == 6 {
        60_097
    } else {
        65_535
    }
}

impl Meter {
    /// Whole bits, less what the interval can still be narrowed by for free.
    pub open spec fn bits(self) -> int {
        33 + 8 * self.shifts + self.raw + self.skipped
    }

    /// Bits used, rounded up.
    pub open spec fn tell(self) -> int {
        self.bits() - bit_length(self.rng)
    }

    /// Eighths of a bit used.
    pub open spec fn tell_frac(self) -> int {
        let l = bit_length(self.rng);
        8 * self.bits() - (8 * l + eighths(self.rng / two_to(l - 16)))
    }

    /// Whether the counts are within their bounds.
    pub open spec fn wf(self) -> bool {
        &&& BOTTOM < self.rng <= TOP
        &&& 0 <= self.shifts
        &&& 0 <= self.raw
        &&& -MAX_BITS <= self.skipped <= MAX_BITS
    }

    /// Once a value is coded.
    pub open spec fn coded(self, alphabet: Alphabet, s: int) -> Meter {
        let i = Interval { low: 0, rng: self.rng, shifts: self.shifts }.coded(alphabet, s);
        Meter { rng: i.rng, shifts: i.shifts, ..self }
    }

    /// Once raw bits are coded.
    pub open spec fn with_raw(self, n: int) -> Meter {
        Meter { raw: self.raw + n, ..self }
    }

    /// Once every bit up to a total is declared used.
    pub open spec fn skipped_to(self, total: int) -> Meter {
        Meter { skipped: self.skipped + total - self.tell(), ..self }
    }
}

/// The top 16 bits of an interval's size.
proof fn lemma_top_bits(rng: int)
    requires
        BOTTOM < rng <= TOP,
    ensures
        ({
            let l = bit_length(rng);
            &&& 24 <= l <= 32
            &&& 32_768 <= rng / two_to(l - 16) < 65_536
            &&& 256 <= two_to(l - 16) <= 65_536
        }),
{
    let l = bit_length(rng);
    lemma_settled_length(rng);
    lemma_bit_length(rng);
    let p = two_to(l - 16);
    lemma_two_to_monotone(8, l - 16);
    lemma_two_to_monotone(l - 16, 16);
    lemma_two_to_values();
    assert(two_to(16) == 2 * two_to(15));
    lemma_two_to_sum(15, l - 16);
    lemma_two_to_sum(16, l - 16);
    assert(32_768 <= rng / p < 65_536) by (nonlinear_arith)
        requires
            32_768 * p <= rng < 65_536 * p,
            p > 0,
    ;
}

/// Powers of two multiply.
pub proof fn lemma_two_to_sum(a: int, b: int)
    requires
        0 <= a,
        0 <= b,
    ensures
        two_to(a + b) == two_to(a) * two_to(b),
    decreases a,
{
    if a > 0 {
        lemma_two_to_sum(a - 1, b);
        assert(two_to(a - 1 + b) == two_to(a - 1) * two_to(b));
        assert(2 * (two_to(a - 1) * two_to(b)) == (2 * two_to(a - 1)) * two_to(b))
            by (nonlinear_arith);
    } else {
        assert(1 * two_to(b) == two_to(b));
    }
}

/// Bits used, rounded up, given the whole bits and the interval's size.
pub fn tell_of(bits: i32, rng: u32) -> (t: i32)
    requires
        BOTTOM < rng <= TOP,
        -0x4000_0000 <= bits <= 0x4000_0000,
    ensures
        t == bits - bit_length(rng as int),
{
    bits - ilog(rng) as i32
}

/// Eighths of a bit used, given the whole bits and the interval's size.
pub fn tell_frac_of(bits: i32, rng: u32) -> (t: i32)
    requires
        BOTTOM < rng <= TOP,
        -0x0800_0000 <= bits <= 0x0800_0000,
    ensures
        ({
            let l = bit_length(rng as int);
            t == 8 * bits - (8 * l + eighths(rng as int / two_to(l - 16)))
        }),
        8 * bits - 264 <= t <= 8 * bits,
{
    proof {
        lemma_top_bits(rng as int);
    }
    let l: u32 = ilog(rng);
    let r: u32 = rng / power_of_two(l - 16);
    let step: u32 = r / 4096 - 8;
    let bound: u32 = match step {
        0 => 35_733,
        1 => 38_967,
        2 => 42_495,
        3 => 46_340,
        4 => 50_535,
        5 => 55_109,
        6 => 60_097,
        _ => 65_535,
    };
    let b: u32 = if r > bound {
        step + 1
    } else {
        step
    };
    8 * bits - (8 * l + b) as i32
}

/// The bits used are the eighths of a bit used, rounded up.
pub proof fn law_bits_are_eighths_rounded_up(m: Meter)
    requires
        BOTTOM < m.rng <= TOP,
    ensures
        8 * (m.tell() - 1) < m.tell_frac() <= 8 * m.tell(),
{
    lemma_top_bits(m.rng);
}

/// Settling leaves an interval that can be divided, and takes at most four
/// steps.
pub proof fn lemma_settled(i: Interval)
    requires
        0 <= i.low,
        0 < i.rng <= TOP,
        0 <= i.shifts,
    ensures
        settled(i).wf(),
        i.shifts <= settled(i).shifts <= i.shifts + 4,
{
    reveal_with_fuel(settled, 5);
}

/// Settling scales the whole interval by the same power.
pub proof fn lemma_settled_scale(i: Interval)
    requires
        0 < i.rng <= TOP,
    ensures
        ({
            let j = settled(i);
            &&& j.shifts >= i.shifts
            &&& j.low == i.low * scale(j.shifts - i.shifts)
            &&& j.rng == i.rng * scale(j.shifts - i.shifts)
        }),
    decreases (if i.rng <= BOTTOM {
        BOTTOM - i.rng + 1
    } else {
        0
    }),
{
    if i.rng <= BOTTOM {
        let next = Interval { low: i.low * 256, rng: i.rng * 256, shifts: i.shifts + 1 };
        lemma_settled_scale(next);
        let j = settled(i);
        let k = scale(j.shifts - next.shifts);
        assert(scale(j.shifts - i.shifts) == 256 * k);
        assert((i.low * 256) * k == i.low * (256 * k)) by (nonlinear_arith);
        assert((i.rng * 256) * k == i.rng * (256 * k)) by (nonlinear_arith);
    } else {
        assert(i.low * 1 == i.low);
        assert(i.rng * 1 == i.rng);
    }
}

/// A power of 256.
pub open spec fn scale(n: int) -> int
    decreases n,
{
    if n <= 0 {
        1
    } else {
        256 * scale(n - 1)
    }
}

/// Powers of 256 are positive.
pub proof fn lemma_scale_positive(n: int)
    ensures
        scale(n) >= 1,
    decreases n,
{
    if n > 0 {
        lemma_scale_positive(n - 1);
    }
}

/// How an interval is scaled depends on its size alone.
pub proof fn lemma_settled_size(i: Interval, j: Interval)
    requires
        i.rng == j.rng,
        0 < i.rng <= TOP,
    ensures
        settled(i).rng == settled(j).rng,
        settled(i).shifts - i.shifts == settled(j).shifts - j.shifts,
    decreases (if i.rng <= BOTTOM {
        BOTTOM - i.rng + 1
    } else {
        0
    }),
{
    if i.rng <= BOTTOM {
        lemma_settled_size(
            Interval { low: i.low * 256, rng: i.rng * 256, shifts: i.shifts + 1 },
            Interval { low: j.low * 256, rng: j.rng * 256, shifts: j.shifts + 1 },
        );
    }
}

/// A value's part of an interval that can be divided.
pub proof fn lemma_part(i: Interval, alphabet: Alphabet, s: int)
    requires
        i.wf(),
        alphabet.wf(),
        0 <= s < alphabet.count(),
    ensures
        0 < i.part(alphabet, s).rng < i.rng,
        i.low <= i.part(alphabet, s).low,
        i.part(alphabet, s).low + i.part(alphabet, s).rng <= i.low + i.rng,
        i.coded(alphabet, s).wf(),
        i.shifts <= i.coded(alphabet, s).shifts <= i.shifts + 4,
{
    lemma_edges(alphabet, i.rng, s);
    lemma_edges(alphabet, i.rng, s + 1);
    lemma_edges(alphabet, i.rng, s - 1);
    lemma_settled(i.part(alphabet, s));
}

/// The meter of a coded value is that of the interval.
pub proof fn lemma_meter_coded(m: Meter, i: Interval, alphabet: Alphabet, s: int)
    requires
        i.wf(),
        m.rng == i.rng,
        m.shifts == i.shifts,
        alphabet.wf(),
        0 <= s < alphabet.count(),
    ensures
        m.coded(alphabet, s).rng == i.coded(alphabet, s).rng,
        m.coded(alphabet, s).shifts == i.coded(alphabet, s).shifts,
        m.coded(alphabet, s).bits() <= m.bits() + 32,
        m.bits() <= m.coded(alphabet, s).bits(),
        m.wf() ==> m.coded(alphabet, s).wf(),
{
    let bare = Interval { low: 0, rng: m.rng, shifts: m.shifts };
    lemma_part(bare, alphabet, s);
    lemma_part(i, alphabet, s);
    lemma_settled_size(bare.part(alphabet, s), i.part(alphabet, s));
}

} // verus!
