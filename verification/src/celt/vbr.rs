//! How many bytes a frame of the transform layer gets when the rate may vary.

use vstd::prelude::*;

use crate::celt::bands::{band_edge, e_band, MAX_LM, NB_EBANDS};
use crate::math::{greatest, least, max_i32, min_i32};
use crate::range_coder::alphabet::{
    lemma_two_to_monotone, lemma_two_to_values, power_of_two, two_to,
};

verus! {

/// Frames after which the rate is followed at the slowest pace.
pub const SETTLED_FRAMES: i32 = 970;

/// The most that a frame may have in store from those before it.
pub const MAX_RESERVOIR: i64 = 0x1000_0000_0000_0000;

/// A number divided by a power of two, rounded down.
pub fn shift_down(v: i32, k: u32) -> (r: i32)
    requires
        k <= 30,
        v > i32::MIN + 0x4000_0000,
    ensures
        r == v as int / two_to(k as int),
        v >= 0 ==> 0 <= r <= v,
        v < 0 ==> v <= r < 0,
{
    let p: i32 = {
        proof {
            lemma_two_to_monotone(k as int, 30);
            lemma_two_to_values();
            assert(two_to(31) == 2 * two_to(30));
        }
        power_of_two(k) as i32
    };
    let ghost n = v as int;
    let ghost q = n / (p as int);
    proof {
        assert(q * p <= n < q * p + p) by (nonlinear_arith)
            requires
                q == n / (p as int),
                p > 0,
        ;
        assert(n >= 0 ==> 0 <= q <= n) by (nonlinear_arith)
            requires
                q * p <= n < q * p + p,
                p >= 1,
        ;
        assert(n < 0 ==> n <= q < 0) by (nonlinear_arith)
            requires
                q * p <= n < q * p + p,
                p >= 1,
        ;
    }
    if v >= 0 {
        v / p
    } else {
        let up: i32 = (-v + (p - 1)) / p;
        proof {
            let u = (-n + (p - 1)) / (p as int);
            assert(u * p <= -n + (p - 1) < u * p + p) by (nonlinear_arith)
                requires
                    u == (-n + (p - 1)) / (p as int),
                    p > 0,
            ;
            assert(u == -q) by (nonlinear_arith)
                requires
                    u * p <= -n + (p - 1) < u * p + p,
                    q * p <= n < q * p + p,
                    p >= 1,
            ;
        }
        -up
    }
}

/// What a frame is aimed at before anything is known of it, in eighths of a
/// bit: the rate less what a frame's header takes, with the drift made up for
/// under constrained VBR.
pub open spec fn base_target(
    vbr_rate: int,
    channels: int,
    hybrid: bool,
    offset: Option<int>,
    lm: int,
) -> int {
    (if hybrid {
        greatest(0, vbr_rate - 8 * (9 * channels + 4))
    } else {
        vbr_rate - 8 * (40 * channels + 20)
    }) + (match offset {
        Some(o) => o / two_to(MAX_LM - lm),
        None => 0,
    })
}

/// What a frame is aimed at before anything is known of it.
pub fn vbr_base(vbr_rate: i32, channels: usize, hybrid: bool, offset: Option<i32>, lm: usize) -> (t:
    i32)
    requires
        0 <= vbr_rate <= 0x1000_0000,
        1 <= channels <= 2,
        lm <= MAX_LM,
        offset matches Some(o) ==> -0x1000_0000 <= o <= 0x1000_0000,
    ensures
        t == base_target(
            vbr_rate as int,
            channels as int,
            hybrid,
            (match offset {
                Some(o) => Some(o as int),
                None => None,
            }),
            lm as int,
        ),
        -0x1000_1000 <= t <= 0x2000_0000,
{
    let rate: i32 = if hybrid {
        max_i32(0, vbr_rate - 8 * (9 * channels as i32 + 4))
    } else {
        vbr_rate - 8 * (40 * channels as i32 + 20)
    };
    match offset {
        Some(o) => rate + shift_down(o, (MAX_LM - lm) as u32),
        None => rate,
    }
}

/// What the high band of a hybrid frame is aimed at: more for a tonal frame than
/// for a noisy one, by what the speech layer said of it, and more for a
/// transient; a strong one gets at least 50 bits.
pub open spec fn hybrid_target(base: int, silk_offset: int, lm: int, tf_boost: int, strong: bool)
    -> int {
    let t = base + (if silk_offset < 100 {
        96int / two_to(3 - lm)
    } else {
        0
    }) - (if silk_offset > 100 {
        144int / two_to(3 - lm)
    } else {
        0
    }) + tf_boost;
    if strong {
        greatest(t, 400)
    } else {
        t
    }
}

/// What the high band of a hybrid frame is aimed at.
pub fn vbr_hybrid_target(base: i32, silk_offset: i32, lm: usize, tf_boost: i32, strong: bool) -> (t:
    i32)
    requires
        -0x2000_1000 <= base <= 0x2000_0000,
        lm <= MAX_LM,
        -0x1_0000 <= tf_boost <= 0x1_0000,
    ensures
        t == hybrid_target(base as int, silk_offset as int, lm as int, tf_boost as int, strong),
{
    let mut t: i32 = base;
    if silk_offset < 100 {
        t = t + shift_down(96, (3 - lm) as u32);
    }
    if silk_offset > 100 {
        t = t - shift_down(144, (3 - lm) as u32);
    }
    t = t + tf_boost;
    if strong {
        max_i32(t, 400)
    } else {
        t
    }
}

/// The bands that a frame is likely to code: those of the frame before, or all.
pub open spec fn likely_bands(last_coded: int) -> int {
    if last_coded != 0 {
        last_coded
    } else {
        NB_EBANDS as int
    }
}

/// Bins that are likely to be coded, the second channel's up to the first band
/// that is not coded in stereo.
pub open spec fn coded_bins(last_coded: int, intensity: int, lm: int, channels: int) -> int {
    let bands = likely_bands(last_coded);
    two_to(lm) * (band_edge(bands) + (if channels == 2 {
        band_edge(least(intensity, bands))
    } else {
        0
    }))
}

/// What stereo can save: the second channel's bins, less one for each band.
pub open spec fn stereo_freedom(last_coded: int, intensity: int, lm: int) -> int {
    let bands = least(intensity, likely_bands(last_coded));
    two_to(lm) * band_edge(bands) - bands
}

/// Bins that are likely to be coded, and what stereo can save of them.
pub fn vbr_bins(last_coded_bands: usize, intensity: usize, lm: usize, channels: usize) -> (r: (
    i32,
    i32,
))
    requires
        last_coded_bands <= NB_EBANDS,
        intensity <= NB_EBANDS,
        lm <= MAX_LM,
        1 <= channels <= 2,
    ensures
        r.0 == coded_bins(
            last_coded_bands as int,
            intensity as int,
            lm as int,
            channels as int,
        ),
        r.1 == stereo_freedom(last_coded_bands as int, intensity as int, lm as int),
        r.0 > 0,
{
    proof {
        lemma_two_to_values();
        lemma_two_to_monotone(0, lm as int);
        lemma_two_to_monotone(lm as int, 3);
        assert(two_to(3) == 2 * two_to(2));
    }
    let bands: usize = if last_coded_bands != 0 {
        last_coded_bands
    } else {
        NB_EBANDS
    };
    let stereo: usize = if intensity < bands {
        intensity
    } else {
        bands
    };
    let short: i32 = power_of_two(lm as u32) as i32;
    let a: i32 = e_band(bands);
    let b: i32 = e_band(stereo);
    let both: i32 = if channels == 2 {
        a + b
    } else {
        a
    };
    assert(0 < short * both <= 8 * 200) by (nonlinear_arith)
        requires
            1 <= short <= 8,
            0 < both <= 200,
    ;
    assert(0 <= short * b <= 800) by (nonlinear_arith)
        requires
            1 <= short <= 8,
            0 <= b <= 100,
    ;
    (short * both, short * b - stereo as i32)
}

/// A target once what stereo saves is taken off and the boosts are added, less
/// what they are on average.
pub open spec fn boosted_target(base: int, saving: int, total_boost: int, lm: int) -> int {
    base - saving + total_boost - 19 * two_to(lm)
}

/// A target that is not more than the signal is deep, but for a quarter of it.
pub open spec fn deep_target(target: int, depth: int) -> int {
    least(target, greatest(depth, target / 4))
}

/// A target that swings no further than it may, and never beyond twice the base.
pub open spec fn final_target(target: int, base: int, swing: Option<int>) -> int {
    least(
        match swing {
            Some(s) => base + s,
            None => target,
        },
        2 * base,
    )
}

/// A target once what stereo saves is taken off and the boosts are added.
pub fn vbr_boosted(base: i32, saving: i32, total_boost: i32, lm: usize) -> (t: i32)
    requires
        -0x2000_0000 <= base <= 0x2000_0000,
        -0x1000_0000 <= saving <= 0x1000_0000,
        0 <= total_boost <= 0x10_0000,
        lm <= MAX_LM,
    ensures
        t == boosted_target(base as int, saving as int, total_boost as int, lm as int),
{
    proof {
        lemma_two_to_values();
        lemma_two_to_monotone(lm as int, 3);
        assert(two_to(3) == 2 * two_to(2));
    }
    base - saving + (total_boost - 19 * power_of_two(lm as u32) as i32)
}

/// A target that is not more than the signal is deep, but for a quarter of it.
pub fn vbr_deep(target: i32, depth: i32) -> (t: i32)
    requires
        target > i32::MIN + 0x4000_0000,
    ensures
        t == deep_target(target as int, depth as int),
{
    proof {
        lemma_two_to_values();
    }
    min_i32(target, max_i32(depth, shift_down(target, 2)))
}

/// A target that swings no further than it may.
pub fn vbr_final(target: i32, base: i32, swing: Option<i32>) -> (t: i32)
    requires
        -0x3000_0000 <= base <= 0x3000_0000,
        swing matches Some(s) ==> -0x3000_0000 <= s <= 0x3000_0000,
    ensures
        t == final_target(
            target as int,
            base as int,
            (match swing {
                Some(s) => Some(s as int),
                None => None,
            }),
        ),
{
    let swung: i32 = match swing {
        Some(s) => base + s,
        None => target,
    };
    min_i32(swung, 2 * base)
}

/// What a frame's size depends on.
#[derive(Debug, Clone, Copy, PartialEq, Eq, Structural)]
pub struct VbrFrame {
    /// What the frame is aimed at beyond what is coded, in eighths of a bit.
    pub target: i32,
    /// What is coded of it so far, in eighths of a bit.
    pub tell_frac: i32,
    /// What was coded before the transform layer, in eighths of a bit.
    pub tell0_frac: i32,
    /// The boosts that it has, in eighths of a bit.
    pub total_boost: i32,
    /// The most bits it may take.
    pub total_bits: i32,
    /// Its size.
    pub lm: usize,
    /// Whether the speech layer comes before it.
    pub hybrid: bool,
}

impl VbrFrame {
    /// Whether the numbers are within their bounds.
    pub open spec fn wf(self) -> bool {
        &&& -0x2000_0000 <= self.target <= 0x2000_0000
        &&& 0 <= self.tell_frac <= 0x800_0000
        &&& 0 <= self.tell0_frac <= 0x800_0000
        &&& 0 <= self.total_boost <= 0x10_0000
        &&& 0 <= self.total_bits <= 0x20_0000
        &&& self.lm <= MAX_LM
    }

    /// What the whole frame is aimed at.
    pub open spec fn aim(self) -> int {
        self.target + self.tell_frac
    }

    /// The most bytes it may take: a shorter frame is held to its part of the
    /// longest.
    pub open spec fn most(self) -> int {
        least(self.total_bits as int / 8, 1275int / two_to(3 - self.lm))
    }

    /// The fewest bytes it may take: never less than what is coded, and in a
    /// hybrid frame enough for the redundancy flag that every decoder looks for.
    pub open spec fn fewest(self) -> int {
        let coded = (self.tell_frac + self.total_boost + 63) / 64 + 2;
        if self.hybrid {
            greatest(coded, (self.tell0_frac + 296 + self.total_boost + 63) / 64)
        } else {
            coded
        }
    }

    /// The bytes that it would take by itself.
    pub open spec fn own_bytes(self) -> int {
        least(greatest((self.aim() + 32) / 64, self.fewest()), self.most())
    }
}

/// What constrained VBR remembers from frame to frame.
#[derive(Debug, Clone, Copy, PartialEq, Eq, Structural)]
pub struct VbrState {
    /// What the frames so far have taken beyond the rate, in eighths of a bit.
    pub reservoir: i64,
    /// How far the target is off.
    pub drift: i32,
    /// What the target is moved by to make up for it.
    pub offset: i32,
    /// Frames so far, as far as they matter.
    pub count: i32,
}

impl VbrState {
    /// At the start of a stream.
    pub fn new() -> (s: Self)
        ensures
            s == (VbrState { reservoir: 0, drift: 0, offset: 0, count: 0 }),
    {
        VbrState { reservoir: 0, drift: 0, offset: 0, count: 0 }
    }

    /// Whether the numbers are within their bounds.
    pub open spec fn wf(self) -> bool {
        &&& 0 <= self.reservoir <= MAX_RESERVOIR
        &&& -0x1000_0000 <= self.drift <= 0x1000_0000
        &&& self.offset == -self.drift
        &&& 0 <= self.count <= SETTLED_FRAMES
    }

    /// How far a frame is from the rate, over what is already made up for.
    pub open spec fn miss(self, f: VbrFrame, vbr_rate: int) -> int {
        (f.aim() - vbr_rate) * two_to(MAX_LM - f.lm) - self.offset - self.drift
    }

    /// The frame count that the pace of following goes by, with one more frame.
    pub open spec fn counted(self) -> int {
        least(self.count + 1, SETTLED_FRAMES as int)
    }

    /// What the reservoir would be after a frame.
    pub open spec fn filled(self, f: VbrFrame, vbr_rate: int) -> int {
        self.reservoir + 64 * f.own_bytes() - vbr_rate
    }

    /// A frame's bytes: under constrained VBR a frame uses up what those before
    /// it have left over.
    pub open spec fn bytes(self, f: VbrFrame, vbr_rate: int, constrained: bool) -> int {
        let more = if constrained && self.filled(f, vbr_rate) < 0 {
            (-self.filled(f, vbr_rate)) / 64
        } else {
            0
        };
        greatest(least(f.most(), f.own_bytes() + more), 2)
    }

    /// After a frame, where following the rate moves the drift by `step`.
    pub open spec fn after(self, f: VbrFrame, vbr_rate: int, constrained: bool, step: int)
        -> VbrState {
        if constrained {
            VbrState {
                reservoir: greatest(self.filled(f, vbr_rate), 0) as i64,
                drift: (self.drift + step) as i32,
                offset: (-(self.drift + step)) as i32,
                count: self.counted() as i32,
            }
        } else {
            VbrState { count: self.counted() as i32, ..self }
        }
    }

    /// How far a frame is from the rate, and the frame count that the pace of
    /// following goes by: the drift moves by the first over the second and 20,
    /// or by a thousandth once the stream has settled.
    pub fn error(&self, f: VbrFrame, vbr_rate: i32) -> (r: (i64, i32))
        requires
            self.wf(),
            f.wf(),
            0 <= vbr_rate <= 0x1000_0000,
        ensures
            r.0 == self.miss(f, vbr_rate as int),
            r.1 == self.counted(),
    {
        proof {
            lemma_two_to_values();
            lemma_two_to_monotone(0, MAX_LM - f.lm);
            lemma_two_to_monotone(MAX_LM - f.lm, 3);
            assert(two_to(3) == 2 * two_to(2));
        }
        let delta: i64 = f.target as i64 + f.tell_frac as i64 - vbr_rate as i64;
        let p: i64 = power_of_two((MAX_LM - f.lm) as u32) as i64;
        assert(-0x4000_0000 * 8 <= delta * p <= 0x4000_0000 * 8) by (nonlinear_arith)
            requires
                -0x4000_0000 <= delta <= 0x4000_0000,
                1 <= p <= 8,
        ;
        let count: i32 = if self.count < SETTLED_FRAMES {
            self.count + 1
        } else {
            self.count
        };
        (delta * p - self.offset as i64 - self.drift as i64, count)
    }

    /// Settle on a frame's bytes, where following the rate moves the drift by
    /// `step`.
    pub fn settle(&mut self, f: VbrFrame, vbr_rate: i32, constrained: bool, step: i32) -> (bytes:
        usize)
        requires
            old(self).wf(),
            f.wf(),
            0 <= vbr_rate <= 0x1000_0000,
            old(self).reservoir <= MAX_RESERVOIR - 0x10_0000,
            -0x1000_0000 <= old(self).drift + step <= 0x1000_0000,
        ensures
            bytes == old(self).bytes(f, vbr_rate as int, constrained),
            *final(self) == old(self).after(f, vbr_rate as int, constrained, step as int),
            final(self).wf(),
            2 <= bytes <= 1275,
    {
        proof {
            lemma_two_to_values();
            lemma_two_to_monotone(0, 3 - f.lm);
            lemma_two_to_monotone(3 - f.lm, 3);
            assert(two_to(3) == 2 * two_to(2));
        }
        let aim: i32 = f.target + f.tell_frac;
        let mut fewest: i32 = (f.tell_frac + f.total_boost + 63) / 64 + 2;
        if f.hybrid {
            fewest = max_i32(fewest, (f.tell0_frac + 296 + f.total_boost + 63) / 64);
        }
        let most: i32 = min_i32(f.total_bits / 8, shift_down(1275, (3 - f.lm) as u32));
        assert(two_to(6) == 64) by {
            assert(two_to(6) == 2 * two_to(5));
        }
        let mut bytes: i32 = min_i32(max_i32(shift_down(aim + 32, 6), fewest), most);
        if self.count < SETTLED_FRAMES {
            self.count = self.count + 1;
        }
        if constrained {
            let filled: i64 = self.reservoir + (64 * bytes as i64 - vbr_rate as i64);
            self.drift = self.drift + step;
            self.offset = -self.drift;
            if filled < 0 {
                bytes = bytes + ((-filled) / 64) as i32;
                self.reservoir = 0;
            } else {
                self.reservoir = filled;
            }
        }
        max_i32(min_i32(most, bytes), 2) as usize
    }
}

/// A frame never takes more than the packet has room for, if that is two bytes
/// or more, nor less than what is already coded, as far as there is room.
pub proof fn law_frame_keeps_its_bounds(s: VbrState, f: VbrFrame, vbr_rate: int, constrained: bool)
    requires
        s.wf(),
        f.wf(),
        2 <= f.most(),
    ensures
        s.bytes(f, vbr_rate, constrained) <= f.most(),
        s.bytes(f, vbr_rate, constrained) >= least(f.fewest(), f.most()),
{
}

/// Under constrained VBR the stream never falls behind its rate: what the frames
/// have taken beyond it is never negative once a frame has used up what was left
/// over.
pub proof fn law_reservoir_is_never_owed(s: VbrState, f: VbrFrame, vbr_rate: int, step: int)
    requires
        s.wf(),
        f.wf(),
        0 <= vbr_rate <= 0x1000_0000,
        s.reservoir <= MAX_RESERVOIR - 0x10_0000,
        -0x1000_0000 <= s.drift + step <= 0x1000_0000,
    ensures
        s.after(f, vbr_rate, true, step).reservoir >= 0,
        s.after(f, vbr_rate, true, step).reservoir == s.filled(f, vbr_rate) || s.after(
            f,
            vbr_rate,
            true,
            step,
        ).reservoir == 0,
{
    lemma_two_to_values();
    lemma_two_to_monotone(0, 3 - f.lm);
    assert(1275int / two_to(3 - f.lm) <= 1275) by (nonlinear_arith)
        requires
            two_to(3 - f.lm) >= 1,
    ;
}

} // verus!
