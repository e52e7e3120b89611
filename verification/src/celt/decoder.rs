//! What the transform layer's decoder carries from frame to frame, and how it
//! gets over frames that were lost.

use vstd::prelude::*;

use crate::celt::bands::{frame_lm, frame_power, lm_for, MAX_LM, NB_EBANDS};
use crate::celt::header::{
    FrameHeader, Postfilter, COMBFILTER_MAXPERIOD, COMBFILTER_MINPERIOD,
};
use crate::math::{greatest, held, least, max_usize, min_i32, min_usize};
use crate::range_coder::alphabet::{
    lemma_two_to_monotone, lemma_two_to_values, power_of_two, two_to,
};

verus! {

/// A burst this long stops being extrapolated from the last pitch period and
/// becomes shaped noise instead: 40 units of 2.5 ms. Counting *duration* rather
/// than lost frames is what makes the switch happen at the same place whatever
/// the frame size is.
pub const PLC_NOISE_AFTER: i32 = 40;

/// The longest loss that is told apart from a longer one.
pub const MAX_LOSS: i32 = 10_000;

/// The longest pitch lag that concealment looks for.
pub const PLC_PITCH_LAG_MAX: usize = 720;

/// The shortest pitch lag that concealment looks for.
pub const PLC_PITCH_LAG_MIN: usize = 100;

/// The number that follows another in the noise that fills lost bands.
pub fn lcg(seed: u32) -> (next: u32)
    ensures
        next == (seed * 1_664_525 + 1_013_904_223) % 0x1_0000_0000,
{
    ((seed as u64 * 1_664_525 + 1_013_904_223) % 0x1_0000_0000) as u32
}

/// What the decoder produced for the previous frame. The concealment reads it to
/// decide whether it is starting a burst, and so has to search for a pitch
/// period, or continuing one, where it reuses it and fades.
#[derive(Debug, Clone, Copy, PartialEq, Eq, Structural)]
pub enum FrameType {
    /// Nothing yet.
    Fresh,
    /// What a packet held.
    Normal,
    /// Shaped noise.
    PlcNoise,
    /// The last pitch period, repeated.
    PlcPeriodic,
}

/// The comb filter's parameters, with the gain in steps of 3/32.
#[derive(Debug, Clone, Copy, PartialEq, Eq, Structural)]
pub struct Comb {
    /// The period.
    pub period: usize,
    /// The gain; at 0 the filter is off.
    pub gain: u32,
    /// Which of the three responses is used.
    pub tapset: u32,
}

impl Comb {
    /// Whether the parameters are ones that the filter has.
    pub open spec fn wf(self) -> bool {
        &&& COMBFILTER_MINPERIOD <= self.period < COMBFILTER_MAXPERIOD
        &&& self.gain <= 8
        &&& self.tapset < 3
    }
}

/// The filter that is off.
pub open spec fn no_comb() -> Comb {
    Comb { period: COMBFILTER_MINPERIOD, gain: 0, tapset: 0 }
}

/// The filter that a frame asks for.
pub open spec fn comb_of(pf: Option<Postfilter>) -> Comb {
    match pf {
        Some(p) => Comb {
            period: p.pitch_index,
            gain: (p.gain_index + 1) as u32,
            tapset: p.tapset,
        },
        None => no_comb(),
    }
}

/// What the transform layer's decoder carries from frame to frame.
#[derive(Debug, Clone, Copy, PartialEq, Eq, Structural)]
pub struct CeltDecoder {
    /// Channels of the output.
    pub channels: usize,
    /// 48 kHz samples per output sample, the mirror of the encoder's.
    pub downsample: usize,
    /// Channels of the bitstream, which the output's are independent of: both
    /// keep one chain of state across switches between mono and stereo.
    pub stream_channels: usize,
    /// The postfilter of the last frame.
    pub comb: Comb,
    /// The postfilter that the next frame fades from.
    pub comb_old: Comb,
    /// What the noise that fills bands goes on from.
    pub rng: u32,
    /// How long the decoder has been concealing, in units of 2.5 ms. Zero on any
    /// decoded frame.
    pub loss_duration: i32,
    /// The same count, but *not* cleared by a single good frame, only by the two
    /// consecutive ones that clear `skip_plc`. It is what decides when a burst
    /// stops being pitch-extrapolated and becomes noise.
    pub plc_duration: i32,
    /// Stay on the noise branch until two consecutive packets have arrived. A
    /// single good frame in the middle of a bad stretch is not enough history to
    /// extrapolate a pitch period from.
    pub skip_plc: bool,
    /// What the previous frame was.
    pub last_frame_type: FrameType,
    /// The concealed frame left its overlap un-folded, so the next frame must
    /// fold it before its own synthesis overlaps onto it.
    pub prefilter_and_fold: bool,
    /// Pitch lag from the first lost frame, reused across a loss burst.
    pub last_pitch_index: usize,
}

/// What is known of a frame before it is read.
#[derive(Debug, Clone, Copy, PartialEq, Eq, Structural)]
pub struct DecodePlan {
    /// Samples per channel at 48 kHz.
    pub frame_size: usize,
    /// Which of the mode's frame sizes that is.
    pub lm: usize,
    /// Channels of the bitstream.
    pub channels: usize,
    /// The band after the last that is coded.
    pub end_band: usize,
    /// Whether the overlap is folded before the frame's own is added.
    pub fold: bool,
}

/// How a lost frame is got over.
#[derive(Debug, Clone, Copy, PartialEq, Eq, Structural)]
pub struct Concealment {
    /// Samples per channel at 48 kHz.
    pub frame_size: usize,
    /// Which of the mode's frame sizes that is.
    pub lm: usize,
    /// The band after the last that is concealed.
    pub end_band: usize,
    /// Whether it becomes shaped noise.
    pub noise: bool,
    /// Whether a pitch period is searched for, rather than the last one reused
    /// and faded.
    pub search: bool,
    /// Whether the overlap is folded before the frame's own is added.
    pub fold: bool,
    /// Whether it is the first frame of a loss.
    pub first: bool,
}

impl CeltDecoder {
    /// What holds of every decoder.
    pub open spec fn wf(self) -> bool {
        &&& 1 <= self.channels <= 2
        &&& 1 <= self.downsample <= 6
        &&& 1 <= self.stream_channels <= 2
        &&& self.comb.wf()
        &&& self.comb_old.wf()
        &&& 0 <= self.loss_duration <= MAX_LOSS
        &&& 0 <= self.plc_duration <= MAX_LOSS
        &&& self.last_pitch_index < COMBFILTER_MAXPERIOD
    }

    /// As a new decoder is, but for its channels and rate.
    pub open spec fn blank(self) -> CeltDecoder {
        CeltDecoder {
            comb: no_comb(),
            comb_old: no_comb(),
            rng: 0,
            loss_duration: 0,
            plc_duration: 0,
            skip_plc: true,
            last_frame_type: FrameType::Fresh,
            prefilter_and_fold: false,
            last_pitch_index: 0,
            ..self
        }
    }

    /// A new decoder. Until two packets have been decoded back to back there is
    /// no pitch history worth extrapolating.
    pub fn new(channels: usize) -> (d: Self)
        requires
            1 <= channels <= 2,
        ensures
            d.wf(),
            d == d.blank(),
            d.channels == channels,
            d.stream_channels == channels,
            d.downsample == 1,
    {
        let off = Comb { period: COMBFILTER_MINPERIOD, gain: 0, tapset: 0 };
        CeltDecoder {
            channels,
            downsample: 1,
            stream_channels: channels,
            comb: off,
            comb_old: off,
            rng: 0,
            loss_duration: 0,
            plc_duration: 0,
            skip_plc: true,
            last_frame_type: FrameType::Fresh,
            prefilter_and_fold: false,
            last_pitch_index: 0,
        }
    }

    /// Channels coded in the next packet's bitstream.
    pub fn set_stream_channels(&mut self, sc: usize)
        ensures
            *final(self) == (CeltDecoder {
                stream_channels: held(sc as int, 1, 2) as usize,
                ..*old(self)
            }),
    {
        self.stream_channels = if sc < 1 {
            1
        } else if sc > 2 {
            2
        } else {
            sc
        };
    }

    /// Forget everything but the channels and the rate.
    pub fn reset(&mut self)
        requires
            old(self).wf(),
        ensures
            final(self).wf(),
            *final(self) == old(self).blank(),
    {
        let off = Comb { period: COMBFILTER_MINPERIOD, gain: 0, tapset: 0 };
        self.comb = off;
        self.comb_old = off;
        self.rng = 0;
        self.loss_duration = 0;
        self.plc_duration = 0;
        self.prefilter_and_fold = false;
        self.last_pitch_index = 0;
        self.skip_plc = true;
        self.last_frame_type = FrameType::Fresh;
    }

    /// Set how many 48 kHz samples each output sample stands for.
    pub fn set_downsample(&mut self, downsample: usize)
        ensures
            *final(self) == (CeltDecoder {
                downsample: greatest(downsample as int, 1) as usize,
                ..*old(self)
            }),
    {
        self.downsample = max_usize(downsample, 1);
    }

    /// The decoder as a frame starts: pitch-based concealment is trusted again
    /// once a frame follows a decoded one, and the high band of a hybrid frame
    /// has no postfilter.
    pub open spec fn begun(self, start_band: int) -> CeltDecoder {
        CeltDecoder {
            skip_plc: self.skip_plc && self.loss_duration != 0,
            plc_duration: if self.loss_duration == 0 {
                0
            } else {
                self.plc_duration
            },
            comb: Comb {
                gain: if start_band != 0 {
                    0
                } else {
                    self.comb.gain
                },
                ..self.comb
            },
            ..self
        }
    }

    /// Start a frame, where `frame_size` counts samples at the caller's rate.
    pub fn begin_frame(&mut self, frame_size: usize, start_band: usize, end_band: usize) -> (p:
        DecodePlan)
        requires
            old(self).wf(),
            frame_size <= 5760,
        ensures
            final(self).wf(),
            *final(self) == old(self).begun(start_band as int),
            p == (DecodePlan {
                frame_size: (frame_size * old(self).downsample) as usize,
                lm: frame_power(frame_size * old(self).downsample, 0) as usize,
                channels: old(self).stream_channels,
                end_band: greatest(
                    least(end_band as int, NB_EBANDS as int),
                    start_band as int,
                ) as usize,
                fold: old(self).prefilter_and_fold,
            }),
    {
        assert(frame_size * self.downsample <= 5760 * 6) by (nonlinear_arith)
            requires
                frame_size <= 5760,
                self.downsample <= 6,
        ;
        let n: usize = frame_size * self.downsample;
        // Two consecutive packets have to arrive before the pitch-based
        // concealment is trusted again: this frame follows a decoded one only if
        // the loss counter was already clear on entry.
        if self.loss_duration == 0 {
            self.skip_plc = false;
            self.plc_duration = 0;
        }
        if start_band != 0 {
            self.comb = Comb { gain: 0, ..self.comb };
        }
        DecodePlan {
            frame_size: n,
            lm: frame_lm(n),
            channels: self.stream_channels,
            end_band: max_usize(min_usize(end_band, NB_EBANDS), start_band),
            fold: self.prefilter_and_fold,
        }
    }

    /// Frames that went missing before this one, up to ten.
    pub open spec fn frames_missing(self, lm: int) -> Option<int> {
        if self.loss_duration == 0 {
            None
        } else {
            Some(least(10, self.loss_duration as int / two_to(lm)))
        }
    }

    /// How far the background may have risen, in thousandths of a level.
    pub open spec fn background_risen(self, lm: int) -> int {
        least(160, self.loss_duration + two_to(lm))
    }

    /// Frames that went missing before this one, as far as the energies'
    /// prediction is made safe in proportion to them; `None` where nothing did.
    pub fn missing_frames(&self, lm: usize) -> (n: Option<i32>)
        requires
            self.wf(),
            lm <= MAX_LM,
        ensures
            match (n, self.frames_missing(lm as int)) {
                (None, None) => true,
                (Some(n), Some(m)) => n == m,
                _ => false,
            },
    {
        if self.loss_duration == 0 {
            return None;
        }
        proof {
            lemma_two_to_values();
            lemma_two_to_monotone(0, lm as int);
            lemma_two_to_monotone(lm as int, 3);
            assert(two_to(3) == 2 * two_to(2));
        }
        Some(min_i32(10, self.loss_duration / power_of_two(lm as u32) as i32))
    }

    /// How far the background may have risen, in thousandths of a level: by a
    /// little per frame, but a gap gets the whole gap's worth at once.
    pub fn background_rise(&self, lm: usize) -> (r: i32)
        requires
            self.wf(),
            lm <= MAX_LM,
        ensures
            r == self.background_risen(lm as int),
    {
        proof {
            lemma_two_to_values();
            lemma_two_to_monotone(lm as int, 3);
            assert(two_to(3) == 2 * two_to(2));
        }
        min_i32(160, self.loss_duration + power_of_two(lm as u32) as i32)
    }

    /// Whether the frame is filtered at all.
    pub fn filters(&self, header: &FrameHeader) -> (yes: bool)
        ensures
            yes == (header.postfilter is Some || self.comb.gain > 0 || self.comb_old.gain > 0),
    {
        header.postfilter.is_some() || self.comb.gain > 0 || self.comb_old.gain > 0
    }

    /// The decoder after a decoded frame: its postfilter is the one that the
    /// next frame fades from, at once where the frame was long enough to fade to
    /// it, else after one more frame.
    pub open spec fn decoded(self, pf: Option<Postfilter>, lm: int, rng: u32) -> CeltDecoder {
        CeltDecoder {
            comb: comb_of(pf),
            comb_old: if lm > 0 {
                comb_of(pf)
            } else {
                self.comb
            },
            rng,
            loss_duration: 0,
            last_frame_type: FrameType::Normal,
            prefilter_and_fold: false,
            ..self
        }
    }

    /// End a decoded frame.
    pub fn finish_frame(&mut self, pf: Option<Postfilter>, lm: usize, rng: u32)
        requires
            old(self).wf(),
            comb_of(pf).wf(),
            pf matches Some(p) ==> p.gain_index < 8,
        ensures
            final(self).wf(),
            *final(self) == old(self).decoded(pf, lm as int, rng),
    {
        let comb = match pf {
            Some(p) => Comb {
                period: p.pitch_index,
                gain: p.gain_index + 1,
                tapset: p.tapset,
            },
            None => Comb { period: COMBFILTER_MINPERIOD, gain: 0, tapset: 0 },
        };
        self.comb_old = if lm > 0 {
            comb
        } else {
            self.comb
        };
        self.comb = comb;
        self.rng = rng;
        self.loss_duration = 0;
        self.last_frame_type = FrameType::Normal;
        self.prefilter_and_fold = false;
    }

    /// Whether a lost frame becomes noise: after 100 ms of loss, in the high
    /// band of a hybrid frame, for which there is no low band to extrapolate,
    /// and as long as the pitch is not trusted.
    pub open spec fn conceals_with_noise(self, start_band: int) -> bool {
        self.plc_duration >= PLC_NOISE_AFTER || start_band != 0 || self.skip_plc
    }

    /// How a lost frame is got over.
    pub open spec fn concealment(self, frame_size: int, start_band: int, end_band: int)
        -> Concealment {
        let n = frame_size * self.downsample;
        let noise = self.conceals_with_noise(start_band);
        Concealment {
            frame_size: n as usize,
            lm: frame_power(n, MAX_LM as int) as usize,
            end_band: least(end_band, NB_EBANDS as int) as usize,
            noise,
            search: !noise && self.last_frame_type != FrameType::PlcPeriodic,
            fold: noise && self.prefilter_and_fold,
            first: self.loss_duration == 0,
        }
    }

    /// How a lost frame is got over, where `frame_size` counts samples at the
    /// caller's rate.
    pub fn plan_concealment(&self, frame_size: usize, start_band: usize, end_band: usize) -> (c:
        Concealment)
        requires
            self.wf(),
            frame_size <= 5760,
        ensures
            c == self.concealment(frame_size as int, start_band as int, end_band as int),
            c.lm <= MAX_LM,
    {
        assert(frame_size * self.downsample <= 5760 * 6) by (nonlinear_arith)
            requires
                frame_size <= 5760,
                self.downsample <= 6,
        ;
        let n: usize = frame_size * self.downsample;
        let noise: bool = self.plc_duration >= PLC_NOISE_AFTER || start_band != 0 || self.skip_plc;
        Concealment {
            frame_size: n,
            lm: lm_for(n),
            end_band: min_usize(end_band, NB_EBANDS),
            noise,
            search: !noise && self.last_frame_type != FrameType::PlcPeriodic,
            fold: noise && self.prefilter_and_fold,
            first: self.loss_duration == 0,
        }
    }

    /// The decoder after a concealed frame. Noise ends the trust in the pitch,
    /// and goes on with the last postfilter; a repeated period leaves its
    /// overlap unfolded, for whatever comes next to fold with parameters that
    /// are not known yet.
    pub open spec fn concealed(self, c: Concealment, pitch: int, seed: u32) -> CeltDecoder {
        let loss = least(self.loss_duration + two_to(c.lm as int), MAX_LOSS as int) as i32;
        let plc = least(self.plc_duration + two_to(c.lm as int), MAX_LOSS as int) as i32;
        if c.noise {
            CeltDecoder {
                comb_old: self.comb,
                rng: seed,
                loss_duration: loss,
                plc_duration: plc,
                skip_plc: true,
                last_frame_type: FrameType::PlcNoise,
                prefilter_and_fold: false,
                ..self
            }
        } else {
            CeltDecoder {
                loss_duration: loss,
                plc_duration: plc,
                last_frame_type: FrameType::PlcPeriodic,
                prefilter_and_fold: true,
                last_pitch_index: if c.search {
                    pitch as usize
                } else {
                    self.last_pitch_index
                },
                ..self
            }
        }
    }

    /// End a concealed frame, where `pitch` is the lag that was searched for and
    /// `seed` what the noise ended with.
    pub fn finish_concealment(&mut self, c: Concealment, pitch: usize, seed: u32)
        requires
            old(self).wf(),
            c.lm <= MAX_LM,
            pitch <= PLC_PITCH_LAG_MAX,
        ensures
            final(self).wf(),
            *final(self) == old(self).concealed(c, pitch as int, seed),
    {
        proof {
            lemma_two_to_values();
            lemma_two_to_monotone(0, c.lm as int);
            lemma_two_to_monotone(c.lm as int, 3);
            assert(two_to(3) == 2 * two_to(2));
        }
        let units: i32 = power_of_two(c.lm as u32) as i32;
        if c.noise {
            self.comb_old = self.comb;
            self.rng = seed;
            self.prefilter_and_fold = false;
            self.skip_plc = true;
            self.last_frame_type = FrameType::PlcNoise;
        } else {
            if c.search {
                self.last_pitch_index = pitch;
            }
            self.prefilter_and_fold = true;
            self.last_frame_type = FrameType::PlcPeriodic;
        }
        // Saturate so a very long silence cannot wrap either counter.
        self.loss_duration = min_i32(self.loss_duration + units, MAX_LOSS);
        self.plc_duration = min_i32(self.plc_duration + units, MAX_LOSS);
    }

    /// The period that is repeated.
    pub open spec fn repeated_period(self) -> int {
        greatest(self.last_pitch_index as int, 1)
    }

    /// How much of the past it is taken from.
    pub open spec fn repeated_from(self) -> int {
        least(2 * self.repeated_period(), COMBFILTER_MAXPERIOD as int)
    }

    /// The period that is repeated, and how much of the past it is taken from.
    pub fn extrapolation(&self) -> (r: (usize, usize))
        requires
            self.wf(),
        ensures
            r.0 == self.repeated_period(),
            r.1 == self.repeated_from(),
            1 <= r.0 < COMBFILTER_MAXPERIOD,
    {
        let pitch: usize = min_usize(max_usize(self.last_pitch_index, 1), COMBFILTER_MAXPERIOD - 1);
        (pitch, min_usize(2 * pitch, COMBFILTER_MAXPERIOD))
    }
}

/// A new decoder has no pitch to repeat: until two packets in a row have been
/// decoded, what is lost becomes noise.
pub proof fn law_two_packets_before_a_pitch(
    d: CeltDecoder,
    pf: Option<Postfilter>,
    lm: int,
    rng: u32,
    second: Option<Postfilter>,
    lm2: int,
    rng2: u32,
)
    ensures
        d.blank().conceals_with_noise(0),
        ({
            let one = d.blank().begun(0).decoded(pf, lm, rng);
            let two = one.begun(0).decoded(second, lm2, rng2);
            !two.conceals_with_noise(0)
        }),
{
}

/// Once a loss has become noise, one good packet is not enough to go back to
/// repeating a pitch, and two are.
pub proof fn law_noise_ends_with_two_packets(
    d: CeltDecoder,
    c: Concealment,
    seed: u32,
    pf: Option<Postfilter>,
    lm: int,
    rng: u32,
    second: Option<Postfilter>,
    lm2: int,
    rng2: u32,
)
    requires
        d.wf(),
        c.noise,
        c.lm <= MAX_LM,
    ensures
        ({
            let lost = d.concealed(c, 0, seed);
            let one = lost.begun(0).decoded(pf, lm, rng);
            let two = one.begun(0).decoded(second, lm2, rng2);
            &&& lost.conceals_with_noise(0)
            &&& one.conceals_with_noise(0)
            &&& !two.conceals_with_noise(0)
        }),
{
    lemma_two_to_monotone(0, c.lm as int);
}

/// The decoder after some frames of one size were lost.
pub open spec fn after_losses(
    d: CeltDecoder,
    frame_size: int,
    start_band: int,
    end_band: int,
    pitches: Seq<int>,
    seeds: Seq<u32>,
    n: int,
) -> CeltDecoder
    decreases n,
{
    if n <= 0 {
        d
    } else {
        let before = after_losses(d, frame_size, start_band, end_band, pitches, seeds, n - 1);
        before.concealed(
            before.concealment(frame_size, start_band, end_band),
            pitches[n - 1],
            seeds[n - 1],
        )
    }
}

/// However long the frames are, a loss becomes noise after 100 ms, and stays it.
pub proof fn law_long_losses_become_noise(
    d: CeltDecoder,
    frame_size: int,
    start_band: int,
    end_band: int,
    pitches: Seq<int>,
    seeds: Seq<u32>,
    n: int,
)
    requires
        0 <= d.plc_duration <= MAX_LOSS,
        0 <= n,
    ensures
        ({
            let lm = frame_power(frame_size * d.downsample, MAX_LM as int);
            let after = after_losses(d, frame_size, start_band, end_band, pitches, seeds, n);
            &&& after.downsample == d.downsample
            &&& after.plc_duration == least(
                d.plc_duration + n * two_to(lm),
                MAX_LOSS as int,
            )
            &&& n * two_to(lm) >= PLC_NOISE_AFTER ==> after.conceals_with_noise(start_band)
        }),
    decreases n,
{
    let lm = frame_power(frame_size * d.downsample, MAX_LM as int);
    lemma_two_to_values();
    assert(two_to(3) == 2 * two_to(2));
    let p = two_to(lm);
    if n > 0 {
        law_long_losses_become_noise(
            d,
            frame_size,
            start_band,
            end_band,
            pitches,
            seeds,
            n - 1,
        );
        assert((n - 1) * p + p == n * p) by (nonlinear_arith);
        assert((n - 1) * p >= 0) by (nonlinear_arith)
            requires
                n >= 1,
                p >= 1,
        ;
    } else {
        assert(0 * p == 0);
    }
}

/// Within a burst only the first frame searches for a pitch; the others repeat
/// what it found.
pub proof fn law_one_search_per_burst(
    d: CeltDecoder,
    c: Concealment,
    pitch: int,
    seed: u32,
    frame_size: int,
    start_band: int,
    end_band: int,
)
    requires
        !c.noise,
    ensures
        ({
            let lost = d.concealed(c, pitch, seed);
            let next = lost.concealment(frame_size, start_band, end_band);
            &&& !next.search
            &&& !next.noise ==> lost.concealed(next, 0, 0).last_pitch_index
                == lost.last_pitch_index
        }),
{
}

} // verus!
