//! What the transform layer's encoder carries from frame to frame.

use vstd::prelude::*;

use crate::celt::bands::{frame_lm, frame_power, MAX_LM, NB_EBANDS};
use crate::celt::decisions::{
    allow_weak_transients, bytes_left, early_bytes, effective_bytes_of, equiv_rate_of,
    frame_rate_bps, intensity_after, intensity_decision, plan_spread, plan_tf, prefilter_enabled,
    prefilter_pays, spread_plan_of, tf_plan_of, weak_transients_count, SpreadPlan, TfPlan,
    SPREAD_NORMAL,
};
use crate::celt::header::{Postfilter, COMBFILTER_MINPERIOD};
use crate::celt::vbr::{VbrFrame, VbrState, MAX_RESERVOIR};
use crate::math::{greatest, max_usize};

verus! {

/// Transients in a row after which bands are allowed to collapse.
pub const MANY_TRANSIENTS: i32 = 2;

/// The settings and the decision state of the transform layer's encoder.
#[derive(Debug, Clone, Copy, PartialEq, Eq, Structural)]
pub struct CeltEncoder {
    /// One or two.
    pub channels: usize,
    /// 48 kHz samples per input sample: 1 at 48 kHz, 2 at 24, 3 at 16, 4 at 12,
    /// 6 at 8. There is only a 48 kHz mode, so a lower rate is coded by
    /// zero-stuffing the input up to 48 kHz.
    pub upsample: usize,
    /// How much time may be spent, from 0 to 10.
    pub complexity: i32,
    /// Input bit depth.
    pub lsb_depth: i32,
    /// VBR target in eighth-bits per frame; 0 is a fixed rate.
    pub vbr_rate: i32,
    /// Whether the rate holds over time.
    pub constrained_vbr: bool,
    /// What the speech layer coded in the low band of this hybrid frame; 2 is
    /// voiced.
    pub silk_signal_type: i32,
    /// The speech layer's quantization offset for this frame. Small means a
    /// tonal frame.
    pub silk_offset: i32,
    /// The first band that is not coded in stereo.
    pub intensity: usize,
    /// The bands that the frame before coded.
    pub last_coded_bands: usize,
    /// How much the pulses were spread.
    pub spread_decision: u32,
    /// Which of the postfilter's responses suits the signal.
    pub tapset_decision: u32,
    /// What constrained VBR remembers.
    pub vbr: VbrState,
    /// The prefilter's period in the frame before.
    pub prefilter_period: usize,
    /// The prefilter's response in the frame before.
    pub prefilter_tapset: u32,
    /// Transients in a row, as far as they matter.
    pub consec_transient: i32,
}

/// What is known of a frame before it is analysed.
#[derive(Debug, Clone, Copy, PartialEq, Eq, Structural)]
pub struct FramePlan {
    /// Samples per channel at 48 kHz.
    pub frame_size: usize,
    /// Which of the mode's frame sizes that is.
    pub lm: usize,
    /// Whether the pitch prefilter is searched for.
    pub prefilter: bool,
    /// Whole bytes that are left.
    pub bytes_left: i32,
    /// The prefilter's response, should there be one. It is settled here: the
    /// analysis of this frame already decides on the next one's.
    pub tapset: u32,
    /// Whether weak transients count.
    pub weak_transients: bool,
    /// Whether transients are looked for at all.
    pub look_for_transients: bool,
}

/// What a new encoder is.
pub open spec fn fresh_encoder(channels: usize) -> CeltEncoder {
    CeltEncoder {
        channels,
        upsample: 1,
        complexity: 9,
        lsb_depth: 24,
        vbr_rate: 0,
        constrained_vbr: true,
        silk_signal_type: 0,
        silk_offset: 0,
        intensity: 0,
        last_coded_bands: 0,
        spread_decision: SPREAD_NORMAL,
        tapset_decision: 0,
        vbr: VbrState { reservoir: 0, drift: 0, offset: 0, count: 0 },
        prefilter_period: COMBFILTER_MINPERIOD,
        prefilter_tapset: 0,
        consec_transient: 0,
    }
}

impl CeltEncoder {
    /// What holds of every encoder.
    pub open spec fn wf(self) -> bool {
        &&& 1 <= self.channels <= 2
        &&& 1 <= self.upsample <= 6
        &&& self.intensity <= NB_EBANDS
        &&& self.last_coded_bands <= NB_EBANDS
        &&& self.spread_decision < 4
        &&& self.tapset_decision < 3
        &&& self.prefilter_tapset < 3
        &&& self.vbr.wf()
        &&& 0 <= self.consec_transient <= MANY_TRANSIENTS
    }

    /// A new encoder.
    pub fn new(channels: usize) -> (e: Self)
        requires
            1 <= channels <= 2,
        ensures
            e.wf(),
            e == fresh_encoder(channels),
    {
        CeltEncoder {
            channels,
            upsample: 1,
            complexity: 9,
            lsb_depth: 24,
            vbr_rate: 0,
            constrained_vbr: true,
            silk_signal_type: 0,
            silk_offset: 0,
            intensity: 0,
            last_coded_bands: 0,
            spread_decision: SPREAD_NORMAL,
            tapset_decision: 0,
            vbr: VbrState::new(),
            prefilter_period: COMBFILTER_MINPERIOD,
            prefilter_tapset: 0,
            consec_transient: 0,
        }
    }

    /// Set how many 48 kHz samples each input sample stands for: 1 at a 48 kHz
    /// input, 2 at 24 kHz, 3 at 16 kHz, 4 at 12 kHz, 6 at 8 kHz.
    pub fn set_upsample(&mut self, upsample: usize)
        ensures
            *final(self) == (CeltEncoder {
                upsample: greatest(upsample as int, 1) as usize,
                ..*old(self)
            }),
    {
        self.upsample = max_usize(upsample, 1);
    }

    /// What is known of a frame before it is analysed, where `frame_size` counts
    /// samples at the caller's rate.
    pub open spec fn plan(self, frame_size: int, start_band: int, total_bits: int, tell: int)
        -> FramePlan {
        let left = bytes_left(total_bits, tell);
        FramePlan {
            frame_size: (frame_size * self.upsample) as usize,
            lm: frame_power(frame_size * self.upsample, 0) as usize,
            prefilter: prefilter_pays(
                start_band,
                self.complexity as int,
                left,
                self.channels as int,
            ),
            bytes_left: left as i32,
            tapset: self.tapset_decision,
            weak_transients: weak_transients_count(
                start_band,
                early_bytes(self.vbr_rate as int, total_bits),
                self.silk_signal_type == 2,
            ),
            look_for_transients: self.complexity >= 1,
        }
    }

    /// Start a frame.
    pub fn begin_frame(&self, frame_size: usize, start_band: usize, total_bits: i32, tell: i32) -> (p:
        FramePlan)
        requires
            self.wf(),
            frame_size <= 2880,
            0 <= total_bits,
            1 <= tell <= 0x7fff_0000,
        ensures
            p == self.plan(
                frame_size as int,
                start_band as int,
                total_bits as int,
                tell as int,
            ),
            p.lm <= MAX_LM,
    {
        assert(frame_size * self.upsample <= 2880 * 6) by (nonlinear_arith)
            requires
                frame_size <= 2880,
                self.upsample <= 6,
        ;
        let at_48k: usize = frame_size * self.upsample;
        let lm: usize = frame_lm(at_48k);
        let (prefilter, left): (bool, i32) = prefilter_enabled(
            start_band,
            self.complexity,
            total_bits,
            tell,
            self.channels,
        );
        FramePlan {
            frame_size: at_48k,
            lm,
            prefilter,
            bytes_left: left,
            tapset: self.tapset_decision,
            weak_transients: allow_weak_transients(
                start_band,
                self.vbr_rate,
                total_bits,
                self.silk_signal_type,
            ),
            look_for_transients: self.complexity >= 1,
        }
    }

    /// How the time-frequency resolution of a frame is settled.
    pub fn plan_resolution(
        &self,
        start_band: usize,
        total_bits: i32,
        is_transient: bool,
        weak_transient: bool,
    ) -> (plan: TfPlan)
        requires
            self.wf(),
            0 <= total_bits,
        ensures
            plan == tf_plan_of(
                greatest(total_bits as int / 8, 1),
                self.channels as int,
                start_band != 0,
                self.complexity as int,
                weak_transient,
                is_transient,
                self.silk_signal_type == 2,
            ),
    {
        plan_tf(
            effective_bytes_of(total_bits),
            self.channels,
            start_band != 0,
            self.complexity,
            weak_transient,
            is_transient,
            self.silk_signal_type,
        )
    }

    /// Settle on the first band that is not coded in stereo. Mono has none to
    /// settle on.
    pub fn settle_intensity(
        &mut self,
        total_bits: i32,
        frame_size: usize,
        start_band: usize,
        end_band: usize,
    )
        requires
            old(self).wf(),
            0 <= total_bits,
            total_bits * 48_000 <= i32::MAX,
            1 <= frame_size <= i32::MAX,
            start_band <= end_band <= NB_EBANDS,
        ensures
            final(self).wf(),
            *final(self) == (if old(self).channels == 2 {
                CeltEncoder {
                    intensity: intensity_after(
                        frame_rate_bps(total_bits as int, frame_size as int),
                        old(self).intensity as int,
                        start_band as int,
                        end_band as int,
                    ) as usize,
                    ..*old(self)
                }
            } else {
                *old(self)
            }),
            old(self).channels == 2 ==> start_band <= final(self).intensity <= end_band,
    {
        if self.channels == 2 {
            self.intensity = intensity_decision(
                equiv_rate_of(total_bits, frame_size),
                self.intensity,
                start_band,
                end_band,
            );
        }
    }

    /// How the pulses' spread is settled, where `analysed` is what the spectrum
    /// asks for.
    pub fn settle_spread(
        &mut self,
        tell: i32,
        total_bits: i32,
        is_transient: bool,
        analysed: u32,
    ) -> (spread: u32)
        requires
            old(self).wf(),
            0 <= total_bits,
            tell <= 0x7fff_0000,
            analysed < 4,
        ensures
            final(self).wf(),
            spread == (match spread_plan_of(
                tell as int,
                total_bits as int,
                old(self).complexity as int,
                is_transient,
                greatest(total_bits as int / 8, 1),
                old(self).channels as int,
            ) {
                SpreadPlan::Known { spread } => spread,
                SpreadPlan::Analyse => analysed,
            }),
            *final(self) == (CeltEncoder { spread_decision: spread, ..*old(self) }),
    {
        let plan = plan_spread(
            tell,
            total_bits,
            self.complexity,
            is_transient,
            effective_bytes_of(total_bits),
            self.channels,
        );
        let spread: u32 = match plan {
            SpreadPlan::Known { spread } => spread,
            SpreadPlan::Analyse => analysed,
        };
        self.spread_decision = spread;
        spread
    }

    /// The bits of a frame: those it was given at a fixed rate, and otherwise
    /// those of the bytes that it settles on, where following the rate moves the
    /// drift by `step`.
    pub fn settle_size(&mut self, f: VbrFrame, step: i32) -> (bits: i32)
        requires
            old(self).wf(),
            f.wf(),
            old(self).vbr_rate <= 0x1000_0000,
            old(self).vbr.reservoir <= MAX_RESERVOIR - 0x10_0000,
            -0x1000_0000 <= old(self).vbr.drift + step <= 0x1000_0000,
        ensures
            final(self).wf(),
            if old(self).vbr_rate > 0 {
                &&& bits == 8 * old(self).vbr.bytes(
                    f,
                    old(self).vbr_rate as int,
                    old(self).constrained_vbr,
                )
                &&& *final(self) == (CeltEncoder {
                    vbr: old(self).vbr.after(
                        f,
                        old(self).vbr_rate as int,
                        old(self).constrained_vbr,
                        step as int,
                    ),
                    ..*old(self)
                })
            } else {
                bits == f.total_bits && *final(self) == *old(self)
            },
    {
        if self.vbr_rate > 0 {
            let bytes: usize = self.vbr.settle(f, self.vbr_rate, self.constrained_vbr, step);
            8 * bytes as i32
        } else {
            f.total_bits
        }
    }

    /// Whether bands are kept from collapsing.
    pub open spec fn keeps_bands_up(self) -> bool {
        self.consec_transient < MANY_TRANSIENTS
    }

    /// Whether the decoder is asked to keep bands from collapsing.
    pub fn anti_collapse_on(&self) -> (on: bool)
        ensures
            on == self.keeps_bands_up(),
    {
        self.consec_transient < MANY_TRANSIENTS
    }

    /// Whether the stereo angles are weighed.
    pub open spec fn weighs_angles(self, dual_stereo: bool) -> bool {
        self.channels == 2 && !dual_stereo && self.complexity >= 8
    }

    /// Whether the whole frame is measured.
    pub open spec fn measures_all(self, short: bool) -> bool {
        short && self.complexity >= 8
    }

    /// Whether the stereo angles are chosen by what they do to the signal.
    pub fn theta_rdo(&self, dual_stereo: bool) -> (yes: bool)
        ensures
            yes == self.weighs_angles(dual_stereo),
    {
        self.channels == 2 && !dual_stereo && self.complexity >= 8
    }

    /// Whether the levels of a frame are measured of the whole frame too, though
    /// it is coded in short blocks.
    pub fn measures_whole_frame(&self, short: bool) -> (yes: bool)
        ensures
            yes == self.measures_all(short),
    {
        short && self.complexity >= 8
    }

    /// The encoder after a frame.
    pub open spec fn ended(
        self,
        postfilter: Option<Postfilter>,
        plan: FramePlan,
        coded_bands: usize,
        transient: bool,
    ) -> CeltEncoder {
        CeltEncoder {
            prefilter_period: match postfilter {
                Some(pf) => pf.pitch_index,
                None => COMBFILTER_MINPERIOD,
            },
            prefilter_tapset: plan.tapset,
            last_coded_bands: coded_bands,
            consec_transient: if !transient {
                0
            } else if self.consec_transient < MANY_TRANSIENTS {
                (self.consec_transient + 1) as i32
            } else {
                MANY_TRANSIENTS
            },
            ..self
        }
    }

    /// End a frame: remember its postfilter, its bands, and whether it was a
    /// transient.
    pub fn finish_frame(
        &mut self,
        postfilter: Option<Postfilter>,
        plan: FramePlan,
        coded_bands: usize,
        is_transient: bool,
    )
        requires
            old(self).wf(),
            plan.tapset < 3,
            coded_bands <= NB_EBANDS,
        ensures
            final(self).wf(),
            *final(self) == old(self).ended(postfilter, plan, coded_bands, is_transient),
    {
        self.prefilter_period = match postfilter {
            Some(pf) => pf.pitch_index,
            None => COMBFILTER_MINPERIOD,
        };
        self.prefilter_tapset = plan.tapset;
        self.last_coded_bands = coded_bands;
        if !is_transient {
            self.consec_transient = 0;
        } else if self.consec_transient < MANY_TRANSIENTS {
            self.consec_transient = self.consec_transient + 1;
        }
    }
}

} // verus!
