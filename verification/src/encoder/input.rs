//! What the encoder reads of its input before it codes it.

use vstd::prelude::*;

use crate::encoder::control::{EncoderModel, OpusEncoder};
use crate::encoder::duration::opus_rate;
use crate::encoder::timeline::channel_of;
use crate::error::Error;
use crate::range_coder::alphabet::{
    lemma_two_to_monotone, lemma_two_to_values, power_of_two, two_to,
};

verus! {

/// What becomes of the signal analysis for a packet.
#[derive(Debug, Clone, Copy, PartialEq, Eq, Structural)]
pub enum AnalysisUse {
    /// It runs.
    Run,
    /// It does not run, and forgets what it has learned.
    Reset,
    /// It does not run.
    Skip,
}

/// How loud a 16-bit sample is.
pub open spec fn magnitude(x: i16) -> int {
    if x < 0 {
        -(x as int)
    } else {
        x as int
    }
}

/// Whether every sample is at or below the noise floor of a bit depth, which
/// sits `2^-depth` from full scale.
pub open spec fn below_floor(input: Seq<i16>, depth: int) -> bool {
    forall|i: int| 0 <= i < input.len() ==> magnitude(#[trigger] input[i]) * two_to(depth) <= 32_768
}

/// What is done with the analysis.
pub open spec fn analysis_wanted(m: EncoderModel, initialized: bool) -> AnalysisUse {
    if m.settings.complexity >= 7 && m.rate >= 16_000 {
        AnalysisUse::Run
    } else if initialized {
        AnalysisUse::Reset
    } else {
        AnalysisUse::Skip
    }
}

impl OpusEncoder {
    /// What becomes of the signal analysis for the next packet: it takes time,
    /// and a rate that leaves it something to look at.
    pub fn analysis_use(&self, initialized: bool) -> (u: AnalysisUse)
        ensures
            u == analysis_wanted(self@, initialized),
    {
        if self.complexity >= 7 && self.sampling_rate >= 16_000 {
            AnalysisUse::Run
        } else if initialized {
            AnalysisUse::Reset
        } else {
            AnalysisUse::Skip
        }
    }

    /// Check that 16-bit input is long enough, before any of it is read.
    pub fn check_s16(&self, input_len: usize, frame_size: usize) -> (r: Result<(), Error>)
        requires
            frame_size * self@.channels <= usize::MAX,
        ensures
            r == (if input_len < frame_size * self@.channels {
                Err::<(), Error>(
                    Error::InvalidArgument("input is shorter than frame_size * channels"),
                )
            } else {
                Ok(())
            }),
    {
        if input_len < frame_size * self.channels {
            return Err(Error::InvalidArgument("input is shorter than frame_size * channels"));
        }
        Ok(())
    }

    /// Whether every 16-bit sample is at or below the noise floor of the packet
    /// being coded.
    pub fn is_digital_silence(&self, input: &[i16]) -> (yes: bool)
        requires
            0 <= self@.memory.coded_lsb_depth <= 24,
        ensures
            yes == below_floor(input@, self@.memory.coded_lsb_depth),
    {
        let depth: u32 = self.coded_lsb_depth as u32;
        proof {
            lemma_two_to_values();
            lemma_two_to_monotone(depth as int, 31);
        }
        let scale: i64 = power_of_two(depth) as i64;
        let mut i: usize = 0;
        while i < input.len()
            invariant
                i <= input@.len(),
                depth == self@.memory.coded_lsb_depth,
                scale == two_to(depth as int),
                1 <= scale <= 0x8000_0000,
                forall|k: int|
                    0 <= k < i ==> magnitude(#[trigger] input@[k]) * two_to(depth as int)
                        <= 32_768,
            decreases input@.len() - i,
        {
            let x: i64 = input[i] as i64;
            let loud: i64 = if x < 0 {
                -x
            } else {
                x
            };
            assert(0 <= loud * scale <= 32_768 * 0x8000_0000) by (nonlinear_arith)
                requires
                    0 <= loud <= 32_768,
                    1 <= scale <= 0x8000_0000,
            ;
            if loud * scale > 32_768 {
                assert(magnitude(input@[i as int]) == loud);
                return false;
            }
            i = i + 1;
        }
        true
    }
}

/// The last 10 ms of a mono frame, which warm the speech layer up where it is
/// entered: nothing where the frame is shorter.
pub fn silk_tail<T: Copy>(input: &[T], frame_size: usize, sampling_rate: i32) -> (tail: Option<
    Vec<T>,
>)
    requires
        opus_rate(sampling_rate as int),
        frame_size <= input@.len(),
    ensures
        match tail {
            Some(t) => frame_size >= sampling_rate / 100 && t@ == input@.subrange(
                frame_size - sampling_rate as int / 100,
                frame_size as int,
            ),
            None => frame_size < sampling_rate / 100,
        },
{
    let n: usize = (sampling_rate / 100) as usize;
    if frame_size < n {
        return None;
    }
    let mut t: Vec<T> = Vec::new();
    let mut i: usize = frame_size - n;
    while i < frame_size
        invariant
            frame_size - n <= i <= frame_size <= input@.len(),
            n <= frame_size,
            t@ =~= input@.subrange(frame_size - n, i as int),
        decreases frame_size - i,
    {
        t.push(input[i]);
        i = i + 1;
    }
    Some(t)
}

/// The two channels of interleaved stereo.
pub fn deinterleave<T: Copy>(input: &[T], frame_size: usize) -> (r: (Vec<T>, Vec<T>))
    requires
        2 * frame_size <= input@.len(),
    ensures
        r.0@ == channel_of(input@, 0, 2, frame_size as int),
        r.1@ == channel_of(input@, 1, 2, frame_size as int),
{
    let mut left: Vec<T> = Vec::new();
    let mut right: Vec<T> = Vec::new();
    let mut i: usize = 0;
    assert(2 * frame_size <= input.len());
    while i < frame_size
        invariant
            i <= frame_size,
            2 * frame_size <= input@.len() <= usize::MAX,
            left@ =~= channel_of(input@, 0, 2, frame_size as int).subrange(0, i as int),
            right@ =~= channel_of(input@, 1, 2, frame_size as int).subrange(0, i as int),
        decreases frame_size - i,
    {
        left.push(input[2 * i]);
        right.push(input[2 * i + 1]);
        i = i + 1;
    }
    (left, right)
}

/// At 16 bits and more, only true silence is silent in 16-bit samples.
pub proof fn law_sixteen_bit_silence_is_zero(input: Seq<i16>, depth: int)
    requires
        16 <= depth,
    ensures
        below_floor(input, depth) <==> forall|i: int| 0 <= i < input.len() ==> #[trigger] input[i]
            == 0,
{
    lemma_two_to_values();
    lemma_two_to_monotone(16, depth);
    assert(two_to(16) == 2 * two_to(15));
    let p = two_to(depth);
    if below_floor(input, depth) {
        assert forall|i: int| 0 <= i < input.len() implies #[trigger] input[i] == 0 by {
            let m = magnitude(input[i]);
            assert(m == 0) by (nonlinear_arith)
                requires
                    m * p <= 32_768,
                    p >= 65_536,
                    m >= 0,
            ;
        }
    }
    if forall|i: int| 0 <= i < input.len() ==> #[trigger] input[i] == 0 {
        assert forall|i: int| 0 <= i < input.len() implies magnitude(#[trigger] input[i]) * p
            <= 32_768 by {
            assert(input[i] == 0);
            assert(0 * p == 0);
        }
    }
}

} // verus!
