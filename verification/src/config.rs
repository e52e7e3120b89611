//! The choices an encoder is configured with and reports.

use vstd::prelude::*;

verus! {

/// What the encoder is tuned for.
#[derive(Debug, Clone, Copy, PartialEq, Eq, Structural)]
pub enum Application {
    /// Speech: intelligibility first.
    Voip,
    /// General audio: fidelity to the input first.
    Audio,
    /// The lowest delay, at the cost of the speech-oriented modes.
    RestrictedLowDelay,
}

/// The audio bandwidth a frame is coded at.
#[derive(Debug, Clone, Copy, PartialEq, Eq, Structural)]
pub enum Bandwidth {
    /// 4 kHz.
    Narrowband,
    /// 6 kHz.
    Mediumband,
    /// 8 kHz.
    Wideband,
    /// 12 kHz.
    Superwideband,
    /// 20 kHz.
    Fullband,
}

impl Bandwidth {
    /// The bandwidth's place in the order from narrowband, 0, to fullband, 4.
    pub open spec fn rank(self) -> int {
        match self {
            Bandwidth::Narrowband => 0,
            Bandwidth::Mediumband => 1,
            Bandwidth::Wideband => 2,
            Bandwidth::Superwideband => 3,
            Bandwidth::Fullband => 4,
        }
    }

    /// The number the codec's interfaces give the bandwidth: 1101 to 1105.
    pub fn number(self) -> (n: i32)
        ensures
            n == 1101 + self.rank(),
    {
        match self {
            Bandwidth::Narrowband => 1101,
            Bandwidth::Mediumband => 1102,
            Bandwidth::Wideband => 1103,
            Bandwidth::Superwideband => 1104,
            Bandwidth::Fullband => 1105,
        }
    }
}

/// Which layer codes a frame.
#[derive(Debug, Clone, Copy, PartialEq, Eq, Structural)]
pub enum OpusMode {
    /// The speech layer alone.
    SilkOnly,
    /// The speech layer below 8 kHz and the transform layer above.
    Hybrid,
    /// The transform layer alone.
    CeltOnly,
}

/// How the packet size follows the signal.
#[derive(Debug, Clone, Copy, PartialEq, Eq, Structural)]
pub enum RateControl {
    /// As many bytes as the frame needs.
    Vbr,
    /// As many as it needs, around a rate that holds over time.
    ConstrainedVbr,
    /// The same number every time.
    Cbr,
}

impl RateControl {
    /// Whether every packet has the same size.
    pub fn is_cbr(self) -> (yes: bool)
        ensures
            yes == (self == RateControl::Cbr),
    {
        matches!(self, RateControl::Cbr)
    }
}

/// What the caller knows the input to be.
#[derive(Debug, Clone, Copy, PartialEq, Eq, Structural)]
pub enum Signal {
    /// Speech.
    Voice,
    /// Anything else.
    Music,
}

} // verus!
