//! The encoder's settings, and the decisions it makes once for every packet.

use vstd::prelude::*;

use crate::config::{Application, Bandwidth, OpusMode, RateControl, Signal};
use crate::encoder::duration::{
    is_duration, lasts, lemma_whole_samples, mode_for_rate, opus_rate, packet_layout,
    PacketDuration, PacketLayout,
};
use crate::encoder::duration::coerce_mode_for_packet_rate;
use crate::encoder::rates::{
    bandwidth_from_i32, celt_delay_samples, celt_prefill_samples, clamp_bandwidth_to_rate,
    compute_equiv_rate, compute_mode_threshold, decide_fec, delay_samples, equiv_rate,
    fec_decision, mode_threshold, numbered_bandwidth, widest_at, within_rate,
};
use crate::error::Error;
use crate::math::{greatest, held, hold, least, max_i32, min_i32};

verus! {

/// Input bit depth the analysis noise floors assume.
pub const DEFAULT_LSB_DEPTH: i32 = 24;

/// Precision the float entry point declares its input to have. The 16-bit entry
/// point declares 16 instead.
pub const MAX_ENCODING_DEPTH: i32 = 24;

/// Lowest bitrate the encoder will act on. Anything positive below it is raised
/// to it.
pub const MIN_BITRATE_BPS: i32 = 500;

/// Highest bitrate per channel.
pub const MAX_BITRATE_BPS_PER_CHANNEL: i32 = 300_000;

/// The largest packet an encoder can produce: six 20 ms frames of 1275 bytes
/// sharing a TOC byte, a frame-count byte and a two-byte length for all but the
/// last.
pub const MAX_PACKET_BYTES: usize = 7662;

/// The settings and the decision state of an encoder: PCM in, Opus packets out.
///
/// One encoder handles one stream, and carries state between packets, so the
/// same instance has to be fed the whole stream in order. The settings below
/// are public fields rather than setters, and every one of them may be changed
/// between packets; only the sample rate, channel count and [`Application`] are
/// fixed at construction.
///
/// The encoder decides per packet which of the three Opus layers to use, what
/// audio [`Bandwidth`] to code, and how many bits to spend. Those decisions are
/// what [`bitrate_bps`](Self::bitrate_bps), [`complexity`](Self::complexity)
/// and the rest steer.
#[derive(Debug, Clone, Copy)]
pub struct OpusEncoder {
    pub(crate) application: Application,
    pub(crate) sampling_rate: i32,
    pub(crate) channels: usize,
    pub(crate) bandwidth: Bandwidth,
    /// Target bitrate in bits per second, across all channels. Default 64000.
    pub bitrate_bps: i32,
    /// How much CPU the encoder may spend, from 0 to 10. Default 9.
    pub complexity: i32,
    /// How much the size of each packet may vary. Default
    /// [`ConstrainedVbr`](RateControl::ConstrainedVbr).
    pub rate_control: RateControl,
    /// Code a low-bitrate copy of the *previous* frame into each packet, so one
    /// lost packet can be partly recovered from the next. Default `false`.
    pub use_inband_fec: bool,
    /// Discontinuous transmission: after enough consecutive inactive frames,
    /// emit a 1-byte (TOC-only) packet so the decoder runs comfort noise.
    pub use_dtx: bool,
    pub(crate) nb_no_activity_ms_q1: i32,
    pub(crate) range_final: u32,
    /// Expected packet loss, 0 to 100 percent. Default 0.
    pub packet_loss_perc: i32,
    pub(crate) lbrr_coded: bool,
    pub(crate) silk_initialized: bool,
    pub(crate) silk_prefill_pending: bool,
    pub(crate) prev_enc_mode: Option<OpusMode>,
    pub(crate) auto_bandwidth: i32,
    pub(crate) first_frame: bool,
    /// Overrides automatic bandwidth selection when set.
    pub force_bandwidth: Option<Bandwidth>,
    /// Forces the voice/music bias; `None` takes it from the analysis.
    pub signal_type: Option<Signal>,
    /// Caps the automatically selected bandwidth.
    pub max_bandwidth: Bandwidth,
    pub(crate) coded_lsb_depth: i32,
    /// Input bit depth assumed by the analysis noise floors. The float API
    /// default is 24; set 16 for 16-bit content.
    pub lsb_depth: i32,
    pub(crate) voice_ratio: i32,
    pub(crate) detected_bandwidth: i32,
}

/// The settings of an encoder that may change between packets.
pub ghost struct Settings {
    /// Target bitrate in bits per second.
    pub bitrate_bps: i32,
    /// From 0 to 10.
    pub complexity: i32,
    /// How much the size of each packet may vary.
    pub rate_control: RateControl,
    /// Whether to code a copy of the previous frame.
    pub use_inband_fec: bool,
    /// Whether to stop sending when nothing is going on.
    pub use_dtx: bool,
    /// From 0 to 100 percent.
    pub packet_loss_perc: i32,
    /// Overrides automatic bandwidth selection.
    pub force_bandwidth: Option<Bandwidth>,
    /// Forces the voice/music bias.
    pub signal_type: Option<Signal>,
    /// Caps the automatically selected bandwidth.
    pub max_bandwidth: Bandwidth,
    /// Input bit depth.
    pub lsb_depth: i32,
}

/// What an encoder remembers from packet to packet.
pub ghost struct Memory {
    /// The bandwidth the last packet was coded at.
    pub bandwidth: Bandwidth,
    /// Consecutive inactive time, in half milliseconds.
    pub nb_no_activity_ms_q1: int,
    /// Final range-coder state of the last packet.
    pub range_final: u32,
    /// Whether the last packet carried in-band redundancy.
    pub lbrr_coded: bool,
    /// Whether the speech layer is set up.
    pub silk_initialized: bool,
    /// Whether the speech layer is to be warmed up.
    pub silk_prefill_pending: bool,
    /// The mode of the last packet.
    pub prev_enc_mode: Option<OpusMode>,
    /// The bandwidth number that the rate last bought, 0 at first.
    pub auto_bandwidth: int,
    /// Whether no packet has been decided yet.
    pub first_frame: bool,
    /// The bit depth in force for the packet being coded.
    pub coded_lsb_depth: int,
    /// Voice probability in percent, -1 when it is not known.
    pub voice_ratio: int,
    /// The bandwidth number that the analysis found, 0 when it found none.
    pub detected_bandwidth: int,
}

/// What an [`OpusEncoder`] holds.
pub ghost struct EncoderModel {
    /// What the encoder is tuned for.
    pub application: Application,
    /// The rate of the input.
    pub rate: int,
    /// One or two.
    pub channels: int,
    /// What may change between packets.
    pub settings: Settings,
    /// What is remembered from packet to packet.
    pub memory: Memory,
}

impl View for OpusEncoder {
    type V = EncoderModel;

    open(crate) spec fn view(&self) -> EncoderModel {
        EncoderModel {
            application: self.application,
            rate: self.sampling_rate as int,
            channels: self.channels as int,
            settings: Settings {
                bitrate_bps: self.bitrate_bps,
                complexity: self.complexity,
                rate_control: self.rate_control,
                use_inband_fec: self.use_inband_fec,
                use_dtx: self.use_dtx,
                packet_loss_perc: self.packet_loss_perc,
                force_bandwidth: self.force_bandwidth,
                signal_type: self.signal_type,
                max_bandwidth: self.max_bandwidth,
                lsb_depth: self.lsb_depth,
            },
            memory: Memory {
                bandwidth: self.bandwidth,
                nb_no_activity_ms_q1: self.nb_no_activity_ms_q1 as int,
                range_final: self.range_final,
                lbrr_coded: self.lbrr_coded,
                silk_initialized: self.silk_initialized,
                silk_prefill_pending: self.silk_prefill_pending,
                prev_enc_mode: self.prev_enc_mode,
                auto_bandwidth: self.auto_bandwidth as int,
                first_frame: self.first_frame,
                coded_lsb_depth: self.coded_lsb_depth as int,
                voice_ratio: self.voice_ratio as int,
                detected_bandwidth: self.detected_bandwidth as int,
            },
        }
    }
}

/// The number of a bandwidth.
pub open spec fn number_of(bw: Bandwidth) -> int {
    1101 + bw.rank()
}

/// Whether a number is a bandwidth's.
pub open spec fn is_number(n: int) -> bool {
    1101 <= n <= 1105
}

/// The settings of a new encoder.
pub open spec fn default_settings() -> Settings {
    Settings {
        bitrate_bps: 64_000,
        complexity: 9,
        rate_control: RateControl::ConstrainedVbr,
        use_inband_fec: false,
        use_dtx: false,
        packet_loss_perc: 0,
        force_bandwidth: None,
        signal_type: None,
        max_bandwidth: Bandwidth::Fullband,
        lsb_depth: DEFAULT_LSB_DEPTH,
    }
}

/// Which probability of music a packet is judged by, after one of a mode.
pub open spec fn judged_by(prev: Option<OpusMode>) -> MusicProbability {
    match prev {
        None => MusicProbability::Plain,
        Some(OpusMode::CeltOnly) => MusicProbability::Most,
        Some(_) => MusicProbability::Least,
    }
}

/// What a new encoder remembers.
pub open spec fn blank_memory(rate: int) -> Memory {
    Memory {
        bandwidth: widest_at(rate),
        nb_no_activity_ms_q1: 0,
        range_final: 0,
        lbrr_coded: false,
        silk_initialized: false,
        silk_prefill_pending: false,
        prev_enc_mode: None,
        auto_bandwidth: 0,
        first_frame: true,
        coded_lsb_depth: DEFAULT_LSB_DEPTH as int,
        voice_ratio: -1,
        detected_bandwidth: 0,
    }
}

impl Settings {
    /// The settings brought into the range the encoder can honour.
    pub open spec fn normalized(self, channels: int) -> Settings {
        Settings {
            bitrate_bps: held(
                self.bitrate_bps as int,
                MIN_BITRATE_BPS as int,
                MAX_BITRATE_BPS_PER_CHANNEL * channels,
            ) as i32,
            complexity: held(self.complexity as int, 0, 10) as i32,
            packet_loss_perc: held(self.packet_loss_perc as int, 0, 100) as i32,
            lsb_depth: held(self.lsb_depth as int, 8, MAX_ENCODING_DEPTH as int) as i32,
            ..self
        }
    }

    /// Whether the settings are in that range.
    pub open spec fn in_range(self, channels: int) -> bool {
        &&& MIN_BITRATE_BPS <= self.bitrate_bps <= MAX_BITRATE_BPS_PER_CHANNEL * channels
        &&& 0 <= self.complexity <= 10
        &&& 0 <= self.packet_loss_perc <= 100
        &&& 8 <= self.lsb_depth <= MAX_ENCODING_DEPTH
    }
}

impl EncoderModel {
    /// What holds of every encoder, whatever the settings.
    pub open spec fn wf(self) -> bool {
        &&& opus_rate(self.rate)
        &&& self.channels == 1 || self.channels == 2
        &&& -1 <= self.memory.voice_ratio <= 100
        &&& self.memory.detected_bandwidth == 0 || is_number(self.memory.detected_bandwidth)
        &&& self.memory.auto_bandwidth == 0 || is_number(self.memory.auto_bandwidth)
        &&& 0 <= self.memory.nb_no_activity_ms_q1 <= 1200
    }

    /// How sure the encoder is of having speech, from 0 to 127: forced by the
    /// signal type when set, else from the analysis when that knows, else by the
    /// application. For audio it is never more than 90% sure.
    pub open spec fn voice_estimate(self) -> int {
        match self.settings.signal_type {
            Some(Signal::Voice) => 127,
            Some(Signal::Music) => 0,
            None => if self.memory.voice_ratio >= 0 {
                let v = self.memory.voice_ratio * 327 / 256;
                if self.application == Application::Audio {
                    least(v, 115)
                } else {
                    v
                }
            } else {
                match self.application {
                    Application::Voip => 115,
                    Application::Audio => 48,
                    Application::RestrictedLowDelay => 0,
                }
            },
        }
    }

    /// The equivalent rate of a packet.
    pub open spec fn equivalent_rate(self, packet_rate: int) -> int {
        equiv_rate(
            self.settings.bitrate_bps as int,
            self.channels,
            packet_rate,
            self.settings.rate_control != RateControl::Cbr,
            self.settings.complexity as int,
            self.settings.packet_loss_perc as int,
        )
    }

    /// The layer that the rate buys: the transform layer from a threshold on.
    pub open spec fn first_mode(self, packet_rate: int) -> OpusMode {
        if self.application == Application::RestrictedLowDelay {
            OpusMode::CeltOnly
        } else if self.equivalent_rate(packet_rate) >= mode_threshold(
            self.application,
            self.channels,
            self.memory.prev_enc_mode == Some(OpusMode::CeltOnly),
            self.memory.prev_enc_mode is Some,
            self.voice_estimate(),
        ) {
            OpusMode::CeltOnly
        } else {
            OpusMode::SilkOnly
        }
    }
}

/// The equivalent rate from which a bandwidth is worth coding: between the music
/// and the voice threshold by the square of the voice estimate.
pub open spec fn bandwidth_rate(number: int, voice_est: int) -> int {
    if number <= 1103 {
        9_000
    } else if number == 1104 {
        11_000 + voice_est * voice_est * 2_500 / 16_384
    } else {
        12_000 + voice_est * voice_est * 2_000 / 16_384
    }
}

/// How far the equivalent rate has to move past that before the bandwidth
/// changes.
pub open spec fn bandwidth_slack(number: int) -> int {
    if number <= 1103 {
        700
    } else if number == 1104 {
        1_000
    } else {
        2_000
    }
}

/// Whether the equivalent rate buys a bandwidth, given the one it last bought.
pub open spec fn rate_buys(
    number: int,
    equiv: int,
    voice_est: int,
    first_frame: bool,
    last: int,
) -> bool {
    equiv >= bandwidth_rate(number, voice_est) + (if first_frame {
        0int
    } else if last >= number {
        -bandwidth_slack(number)
    } else {
        bandwidth_slack(number)
    })
}

/// The widest bandwidth that the equivalent rate buys, from `number` down.
pub open spec fn widest_bought(
    number: int,
    equiv: int,
    voice_est: int,
    first_frame: bool,
    last: int,
) -> int
    decreases number,
{
    if number <= 1101 || rate_buys(number, equiv, voice_est, first_frame, last) {
        number
    } else {
        widest_bought(number - 1, equiv, voice_est, first_frame, last)
    }
}

impl EncoderModel {
    /// The bandwidth that the rate buys. Mediumband is no longer used by the
    /// selector: wideband takes its place.
    pub open spec fn bought_bandwidth(self, packet_rate: int) -> int {
        let bw = widest_bought(
            1105,
            self.equivalent_rate(packet_rate),
            self.voice_estimate(),
            self.memory.first_frame,
            self.memory.auto_bandwidth,
        );
        if bw == 1102 {
            1103
        } else {
            bw
        }
    }

    /// The bandwidth that the rate buys, within what the mode, the input and the
    /// content allow.
    pub open spec fn allowed_bandwidth(self, packet_rate: int) -> int {
        let mode = self.first_mode(packet_rate);
        let speech = mode != OpusMode::CeltOnly;
        let equiv = self.equivalent_rate(packet_rate);
        let bought = self.bought_bandwidth(packet_rate);
        // Hybrid at unsafe fixed rates starves the speech layer.
        let safe = if speech && self.settings.rate_control == RateControl::Cbr
            && self.settings.bitrate_bps < 15_000 {
            least(bought, 1103)
        } else {
            bought
        };
        // The speech layer runs at 16 kHz for inputs above that.
        let wired = if speech && self.rate > 16_000 {
            greatest(safe, 1103)
        } else {
            safe
        };
        let carried = least(wired, number_of(widest_at(self.rate)));
        let floor = if equiv <= 30_000 * self.channels {
            1103int
        } else if equiv <= 44_000 * self.channels {
            1104
        } else {
            1105
        };
        if self.memory.detected_bandwidth != 0 && self.settings.force_bandwidth is None && speech {
            least(carried, greatest(self.memory.detected_bandwidth, floor))
        } else {
            carried
        }
    }

    /// The bandwidth a packet is to be coded at, before in-band redundancy has
    /// its say: the caller's, or the allowed one within the caller's cap, and
    /// never one the input cannot contain.
    pub open spec fn chosen_bandwidth(self, packet_rate: int) -> Bandwidth {
        let mode = self.first_mode(packet_rate);
        let speech = mode != OpusMode::CeltOnly;
        let cap = if speech && self.rate > 16_000 {
            greatest(number_of(self.settings.max_bandwidth), 1103)
        } else {
            number_of(self.settings.max_bandwidth)
        };
        let capped = least(self.allowed_bandwidth(packet_rate), cap);
        let coded = if !speech && capped == 1102 {
            1101
        } else {
            capped
        };
        within_rate(
            match self.settings.force_bandwidth {
                Some(forced) => forced,
                None => numbered_bandwidth(coded),
            },
            self.rate,
        )
    }

    /// Whether a packet carries in-band redundancy, and the bandwidth number it
    /// is then coded at.
    pub open spec fn redundancy(self, packet_rate: int) -> (bool, int) {
        fec_decision(
            self.settings.use_inband_fec,
            self.settings.packet_loss_perc as int,
            self.memory.lbrr_coded,
            self.first_mode(packet_rate),
            number_of(self.chosen_bandwidth(packet_rate)),
            self.equivalent_rate(packet_rate),
        )
    }

    /// The mode and bandwidth of a packet. The speech layer becomes the hybrid
    /// above wideband; stereo hybrid above 28 kb/s goes to the transform layer;
    /// and the transform layer has no mediumband.
    pub open spec fn decision(self, packet_rate: int) -> (OpusMode, Bandwidth) {
        let bandwidth = numbered_bandwidth(self.redundancy(packet_rate).1);
        let first = self.first_mode(packet_rate);
        let layered = if first == OpusMode::SilkOnly && bandwidth.rank() >= 3 {
            OpusMode::Hybrid
        } else {
            first
        };
        let routed = self.channels == 2 && layered == OpusMode::Hybrid
            && self.settings.bitrate_bps > 28_000;
        let mode = mode_for_rate(
            if routed {
                OpusMode::CeltOnly
            } else {
                layered
            },
            packet_rate,
        );
        let wide = if routed {
            Bandwidth::Fullband
        } else {
            bandwidth
        };
        (
            mode,
            if mode == OpusMode::CeltOnly && wide == Bandwidth::Mediumband {
                Bandwidth::Wideband
            } else {
                wide
            },
        )
    }

    /// The encoder once a packet has been decided.
    pub open spec fn decided(self, packet_rate: int) -> EncoderModel {
        EncoderModel {
            memory: Memory {
                bandwidth: self.decision(packet_rate).1,
                lbrr_coded: self.redundancy(packet_rate).0,
                auto_bandwidth: self.bought_bandwidth(packet_rate),
                first_frame: false,
                ..self.memory
            },
            ..self
        }
    }
}

/// Which of the analysis's probabilities of music a packet is judged by: the
/// plain one at first, and after that the one that makes a change of mode
/// harder.
#[derive(Debug, Clone, Copy, PartialEq, Eq, Structural)]
pub enum MusicProbability {
    /// The estimate itself.
    Plain,
    /// The least it may be.
    Least,
    /// The most it may be.
    Most,
}

/// What the content analysis says of a packet.
#[derive(Debug, Clone, Copy, PartialEq, Eq, Structural)]
pub struct Content {
    /// Voice probability in percent.
    pub voice_ratio: i32,
    /// The highest analysis band with anything in it, up to 20.
    pub bandwidth: i32,
}

/// The bandwidth number that an analysis band needs.
pub open spec fn content_bandwidth(band: int) -> int {
    if band <= 12 {
        1101
    } else if band <= 14 {
        1102
    } else if band <= 16 {
        1103
    } else if band <= 18 {
        1104
    } else {
        1105
    }
}

/// The encoder once it has been told what a packet holds.
pub open spec fn told(m: EncoderModel, is_silence: bool, content: Option<Content>) -> EncoderModel {
    EncoderModel {
        memory: Memory {
            voice_ratio: match content {
                Some(c) => c.voice_ratio as int,
                None => if is_silence {
                    m.memory.voice_ratio
                } else {
                    -1
                },
            },
            detected_bandwidth: match content {
                Some(c) => content_bandwidth(c.bandwidth as int),
                None => 0,
            },
            ..m.memory
        },
        ..m
    }
}

/// What a packet was decided to be.
#[derive(Debug, Clone, Copy, PartialEq, Eq, Structural)]
pub struct PacketPlan {
    /// The layer that codes it.
    pub mode: OpusMode,
    /// The bandwidth it is coded at.
    pub bandwidth: Bandwidth,
    /// How it is laid out as frames.
    pub layout: PacketLayout,
}

/// How many packets of a duration come in a second.
pub open spec fn packets_per_second(rate: int, frame_size: int) -> int {
    rate / frame_size
}

impl OpusEncoder {
    /// What holds of every encoder, whatever the settings.
    pub open spec fn wf(&self) -> bool {
        self@.wf()
    }

    /// Create an encoder for `sampling_rate` Hz and `channels` channels.
    ///
    /// The rate must be one of 8000, 12000, 16000, 24000 or 48000, and the
    /// channel count 1 or 2; anything else is [`Error::InvalidArgument`].
    pub fn new(sampling_rate: i32, channels: usize, application: Application) -> (r: Result<
        Self,
        Error,
    >)
        ensures
            match r {
                Ok(encoder) => {
                    &&& opus_rate(sampling_rate as int)
                    &&& channels == 1 || channels == 2
                    &&& encoder.wf()
                    &&& encoder@ == (EncoderModel {
                        application,
                        rate: sampling_rate as int,
                        channels: channels as int,
                        settings: default_settings(),
                        memory: blank_memory(sampling_rate as int),
                    })
                },
                Err(e) => if !opus_rate(sampling_rate as int) {
                    e == Error::InvalidArgument("Invalid sampling rate")
                } else {
                    channels != 1 && channels != 2 && e == Error::InvalidArgument(
                        "Invalid number of channels",
                    )
                },
            },
    {
        if sampling_rate != 8000 && sampling_rate != 12000 && sampling_rate != 16000
            && sampling_rate != 24000 && sampling_rate != 48000 {
            return Err(Error::InvalidArgument("Invalid sampling rate"));
        }
        if channels != 1 && channels != 2 {
            return Err(Error::InvalidArgument("Invalid number of channels"));
        }
        Ok(
            OpusEncoder {
                application,
                sampling_rate,
                channels,
                bandwidth: clamp_bandwidth_to_rate(Bandwidth::Fullband, sampling_rate),
                bitrate_bps: 64_000,
                complexity: 9,
                rate_control: RateControl::ConstrainedVbr,
                use_inband_fec: false,
                use_dtx: false,
                nb_no_activity_ms_q1: 0,
                range_final: 0,
                packet_loss_perc: 0,
                lbrr_coded: false,
                silk_initialized: false,
                silk_prefill_pending: false,
                prev_enc_mode: None,
                auto_bandwidth: 0,
                first_frame: true,
                force_bandwidth: None,
                signal_type: None,
                max_bandwidth: Bandwidth::Fullband,
                coded_lsb_depth: DEFAULT_LSB_DEPTH,
                lsb_depth: DEFAULT_LSB_DEPTH,
                voice_ratio: -1,
                detected_bandwidth: 0,
            },
        )
    }

    /// Final range-coder state of the last encoded packet.
    pub fn final_range(&self) -> (range: u32)
        ensures
            range == self@.memory.range_final,
    {
        self.range_final
    }

    /// The sample rate this encoder was created with, in Hz.
    pub fn sample_rate(&self) -> (rate: i32)
        ensures
            rate == self@.rate,
    {
        self.sampling_rate
    }

    /// The channel count this encoder was created with.
    pub fn channels(&self) -> (channels: usize)
        ensures
            channels == self@.channels,
    {
        self.channels
    }

    /// The [`Application`] this encoder was created with.
    pub fn application(&self) -> (application: Application)
        ensures
            application == self@.application,
    {
        self.application
    }

    /// Samples per channel of algorithmic delay, at this encoder's sample rate.
    ///
    /// The encoder's output trails its input by this much, so a decoder should
    /// discard this many samples from the start to line the two up again. It is
    /// not a constant: [`Application::RestrictedLowDelay`] gives up the 4 ms
    /// the other two spend keeping SILK and CELT aligned, so it is 120 samples
    /// at 48 kHz where `Audio` and `Voip` are 312.
    pub fn lookahead(&self) -> (n: usize)
        requires
            self.wf(),
        ensures
            n == self@.rate / 400 + delay_samples(self@.rate, self@.application),
            n * 48_000 == self@.rate * (if self@.application == Application::RestrictedLowDelay {
                120int
            } else {
                312
            }),
    {
        celt_prefill_samples(self.sampling_rate) + celt_delay_samples(
            self.sampling_rate,
            self.application,
        )
    }

    /// Discard everything the encoder has learned, keeping its settings.
    ///
    /// Equivalent to building a new encoder with the same sample rate, channel
    /// count and [`Application`], then re-applying every setting you had
    /// changed. Use it to encode an unrelated second stream through the same
    /// instance, so that nothing from the first one carries across and colours
    /// its opening frames.
    pub fn reset_state(&mut self) -> (r: Result<(), Error>)
        requires
            old(self).wf(),
        ensures
            r is Ok,
            final(self).wf(),
            final(self)@ == (EncoderModel {
                memory: blank_memory(old(self)@.rate),
                ..old(self)@
            }),
    {
        let mut fresh = OpusEncoder::new(self.sampling_rate, self.channels, self.application)?;
        fresh.bitrate_bps = self.bitrate_bps;
        fresh.complexity = self.complexity;
        fresh.rate_control = self.rate_control;
        fresh.use_inband_fec = self.use_inband_fec;
        fresh.use_dtx = self.use_dtx;
        fresh.packet_loss_perc = self.packet_loss_perc;
        fresh.force_bandwidth = self.force_bandwidth;
        fresh.signal_type = self.signal_type;
        fresh.max_bandwidth = self.max_bandwidth;
        fresh.lsb_depth = self.lsb_depth;
        *self = fresh;
        Ok(())
    }

    /// How sure the encoder is of having speech, from 0 to 127.
    pub fn compute_voice_est(&self) -> (v: i32)
        requires
            self.wf(),
        ensures
            v == self@.voice_estimate(),
            0 <= v <= 127,
    {
        match self.signal_type {
            Some(Signal::Voice) => return 127,
            Some(Signal::Music) => return 0,
            None => {},
        }
        if self.voice_ratio >= 0 {
            let v: i32 = self.voice_ratio * 327 / 256;
            if self.application == Application::Audio {
                min_i32(v, 115)
            } else {
                v
            }
        } else {
            match self.application {
                Application::Voip => 115,
                Application::Audio => 48,
                Application::RestrictedLowDelay => 0,
            }
        }
    }

    /// Bring every setting into the range the encoder can honour, and reject
    /// the one value that cannot mean anything.
    ///
    /// The settings are public fields, so a caller can put any number in them
    /// between one call and the next, and several of them go on to index a
    /// table or feed a shift. A rate of zero or less is rejected rather than
    /// clamped: [`bitrate_bps`](Self::bitrate_bps) is always a rate, and "decide
    /// for me" is spelled by leaving the default alone.
    pub fn normalize_settings(&mut self) -> (r: Result<(), Error>)
        requires
            old(self).wf(),
        ensures
            final(self).wf(),
            if old(self)@.settings.bitrate_bps <= 0 {
                r == Err::<(), Error>(
                    Error::InvalidArgument(
                        "bitrate_bps must be a positive rate; this crate has no OPUS_AUTO/OPUS_BITRATE_MAX sentinel",
                    ),
                ) && final(self)@ == old(self)@
            } else {
                r is Ok && final(self)@ == (EncoderModel {
                    settings: old(self)@.settings.normalized(old(self)@.channels),
                    ..old(self)@
                }) && final(self)@.settings.in_range(old(self)@.channels)
            },
    {
        if self.bitrate_bps <= 0 {
            return Err(
                Error::InvalidArgument(
                    "bitrate_bps must be a positive rate; this crate has no OPUS_AUTO/OPUS_BITRATE_MAX sentinel",
                ),
            );
        }
        self.bitrate_bps = hold(
            self.bitrate_bps,
            MIN_BITRATE_BPS,
            MAX_BITRATE_BPS_PER_CHANNEL * self.channels as i32,
        );
        self.complexity = hold(self.complexity, 0, 10);
        self.packet_loss_perc = hold(self.packet_loss_perc, 0, 100);
        self.lsb_depth = hold(self.lsb_depth, 8, MAX_ENCODING_DEPTH);
        Ok(())
    }

    /// Start a packet: normalize the settings, and reject what cannot be a
    /// packet before anything advances the encoder's state.
    ///
    /// `api_lsb_depth` is the precision the entry point itself implies, which
    /// the caller's own setting can lower but not raise.
    pub fn begin_packet(
        &mut self,
        frame_size: usize,
        input_len: usize,
        output_len: usize,
        api_lsb_depth: i32,
    ) -> (r: Result<PacketDuration, Error>)
        requires
            old(self).wf(),
        ensures
            final(self).wf(),
            ({
                let normal = old(self)@.settings.normalized(old(self)@.channels);
                if old(self)@.settings.bitrate_bps <= 0 {
                    &&& final(self)@ == old(self)@
                    &&& r == Err::<PacketDuration, Error>(
                        Error::InvalidArgument(
                            "bitrate_bps must be a positive rate; this crate has no OPUS_AUTO/OPUS_BITRATE_MAX sentinel",
                        ),
                    )
                } else {
                    &&& final(self)@ == (EncoderModel {
                        settings: normal,
                        memory: Memory {
                            coded_lsb_depth: least(api_lsb_depth as int, normal.lsb_depth as int),
                            ..old(self)@.memory
                        },
                        ..old(self)@
                    })
                    &&& final(self)@.settings.in_range(old(self)@.channels)
                    &&& match r {
                        Ok(d) => {
                            &&& output_len >= 2
                            &&& d.wf()
                            &&& lasts(old(self)@.rate, frame_size as int, d.tenths_ms as int)
                            &&& input_len >= frame_size * old(self)@.channels
                        },
                        Err(e) => if output_len < 2 {
                            e == (Error::BufferTooSmall { needed: 2, provided: output_len })
                        } else if forall|t: int|
                            is_duration(t) ==> !lasts(old(self)@.rate, frame_size as int, t) {
                            e == Error::InvalidArgument("Invalid frame size for sampling rate")
                        } else {
                            &&& input_len < frame_size * old(self)@.channels
                            &&& e == Error::InvalidArgument(
                                "input is shorter than frame_size * channels",
                            )
                        },
                    }
                }
            }),
    {
        self.normalize_settings()?;
        self.coded_lsb_depth = min_i32(api_lsb_depth, self.lsb_depth);
        if output_len < 2 {
            return Err(Error::buffer_too_small(2, output_len));
        }
        let duration = match PacketDuration::classify(self.sampling_rate, frame_size) {
            Some(duration) => duration,
            None => return Err(Error::InvalidArgument("Invalid frame size for sampling rate")),
        };
        proof {
            lemma_whole_samples(self@.rate, duration.tenths_ms as int);
            let some = duration.tenths_ms as int;
            assert(is_duration(some) && lasts(self@.rate, frame_size as int, some));
        }
        // Every layer reads `frame_size * channels` samples unconditionally, so
        // a short input has to be an error.
        if input_len < frame_size * self.channels {
            return Err(Error::InvalidArgument("input is shorter than frame_size * channels"));
        }
        Ok(duration)
    }

    /// Which of the analysis's probabilities of music the next packet is judged
    /// by.
    pub fn music_probability(&self) -> (which: MusicProbability)
        ensures
            which == judged_by(self@.memory.prev_enc_mode),
    {
        match self.prev_enc_mode {
            None => MusicProbability::Plain,
            Some(OpusMode::CeltOnly) => MusicProbability::Most,
            Some(_) => MusicProbability::Least,
        }
    }

    /// Take note of what a packet holds: whether it is silent, and what the
    /// analysis says of it when that ran and came to a verdict. A silent packet
    /// keeps the voice probability of the one before.
    pub fn observe(&mut self, is_silence: bool, content: Option<Content>)
        requires
            old(self).wf(),
            content matches Some(c) ==> 0 <= c.voice_ratio <= 100,
        ensures
            final(self).wf(),
            final(self)@ == told(old(self)@, is_silence, content),
    {
        if !is_silence {
            self.voice_ratio = -1;
        }
        self.detected_bandwidth = 0;
        if let Some(c) = content {
            self.voice_ratio = c.voice_ratio;
            self.detected_bandwidth = if c.bandwidth <= 12 {
                1101
            } else if c.bandwidth <= 14 {
                1102
            } else if c.bandwidth <= 16 {
                1103
            } else if c.bandwidth <= 18 {
                1104
            } else {
                1105
            };
        }
    }
}

/// The equivalent rate from which a bandwidth is worth coding, with hysteresis
/// around the one in use.
fn bandwidth_threshold(number: i32, voice_est: i32, first_frame: bool, last: i32) -> (t: i32)
    requires
        1102 <= number <= 1105,
        0 <= voice_est <= 127,
    ensures
        forall|equiv: int|
            (equiv >= t) == #[trigger] rate_buys(
                number as int,
                equiv,
                voice_est as int,
                first_frame,
                last as int,
            ),
{
    assert(0 <= voice_est * voice_est <= 16_129) by (nonlinear_arith)
        requires
            0 <= voice_est <= 127,
    ;
    let square: i32 = voice_est * voice_est;
    let (base, slack): (i32, i32) = if number <= 1103 {
        (9_000, 700)
    } else if number == 1104 {
        (11_000 + square * 2_500 / 16_384, 1_000)
    } else {
        (12_000 + square * 2_000 / 16_384, 2_000)
    };
    if first_frame {
        base
    } else if last >= number {
        base - slack
    } else {
        base + slack
    }
}

/// The widest bandwidth bought is a bandwidth.
proof fn lemma_widest_bought(
    number: int,
    equiv: int,
    voice_est: int,
    first_frame: bool,
    last: int,
)
    requires
        1101 <= number <= 1105,
    ensures
        1101 <= widest_bought(number, equiv, voice_est, first_frame, last) <= number,
    decreases number,
{
    if number > 1101 && !rate_buys(number, equiv, voice_est, first_frame, last) {
        lemma_widest_bought(number - 1, equiv, voice_est, first_frame, last);
    }
}

impl OpusEncoder {
    /// The equivalent rate of a packet.
    fn equiv(&self, packet_rate: i32) -> (equiv: i32)
        requires
            self.wf(),
            self@.settings.in_range(self@.channels),
            0 <= packet_rate <= 400,
        ensures
            equiv == self@.equivalent_rate(packet_rate as int),
            -35_000 <= equiv <= 600_000,
    {
        compute_equiv_rate(
            self.bitrate_bps,
            self.channels,
            packet_rate,
            !self.rate_control.is_cbr(),
            self.complexity,
            self.packet_loss_perc,
        )
    }

    /// The layer that the rate buys.
    fn first_mode(&self, packet_rate: i32) -> (mode: OpusMode)
        requires
            self.wf(),
            self@.settings.in_range(self@.channels),
            0 <= packet_rate <= 400,
        ensures
            mode == self@.first_mode(packet_rate as int),
    {
        if self.application == Application::RestrictedLowDelay {
            return OpusMode::CeltOnly;
        }
        let equiv: i32 = self.equiv(packet_rate);
        let prev_was_celt: bool = matches!(self.prev_enc_mode, Some(OpusMode::CeltOnly));
        let threshold: i32 = compute_mode_threshold(
            self.application,
            self.channels,
            prev_was_celt,
            self.prev_enc_mode.is_some(),
            self.compute_voice_est(),
        );
        if equiv >= threshold {
            OpusMode::CeltOnly
        } else {
            OpusMode::SilkOnly
        }
    }

    /// The bandwidth that the rate buys: walk down from fullband, and stop at
    /// the first one whose threshold the equivalent rate meets.
    fn bought_bandwidth(&self, packet_rate: i32) -> (bw: i32)
        requires
            self.wf(),
            self@.settings.in_range(self@.channels),
            0 <= packet_rate <= 400,
        ensures
            bw == self@.bought_bandwidth(packet_rate as int),
            bw == 1101 || 1103 <= bw <= 1105,
    {
        let equiv: i32 = self.equiv(packet_rate);
        let voice_est: i32 = self.compute_voice_est();
        let mut bw: i32 = 1105;
        while bw > 1101
            invariant
                1101 <= bw <= 1105,
                0 <= voice_est <= 127,
                equiv == self@.equivalent_rate(packet_rate as int),
                voice_est == self@.voice_estimate(),
                widest_bought(
                    1105,
                    equiv as int,
                    voice_est as int,
                    self@.memory.first_frame,
                    self@.memory.auto_bandwidth,
                ) == widest_bought(
                    bw as int,
                    equiv as int,
                    voice_est as int,
                    self@.memory.first_frame,
                    self@.memory.auto_bandwidth,
                ),
            ensures
                bw == widest_bought(
                    1105,
                    equiv as int,
                    voice_est as int,
                    self@.memory.first_frame,
                    self@.memory.auto_bandwidth,
                ),
            decreases bw,
        {
            let threshold: i32 = bandwidth_threshold(
                bw,
                voice_est,
                self.first_frame,
                self.auto_bandwidth,
            );
            let ghost buys = rate_buys(
                bw as int,
                equiv as int,
                voice_est as int,
                self@.memory.first_frame,
                self@.memory.auto_bandwidth,
            );
            assert((equiv >= threshold) == buys);
            if equiv >= threshold {
                break;
            }
            bw = bw - 1;
        }
        proof {
            lemma_widest_bought(
                1105,
                equiv as int,
                voice_est as int,
                self@.memory.first_frame,
                self@.memory.auto_bandwidth,
            );
        }
        // Mediumband is no longer used by the selector.
        if bw == 1102 {
            1103
        } else {
            bw
        }
    }

    /// The bandwidth that the rate buys, within what the mode, the input and the
    /// content allow.
    fn allowed_bandwidth(&self, packet_rate: i32, mode: OpusMode, bought: i32) -> (bw: i32)
        requires
            self.wf(),
            self@.settings.in_range(self@.channels),
            0 <= packet_rate <= 400,
            mode == self@.first_mode(packet_rate as int),
            bought == self@.bought_bandwidth(packet_rate as int),
            bought == 1101 || 1103 <= bought <= 1105,
        ensures
            bw == self@.allowed_bandwidth(packet_rate as int),
            1101 <= bw <= 1105,
    {
        let speech: bool = mode != OpusMode::CeltOnly;
        let mut bw: i32 = bought;
        // Hybrid at unsafe CBR rates starves SILK: cap at WB below 15 kb/s.
        if speech && self.rate_control.is_cbr() && self.bitrate_bps < 15_000 {
            bw = min_i32(bw, 1103);
        }
        // NB/MB SILK-internal rates (8/12 kHz) aren't wired for >16 kHz API
        // input; clamp to WB.
        if speech && self.sampling_rate > 16_000 {
            bw = max_i32(bw, 1103);
        }
        // Never code above the input's Nyquist.
        bw = min_i32(bw, clamp_bandwidth_to_rate(Bandwidth::Fullband, self.sampling_rate).number());
        // Use the detected bandwidth to reduce the coded bandwidth,
        // conservatively floored by rate. CELT-only keeps full bandwidth by
        // choice.
        if self.detected_bandwidth != 0 && self.force_bandwidth.is_none() && speech {
            let ch: i32 = self.channels as i32;
            let equiv: i32 = self.equiv(packet_rate);
            let floor: i32 = if equiv <= 30_000 * ch {
                1103
            } else if equiv <= 44_000 * ch {
                1104
            } else {
                1105
            };
            bw = min_i32(bw, max_i32(self.detected_bandwidth, floor));
        }
        bw
    }

    /// Decide a packet: the layer that codes it, the bandwidth it is coded at,
    /// whether it carries in-band redundancy, and how it is laid out as frames.
    ///
    /// This runs once for the whole packet, because every frame in a packet
    /// shares one TOC byte and so must agree on mode, bandwidth and duration.
    pub fn decide_packet(&mut self, duration: PacketDuration, frame_size: usize) -> (plan: PacketPlan)
        requires
            old(self).wf(),
            old(self)@.settings.in_range(old(self)@.channels),
            duration.wf(),
            lasts(old(self)@.rate, frame_size as int, duration.tenths_ms as int),
        ensures
            ({
                let packet_rate = packets_per_second(old(self)@.rate, frame_size as int);
                let (mode, bandwidth) = old(self)@.decision(packet_rate);
                &&& plan == (PacketPlan {
                    mode,
                    bandwidth,
                    layout: packet_layout(duration, old(self)@.rate, mode),
                })
                &&& final(self)@ == old(self)@.decided(packet_rate)
            }),
            final(self).wf(),
            plan.layout.wf(old(self)@.rate),
    {
        proof {
            lemma_whole_samples(self@.rate, duration.tenths_ms as int);
            assert(self.sampling_rate / frame_size as i32 <= 400) by {
                lemma_packet_rate(self@.rate, frame_size as int, duration.tenths_ms as int);
            }
        }
        let packet_rate: i32 = self.sampling_rate / frame_size as i32;
        let first: OpusMode = self.first_mode(packet_rate);
        let bought: i32 = self.bought_bandwidth(packet_rate);
        let mut bw: i32 = self.allowed_bandwidth(packet_rate, first, bought);

        // The caller's cap comes before the caller's override, but keeps the WB
        // floor for speech above 16 kHz input.
        let mut max_bw: i32 = self.max_bandwidth.number();
        if first != OpusMode::CeltOnly && self.sampling_rate > 16_000 {
            max_bw = max_i32(max_bw, 1103);
        }
        bw = min_i32(bw, max_bw);
        // The CELT TOC has no mediumband configuration.
        if first == OpusMode::CeltOnly && bw == 1102 {
            bw = 1101;
        }
        let wanted: Bandwidth = match self.force_bandwidth {
            Some(forced) => forced,
            None => bandwidth_from_i32(bw),
        };
        // Never code a band the input cannot contain.
        let chosen: Bandwidth = clamp_bandwidth_to_rate(wanted, self.sampling_rate);
        assert(chosen == self@.chosen_bandwidth(packet_rate as int));

        // Whether this packet carries in-band FEC. This is settled after the
        // bandwidth is chosen, and may narrow it further.
        let equiv: i32 = self.equiv(packet_rate);
        let mut coded: i32 = chosen.number();
        let fec: bool = decide_fec(
            self.use_inband_fec,
            self.packet_loss_perc,
            self.lbrr_coded,
            first,
            &mut coded,
            equiv,
        );
        let mut bandwidth: Bandwidth = bandwidth_from_i32(coded);
        let mut mode: OpusMode = first;
        let above_wideband: bool = matches!(
            bandwidth,
            Bandwidth::Superwideband | Bandwidth::Fullband
        );
        if mode == OpusMode::SilkOnly && above_wideband {
            mode = OpusMode::Hybrid;
        }
        // Stereo hybrid is coded worse than plain CELT above ~28 kb/s.
        if self.channels == 2 && mode == OpusMode::Hybrid && self.bitrate_bps > 28_000 {
            mode = OpusMode::CeltOnly;
            bandwidth = Bandwidth::Fullband;
        }
        mode = coerce_mode_for_packet_rate(mode, packet_rate);
        // CELT has no mediumband configuration: widen to wideband.
        if mode == OpusMode::CeltOnly && bandwidth == Bandwidth::Mediumband {
            bandwidth = Bandwidth::Wideband;
        }
        self.lbrr_coded = fec;
        self.auto_bandwidth = bought;
        self.first_frame = false;
        self.bandwidth = bandwidth;
        let layout = duration.layout(self.sampling_rate, mode);
        PacketPlan { mode, bandwidth, layout }
    }
}

/// Packets come at most 400 times a second, and the two shortest durations are
/// the only ones at 400 and 200.
pub proof fn lemma_packet_rate(rate: int, frame_size: int, tenths_ms: int)
    requires
        opus_rate(rate),
        is_duration(tenths_ms),
        lasts(rate, frame_size, tenths_ms),
    ensures
        0 < frame_size <= 5760,
        8 <= packets_per_second(rate, frame_size) <= 400,
        packets_per_second(rate, frame_size) == 400 <==> tenths_ms == 25,
        packets_per_second(rate, frame_size) == 200 <==> tenths_ms == 50,
{
    lemma_whole_samples(rate, tenths_ms);
    assert(frame_size * 10_000 == rate * tenths_ms);
    if tenths_ms == 25 {
        assert(rate == frame_size * 400);
        assert(frame_size * 400 / frame_size == 400) by (nonlinear_arith)
            requires
                frame_size > 0,
        ;
    } else if tenths_ms == 50 {
        assert(rate == frame_size * 200);
        assert(frame_size * 200 / frame_size == 200) by (nonlinear_arith)
            requires
                frame_size > 0,
        ;
    } else {
        assert(rate <= frame_size * 100);
        assert(rate * 3 >= frame_size * 25);
        assert(rate / frame_size <= 100) by (nonlinear_arith)
            requires
                frame_size > 0,
                rate <= frame_size * 100,
        ;
        assert(rate / frame_size >= 8) by (nonlinear_arith)
            requires
                frame_size > 0,
                rate * 3 >= frame_size * 25,
        ;
    }
}

} // verus!
