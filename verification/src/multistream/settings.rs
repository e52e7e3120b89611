//! The coders of a multistream, and the settings that they share.

use vstd::prelude::*;

use crate::config::{Application, Bandwidth};
use crate::encoder::control::{
    blank_memory, default_settings, EncoderModel, OpusEncoder, Settings,
};
use crate::encoder::duration::opus_rate;
use crate::error::Error;
use crate::math::div_trunc;
use crate::multistream::channels::{gather, gathered};
use crate::multistream::layout::{standard_layout, ChannelLayout, LayoutModel};
use crate::multistream::packet::{StreamWalk, WalkModel};

verus! {

/// Multistream encoder: one Opus encoder per stream (coupled = stereo, the
/// rest mono), coded per the channel layout and concatenated self-delimited.
#[derive(Debug)]
pub struct OpusMSEncoder {
    layout: ChannelLayout,
    encoders: Vec<OpusEncoder>,
    sample_rate: i32,
    bitrate_bps: i32,
}

/// What an [`OpusMSEncoder`] holds.
pub ghost struct MSEncoderModel {
    /// The channel layout.
    pub layout: LayoutModel,
    /// One encoder per stream.
    pub streams: Seq<EncoderModel>,
    /// The rate of the input.
    pub rate: int,
    /// Total target bitrate across all streams.
    pub bitrate_bps: int,
}

/// What some encoders hold.
pub open spec fn models(encoders: Seq<OpusEncoder>) -> Seq<EncoderModel> {
    Seq::new(encoders.len(), |s: int| encoders[s]@)
}

impl View for OpusMSEncoder {
    type V = MSEncoderModel;

    closed spec fn view(&self) -> MSEncoderModel {
        MSEncoderModel {
            layout: self.layout@,
            streams: models(self.encoders@),
            rate: self.sample_rate as int,
            bitrate_bps: self.bitrate_bps as int,
        }
    }
}

/// One channel's share of a total bitrate.
pub open spec fn per_channel(layout: LayoutModel, total: int) -> int {
    div_trunc(total, layout.streams + layout.coupled)
}

/// A stream's share of a total bitrate: an equal one per channel that it
/// carries.
pub open spec fn stream_share(layout: LayoutModel, total: int, s: int) -> int {
    per_channel(layout, total) * layout.stream_channels(s)
}

/// An encoder with another bitrate.
pub open spec fn with_bitrate(e: EncoderModel, bitrate: int) -> EncoderModel {
    EncoderModel { settings: Settings { bitrate_bps: bitrate as i32, ..e.settings }, ..e }
}

/// An encoder with another bandwidth cap.
pub open spec fn with_cap(e: EncoderModel, bw: Bandwidth) -> EncoderModel {
    EncoderModel { settings: Settings { max_bandwidth: bw, ..e.settings }, ..e }
}

/// A new encoder.
pub open spec fn new_encoder(rate: int, channels: int, application: Application) -> EncoderModel {
    EncoderModel {
        application,
        rate,
        channels,
        settings: default_settings(),
        memory: blank_memory(rate),
    }
}

impl MSEncoderModel {
    /// Whether there is an encoder for every stream, with as many channels as
    /// the stream carries.
    pub open spec fn wf(self) -> bool {
        &&& self.layout.wf()
        &&& opus_rate(self.rate)
        &&& self.streams.len() == self.layout.streams
        &&& forall|s: int|
            0 <= s < self.streams.len() ==> (#[trigger] self.streams[s]).wf()
                && self.streams[s].rate == self.rate && self.streams[s].channels
                == self.layout.stream_channels(s)
    }

    /// With a total bitrate split across the streams.
    pub open spec fn with_total(self, total: int) -> MSEncoderModel {
        MSEncoderModel {
            bitrate_bps: total,
            streams: Seq::new(
                self.streams.len(),
                |s: int| with_bitrate(self.streams[s], stream_share(self.layout, total, s)),
            ),
            ..self
        }
    }
}

/// What a new multistream encoder holds.
pub open spec fn new_ms_encoder(rate: int, layout: LayoutModel, application: Application)
    -> MSEncoderModel {
    MSEncoderModel {
        layout,
        streams: Seq::new(
            layout.streams as nat,
            |s: int| new_encoder(rate, layout.stream_channels(s), application),
        ),
        rate,
        bitrate_bps: 64_000 * layout.channels,
    }.with_total(64_000 * layout.channels)
}

impl OpusMSEncoder {
    /// Whether there is an encoder for every stream, with as many channels as
    /// the stream carries.
    pub open spec fn wf(&self) -> bool {
        self@.wf()
    }

    /// Create a surround encoder for `channels` channels.
    ///
    /// `mapping_family` selects the layout: 0 for mono or stereo, 1 for the
    /// Vorbis surround orders (quad, 5.0, 5.1, 6.1, 7.1) up to 8 channels. Any
    /// other value, or more than 8 channels, is [`Error::InvalidArgument`];
    /// [`ChannelLayout::surround`] is where that decision is made.
    pub fn new(
        sample_rate: i32,
        channels: usize,
        mapping_family: u8,
        application: Application,
    ) -> (r: Result<Self, Error>)
        ensures
            match standard_layout(channels as int, mapping_family) {
                Err(e) => r == Err::<Self, Error>(e),
                Ok(layout) => if !opus_rate(sample_rate as int) {
                    r == Err::<Self, Error>(Error::InvalidArgument("Invalid sampling rate"))
                } else {
                    r matches Ok(enc) && enc.wf() && enc@ == new_ms_encoder(
                        sample_rate as int,
                        layout,
                        application,
                    )
                },
            },
    {
        let layout = match ChannelLayout::surround(channels, mapping_family) {
            Ok(layout) => layout,
            Err(e) => return Err(e),
        };
        let ghost model = layout@;
        let mut encoders: Vec<OpusEncoder> = Vec::new();
        let mut s: usize = 0;
        while s < layout.nb_streams
            invariant
                model == layout@,
                model.wf(),
                s <= model.streams,
                encoders@.len() == s,
                s > 0 ==> opus_rate(sample_rate as int),
                forall|k: int|
                    0 <= k < s ==> (#[trigger] encoders@[k])@ == new_encoder(
                        sample_rate as int,
                        model.stream_channels(k),
                        application,
                    ) && encoders@[k].wf(),
                standard_layout(channels as int, mapping_family) == Ok::<LayoutModel, Error>(model),
            decreases model.streams - s,
        {
            let ch: usize = if s < layout.nb_coupled_streams {
                2
            } else {
                1
            };
            match OpusEncoder::new(sample_rate, ch, application) {
                Ok(encoder) => encoders.push(encoder),
                Err(e) => return Err(e),
            }
            s = s + 1;
        }
        let mut enc = OpusMSEncoder {
            layout,
            encoders,
            sample_rate,
            bitrate_bps: 64_000 * channels as i32,
        };
        let total: i32 = enc.bitrate_bps;
        proof {
            let first = MSEncoderModel {
                layout: model,
                streams: Seq::new(
                    model.streams as nat,
                    |k: int|
                        new_encoder(sample_rate as int, model.stream_channels(k), application),
                ),
                rate: sample_rate as int,
                bitrate_bps: 64_000 * model.channels,
            };
            assert forall|k: int| 0 <= k < model.streams implies enc@.streams[k]
                == first.streams[k] by {
                assert(encoders@[k]@ == enc@.streams[k]);
            }
            assert(enc@.streams =~= first.streams);
            assert forall|k: int| 0 <= k < enc@.streams.len() implies (
            #[trigger] enc@.streams[k]).wf() && enc@.streams[k].rate == enc@.rate
                && enc@.streams[k].channels == enc@.layout.stream_channels(k) by {
                assert(encoders@[k].wf());
            }
        }
        enc.set_bitrate(total);
        Ok(enc)
    }

    /// Split the total bitrate across streams (each coupled stream gets 2x a
    /// mono stream's share, matching its 2 channels).
    pub fn set_bitrate(&mut self, total: i32)
        requires
            old(self).wf(),
        ensures
            final(self).wf(),
            final(self)@ == old(self)@.with_total(total as int),
    {
        let ghost before = self@;
        let ghost layout = self@.layout;
        self.bitrate_bps = total;
        let units: usize = self.layout.nb_coupled_streams * 2 + (self.layout.nb_streams
            - self.layout.nb_coupled_streams);
        let per_unit: i32 = total / units as i32;
        assert(units >= 2 ==> i32::MIN <= per_unit * 2 <= i32::MAX) by (nonlinear_arith)
            requires
                per_unit == div_trunc(total as int, units as int),
                1 <= units,
                i32::MIN <= total <= i32::MAX,
        ;
        let mut s: usize = 0;
        assert(models(self.encoders@) =~= before.streams);
        while s < self.encoders.len()
            invariant
                before.wf(),
                layout == before.layout,
                self.layout@ == layout,
                self.sample_rate == before.rate,
                self.bitrate_bps == total,
                units == layout.streams + layout.coupled,
                per_unit == per_channel(layout, total as int),
                units >= 2 ==> i32::MIN <= per_unit * 2 <= i32::MAX,
                s <= self.encoders@.len(),
                self.encoders@.len() == layout.streams,
                forall|k: int|
                    0 <= k < s ==> (#[trigger] self.encoders@[k])@ == with_bitrate(
                        before.streams[k],
                        stream_share(layout, total as int, k),
                    ),
                forall|k: int|
                    s <= k < layout.streams ==> (#[trigger] self.encoders@[k])@
                        == before.streams[k],
            decreases self.encoders@.len() - s,
        {
            let rate: i32 = if s < self.layout.nb_coupled_streams {
                per_unit * 2
            } else {
                per_unit
            };
            let mut encoder: OpusEncoder = self.encoders[s];
            assert(encoder@ == before.streams[s as int]);
            encoder.bitrate_bps = rate;
            assert(encoder@ == with_bitrate(
                before.streams[s as int],
                stream_share(layout, total as int, s as int),
            ));
            self.encoders.set(s, encoder);
            s = s + 1;
        }
        proof {
            let after = before.with_total(total as int);
            assert forall|k: int| 0 <= k < layout.streams implies self@.streams[k]
                == after.streams[k] by {
                assert(self.encoders@[k]@ == self@.streams[k]);
            }
            assert(self@.streams =~= after.streams);
            assert forall|k: int| 0 <= k < after.streams.len() implies (
            #[trigger] after.streams[k]).wf() && after.streams[k].rate == after.rate
                && after.streams[k].channels == after.layout.stream_channels(k) by {
                assert(before.streams[k].wf());
            }
        }
    }

    /// Opus streams this encoder writes into each packet.
    pub fn nb_streams(&self) -> (n: usize)
        ensures
            n == self@.layout.streams,
    {
        self.layout.nb_streams
    }

    /// The channel layout this encoder codes to.
    pub fn layout(&self) -> (layout: &ChannelLayout)
        ensures
            layout@ == self@.layout,
    {
        &self.layout
    }

    /// Total target bitrate across all streams. Set it with
    /// [`set_bitrate`](Self::set_bitrate).
    pub fn bitrate_bps(&self) -> (total: i32)
        ensures
            total == self@.bitrate_bps,
    {
        self.bitrate_bps
    }

    /// The per-stream encoders, so every [`OpusEncoder`] setting is reachable.
    ///
    /// [`bitrate_bps`](OpusEncoder::bitrate_bps) is the exception: it is split
    /// across streams from a single total, so set it with
    /// [`set_bitrate`](Self::set_bitrate) and let the split happen.
    pub fn streams_mut(&mut self) -> (streams: &mut [OpusEncoder])
        ensures
            models(streams@) == old(self)@.streams,
            final(self)@ == (MSEncoderModel {
                streams: models(final(streams)@),
                ..old(self)@
            }),
    {
        self.encoders.as_mut_slice()
    }

    /// The per-stream encoders, for reading.
    pub fn streams(&self) -> (streams: &[OpusEncoder])
        ensures
            models(streams@) == self@.streams,
    {
        self.encoders.as_slice()
    }

    /// What a stream codes of an interleaved frame, or why there is none.
    pub fn stream_input<T: Copy>(&self, input: &[T], frame_size: usize, s: usize, silence: T) -> (r:
        Result<Vec<T>, Error>)
        requires
            self.wf(),
            s < self@.layout.streams,
            frame_size * self@.layout.channels <= usize::MAX,
        ensures
            if input@.len() < frame_size * self@.layout.channels {
                r == Err::<Vec<T>, Error>(
                    Error::InvalidArgument("input is shorter than frame_size * channels"),
                )
            } else {
                r matches Ok(stream) && stream@ == gathered(
                    self@.layout,
                    input@,
                    frame_size as int,
                    s as int,
                    silence,
                )
            },
    {
        if input.len() < frame_size * self.layout.nb_channels {
            return Err(Error::InvalidArgument("input is shorter than frame_size * channels"));
        }
        Ok(gather(&self.layout, input, frame_size, s, silence))
    }

    /// The sample rate this encoder was created with.
    pub fn sample_rate(&self) -> (rate: i32)
        ensures
            rate == self@.rate,
    {
        self.sample_rate
    }

    /// The number of output channels this encoder codes.
    pub fn channels(&self) -> (n: usize)
        ensures
            n == self@.layout.channels,
    {
        self.layout.nb_channels
    }

    /// Discard every stream's coding state, keeping all settings, as
    /// [`OpusEncoder::reset_state`] does for one.
    pub fn reset_state(&mut self) -> (r: Result<(), Error>)
        requires
            old(self).wf(),
        ensures
            r is Ok,
            final(self).wf(),
            final(self)@ == (MSEncoderModel {
                streams: Seq::new(
                    old(self)@.streams.len(),
                    |s: int|
                        EncoderModel {
                            memory: blank_memory(old(self)@.rate),
                            ..old(self)@.streams[s]
                        },
                ),
                ..old(self)@
            }),
    {
        let ghost before = self@;
        let ghost after = MSEncoderModel {
            streams: Seq::new(
                before.streams.len(),
                |s: int| EncoderModel { memory: blank_memory(before.rate), ..before.streams[s] },
            ),
            ..before
        };
        let mut s: usize = 0;
        assert(models(self.encoders@) =~= before.streams);
        while s < self.encoders.len()
            invariant
                before.wf(),
                self.layout@ == before.layout,
                self.sample_rate == before.rate,
                self.bitrate_bps == before.bitrate_bps,
                s <= self.encoders@.len(),
                self.encoders@.len() == before.streams.len(),
                after.streams == Seq::new(
                    before.streams.len(),
                    |s: int|
                        EncoderModel { memory: blank_memory(before.rate), ..before.streams[s] },
                ),
                forall|k: int| 0 <= k < s ==> (#[trigger] self.encoders@[k])@ == after.streams[k],
                forall|k: int|
                    s <= k < before.streams.len() ==> (#[trigger] self.encoders@[k])@
                        == before.streams[k],
            decreases self.encoders@.len() - s,
        {
            let mut encoder: OpusEncoder = self.encoders[s];
            assert(encoder@ == before.streams[s as int]);
            encoder.reset_state()?;
            self.encoders.set(s, encoder);
            s = s + 1;
        }
        proof {
            assert forall|k: int| 0 <= k < after.streams.len() implies self@.streams[k]
                == after.streams[k] by {
                assert(self.encoders@[k]@ == self@.streams[k]);
            }
            assert(self@.streams =~= after.streams);
            assert forall|k: int| 0 <= k < after.streams.len() implies (
            #[trigger] after.streams[k]).wf() && after.streams[k].rate == after.rate
                && after.streams[k].channels == after.layout.stream_channels(k) by {
                assert(before.streams[k].wf());
            }
        }
        Ok(())
    }

    /// Cap the audio bandwidth of every stream at once, as
    /// [`OpusEncoder::max_bandwidth`] does for one.
    pub fn set_max_bandwidth(&mut self, bw: Bandwidth)
        requires
            old(self).wf(),
        ensures
            final(self).wf(),
            final(self)@ == (MSEncoderModel {
                streams: Seq::new(
                    old(self)@.streams.len(),
                    |s: int| with_cap(old(self)@.streams[s], bw),
                ),
                ..old(self)@
            }),
    {
        let ghost before = self@;
        let ghost capped = Seq::new(
            before.streams.len(),
            |s: int| with_cap(before.streams[s], bw),
        );
        let mut s: usize = 0;
        assert(models(self.encoders@) =~= before.streams);
        while s < self.encoders.len()
            invariant
                before.wf(),
                self.layout@ == before.layout,
                self.sample_rate == before.rate,
                self.bitrate_bps == before.bitrate_bps,
                s <= self.encoders@.len(),
                self.encoders@.len() == before.streams.len(),
                forall|k: int|
                    0 <= k < s ==> (#[trigger] self.encoders@[k])@ == with_cap(
                        before.streams[k],
                        bw,
                    ),
                forall|k: int|
                    s <= k < before.streams.len() ==> (#[trigger] self.encoders@[k])@
                        == before.streams[k],
            decreases self.encoders@.len() - s,
        {
            let mut encoder: OpusEncoder = self.encoders[s];
            assert(encoder@ == before.streams[s as int]);
            encoder.max_bandwidth = bw;
            assert(encoder@ == with_cap(before.streams[s as int], bw));
            self.encoders.set(s, encoder);
            s = s + 1;
        }
        proof {
            assert forall|k: int| 0 <= k < capped.len() implies self@.streams[k] == capped[k] by {
                assert(self.encoders@[k]@ == self@.streams[k]);
            }
            assert(self@.streams =~= capped);
            assert forall|k: int| 0 <= k < capped.len() implies (
            #[trigger] self@.streams[k]).wf() && self@.streams[k].rate == before.rate
                && self@.streams[k].channels == before.layout.stream_channels(k) by {
                assert(before.streams[k].wf());
            }
        }
    }
}

/// Multistream decoder: the streams that a packet is made of, and where their
/// channels go.
#[derive(Debug)]
pub struct OpusMSDecoder {
    layout: ChannelLayout,
    sample_rate: i32,
}

/// What an [`OpusMSDecoder`] holds.
pub ghost struct MSDecoderModel {
    /// The channel layout.
    pub layout: LayoutModel,
    /// The rate of the output.
    pub rate: int,
}

impl View for OpusMSDecoder {
    type V = MSDecoderModel;

    closed spec fn view(&self) -> MSDecoderModel {
        MSDecoderModel { layout: self.layout@, rate: self.sample_rate as int }
    }
}

impl OpusMSDecoder {
    /// Whether the layout and the rate are ones that can be decoded.
    pub open spec fn wf(&self) -> bool {
        self@.layout.wf() && opus_rate(self@.rate)
    }

    /// Create a surround decoder for `channels` channels.
    ///
    /// `mapping_family` selects the layout, as in [`OpusMSEncoder::new`].
    pub fn new(sample_rate: i32, channels: usize, mapping_family: u8) -> (r: Result<Self, Error>)
        ensures
            match standard_layout(channels as int, mapping_family) {
                Err(e) => r == Err::<Self, Error>(e),
                Ok(layout) => if !opus_rate(sample_rate as int) {
                    r == Err::<Self, Error>(Error::InvalidArgument("Invalid sampling rate"))
                } else {
                    r matches Ok(dec) && dec.wf() && dec@ == (MSDecoderModel {
                        layout,
                        rate: sample_rate as int,
                    })
                },
            },
    {
        let layout = match ChannelLayout::surround(channels, mapping_family) {
            Ok(layout) => layout,
            Err(e) => return Err(e),
        };
        if sample_rate != 8000 && sample_rate != 12000 && sample_rate != 16000 && sample_rate
            != 24000 && sample_rate != 48000 {
            return Err(Error::InvalidArgument("Invalid sampling rate"));
        }
        Ok(OpusMSDecoder { layout, sample_rate })
    }

    /// The channel layout this decoder produces.
    pub fn layout(&self) -> (layout: &ChannelLayout)
        ensures
            layout@ == self@.layout,
    {
        &self.layout
    }

    /// Opus streams this decoder expects in each packet.
    pub fn nb_streams(&self) -> (n: usize)
        ensures
            n == self@.layout.streams,
    {
        self.layout.nb_streams
    }

    /// The number of output channels this decoder produces.
    pub fn channels(&self) -> (n: usize)
        ensures
            n == self@.layout.channels,
    {
        self.layout.nb_channels
    }

    /// The sample rate this decoder was created with, in Hz.
    pub fn sample_rate(&self) -> (rate: i32)
        ensures
            rate == self@.rate,
    {
        self.sample_rate
    }

    /// The channels that a stream's own decoder has.
    pub fn stream_channels(&self, s: usize) -> (n: usize)
        ensures
            n == self@.layout.stream_channels(s as int),
    {
        if s < self.layout.nb_coupled_streams {
            2
        } else {
            1
        }
    }

    /// Start on a packet: every stream writes `frame_size` samples to every
    /// channel, so a short output is an error. Its sizes count samples per
    /// channel, as those of every decoding call do.
    pub fn begin<'a>(&self, packet: &'a [u8], frame_size: usize, output_len: usize) -> (r: Result<
        StreamWalk<'a>,
        Error,
    >)
        requires
            self.wf(),
            frame_size * self@.layout.channels <= usize::MAX,
        ensures
            if output_len < frame_size * self@.layout.channels {
                r matches Err(Error::BufferTooSmall { needed, provided }) && needed == frame_size
                    && provided == output_len as int / self@.layout.channels
            } else {
                r matches Ok(walk) && walk.wf() && walk@ == (WalkModel {
                    rest: packet@,
                    left: self@.layout.streams,
                })
            },
    {
        let channels: usize = self.layout.nb_channels;
        if output_len < frame_size * channels {
            return Err(Error::buffer_too_small(frame_size, output_len / channels));
        }
        Ok(StreamWalk::new(packet, self.layout.nb_streams))
    }
}

/// The streams' shares of the first `n` streams.
pub open spec fn shares(layout: LayoutModel, total: int, n: int) -> int
    decreases n,
{
    if n <= 0 {
        0
    } else {
        shares(layout, total, n - 1) + stream_share(layout, total, n - 1)
    }
}

/// The shares that the streams get, as so many channels' shares.
proof fn lemma_shares(layout: LayoutModel, total: int, n: int)
    requires
        layout.wf(),
        0 <= n <= layout.streams,
    ensures
        shares(layout, total, n) == per_channel(layout, total) * (n + (if n < layout.coupled {
            n
        } else {
            layout.coupled
        })),
    decreases n,
{
    let each = per_channel(layout, total);
    if n > 0 {
        lemma_shares(layout, total, n - 1);
        let m = n - 1 + (if n - 1 < layout.coupled {
            n - 1
        } else {
            layout.coupled
        });
        let c = layout.stream_channels(n - 1);
        assert(each * m + each * c == each * (m + c)) by (nonlinear_arith);
    } else {
        assert(each * 0 == 0);
    }
}

/// The streams never get more than the total between them, and all but less
/// than one bit per second for each channel.
pub proof fn law_the_split_keeps_the_total(layout: LayoutModel, total: int)
    requires
        layout.wf(),
        0 <= total,
    ensures
        shares(layout, total, layout.streams) <= total,
        total < shares(layout, total, layout.streams) + layout.streams + layout.coupled,
{
    lemma_shares(layout, total, layout.streams);
    let units = layout.streams + layout.coupled;
    let each = total / units;
    assert(each * units <= total < each * units + units) by (nonlinear_arith)
        requires
            each == total / units,
            units > 0,
            total >= 0,
    ;
}

} // verus!
