//! How a set of Opus streams becomes a set of output channels.

use vstd::prelude::*;

use crate::error::Error;

verus! {

/// Mapping value of a channel that is left silent.
pub const SILENT: u8 = 255;

/// How a set of Opus streams becomes a set of output channels.
///
/// A multistream packet is several ordinary Opus streams concatenated. Some are
/// coded as coupled stereo pairs and carry two channels each, the rest carry
/// one, and the mapping says which of the resulting channels goes where in the
/// output. Coupled streams always come first, so the channels a decoder
/// produces are the coupled pairs in order, then the mono streams in order.
///
/// [`surround`](Self::surround) builds the standard layout for a channel count
/// and mapping family. The fields are public so a caller can read what a given
/// channel count works out to, which is what the header of such a stream has to
/// declare.
#[derive(Debug, Clone)]
pub struct ChannelLayout {
    /// The mapping family this layout came from: 0 for mono/stereo, 1 for the
    /// Vorbis surround orders.
    pub mapping_family: u8,
    /// Output channels this layout produces, which is what a caller interleaves.
    pub nb_channels: usize,
    /// Opus streams in the packet, coupled and uncoupled together.
    pub nb_streams: usize,
    /// How many of those streams are coupled stereo pairs. They are the first
    /// `nb_coupled_streams` of them, and each carries two channels, so the
    /// streams carry `nb_coupled_streams + nb_streams` channels in total.
    pub nb_coupled_streams: usize,
    /// For each output channel, which of the streams' channels feeds it.
    ///
    /// Indices `0..2 * nb_coupled_streams` are the coupled pairs, left then
    /// right; the rest are the mono streams in order. The value 255 marks a
    /// channel that is left silent. Length is `nb_channels`.
    pub mapping: Vec<u8>,
}

/// What a [`ChannelLayout`] says.
#[verifier::ext_equal]
pub struct LayoutModel {
    /// The mapping family.
    pub family: u8,
    /// Output channels.
    pub channels: int,
    /// Opus streams in the packet.
    pub streams: int,
    /// How many of them are coupled stereo pairs.
    pub coupled: int,
    /// For each output channel, which of the streams' channels feeds it.
    pub mapping: Seq<u8>,
}

impl View for ChannelLayout {
    type V = LayoutModel;

    open spec fn view(&self) -> LayoutModel {
        LayoutModel {
            family: self.mapping_family,
            channels: self.nb_channels as int,
            streams: self.nb_streams as int,
            coupled: self.nb_coupled_streams as int,
            mapping: self.mapping@,
        }
    }
}

/// The layouts of the Vorbis surround orders: the streams, those of them that
/// are coupled, and the mapping.
pub open spec fn vorbis_mapping(channels: int) -> (int, int, Seq<u8>) {
    if channels == 1 {
        (1, 0, seq![0u8])
    } else if channels == 2 {
        (1, 1, seq![0u8, 1])
    } else if channels == 3 {
        (2, 1, seq![0u8, 2, 1])
    } else if channels == 4 {
        (2, 2, seq![0u8, 1, 2, 3])
    } else if channels == 5 {
        (3, 2, seq![0u8, 4, 1, 2, 3])
    } else if channels == 6 {
        (4, 2, seq![0u8, 4, 1, 2, 3, 5])
    } else if channels == 7 {
        (4, 3, seq![0u8, 4, 1, 2, 3, 5, 6])
    } else {
        (5, 3, seq![0u8, 6, 1, 2, 3, 4, 5, 7])
    }
}

/// The standard layout of a channel count and mapping family, or why there is
/// none. Family 0 has the same mono and stereo layouts as family 1.
pub open spec fn standard_layout(channels: int, family: u8) -> Result<LayoutModel, Error> {
    if family > 1 {
        Err(Error::InvalidArgument("unsupported mapping family"))
    } else if family == 0 && !(1 <= channels <= 2) {
        Err(Error::InvalidArgument("family 0 supports only 1-2 channels"))
    } else if !(1 <= channels <= 8) {
        Err(Error::InvalidArgument("family 1 supports 1-8 channels"))
    } else {
        let (streams, coupled, mapping) = vorbis_mapping(channels);
        Ok(LayoutModel { family, channels, streams, coupled, mapping })
    }
}

impl LayoutModel {
    /// Whether the numbers fit together.
    pub open spec fn wf(self) -> bool {
        &&& self.mapping.len() == self.channels
        &&& 1 <= self.streams
        &&& 0 <= self.coupled <= self.streams
        &&& self.streams + self.coupled <= 255
        &&& 1 <= self.channels <= 255
    }

    /// The stream that a mapping value belongs to, and which of its channels it
    /// is.
    pub open spec fn origin(self, value: int) -> (int, int) {
        if value < 2 * self.coupled {
            (value / 2, value % 2)
        } else {
            (value - self.coupled, 0)
        }
    }

    /// How many channels a stream carries.
    pub open spec fn stream_channels(self, s: int) -> int {
        if s < self.coupled {
            2
        } else {
            1
        }
    }

    /// The mapping value of a stream's channel.
    pub open spec fn target(self, s: int, k: int) -> int {
        if s < self.coupled {
            2 * s + k
        } else {
            s + self.coupled
        }
    }

    /// The first output channel that a mapping value stands at.
    pub open spec fn first_at(self, value: int, from: int) -> Option<int>
        decreases self.mapping.len() - from,
    {
        if from < 0 || from >= self.mapping.len() {
            None
        } else if self.mapping[from] == value {
            Some(from)
        } else {
            self.first_at(value, from + 1)
        }
    }

    /// The output channels that a mapping value stands at, among the first `n`.
    pub open spec fn all_at(self, value: int, n: int) -> Seq<int>
        decreases n,
    {
        if n <= 0 {
            Seq::empty()
        } else if self.mapping[n - 1] == value {
            self.all_at(value, n - 1).push(n - 1)
        } else {
            self.all_at(value, n - 1)
        }
    }
}

/// Indices as numbers.
pub open spec fn indices(v: Seq<usize>) -> Seq<int> {
    Seq::new(v.len(), |i: int| v[i] as int)
}

impl ChannelLayout {
    /// Whether the numbers fit together.
    pub open spec fn wf(&self) -> bool {
        self@.wf()
    }

    /// Standard layout for a channel count + mapping family (0 = mono/stereo,
    /// 1 = Vorbis surround for 1..=8 channels).
    pub fn surround(channels: usize, mapping_family: u8) -> (r: Result<Self, Error>)
        ensures
            match (r, standard_layout(channels as int, mapping_family)) {
                (Ok(layout), Ok(model)) => layout@ == model && layout.wf(),
                (Err(e), Err(expected)) => e == expected,
                _ => false,
            },
    {
        if mapping_family > 1 {
            return Err(Error::InvalidArgument("unsupported mapping family"));
        }
        if mapping_family == 0 && channels != 1 && channels != 2 {
            return Err(Error::InvalidArgument("family 0 supports only 1-2 channels"));
        }
        if channels < 1 || channels > 8 {
            return Err(Error::InvalidArgument("family 1 supports 1-8 channels"));
        }
        let (nb_streams, nb_coupled_streams, mapping): (usize, usize, Vec<u8>) = match channels {
            1 => (1, 0, vec![0]),
            2 => (1, 1, vec![0, 1]),
            3 => (2, 1, vec![0, 2, 1]),
            4 => (2, 2, vec![0, 1, 2, 3]),
            5 => (3, 2, vec![0, 4, 1, 2, 3]),
            6 => (4, 2, vec![0, 4, 1, 2, 3, 5]),
            7 => (4, 3, vec![0, 4, 1, 2, 3, 5, 6]),
            _ => (5, 3, vec![0, 6, 1, 2, 3, 4, 5, 7]),
        };
        assert(mapping@ =~= vorbis_mapping(channels as int).2);
        Ok(
            ChannelLayout {
                mapping_family,
                nb_channels: channels,
                nb_streams,
                nb_coupled_streams,
                mapping,
            },
        )
    }

    /// Output-channel indices carrying `target` in the channel mapping.
    pub fn channels_for(&self, target: usize) -> (found: Vec<usize>)
        ensures
            indices(found@) == self@.all_at(target as int, self@.mapping.len() as int),
            forall|i: int| 0 <= i < found@.len() ==> (#[trigger] found@[i]) < self@.mapping.len(),
    {
        let mut found: Vec<usize> = Vec::new();
        let mut i: usize = 0;
        assert(indices(found@) =~= self@.all_at(target as int, 0));
        while i < self.mapping.len()
            invariant
                i <= self.mapping@.len(),
                indices(found@) == self@.all_at(target as int, i as int),
                forall|k: int| 0 <= k < found@.len() ==> (#[trigger] found@[k])
                    < self.mapping@.len(),
            decreases self.mapping@.len() - i,
        {
            if self.mapping[i] as usize == target {
                let ghost before = found@;
                found.push(i);
                assert(indices(found@) =~= indices(before).push(i as int));
            }
            i = i + 1;
        }
        found
    }

    /// The first output channel carrying `target` in the channel mapping.
    pub fn first_channel_for(&self, target: usize) -> (found: Option<usize>)
        ensures
            match (found, self@.first_at(target as int, 0)) {
                (Some(c), Some(model)) => c == model && c < self@.mapping.len(),
                (None, None) => true,
                _ => false,
            },
    {
        let mut i: usize = 0;
        while i < self.mapping.len()
            invariant
                i <= self.mapping@.len(),
                self@.first_at(target as int, 0) == self@.first_at(target as int, i as int),
            decreases self.mapping@.len() - i,
        {
            if self.mapping[i] as usize == target {
                return Some(i);
            }
            i = i + 1;
        }
        None
    }

    /// Mapping value for a coupled stream's left channel.
    pub fn left_target(stream_id: usize) -> (value: usize)
        requires
            stream_id * 2 <= usize::MAX,
        ensures
            value == stream_id * 2,
    {
        stream_id * 2
    }

    /// Mapping value for a coupled stream's right channel.
    pub fn right_target(stream_id: usize) -> (value: usize)
        requires
            stream_id * 2 < usize::MAX,
        ensures
            value == stream_id * 2 + 1,
    {
        stream_id * 2 + 1
    }

    /// Mapping value for an uncoupled stream's single channel.
    pub fn mono_target(&self, stream_id: usize) -> (value: usize)
        requires
            stream_id + self.nb_coupled_streams <= usize::MAX,
        ensures
            value == stream_id + self@.coupled,
    {
        stream_id + self.nb_coupled_streams
    }
}

/// Every channel of every stream is some output channel's.
pub open spec fn reaches_every_channel(m: LayoutModel) -> bool {
    forall|v: int| 0 <= v < m.streams + m.coupled ==> #[trigger] m.first_at(v, 0) is Some
}

/// No two output channels share a stream's channel, and none is silent.
pub open spec fn feeds_every_output(m: LayoutModel) -> bool {
    &&& forall|c: int| 0 <= c < m.mapping.len() ==> (#[trigger] m.mapping[c]) < m.streams
        + m.coupled
    &&& forall|c: int, d: int|
        0 <= c < d < m.mapping.len() ==> #[trigger] m.mapping[c] != #[trigger] m.mapping[d]
}

/// In a standard layout every channel of every stream is the source of exactly
/// one output channel, and every output channel has one: the streams carry the
/// output's channels in another order.
pub proof fn law_standard_layout_is_a_reordering(channels: int, family: u8)
    requires
        standard_layout(channels, family) is Ok,
    ensures
        ({
            let m = standard_layout(channels, family)->Ok_0;
            &&& m.wf()
            &&& m.streams + m.coupled == channels
            &&& reaches_every_channel(m)
            &&& feeds_every_output(m)
        }),
{
    let m = standard_layout(channels, family)->Ok_0;
    reveal_with_fuel(LayoutModel::first_at, 9);
    assert forall|v: int| 0 <= v < m.streams + m.coupled implies #[trigger] m.first_at(
        v,
        0,
    ) is Some by {
        assert(v == 0 || v == 1 || v == 2 || v == 3 || v == 4 || v == 5 || v == 6 || v == 7);
    }
}

/// The loudspeakers of the standard layouts.
#[derive(Debug, Clone, Copy, PartialEq, Eq, Structural)]
pub enum Speaker {
    /// The only one there is.
    Mono,
    /// Ahead, to the left.
    FrontLeft,
    /// Ahead, to the right.
    FrontRight,
    /// Straight ahead.
    Center,
    /// To the left.
    SideLeft,
    /// To the right.
    SideRight,
    /// Behind, to the left.
    RearLeft,
    /// Behind, to the right.
    RearRight,
    /// Straight behind.
    RearCenter,
    /// Anywhere: low frequencies only.
    LowFrequency,
}

/// The loudspeakers that a number of output channels drive, in order.
pub open spec fn speakers(channels: int) -> Seq<Speaker> {
    let front = seq![Speaker::FrontLeft, Speaker::Center, Speaker::FrontRight];
    let sides = seq![Speaker::SideLeft, Speaker::SideRight];
    let rear = seq![Speaker::RearLeft, Speaker::RearRight];
    if channels == 1 {
        seq![Speaker::Mono]
    } else if channels == 2 {
        seq![Speaker::FrontLeft, Speaker::FrontRight]
    } else if channels == 3 {
        front
    } else if channels == 4 {
        seq![Speaker::FrontLeft, Speaker::FrontRight] + rear
    } else if channels == 5 {
        front + rear
    } else if channels == 6 {
        front + rear + seq![Speaker::LowFrequency]
    } else if channels == 7 {
        front + sides + seq![Speaker::RearCenter, Speaker::LowFrequency]
    } else {
        front + sides + rear + seq![Speaker::LowFrequency]
    }
}

/// Every loudspeaker is fed by the stream that carries it. The pairs come first,
/// from the front to the back, each as the left and the right of one coupled
/// stream; then come the single ones, the center ahead of the one behind it, and
/// low frequencies last, which are always a stream of their own. Of seven
/// channels the center and the one behind it are a pair themselves.
pub proof fn law_speakers_are_fed_in_order(channels: int, family: u8, c: int)
    requires
        standard_layout(channels, family) is Ok,
        0 <= c < channels,
    ensures
        1 <= channels <= 8,
        speakers(channels).len() == channels,
        ({
            let m = standard_layout(channels, family)->Ok_0;
            let fed = m.mapping[c];
            // How many channels come as left and right.
            let sided = if channels == 8 {
                6int
            } else if channels >= 4 {
                4
            } else if channels >= 2 {
                2
            } else {
                0
            };
            &&& m.channels == channels
            &&& m.streams + m.coupled == channels
            &&& 2 * m.coupled == sided + (if channels == 7 {
                2int
            } else {
                0
            })
            &&& match speakers(channels)[c] {
                Speaker::Mono => fed == 0,
                Speaker::FrontLeft => fed == 0,
                Speaker::FrontRight => fed == 1,
                Speaker::SideLeft => fed == 2,
                Speaker::SideRight => fed == 3,
                Speaker::RearLeft => fed == sided - 2,
                Speaker::RearRight => fed == sided - 1,
                Speaker::Center => fed == sided,
                Speaker::RearCenter => fed == sided + 1,
                Speaker::LowFrequency => fed == channels - 1,
            }
        }),
{
    let front = seq![Speaker::FrontLeft, Speaker::Center, Speaker::FrontRight];
    assert(c == 0 || c == 1 || c == 2 || c == 3 || c == 4 || c == 5 || c == 6 || c == 7);
}

/// A standard layout is there for mono and stereo in both families, for up to
/// eight channels in the second, and for nothing else.
pub proof fn law_standard_layouts_there_are(channels: int, family: u8)
    ensures
        standard_layout(channels, family) is Ok <==> 1 <= channels <= 2 && family == 0 || 1
            <= channels <= 8 && family == 1,
        standard_layout(channels, family) matches Ok(m) ==> m.family == family,
{
}

/// A mapping value's stream and channel have that mapping value, and the other
/// way around.
pub proof fn law_targets_name_their_origin(m: LayoutModel, value: int, s: int, k: int)
    requires
        m.wf(),
        0 <= value < m.streams + m.coupled,
        0 <= s < m.streams,
        0 <= k < m.stream_channels(s),
    ensures
        m.target(m.origin(value).0, m.origin(value).1) == value,
        m.origin(m.target(s, k)) == (s, k),
        0 <= m.origin(value).0 < m.streams,
        0 <= m.origin(value).1 < m.stream_channels(m.origin(value).0),
        0 <= m.target(s, k) < m.streams + m.coupled,
{
}

} // verus!
