//! Which sample goes where, and which stream gets how much of the rate.

use vstd::prelude::*;

use crate::config::Application;
use crate::error::Error;
use crate::framing::parse_packet;
use crate::multistream::channels::{gathered, remuxed, silenced};
use crate::multistream::head::head_of_layout;
use crate::multistream::layout::LayoutModel;
use crate::multistream::packet::{framed, next_stream, WalkModel};
use crate::multistream::settings::{new_ms_encoder, per_channel, stream_share, MSEncoderModel};

verus! {

/// The first channel with a value is the first.
proof fn lemma_first_at(m: LayoutModel, value: int, from: int, c: int)
    requires
        0 <= from <= c < m.mapping.len(),
        m.mapping[c] == value,
        forall|d: int| from <= d < c ==> #[trigger] m.mapping[d] != value,
    ensures
        m.first_at(value, from) == Some(c),
    decreases c - from,
{
    if from < c {
        assert(m.mapping[from] != value);
        lemma_first_at(m, value, from + 1, c);
    }
}

/// Each stream is made of the channels that are mapped to it: the left and the right
/// of a coupled stream from the channels of its even value and the odd one after it,
/// in turn, and any other from the channel of the value behind all those.
pub proof fn law_streams_take_their_channels<T>(
    m: LayoutModel,
    input: Seq<T>,
    frame_size: int,
    s: int,
    silence: T,
    c: int,
    i: int,
)
    requires
        m.wf(),
        0 <= s < m.streams,
        0 <= c < m.channels,
        0 <= i < frame_size,
        forall|d: int| 0 <= d < c ==> #[trigger] m.mapping[d] != m.mapping[c],
    ensures
        ({
            let stream = gathered(m, input, frame_size, s, silence);
            &&& s < m.coupled ==> stream.len() == 2 * frame_size
            &&& s >= m.coupled ==> stream.len() == frame_size
            &&& s < m.coupled && m.mapping[c] == 2 * s ==> stream[2 * i] == input[m.channels * i
                + c]
            &&& s < m.coupled && m.mapping[c] == 2 * s + 1 ==> stream[2 * i + 1]
                == input[m.channels * i + c]
            &&& s >= m.coupled && m.mapping[c] == m.coupled + s ==> stream[i] == input[m.channels
                * i + c]
        }),
{
    lemma_first_at(m, m.mapping[c] as int, 0, c);
    assert(i * m.channels == m.channels * i) by (nonlinear_arith);
    assert(frame_size * 2 == 2 * frame_size && frame_size * 1 == frame_size);
    assert((2 * i) / 2 == i && (2 * i) % 2 == 0 && (2 * i + 1) / 2 == i && (2 * i + 1) % 2 == 1);
    assert(i / 1 == i && i % 1 == 0);
}

/// A decoded stream goes to the channels that are mapped to it and to no other, as it
/// was taken from them; and channels that nothing is mapped to, which have 255, fall
/// silent.
pub proof fn law_channels_get_their_streams<T>(
    m: LayoutModel,
    out: Seq<T>,
    s: int,
    buf: Seq<T>,
    n: int,
    silence: T,
    i: int,
    c: int,
)
    requires
        m.wf(),
        0 <= s < m.streams,
        0 <= i < n,
        0 <= c < m.channels,
        out.len() == n * m.channels,
    ensures
        ({
            let p = m.channels * i + c;
            let after = remuxed(m, out, s, buf, n);
            &&& 0 <= p < out.len()
            &&& s < m.coupled && m.mapping[c] == 2 * s ==> after[p] == buf[2 * i]
            &&& s < m.coupled && m.mapping[c] == 2 * s + 1 ==> after[p] == buf[2 * i + 1]
            &&& s >= m.coupled && m.mapping[c] == m.coupled + s ==> after[p] == buf[i]
            &&& s < m.coupled && m.mapping[c] != 2 * s && m.mapping[c] != 2 * s + 1 ==> after[p]
                == out[p]
            &&& s >= m.coupled && m.mapping[c] != m.coupled + s ==> after[p] == out[p]
            &&& m.mapping[c] == 255 ==> silenced(m, out, n, silence)[p] == silence
            &&& m.mapping[c] != 255 ==> silenced(m, out, n, silence)[p] == out[p]
        }),
{
    let p = m.channels * i + c;
    assert(0 <= p < n * m.channels) by (nonlinear_arith)
        requires
            p == m.channels * i + c,
            0 <= c < m.channels,
            0 <= i < n,
    ;
    assert(p == i * m.channels + c) by (nonlinear_arith)
        requires
            p == m.channels * i + c,
    ;
    vstd::arithmetic::div_mod::lemma_fundamental_div_mod_converse(p, m.channels, i, c);
    assert(i * 2 + 0 == 2 * i && i * 1 + 0 == i && i * 2 + 1 == 2 * i + 1);
}

/// A coupled stream gets twice the rate of another, and together they are the whole,
/// but for what does not divide.
pub proof fn law_coupled_streams_count_twice(m: LayoutModel, total: int, s: int, t: int)
    requires
        m.wf(),
        0 <= total,
        0 <= s < m.coupled <= t < m.streams,
    ensures
        stream_share(m, total, s) == 2 * stream_share(m, total, t),
        (m.streams + m.coupled) * stream_share(m, total, t) <= total,
        total < (m.streams + m.coupled) * (stream_share(m, total, t) + 1),
{
    let n = m.streams + m.coupled;
    let q = per_channel(m, total);
    assert(n * q <= total < n * (q + 1)) by (nonlinear_arith)
        requires
            q == total / n,
            n >= 1,
    ;
    assert(q * 2 == 2 * q && q * 1 == q);
}

/// A new encoder has 64 kb/s for each of its channels, in all, and is otherwise as any
/// other new encoder is, for each of its streams.
pub proof fn law_new_surround_encoders(
    rate: int,
    layout: LayoutModel,
    application: Application,
    s: int,
)
    requires
        layout.wf(),
        0 <= s < layout.streams,
    ensures
        ({
            let m = new_ms_encoder(rate, layout, application);
            let e = m.streams[s];
            &&& m.bitrate_bps == 64_000 * layout.channels
            &&& m.streams.len() == layout.streams
            &&& layout.streams + layout.coupled == layout.channels ==> e.settings.bitrate_bps
                == 64_000 * layout.stream_channels(s)
            &&& e.channels == layout.stream_channels(s)
            &&& e.rate == rate && e.application == application
            &&& e.settings.complexity == 9
            &&& e.settings.rate_control is ConstrainedVbr
            &&& e.settings.max_bandwidth is Fullband
        }),
{
    if layout.streams + layout.coupled == layout.channels {
        vstd::arithmetic::div_mod::lemma_div_multiples_vanish(64_000, layout.channels);
        assert(layout.channels * 64_000 == 64_000 * layout.channels);
    }
}

/// A new rate is shared out at once, and nothing else is.
pub proof fn law_rates_are_shared_at_once(m: MSEncoderModel, total: int, s: int)
    requires
        m.wf(),
        0 <= total <= 0x7fff_ffff,
        0 <= s < m.streams.len(),
    ensures
        ({
            let after = m.with_total(total);
            &&& after.bitrate_bps == total
            &&& after.layout == m.layout && after.rate == m.rate
            &&& after.streams.len() == m.streams.len()
            &&& after.streams[s].memory == m.streams[s].memory
            &&& after.streams[s].settings.bitrate_bps == per_channel(m.layout, total)
                * m.layout.stream_channels(s)
            &&& after.streams[s].settings.complexity == m.streams[s].settings.complexity
            &&& after.streams[s].settings.rate_control == m.streams[s].settings.rate_control
        }),
{
    let n = m.layout.streams + m.layout.coupled;
    let q = per_channel(m.layout, total);
    let k = m.layout.stream_channels(s);
    assert(0 <= q * k <= total) by (nonlinear_arith)
        requires
            q == total / n,
            1 <= k <= n,
            k <= 2,
            0 <= total,
    ;
}

/// A header says how its file is laid out: channels, streams and mapping, with 312
/// samples to skip, the rate of the input and no gain.
pub proof fn law_headers_say_the_layout(m: LayoutModel, rate: u32)
    requires
        m.wf(),
    ensures
        ({
            let h = head_of_layout(m, rate);
            &&& h.channel_count == m.channels
            &&& h.stream_count == m.streams
            &&& h.coupled_count == m.coupled
            &&& h.channel_mapping == m.mapping
            &&& h.mapping_family == m.family
            &&& h.pre_skip == 312
            &&& h.input_sample_rate == rate
            &&& h.output_gain_q8 == 0
        }),
{
}

/// The last stream's packet goes in as it is, and comes out so; each of the others
/// says where it ends.
pub proof fn law_last_streams_are_plain(packet: Seq<u8>, w: WalkModel)
    ensures
        framed(packet, true) == Ok::<Seq<u8>, Error>(packet),
        framed(packet, false) is Ok <==> parse_packet(packet, false) is Some,
        w.left == 1 ==> next_stream(w) == (Ok::<Seq<u8>, Error>(w.rest), w),
        w.left > 1 ==> (next_stream(w).0 is Ok <==> parse_packet(w.rest, true) is Some),
        w.left > 1 && next_stream(w).0 is Ok ==> next_stream(w).1.left == w.left - 1
            && next_stream(w).1.rest == w.rest.skip((parse_packet(w.rest, true)->0).consumed),
        next_stream(w).0 is Err ==> next_stream(w).1 == w,
{
}

/// The channels of a value are all that have it, and each once, in order.
pub proof fn law_channels_of_a_value(m: LayoutModel, value: int, n: int, c: int, j: int)
    requires
        0 <= n <= m.mapping.len(),
        0 <= c < n,
    ensures
        m.mapping[c] == value ==> m.all_at(value, n).contains(c),
        0 <= j < m.all_at(value, n).len() ==> 0 <= m.all_at(value, n)[j] < n && m.mapping[m.all_at(
            value,
            n,
        )[j]] == value,
        0 < j < m.all_at(value, n).len() ==> m.all_at(value, n)[j - 1] < m.all_at(value, n)[j],
        m.first_at(value, 0) is None ==> m.mapping[c] != value,
    decreases n,
{
    let before = m.all_at(value, n - 1);
    let after = m.all_at(value, n);
    if n > 1 {
        let d = if c < n - 1 {
            c
        } else {
            0
        };
        law_channels_of_a_value(m, value, n - 1, d, j);
        law_channels_of_a_value(m, value, n - 1, d, j - 1);
    } else {
        assert(m.all_at(value, 0).len() == 0);
    }
    if m.mapping[c] == value {
        if c < n - 1 {
            let k = choose|k: int| 0 <= k < before.len() && before[k] == c;
            assert(after[k] == c);
        } else {
            assert(after[before.len() as int] == c);
        }
    }
    lemma_none_at(m, value, 0, c);
}

/// Where a value is not found, no channel has it.
proof fn lemma_none_at(m: LayoutModel, value: int, from: int, c: int)
    requires
        0 <= from <= c < m.mapping.len(),
    ensures
        m.first_at(value, from) is None ==> m.mapping[c] != value,
    decreases c - from,
{
    if from < c {
        lemma_none_at(m, value, from + 1, c);
    }
}

} // verus!
