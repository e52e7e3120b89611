//! Taking the channels of a stream out of the caller's, and putting them back.

use vstd::arithmetic::div_mod::lemma_fundamental_div_mod_converse;
use vstd::prelude::*;

use crate::multistream::layout::{
    feeds_every_output, law_standard_layout_is_a_reordering, law_targets_name_their_origin,
    standard_layout, ChannelLayout, LayoutModel, SILENT,
};

verus! {

/// A sample of an interleaved frame, or silence where no channel is named.
pub open spec fn sample_at<T>(input: Seq<T>, i: int, channel: Option<int>, channels: int, silence: T)
    -> T {
    match channel {
        Some(c) => input[i * channels + c],
        None => silence,
    }
}

/// What a stream codes of an interleaved frame.
pub open spec fn gathered<T>(m: LayoutModel, input: Seq<T>, frame_size: int, s: int, silence: T)
    -> Seq<T> {
    let sc = m.stream_channels(s);
    Seq::new(
        (frame_size * sc) as nat,
        |j: int|
            sample_at(input, j / sc, m.first_at(m.target(s, j % sc), 0), m.channels, silence),
    )
}

/// An interleaved buffer of which the first `n` samples of every channel with a
/// mapping value are replaced, by one channel of a stream.
pub open spec fn spread<T>(
    m: LayoutModel,
    out: Seq<T>,
    value: int,
    buf: Seq<T>,
    stride: int,
    offset: int,
    n: int,
) -> Seq<T> {
    Seq::new(
        out.len(),
        |p: int|
            if p < n * m.channels && m.mapping[p % m.channels] == value {
                buf[(p / m.channels) * stride + offset]
            } else {
                out[p]
            },
    )
}

/// An interleaved buffer with a stream's channels put where they belong.
pub open spec fn remuxed<T>(m: LayoutModel, out: Seq<T>, s: int, buf: Seq<T>, n: int) -> Seq<T> {
    if s < m.coupled {
        spread(m, spread(m, out, m.target(s, 0), buf, 2, 0, n), m.target(s, 1), buf, 2, 1, n)
    } else {
        spread(m, out, m.target(s, 0), buf, 1, 0, n)
    }
}

/// An interleaved buffer with its unmapped channels silenced.
pub open spec fn silenced<T>(m: LayoutModel, out: Seq<T>, n: int, silence: T) -> Seq<T> {
    Seq::new(
        out.len(),
        |p: int|
            if p < n * m.channels && m.mapping[p % m.channels] == SILENT {
                silence
            } else {
                out[p]
            },
    )
}

/// A place in an interleaved buffer is within it.
proof fn lemma_place(i: int, c: int, channels: int, n: int)
    requires
        0 <= i < n,
        0 <= c < channels,
    ensures
        0 <= i * channels + c < n * channels,
        (i * channels + c) / channels == i,
        (i * channels + c) % channels == c,
{
    lemma_fundamental_div_mod_converse(i * channels + c, channels, i, c);
    assert(0 <= i * channels) by (nonlinear_arith)
        requires
            0 <= i,
            0 < channels,
    ;
    assert((i + 1) * channels <= n * channels) by (nonlinear_arith)
        requires
            i + 1 <= n,
            0 < channels,
    ;
    assert((i + 1) * channels == i * channels + channels) by (nonlinear_arith);
}

/// A place in an interleaved buffer, taken apart.
proof fn lemma_parts(p: int, channels: int, n: int)
    requires
        0 <= p < n * channels,
        0 < channels,
    ensures
        0 <= p / channels < n,
        0 <= p % channels < channels,
        p == (p / channels) * channels + p % channels,
{
    assert(p == channels * (p / channels) + p % channels) by (nonlinear_arith)
        requires
            channels > 0,
    ;
    assert(0 <= p % channels < channels) by (nonlinear_arith)
        requires
            channels > 0,
    ;
    assert(0 <= p / channels) by (nonlinear_arith)
        requires
            channels > 0,
            p >= 0,
    ;
    assert(p / channels < n) by (nonlinear_arith)
        requires
            channels > 0,
            p < n * channels,
    ;
    assert(channels * (p / channels) == (p / channels) * channels) by (nonlinear_arith);
}

/// What a stream codes of an interleaved frame: the first output channel that
/// each of its channels feeds, or silence where it feeds none.
pub fn gather<T: Copy>(
    layout: &ChannelLayout,
    input: &[T],
    frame_size: usize,
    s: usize,
    silence: T,
) -> (stream: Vec<T>)
    requires
        layout.wf(),
        s < layout@.streams,
        frame_size * layout@.channels <= input@.len(),
    ensures
        stream@ == gathered(layout@, input@, frame_size as int, s as int, silence),
{
    let nch: usize = layout.nb_channels;
    let (first, second): (Option<usize>, Option<usize>) = if s < layout.nb_coupled_streams {
        (
            layout.first_channel_for(ChannelLayout::left_target(s)),
            layout.first_channel_for(ChannelLayout::right_target(s)),
        )
    } else {
        (layout.first_channel_for(layout.mono_target(s)), None)
    };
    let coupled: bool = s < layout.nb_coupled_streams;
    let ghost m = layout@;
    let ghost sc = m.stream_channels(s as int);
    let ghost want = gathered(m, input@, frame_size as int, s as int, silence);
    let mut stream: Vec<T> = Vec::new();
    let mut i: usize = 0;
    assert(0 * sc == 0);
    while i < frame_size
        invariant
            i <= frame_size,
            m == layout@,
            m.wf(),
            nch == m.channels,
            coupled == (s < m.coupled),
            sc == m.stream_channels(s as int),
            frame_size * nch <= input@.len(),
            first matches Some(c) ==> c < nch,
            second matches Some(c) ==> c < nch,
            match (first, m.first_at(m.target(s as int, 0), 0)) {
                (Some(c), Some(d)) => c == d,
                (None, None) => true,
                _ => false,
            },
            coupled ==> match (second, m.first_at(m.target(s as int, 1), 0)) {
                (Some(c), Some(d)) => c == d,
                (None, None) => true,
                _ => false,
            },
            want == gathered(m, input@, frame_size as int, s as int, silence),
            stream@.len() == i * sc,
            stream@ =~= want.subrange(0, i * sc),
        decreases frame_size - i,
    {
        let ghost before = stream@;
        proof {
            lemma_place(i as int, 0, sc, frame_size as int);
            lemma_place(i as int, sc - 1, sc, frame_size as int);
            assert((i + 1) * sc == i * sc + sc) by (nonlinear_arith);
            assert((i + 1) * sc <= frame_size * sc) by (nonlinear_arith)
                requires
                    i + 1 <= frame_size,
                    sc > 0,
            ;
        }
        stream.push(pick(input, i, first, nch, frame_size, silence));
        if coupled {
            stream.push(pick(input, i, second, nch, frame_size, silence));
        }
        i = i + 1;
    }
    stream
}

/// A sample of an interleaved frame, or silence where no channel is named.
fn pick<T: Copy>(
    input: &[T],
    i: usize,
    channel: Option<usize>,
    channels: usize,
    frame_size: usize,
    silence: T,
) -> (sample: T)
    requires
        i < frame_size,
        frame_size * channels <= input@.len(),
        channel matches Some(c) ==> c < channels,
    ensures
        sample == sample_at(
            input@,
            i as int,
            (match channel {
                Some(c) => Some(c as int),
                None => None,
            }),
            channels as int,
            silence,
        ),
{
    match channel {
        Some(c) => {
            proof {
                lemma_place(i as int, c as int, channels as int, frame_size as int);
            }
            assert(i * channels + c < input.len());
            input[i * channels + c]
        },
        None => silence,
    }
}

/// Put one channel of a stream wherever the layout has its mapping value.
fn spread_channel<T: Copy>(
    layout: &ChannelLayout,
    value: usize,
    buf: &[T],
    stride: usize,
    offset: usize,
    n: usize,
    output: &mut [T],
)
    requires
        layout.wf(),
        1 <= stride <= 2,
        offset < stride,
        n * stride <= buf@.len(),
        n * layout@.channels <= old(output)@.len(),
    ensures
        final(output)@ == spread(
            layout@,
            old(output)@,
            value as int,
            buf@,
            stride as int,
            offset as int,
            n as int,
        ),
{
    let nch: usize = layout.nb_channels;
    let ghost m = layout@;
    let ghost want = spread(
        m,
        old(output)@,
        value as int,
        buf@,
        stride as int,
        offset as int,
        n as int,
    );
    let mut i: usize = 0;
    assert(0 * nch == 0);
    assert(n * nch <= output.len());
    assert(n * stride <= buf.len());
    while i < n
        invariant
            m == layout@,
            m.wf(),
            nch == m.channels,
            i <= n,
            1 <= stride <= 2,
            offset < stride,
            n * stride <= buf@.len() <= usize::MAX,
            n * nch <= output@.len() <= usize::MAX,
            output@.len() == old(output)@.len(),
            want == spread(
                m,
                old(output)@,
                value as int,
                buf@,
                stride as int,
                offset as int,
                n as int,
            ),
            forall|p: int| 0 <= p < i * nch ==> output@[p] == want[p],
            forall|p: int| i * nch <= p < output@.len() ==> output@[p] == old(output)@[p],
        decreases n - i,
    {
        proof {
            lemma_place(i as int, offset as int, stride as int, n as int);
            lemma_place(i as int, 0, nch as int, n as int);
        }
        let sample: T = buf[i * stride + offset];
        let row: usize = i * nch;
        let mut c: usize = 0;
        while c < nch
            invariant
                m == layout@,
                m.wf(),
                nch == m.channels,
                c <= nch,
                i < n,
                row == i * nch,
                n * nch <= output@.len() <= usize::MAX,
                output@.len() == old(output)@.len(),
                sample == buf@[i * stride + offset],
                want == spread(
                    m,
                    old(output)@,
                    value as int,
                    buf@,
                    stride as int,
                    offset as int,
                    n as int,
                ),
                forall|p: int| 0 <= p < row + c ==> output@[p] == want[p],
                forall|p: int| row + c <= p < output@.len() ==> output@[p] == old(output)@[p],
            decreases nch - c,
        {
            proof {
                lemma_place(i as int, c as int, nch as int, n as int);
            }
            if layout.mapping[c] as usize == value {
                output[row + c] = sample;
            }
            c = c + 1;
        }
        proof {
            assert((i + 1) * nch == i * nch + nch) by (nonlinear_arith);
        }
        i = i + 1;
    }
    proof {
        assert forall|p: int| n * nch <= p < output@.len() implies output@[p] == want[p] by {
            assert(output@[p] == old(output)@[p]);
        }
    }
    assert(output@ =~= want);
}

/// Put a stream's channels where they belong in the interleaved output.
pub fn remux<T: Copy>(layout: &ChannelLayout, s: usize, buf: &[T], n: usize, output: &mut [T])
    requires
        layout.wf(),
        s < layout@.streams,
        n * layout@.stream_channels(s as int) <= buf@.len(),
        n * layout@.channels <= old(output)@.len(),
    ensures
        final(output)@ == remuxed(layout@, old(output)@, s as int, buf@, n as int),
{
    if s < layout.nb_coupled_streams {
        spread_channel(layout, ChannelLayout::left_target(s), buf, 2, 0, n, output);
        spread_channel(layout, ChannelLayout::right_target(s), buf, 2, 1, n, output);
    } else {
        spread_channel(layout, layout.mono_target(s), buf, 1, 0, n, output);
    }
}

/// Silence the channels that no stream feeds.
pub fn silence_unmapped<T: Copy>(layout: &ChannelLayout, n: usize, silence: T, output: &mut [T])
    requires
        layout.wf(),
        n * layout@.channels <= old(output)@.len(),
    ensures
        final(output)@ == silenced(layout@, old(output)@, n as int, silence),
{
    let nch: usize = layout.nb_channels;
    let ghost m = layout@;
    let ghost want = silenced(m, old(output)@, n as int, silence);
    let mut i: usize = 0;
    assert(0 * nch == 0);
    assert(n * nch <= output.len());
    while i < n
        invariant
            m == layout@,
            m.wf(),
            nch == m.channels,
            i <= n,
            n * nch <= output@.len() <= usize::MAX,
            output@.len() == old(output)@.len(),
            want == silenced(m, old(output)@, n as int, silence),
            forall|p: int| 0 <= p < i * nch ==> output@[p] == want[p],
            forall|p: int| i * nch <= p < output@.len() ==> output@[p] == old(output)@[p],
        decreases n - i,
    {
        proof {
            lemma_place(i as int, 0, nch as int, n as int);
        }
        let row: usize = i * nch;
        let mut c: usize = 0;
        while c < nch
            invariant
                m == layout@,
                m.wf(),
                nch == m.channels,
                c <= nch,
                i < n,
                row == i * nch,
                n * nch <= output@.len() <= usize::MAX,
                output@.len() == old(output)@.len(),
                want == silenced(m, old(output)@, n as int, silence),
                forall|p: int| 0 <= p < row + c ==> output@[p] == want[p],
                forall|p: int| row + c <= p < output@.len() ==> output@[p] == old(output)@[p],
            decreases nch - c,
        {
            proof {
                lemma_place(i as int, c as int, nch as int, n as int);
            }
            if layout.mapping[c] == SILENT {
                output[row + c] = silence;
            }
            c = c + 1;
        }
        proof {
            assert((i + 1) * nch == i * nch + nch) by (nonlinear_arith);
        }
        i = i + 1;
    }
    proof {
        assert forall|p: int| n * nch <= p < output@.len() implies output@[p] == want[p] by {
            assert(output@[p] == old(output)@[p]);
        }
    }
    assert(output@ =~= want);
}

/// The output once the first `k` streams have been put where they belong.
pub open spec fn after_streams<T>(m: LayoutModel, out: Seq<T>, bufs: Seq<Seq<T>>, n: int, k: int)
    -> Seq<T>
    decreases k,
{
    if k <= 0 {
        out
    } else {
        remuxed(m, after_streams(m, out, bufs, n, k - 1), k - 1, bufs[k - 1], n)
    }
}

/// What the streams code of an interleaved frame.
pub open spec fn all_gathered<T>(m: LayoutModel, input: Seq<T>, frame_size: int, silence: T)
    -> Seq<Seq<T>> {
    Seq::new(m.streams as nat, |s: int| gathered(m, input, frame_size, s, silence))
}

/// Where an output channel's sample comes from once its stream has been put
/// where it belongs.
proof fn lemma_after_streams<T>(
    m: LayoutModel,
    out: Seq<T>,
    bufs: Seq<Seq<T>>,
    n: int,
    k: int,
    p: int,
)
    requires
        m.wf(),
        0 <= k <= m.streams,
        0 <= p < n * m.channels <= out.len(),
        m.mapping[p % m.channels] < m.streams + m.coupled,
    ensures
        after_streams(m, out, bufs, n, k).len() == out.len(),
        ({
            let (s, c) = m.origin(m.mapping[p % m.channels] as int);
            after_streams(m, out, bufs, n, k)[p] == (if s < k {
                bufs[s][(p / m.channels) * m.stream_channels(s) + c]
            } else {
                out[p]
            })
        }),
    decreases k,
{
    lemma_parts(p, m.channels, n);
    let value = m.mapping[p % m.channels] as int;
    let (s, c) = m.origin(value);
    if k > 0 {
        lemma_after_streams(m, out, bufs, n, k - 1, p);
        law_targets_name_their_origin(m, value, k - 1, 0);
        if k - 1 < m.coupled {
            law_targets_name_their_origin(m, value, k - 1, 1);
        }
    }
}

/// The first place of a mapping value is the one place that it stands at.
proof fn lemma_first_is_only(m: LayoutModel, c: int, from: int)
    requires
        feeds_every_output(m),
        0 <= from <= c < m.mapping.len(),
    ensures
        m.first_at(m.mapping[c] as int, from) == Some(c),
    decreases c - from,
{
    if from < c {
        assert(m.mapping[from] != m.mapping[c]);
        lemma_first_is_only(m, c, from + 1);
    }
}

/// Putting back the channels that were taken out gives the input again, where
/// every output channel has a source of its own, as in the standard layouts.
pub proof fn law_remux_undoes_gather<T>(
    m: LayoutModel,
    input: Seq<T>,
    out: Seq<T>,
    frame_size: int,
    silence: T,
)
    requires
        m.wf(),
        feeds_every_output(m),
        0 <= frame_size,
        input.len() == frame_size * m.channels,
        out.len() == input.len(),
    ensures
        after_streams(
            m,
            out,
            all_gathered(m, input, frame_size, silence),
            frame_size,
            m.streams,
        ) == input,
{
    let bufs = all_gathered(m, input, frame_size, silence);
    let result = after_streams(m, out, bufs, frame_size, m.streams);
    lemma_after_len(m, out, bufs, frame_size, m.streams);
    assert forall|p: int| 0 <= p < input.len() implies result[p] == input[p] by {
        lemma_parts(p, m.channels, frame_size);
        let channel = p % m.channels;
        let i = p / m.channels;
        let value = m.mapping[channel] as int;
        lemma_after_streams(m, out, bufs, frame_size, m.streams, p);
        law_targets_name_their_origin(m, value, 0, 0);
        let (s, k) = m.origin(value);
        let sc = m.stream_channels(s);
        lemma_place(i, k, sc, frame_size);
        lemma_first_is_only(m, channel, 0);
    }
    assert(result =~= input);
}

/// Putting streams where they belong keeps the length.
proof fn lemma_after_len<T>(m: LayoutModel, out: Seq<T>, bufs: Seq<Seq<T>>, n: int, k: int)
    ensures
        after_streams(m, out, bufs, n, k).len() == out.len(),
    decreases k,
{
    if k > 0 {
        lemma_after_len(m, out, bufs, n, k - 1);
    }
}

/// In a standard layout the channels come out where they went in.
pub proof fn law_standard_layouts_keep_the_channels<T>(
    channels: int,
    family: u8,
    input: Seq<T>,
    out: Seq<T>,
    frame_size: int,
    silence: T,
)
    requires
        standard_layout(channels, family) is Ok,
        0 <= frame_size,
        input.len() == frame_size * channels,
        out.len() == input.len(),
    ensures
        ({
            let m = standard_layout(channels, family)->Ok_0;
            after_streams(
                m,
                out,
                all_gathered(m, input, frame_size, silence),
                frame_size,
                m.streams,
            ) == input
        }),
{
    law_standard_layout_is_a_reordering(channels, family);
    law_remux_undoes_gather(
        standard_layout(channels, family)->Ok_0,
        input,
        out,
        frame_size,
        silence,
    );
}

} // verus!
