//! The transform layer's input, which trails the caller's.

use vstd::prelude::*;

verus! {

/// One channel of interleaved samples.
pub open spec fn channel_of<T>(input: Seq<T>, c: int, channels: int, frame_size: int) -> Seq<T> {
    Seq::new(frame_size as nat, |i: int| input[i * channels + c])
}

/// One channel of samples that are laid out channel after channel.
pub open spec fn plane_of<T>(planes: Seq<T>, c: int, len: int) -> Seq<T> {
    Seq::new(len as nat, |i: int| planes[c * len + i])
}

/// The channels of samples that are laid out channel after channel.
pub open spec fn planes_of<T>(planes: Seq<T>, channels: int, len: int) -> Seq<Seq<T>> {
    Seq::new(channels as nat, |c: int| plane_of(planes, c, len))
}

/// The input of the transform layer.
///
/// The layer reads some samples behind the caller, so everything it touches
/// comes off one timeline: the samples it has not reached yet, followed by the
/// frame that has just come in. The timeline is a position in the input, not a
/// coder state, so it advances on every frame whatever becomes of it.
#[derive(Debug)]
pub struct Timeline<T> {
    channels: usize,
    delay: usize,
    prefill: usize,
    pending: Vec<T>,
    tail: Vec<T>,
    has_tail: bool,
}

/// What a [`Timeline`] holds.
pub ghost struct TimelineModel<T> {
    /// How many channels there are.
    pub channels: int,
    /// Samples that the layer trails by.
    pub delay: int,
    /// Samples in a tail.
    pub prefill: int,
    /// What the layer has not reached yet, channel by channel.
    pub pending: Seq<Seq<T>>,
    /// What lies just before the layer's next frame, channel by channel, where
    /// the last frame was long enough to hold it.
    pub tail: Option<Seq<Seq<T>>>,
}

impl<T: Copy> View for Timeline<T> {
    type V = TimelineModel<T>;

    closed spec fn view(&self) -> TimelineModel<T> {
        TimelineModel {
            channels: self.channels as int,
            delay: self.delay as int,
            prefill: self.prefill as int,
            pending: planes_of(self.pending@, self.channels as int, self.delay as int),
            tail: if self.has_tail {
                Some(planes_of(self.tail@, self.channels as int, self.prefill as int))
            } else {
                None
            },
        }
    }
}

impl<T> TimelineModel<T> {
    /// One channel of the timeline: what is pending, then a frame.
    pub open spec fn line(self, input: Seq<T>, c: int, frame_size: int) -> Seq<T> {
        self.pending[c] + channel_of(input, c, self.channels, frame_size)
    }

    /// What the layer codes of the timeline: a frame from its start.
    pub open spec fn coded(self, input: Seq<T>, frame_size: int) -> Seq<Seq<T>> {
        Seq::new(
            self.channels as nat,
            |c: int| self.line(input, c, frame_size).subrange(0, frame_size),
        )
    }

    /// The timeline one frame on.
    pub open spec fn advanced(self, input: Seq<T>, frame_size: int) -> TimelineModel<T> {
        TimelineModel {
            pending: Seq::new(
                self.channels as nat,
                |c: int|
                    self.line(input, c, frame_size).subrange(frame_size, self.delay + frame_size),
            ),
            tail: if frame_size >= self.prefill {
                Some(
                    Seq::new(
                        self.channels as nat,
                        |c: int|
                            self.line(input, c, frame_size).subrange(
                                frame_size - self.prefill,
                                frame_size,
                            ),
                    ),
                )
            } else {
                None
            },
            ..self
        }
    }

    /// Whether every channel is as long as it should be.
    pub open spec fn wf(self) -> bool {
        &&& 1 <= self.channels <= 2
        &&& 0 <= self.delay <= 192
        &&& 0 <= self.prefill <= 120
        &&& self.pending.len() == self.channels
        &&& forall|c: int| 0 <= c < self.channels ==> (#[trigger] self.pending[c]).len()
            == self.delay
    }
}

/// A place in planar samples is within them.
proof fn lemma_in_plane(c: int, i: int, len: int, channels: int)
    requires
        0 <= c < channels,
        0 <= i < len,
    ensures
        0 <= c * len + i < channels * len,
{
    assert(0 <= c * len) by (nonlinear_arith)
        requires
            0 <= c,
            0 <= len,
    ;
    assert((c + 1) * len <= channels * len) by (nonlinear_arith)
        requires
            c + 1 <= channels,
            0 <= len,
    ;
    assert((c + 1) * len == c * len + len) by (nonlinear_arith);
}

/// Cut samples out of the timeline, from `from` on in every channel.
fn cut_out<T: Copy>(
    pending: &Vec<T>,
    delay: usize,
    input: &[T],
    channels: usize,
    frame_size: usize,
    from: usize,
    len: usize,
) -> (planes: Vec<T>)
    requires
        1 <= channels <= 2,
        delay <= 192,
        pending@.len() == channels * delay,
        frame_size <= 5760,
        frame_size * channels <= input@.len(),
        from + len <= delay + frame_size,
    ensures
        planes@.len() == channels * len,
        forall|c: int|
            0 <= c < channels ==> #[trigger] plane_of(planes@, c, len as int) == (plane_of(
                pending@,
                c,
                delay as int,
            ) + channel_of(input@, c, channels as int, frame_size as int)).subrange(
                from as int,
                from + len,
            ),
{
    let mut planes: Vec<T> = Vec::new();
    let mut c: usize = 0;
    proof {
        assert(0 * len == 0);
    }
    while c < channels
        invariant
            1 <= channels <= 2,
            delay <= 192,
            pending@.len() == channels * delay,
            frame_size <= 5760,
            frame_size * channels <= input@.len(),
            from + len <= delay + frame_size,
            c <= channels,
            planes@.len() == c * len,
            forall|d: int, i: int|
                0 <= d < c && 0 <= i < len ==> planes@[#[trigger] (d * len + i)] == (plane_of(
                    pending@,
                    d,
                    delay as int,
                ) + channel_of(input@, d, channels as int, frame_size as int))[from + i],
        decreases channels - c,
    {
        let mut i: usize = 0;
        let ghost line = plane_of(pending@, c as int, delay as int) + channel_of(
            input@,
            c as int,
            channels as int,
            frame_size as int,
        );
        while i < len
            invariant
                1 <= channels <= 2,
                delay <= 192,
                pending@.len() == channels * delay,
                frame_size <= 5760,
                frame_size * channels <= input@.len(),
                from + len <= delay + frame_size,
                c < channels,
                i <= len,
                planes@.len() == c * len + i,
                line == plane_of(pending@, c as int, delay as int) + channel_of(
                    input@,
                    c as int,
                    channels as int,
                    frame_size as int,
                ),
                forall|k: int| 0 <= k < i ==> planes@[#[trigger] (c * len + k)] == line[from + k],
                forall|d: int, k: int|
                    0 <= d < c && 0 <= k < len ==> planes@[#[trigger] (d * len + k)] == (plane_of(
                        pending@,
                        d,
                        delay as int,
                    ) + channel_of(input@, d, channels as int, frame_size as int))[from + k],
            decreases len - i,
        {
            let at: usize = from + i;
            let ghost before = planes@;
            let sample: T = if at < delay {
                proof {
                    lemma_in_plane(c as int, at as int, delay as int, channels as int);
                }
                assert(c * delay <= 192) by (nonlinear_arith)
                    requires
                        c < 2,
                        delay <= 192,
                ;
                pending[c * delay + at]
            } else {
                let j: usize = at - delay;
                proof {
                    lemma_in_plane(j as int, c as int, channels as int, frame_size as int);
                }
                assert(j * channels <= 5760 * 2) by (nonlinear_arith)
                    requires
                        j <= 5760,
                        channels <= 2,
                ;
                input[j * channels + c]
            };
            assert(sample == line[at as int]);
            planes.push(sample);
            proof {
                assert forall|d: int, k: int| 0 <= d < c && 0 <= k < len implies planes@[
                #[trigger] (d * len + k)] == (plane_of(pending@, d, delay as int) + channel_of(
                    input@,
                    d,
                    channels as int,
                    frame_size as int,
                ))[from + k] by {
                    lemma_in_plane(d, k, len as int, c as int);
                    assert(planes@[d * len + k] == before[d * len + k]);
                }
            }
            i = i + 1;
        }
        proof {
            assert(c * len + len == (c + 1) * len) by (nonlinear_arith);
        }
        c = c + 1;
    }
    proof {
        assert forall|d: int| 0 <= d < channels implies #[trigger] plane_of(
            planes@,
            d,
            len as int,
        ) == (plane_of(pending@, d, delay as int) + channel_of(
            input@,
            d,
            channels as int,
            frame_size as int,
        )).subrange(from as int, from + len) by {
            let line = plane_of(pending@, d, delay as int) + channel_of(
                input@,
                d,
                channels as int,
                frame_size as int,
            );
            assert forall|k: int| 0 <= k < len implies plane_of(planes@, d, len as int)[k]
                == line.subrange(from as int, from + len)[k] by {
                assert(planes@[d * len + k] == line[from + k]);
            }
            assert(plane_of(planes@, d, len as int) =~= line.subrange(from as int, from + len));
        }
    }
    planes
}

impl<T: Copy> Timeline<T> {
    /// Whether every channel is as long as it should be.
    pub closed spec fn wf(&self) -> bool {
        &&& 1 <= self.channels <= 2
        &&& self.delay <= 192
        &&& self.prefill <= 120
        &&& self.pending@.len() == self.channels * self.delay
        &&& self.has_tail ==> self.tail@.len() == self.channels * self.prefill
    }

    /// A timeline that starts with `delay` silent samples per channel.
    pub fn new(channels: usize, delay: usize, prefill: usize, silence: T) -> (line: Self)
        requires
            1 <= channels <= 2,
            delay <= 192,
            prefill <= 120,
        ensures
            line.wf(),
            line@.wf(),
            line@.channels == channels,
            line@.delay == delay,
            line@.prefill == prefill,
            line@.tail is None,
            forall|c: int|
                0 <= c < channels ==> #[trigger] line@.pending[c] == Seq::new(
                    delay as nat,
                    |i: int| silence,
                ),
    {
        assert(channels * delay <= 2 * 192) by (nonlinear_arith)
            requires
                channels <= 2,
                delay <= 192,
        ;
        let total: usize = channels * delay;
        let mut pending: Vec<T> = Vec::new();
        while pending.len() < total
            invariant
                pending@.len() <= total,
                forall|i: int| 0 <= i < pending@.len() ==> pending@[i] == silence,
            decreases total - pending@.len(),
        {
            pending.push(silence);
        }
        let line = Timeline {
            channels,
            delay,
            prefill,
            pending,
            tail: Vec::new(),
            has_tail: false,
        };
        proof {
            assert forall|c: int| 0 <= c < channels implies #[trigger] line@.pending[c]
                == Seq::new(delay as nat, |i: int| silence) by {
                assert forall|i: int| 0 <= i < delay implies plane_of(
                    pending@,
                    c,
                    delay as int,
                )[i] == silence by {
                    lemma_in_plane(c, i, delay as int, channels as int);
                }
                assert(line@.pending[c] =~= Seq::new(delay as nat, |i: int| silence));
            }
        }
        line
    }

    /// Move the timeline on by a frame of interleaved samples, and say what the
    /// layer codes of it, channel after channel.
    pub fn advance(&mut self, input: &[T], frame_size: usize) -> (coded: Vec<T>)
        requires
            old(self).wf(),
            frame_size <= 5760,
            frame_size * old(self)@.channels <= input@.len(),
        ensures
            final(self).wf(),
            final(self)@ == old(self)@.advanced(input@, frame_size as int),
            coded@.len() == old(self)@.channels * frame_size,
            planes_of(coded@, old(self)@.channels, frame_size as int) == old(self)@.coded(
                input@,
                frame_size as int,
            ),
    {
        let ghost before = self@;
        let coded: Vec<T> = cut_out(
            &self.pending,
            self.delay,
            input,
            self.channels,
            frame_size,
            0,
            frame_size,
        );
        if frame_size >= self.prefill {
            self.tail = cut_out(
                &self.pending,
                self.delay,
                input,
                self.channels,
                frame_size,
                frame_size - self.prefill,
                self.prefill,
            );
            self.has_tail = true;
        } else {
            self.tail = Vec::new();
            self.has_tail = false;
        }
        self.pending = cut_out(
            &self.pending,
            self.delay,
            input,
            self.channels,
            frame_size,
            frame_size,
            self.delay,
        );
        proof {
            let after = before.advanced(input@, frame_size as int);
            assert(planes_of(coded@, before.channels, frame_size as int) =~= before.coded(
                input@,
                frame_size as int,
            ));
            assert(self@.pending =~= after.pending);
            if frame_size >= self.prefill {
                assert(self@.tail->0 =~= after.tail->0);
            }
        }
        coded
    }

    /// What lies just before the layer's next frame, channel after channel:
    /// nothing where the last frame was shorter than that.
    pub fn tail(&self) -> (tail: Option<&Vec<T>>)
        ensures
            tail is Some <==> self@.tail is Some,
            tail matches Some(t) ==> planes_of(t@, self@.channels, self@.prefill)
                == self@.tail->0,
    {
        if self.has_tail {
            Some(&self.tail)
        } else {
            None
        }
    }
}

/// One channel of all that is handed in, frame after frame.
pub open spec fn whole_input<T>(inputs: Seq<Seq<T>>, frame_size: int, channels: int, c: int) -> Seq<T>
    decreases inputs.len(),
{
    if inputs.len() == 0 {
        Seq::empty()
    } else {
        whole_input(inputs.drop_last(), frame_size, channels, c) + channel_of(
            inputs.last(),
            c,
            channels,
            frame_size,
        )
    }
}

/// The timeline after some frames.
pub open spec fn after_frames<T>(m: TimelineModel<T>, inputs: Seq<Seq<T>>, frame_size: int)
    -> TimelineModel<T>
    decreases inputs.len(),
{
    if inputs.len() == 0 {
        m
    } else {
        after_frames(m, inputs.drop_last(), frame_size).advanced(inputs.last(), frame_size)
    }
}

/// One channel of all that the layer codes, frame after frame.
pub open spec fn whole_coded<T>(
    m: TimelineModel<T>,
    inputs: Seq<Seq<T>>,
    frame_size: int,
    c: int,
) -> Seq<T>
    decreases inputs.len(),
{
    if inputs.len() == 0 {
        Seq::empty()
    } else {
        whole_coded(m, inputs.drop_last(), frame_size, c) + after_frames(
            m,
            inputs.drop_last(),
            frame_size,
        ).coded(inputs.last(), frame_size)[c]
    }
}

/// The layer codes the caller's input, late by what was pending at the start,
/// and loses or repeats no sample: what it has coded and what is pending are
/// together what was pending and all that was handed in.
pub proof fn law_the_layer_sees_every_sample<T>(
    m: TimelineModel<T>,
    inputs: Seq<Seq<T>>,
    frame_size: int,
    c: int,
)
    requires
        m.wf(),
        0 <= c < m.channels,
        0 <= frame_size,
    ensures
        after_frames(m, inputs, frame_size).wf(),
        after_frames(m, inputs, frame_size).channels == m.channels,
        after_frames(m, inputs, frame_size).delay == m.delay,
        whole_coded(m, inputs, frame_size, c) + after_frames(m, inputs, frame_size).pending[c]
            == m.pending[c] + whole_input(inputs, frame_size, m.channels, c),
    decreases inputs.len(),
{
    if inputs.len() == 0 {
        assert(whole_coded(m, inputs, frame_size, c) + m.pending[c] =~= m.pending[c]
            + whole_input(inputs, frame_size, m.channels, c));
    } else {
        law_the_layer_sees_every_sample(m, inputs.drop_last(), frame_size, c);
        let before = after_frames(m, inputs.drop_last(), frame_size);
        let after = before.advanced(inputs.last(), frame_size);
        let line = before.line(inputs.last(), c, frame_size);
        assert forall|d: int| 0 <= d < after.channels implies (#[trigger] after.pending[d]).len()
            == after.delay by {
            assert(before.pending[d].len() == before.delay);
        }
        assert(line.len() == before.delay + frame_size);
        assert(line.subrange(0, frame_size) + line.subrange(frame_size, line.len() as int)
            =~= line);
        assert(whole_coded(m, inputs, frame_size, c) + after.pending[c] =~= whole_coded(
            m,
            inputs.drop_last(),
            frame_size,
            c,
        ) + line);
        assert(whole_coded(m, inputs.drop_last(), frame_size, c) + line =~= (whole_coded(
            m,
            inputs.drop_last(),
            frame_size,
            c,
        ) + before.pending[c]) + channel_of(inputs.last(), c, before.channels, frame_size));
        assert(m.pending[c] + whole_input(inputs, frame_size, m.channels, c) =~= (m.pending[c]
            + whole_input(inputs.drop_last(), frame_size, m.channels, c)) + channel_of(
            inputs.last(),
            c,
            m.channels,
            frame_size,
        ));
    }
}

/// What is kept to warm the layer up is the end of what it was given, where that was
/// long enough.
pub proof fn law_tails_are_the_last<T>(
    m: TimelineModel<T>,
    input: Seq<T>,
    frame_size: int,
    c: int,
    i: int,
)
    requires
        m.wf(),
        0 <= c < m.channels,
        0 <= frame_size,
        0 <= i < m.prefill,
    ensures
        ({
            let after = m.advanced(input, frame_size);
            let coded = m.coded(input, frame_size)[c];
            &&& frame_size < m.prefill ==> after.tail is None
            &&& frame_size >= m.prefill ==> after.tail is Some && (after.tail->0)[c].len()
                == m.prefill && (after.tail->0)[c][i] == coded[frame_size - m.prefill + i]
        }),
{
}

/// The layer sees each sample late by its delay: first what was pending, and then the
/// channel's own, one of each frame of all of them.
pub proof fn law_samples_come_late<T>(
    m: TimelineModel<T>,
    input: Seq<T>,
    frame_size: int,
    c: int,
    i: int,
)
    requires
        m.wf(),
        0 <= c < m.channels,
        0 <= i < frame_size,
    ensures
        ({
            let coded = m.coded(input, frame_size)[c];
            &&& coded.len() == frame_size
            &&& i < m.delay ==> coded[i] == m.pending[c][i]
            &&& i >= m.delay && m.channels == 1 ==> coded[i] == input[i - m.delay]
            &&& i >= m.delay && m.channels == 2 ==> coded[i] == input[2 * (i - m.delay) + c]
        }),
{
}

} // verus!
