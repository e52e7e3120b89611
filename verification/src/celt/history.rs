//! Buffers of past samples.

use vstd::prelude::*;

verus! {

/// The last `n` of some samples.
pub open spec fn last_of<T>(s: Seq<T>, n: int) -> Seq<T> {
    s.subrange(s.len() - n, s.len() as int)
}

/// A part of a buffer.
pub open spec fn window<T>(buf: Seq<T>, base: int, len: int) -> Seq<T> {
    buf.subrange(base, base + len)
}

/// A buffer with a part of it replaced.
pub open spec fn with_window<T>(buf: Seq<T>, base: int, part: Seq<T>) -> Seq<T> {
    buf.subrange(0, base) + part + buf.subrange(base + part.len(), buf.len() as int)
}

/// Move the samples of a channel `n` places towards the start, over the oldest.
/// The last `n` are left as they were, to be overwritten.
pub fn slide<T: Copy>(buf: &mut Vec<T>, base: usize, len: usize, n: usize)
    requires
        base + len <= old(buf)@.len(),
        n <= len,
    ensures
        final(buf)@ == with_window(
            old(buf)@,
            base as int,
            window(old(buf)@, base + n, len - n),
        ),
        final(buf)@.len() == old(buf)@.len(),
{
    let ghost first = buf@;
    let keep: usize = len - n;
    let mut i: usize = 0;
    assert(base + len <= buf.len());
    while i < keep
        invariant
            i <= keep,
            keep == len - n,
            n <= len,
            base + len <= buf@.len(),
            buf@.len() == first.len(),
            buf@.len() <= usize::MAX,
            forall|k: int| 0 <= k < base ==> buf@[k] == first[k],
            forall|k: int| base <= k < base + i ==> buf@[k] == first[k + n],
            forall|k: int| base + i <= k < first.len() ==> buf@[k] == first[k],
        decreases keep - i,
    {
        let sample: T = buf[base + i + n];
        buf.set(base + i, sample);
        i = i + 1;
    }
    assert(buf@ =~= with_window(first, base as int, window(first, base + n, len - n)));
}

/// Move a frame into a channel's window of the past, over the oldest samples.
pub fn slide_in<T: Copy>(buf: &mut Vec<T>, base: usize, len: usize, frame: &[T])
    requires
        base + len <= old(buf)@.len(),
    ensures
        final(buf)@ == with_window(
            old(buf)@,
            base as int,
            last_of(window(old(buf)@, base as int, len as int) + frame@, len as int),
        ),
        final(buf)@.len() == old(buf)@.len(),
{
    let ghost first = buf@;
    let n: usize = frame.len();
    let mut kept: usize = 0;
    if n < len {
        slide(buf, base, len, n);
        kept = len - n;
    }
    let ghost slid = buf@;
    let skip: usize = if n > len {
        n - len
    } else {
        0
    };
    let mut i: usize = kept;
    assert(base + len <= buf.len());
    while i < len
        invariant
            kept <= i <= len,
            base + len <= buf@.len(),
            buf@.len() == first.len(),
            buf@.len() <= usize::MAX,
            n == frame@.len(),
            kept == (if n < len {
                len - n
            } else {
                0
            }),
            skip == (if n > len {
                n - len
            } else {
                0
            }),
            forall|k: int| 0 <= k < base + kept ==> buf@[k] == slid[k],
            forall|k: int|
                base + kept <= k < base + i ==> buf@[k] == frame@[k - base - kept + skip],
            forall|k: int| base + i <= k < first.len() ==> buf@[k] == slid[k],
        decreases len - i,
    {
        buf.set(base + i, frame[i - kept + skip]);
        i = i + 1;
    }
    proof {
        let past = window(first, base as int, len as int);
        let all = past + frame@;
        let goal = with_window(first, base as int, last_of(all, len as int));
        assert(goal.len() == first.len());
        assert forall|k: int| 0 <= k < first.len() implies buf@[k] == goal[k] by {
            if k < base {
                assert(slid[k] == first[k]);
            } else if k < base + len {
                assert(goal[k] == all[n + (k - base)]);
                if k < base + kept {
                    assert(slid[k] == first[k + n]);
                }
            } else {
                assert(slid[k] == first[k]);
                assert(goal[k] == first[k]);
            }
        }
        assert(buf@ =~= goal);
    }
}

/// A window that frames slide into holds the last of everything that slid in,
/// however it was cut into frames.
pub proof fn law_windows_hold_the_latest<T>(past: Seq<T>, first: Seq<T>, second: Seq<T>)
    ensures
        ({
            let n = past.len() as int;
            last_of(last_of(past + first, n) + second, n) == last_of(past + (first + second), n)
        }),
{
    let n = past.len() as int;
    assert(last_of(last_of(past + first, n) + second, n) =~= last_of(
        past + (first + second),
        n,
    ));
}

/// Samples at a lower rate, spread out to a higher one with zeros between them.
pub open spec fn stuffed<T>(input: Seq<T>, upsample: int, zero: T) -> Seq<T> {
    Seq::new(
        (input.len() * upsample) as nat,
        |i: int|
            if i % upsample == 0 {
                input[i / upsample]
            } else {
                zero
            },
    )
}

/// Samples at a lower rate, spread out to a higher one: every `upsample`-th slot
/// carries an input sample, the rest are zero.
pub fn zero_stuff<T: Copy>(input: &[T], upsample: usize, zero: T) -> (out: Vec<T>)
    requires
        1 <= upsample,
        input@.len() * upsample <= usize::MAX,
    ensures
        out@ == stuffed(input@, upsample as int, zero),
{
    let mut out: Vec<T> = Vec::new();
    let total: usize = input.len() * upsample;
    let mut i: usize = 0;
    while i < total
        invariant
            i <= total,
            1 <= upsample,
            total == input@.len() * upsample,
            out@.len() == i,
            out@ =~= stuffed(input@, upsample as int, zero).subrange(0, i as int),
        decreases total - i,
    {
        if i % upsample == 0 {
            proof {
                let n = input@.len() as int;
                let u = upsample as int;
                let k = i as int;
                assert(k / u < n) by (nonlinear_arith)
                    requires
                        0 <= k < n * u,
                        u >= 1,
                ;
            }
            out.push(input[i / upsample]);
        } else {
            out.push(zero);
        }
        i = i + 1;
    }
    out
}

/// Every `downsample`-th of some samples.
pub open spec fn thinned<T>(input: Seq<T>, downsample: int) -> Seq<T> {
    Seq::new(
        ((input.len() + downsample - 1) / downsample) as nat,
        |i: int| input[i * downsample],
    )
}

/// Thinning out samples that were spread out gives them back.
pub proof fn law_thinning_undoes_stuffing<T>(input: Seq<T>, upsample: int, zero: T)
    requires
        1 <= upsample,
    ensures
        thinned(stuffed(input, upsample, zero), upsample) == input,
{
    let wide = stuffed(input, upsample, zero);
    let n = input.len() as int;
    assert(wide.len() == n * upsample) by {
        assert(n * upsample >= 0) by (nonlinear_arith)
            requires
                n >= 0,
                upsample >= 1,
        ;
    }
    assert((n * upsample + upsample - 1) / upsample == n) by {
        vstd::arithmetic::div_mod::lemma_fundamental_div_mod_converse(
            n * upsample + upsample - 1,
            upsample,
            n,
            upsample - 1,
        );
    }
    assert forall|i: int| 0 <= i < n implies thinned(wide, upsample)[i] == input[i] by {
        vstd::arithmetic::div_mod::lemma_fundamental_div_mod_converse(
            i * upsample,
            upsample,
            i,
            0,
        );
        assert(0 <= i * upsample < n * upsample) by (nonlinear_arith)
            requires
                0 <= i < n,
                upsample >= 1,
        ;
    }
    assert(thinned(wide, upsample) =~= input);
}

/// The last `pitch` of some samples, over and over.
pub open spec fn repeated<T>(past: Seq<T>, pitch: int, len: int) -> Seq<T> {
    Seq::new(len as nat, |i: int| past[past.len() - pitch + i % pitch])
}

/// Repeat the last `pitch` samples until there are `len` of them, and say of each
/// which time around it is: each time around is attenuated once more.
pub fn repeat_period<T: Copy>(past: &[T], pitch: usize, len: usize) -> (out: Vec<(T, usize)>)
    requires
        1 <= pitch <= past@.len(),
    ensures
        out@.len() == len,
        forall|i: int|
            0 <= i < len ==> (#[trigger] out@[i]).0 == repeated(past@, pitch as int, len as int)[i]
                && out@[i].1 == i / pitch as int,
{
    let mut out: Vec<(T, usize)> = Vec::new();
    let from: usize = past.len() - pitch;
    let mut j: usize = 0;
    let mut around: usize = 0;
    while out.len() < len
        invariant
            out@.len() <= len,
            1 <= pitch <= past@.len(),
            from + pitch == past@.len(),
            past@.len() <= usize::MAX,
            j <= pitch,
            around * pitch + j == out@.len(),
            forall|i: int|
                0 <= i < out@.len() ==> (#[trigger] out@[i]).0 == past@[from + i % pitch as int]
                    && out@[i].1 == i / pitch as int,
        decreases len - out@.len(),
    {
        if j >= pitch {
            assert((around + 1) * pitch == around * pitch + pitch) by (nonlinear_arith);
            assert(around * pitch <= len);
            assert(around < len) by (nonlinear_arith)
                requires
                    around * pitch + pitch <= len,
                    pitch >= 1,
            ;
            j = 0;
            around = around + 1;
        }
        proof {
            vstd::arithmetic::div_mod::lemma_fundamental_div_mod_converse(
                out@.len() as int,
                pitch as int,
                around as int,
                j as int,
            );
        }
        out.push((past[from + j], around));
        j = j + 1;
    }
    out
}

/// Samples are put as far apart as they are to be, with silence between them.
pub proof fn law_stuffing_spreads_samples<T>(input: Seq<T>, upsample: int, zero: T, i: int, k: int)
    requires
        1 <= upsample,
        0 <= i < input.len(),
        0 <= k < upsample,
    ensures
        stuffed(input, upsample, zero).len() == input.len() * upsample,
        stuffed(input, upsample, zero)[upsample * i + k] == (if k == 0 {
            input[i]
        } else {
            zero
        }),
{
    let p = upsample * i + k;
    assert(0 <= p < input.len() * upsample) by (nonlinear_arith)
        requires
            p == upsample * i + k,
            0 <= k < upsample,
            0 <= i < input.len(),
    ;
    assert(p == i * upsample + k) by (nonlinear_arith)
        requires
            p == upsample * i + k,
    ;
    vstd::arithmetic::div_mod::lemma_fundamental_div_mod_converse(p, upsample, i, k);
}

/// A repeated period is the last one, over and over.
pub proof fn law_periods_come_again<T>(past: Seq<T>, pitch: int, len: int, i: int)
    requires
        1 <= pitch <= past.len(),
        0 <= i < len,
    ensures
        repeated(past, pitch, len).len() == len,
        i < pitch ==> repeated(past, pitch, len)[i] == last_of(past, pitch)[i],
        i >= pitch ==> repeated(past, pitch, len)[i] == repeated(past, pitch, len)[i - pitch],
{
    if i < pitch {
        vstd::arithmetic::div_mod::lemma_small_mod(i as nat, pitch as nat);
    } else {
        vstd::arithmetic::div_mod::lemma_mod_sub_multiples_vanish(i, pitch);
    }
}

} // verus!
