//! What a frame of the transform layer starts with: whether it is silent, the
//! postfilter's parameters, and whether it is a transient.

use vstd::prelude::*;

use crate::celt::step::{
    holds_raw, in_step, lemma_holds_earlier, lemma_in_step, lemma_names_earlier, lemma_raw_in_step,
};
use crate::math::{greatest, least, max_i32, min_i32};
use crate::range_coder::alphabet::{
    lemma_two_to_monotone, lemma_two_to_values, power_of_two, two_to, Alphabet,
};
use crate::range_coder::decoder::{raw_value, DecoderState, RangeDecoder};
use crate::range_coder::encoder::{bits_of, EncoderState, RangeEncoder};
use crate::range_coder::interval::{
    bit_length, ilog, lemma_bit_length, lemma_bit_length_monotone, lemma_part, lemma_settled_length,
    settled, Interval, BOTTOM, TOP,
};
use crate::range_coder::laws::names;

verus! {

/// The shortest period of the comb filter.
pub const COMBFILTER_MINPERIOD: usize = 15;

/// The longest period of the comb filter.
pub const COMBFILTER_MAXPERIOD: usize = 1024;

/// The postfilter's parameters.
#[derive(Debug, Clone, Copy, PartialEq, Eq, Structural)]
pub struct Postfilter {
    /// The period.
    pub pitch_index: usize,
    /// The gain, as one less than its number of steps of 3/32.
    pub gain_index: u32,
    /// Which of the three responses is used.
    pub tapset: u32,
}

impl Postfilter {
    /// Whether the parameters can be spelled out.
    pub open spec fn wf(self) -> bool {
        &&& COMBFILTER_MINPERIOD <= self.pitch_index <= 1022
        &&& self.gain_index < 8
        &&& self.tapset < 3
    }
}

/// The octave that a period is in, counted from the shortest.
pub open spec fn octave_of(pitch_index: int) -> int {
    bit_length(pitch_index + 1) - 5
}

/// Where in its octave a period is.
pub open spec fn residual_of(pitch_index: int) -> int {
    pitch_index + 1 - 16 * two_to(octave_of(pitch_index))
}

/// The period that an octave and the place in it stand for.
pub open spec fn period_of(octave: int, residual: int) -> int {
    16 * two_to(octave) + residual - 1
}

/// A period's octave and the place in it stand for the period, and fit their
/// fields: one of six octaves, and four bits and one more for each octave.
pub proof fn law_period_fields_round_trip(pitch_index: int)
    requires
        COMBFILTER_MINPERIOD <= pitch_index <= 1022,
    ensures
        0 <= octave_of(pitch_index) <= 5,
        0 <= residual_of(pitch_index) < two_to(4 + octave_of(pitch_index)),
        period_of(octave_of(pitch_index), residual_of(pitch_index)) == pitch_index,
{
    let pi = pitch_index + 1;
    let octave = octave_of(pitch_index);
    lemma_bit_length(pi);
    lemma_bit_length_monotone(16, pi);
    lemma_bit_length_monotone(pi, 1023);
    reveal_with_fuel(bit_length, 12);
    assert(bit_length(16) == 5);
    assert(bit_length(1023) == 10);
    crate::range_coder::interval::lemma_two_to_sum(4, octave);
    assert(two_to(4) == 16) by {
        reveal_with_fuel(two_to, 5);
    }
    assert(two_to(5 + octave) == 2 * two_to(4 + octave));
}

/// The flag that says that a frame is silent.
pub open spec fn silence_flag() -> Alphabet {
    Alphabet::Bit { logp: 15 }
}

/// The flag that says that a frame has a postfilter.
pub open spec fn postfilter_flag() -> Alphabet {
    Alphabet::Bit { logp: 1 }
}

/// The flag that says that a frame is a transient.
pub open spec fn transient_flag() -> Alphabet {
    Alphabet::Bit { logp: 3 }
}

/// The octave of a period.
pub open spec fn octave_alphabet() -> Alphabet {
    Alphabet::Uniform { count: 6 }
}

/// A flag's value.
pub open spec fn flag(b: bool) -> int {
    if b {
        1
    } else {
        0
    }
}

/// The bytes of a silent frame: what is filled and two more, but at least two.
pub open spec fn silent_bytes(tell: int, total: int) -> int {
    greatest(least(total / 8, (tell + 7) / 8 + 2), 2)
}

/// A frame's silence, coded: what the coder holds, whether the frame goes on as
/// a silent one, and its bits. The flag is only there when nothing was coded
/// before it. A silent frame has no bits left, so that nothing after it is
/// coded; its size shrinks unless the rate is fixed.
pub open spec fn write_silence(e: EncoderState, silence: bool, total: int, vbr: bool) -> (
    EncoderState,
    bool,
    int,
) {
    if e.meter().tell() != 1 {
        (e, false, total)
    } else {
        let f = e.coded(silence_flag(), flag(silence));
        if !silence {
            (f, false, total)
        } else if vbr {
            let n = silent_bytes(f.meter().tell(), total);
            (EncoderState { storage: n, ..f }.skipped_to(8 * n), true, 8 * n)
        } else {
            (f.skipped_to(total), true, total)
        }
    }
}

/// A frame's silence, read. A frame without bits is silent too.
pub open spec fn read_silence(d: DecoderState, total: int) -> (DecoderState, bool) {
    if d.meter().tell() >= total {
        (d.skipped_to(total), true)
    } else if d.meter().tell() != 1 {
        (d, false)
    } else {
        let f = d.read(silence_flag());
        if d.value(silence_flag()) == 1 {
            (f.skipped_to(total), true)
        } else {
            (f, false)
        }
    }
}

/// Whether a frame says if it has a postfilter: only a frame with all bands,
/// that is not silent, and that has the bits for it.
pub open spec fn says_postfilter(tell: int, start_band: int, silent: bool, total: int) -> bool {
    start_band == 0 && !silent && tell + 16 <= total
}

/// The postfilter's parameters, coded.
pub open spec fn write_parameters(e: EncoderState, pf: Postfilter) -> EncoderState {
    let octave = octave_of(pf.pitch_index as int);
    e.coded(octave_alphabet(), octave).with_raw(
        residual_of(pf.pitch_index as int),
        4 + octave,
    ).with_raw(pf.gain_index as int, 3).coded(Alphabet::Tapset, pf.tapset as int)
}

/// A frame's postfilter, coded.
pub open spec fn write_postfilter(
    e: EncoderState,
    pf: Option<Postfilter>,
    start_band: int,
    silent: bool,
    total: int,
) -> EncoderState {
    if !says_postfilter(e.meter().tell(), start_band, silent, total) {
        e
    } else {
        let f = e.coded(postfilter_flag(), flag(pf is Some));
        match pf {
            None => f,
            Some(pf) => write_parameters(f, pf),
        }
    }
}

/// The postfilter's parameters, read. The response is left at the first where
/// there are no bits for it.
pub open spec fn read_parameters(d: DecoderState, total: int) -> (DecoderState, Postfilter) {
    let octave = d.value(octave_alphabet());
    let d1 = d.read(octave_alphabet());
    let residual = raw_value(d1.data, d1.raw, 4 + octave);
    let d2 = d1.read_raw(4 + octave);
    let gain = raw_value(d2.data, d2.raw, 3);
    let d3 = d2.read_raw(3);
    let has_tapset = d3.meter().tell() + 2 <= total;
    let pf = Postfilter {
        pitch_index: period_of(octave, residual) as usize,
        gain_index: gain as u32,
        tapset: if has_tapset {
            d3.value(Alphabet::Tapset) as u32
        } else {
            0
        },
    };
    (
        if has_tapset {
            d3.read(Alphabet::Tapset)
        } else {
            d3
        },
        pf,
    )
}

/// A frame's postfilter, read.
pub open spec fn read_postfilter(d: DecoderState, start_band: int, silent: bool, total: int) -> (
    DecoderState,
    Option<Postfilter>,
) {
    if !says_postfilter(d.meter().tell(), start_band, silent, total) {
        (d, None)
    } else {
        let f = d.read(postfilter_flag());
        if d.value(postfilter_flag()) == 1 {
            let (g, pf) = read_parameters(f, total);
            (g, Some(pf))
        } else {
            (f, None)
        }
    }
}

/// Whether a frame says if it is a transient: only one that can be cut into
/// short blocks, and that has the bits for it.
pub open spec fn says_transient(tell: int, lm: int, total: int) -> bool {
    lm > 0 && tell + 3 <= total
}

/// Whether a frame is a transient, coded.
pub open spec fn write_transient(e: EncoderState, transient: bool, lm: int, total: int)
    -> EncoderState {
    if says_transient(e.meter().tell(), lm, total) {
        e.coded(transient_flag(), flag(transient))
    } else {
        e
    }
}

/// Whether a frame is a transient, read.
pub open spec fn read_transient(d: DecoderState, lm: int, total: int) -> (DecoderState, bool) {
    if says_transient(d.meter().tell(), lm, total) {
        (d.read(transient_flag()), d.value(transient_flag()) == 1)
    } else {
        (d, false)
    }
}

/// What a frame starts with, coded.
pub open spec fn write_header(
    e: EncoderState,
    h: FrameHeader,
    start_band: int,
    lm: int,
    total: int,
    vbr: bool,
) -> (EncoderState, bool, int) {
    let (e1, silent, bits) = write_silence(e, h.silence, total, vbr);
    let e2 = write_postfilter(e1, h.postfilter, start_band, silent, bits);
    (write_transient(e2, h.transient, lm, bits), silent, bits)
}

/// What a frame starts with, read.
pub open spec fn read_header(d: DecoderState, start_band: int, lm: int, total: int) -> (
    DecoderState,
    FrameHeader,
) {
    let (d1, silence) = read_silence(d, total);
    let (d2, postfilter) = read_postfilter(d1, start_band, silence, total);
    let (d3, transient) = read_transient(d2, lm, total);
    (d3, FrameHeader { silence, postfilter, transient })
}

/// What a frame starts with.
#[derive(Debug, Clone, Copy, PartialEq, Eq, Structural)]
pub struct FrameHeader {
    /// Whether there is nothing in it.
    pub silence: bool,
    /// The postfilter's parameters, where it has one.
    pub postfilter: Option<Postfilter>,
    /// Whether it is cut into short blocks.
    pub transient: bool,
}

/// A number's length grows by eight when it is scaled up.
proof fn lemma_length_scaled(n: int)
    requires
        0 < n,
    ensures
        bit_length(n * 256) == bit_length(n) + 8,
{
    reveal_with_fuel(bit_length, 9);
    assert((n * 256) / 2 == n * 128);
    assert((n * 128) / 2 == n * 64);
    assert((n * 64) / 2 == n * 32);
    assert((n * 32) / 2 == n * 16);
    assert((n * 16) / 2 == n * 8);
    assert((n * 8) / 2 == n * 4);
    assert((n * 4) / 2 == n * 2);
    assert((n * 2) / 2 == n);
}

/// Scaling an interval up does not change the bits used.
proof fn lemma_settled_cost(i: Interval)
    requires
        0 < i.rng <= TOP,
    ensures
        8 * settled(i).shifts - bit_length(settled(i).rng) == 8 * i.shifts - bit_length(i.rng),
    decreases (if i.rng <= BOTTOM {
        BOTTOM - i.rng + 1
    } else {
        0
    }),
{
    if i.rng <= BOTTOM {
        lemma_length_scaled(i.rng);
        lemma_settled_cost(
            Interval { low: i.low * 256, rng: i.rng * 256, shifts: i.shifts + 1 },
        );
    }
}

/// A value whose part is not less than an interval divided by two to `k` costs
/// no more than `k` bits.
proof fn lemma_cost(e: EncoderState, alphabet: Alphabet, s: int, k: int)
    requires
        e.interval.wf(),
        alphabet.wf(),
        0 <= s < alphabet.count(),
        0 <= k <= 3,
        e.interval.rng / two_to(k) <= e.interval.part(alphabet, s).rng,
    ensures
        e.coded(alphabet, s).meter().tell() <= e.meter().tell() + k,
{
    lemma_part(e.interval, alphabet, s);
    lemma_settled_cost(e.interval.part(alphabet, s));
    let rng = e.interval.rng;
    reveal_with_fuel(bit_length, 4);
    reveal_with_fuel(two_to, 4);
    assert(bit_length(rng / two_to(k)) == bit_length(rng) - k) by {
        if k == 2 {
            assert(rng / 4 == (rng / 2) / 2);
        } else if k == 3 {
            assert(rng / 4 == (rng / 2) / 2);
            assert(rng / 8 == (rng / 4) / 2);
        }
    }
    assert(0 <= rng / two_to(k));
    lemma_bit_length_monotone(rng / two_to(k), e.interval.part(alphabet, s).rng);
}

/// An octave costs no more than three bits, and the postfilter's flag one.
proof fn lemma_field_costs(e: EncoderState, octave: int, b: bool)
    requires
        e.interval.wf(),
        0 <= octave <= 5,
    ensures
        e.coded(octave_alphabet(), octave).meter().tell() <= e.meter().tell() + 3,
        e.coded(postfilter_flag(), flag(b)).meter().tell() <= e.meter().tell() + 1,
{
    let rng = e.interval.rng;
    lemma_two_to_values();
    assert(two_to(3) == 2 * two_to(2));
    let unit = rng / 6;
    assert(octave_alphabet().edge(rng, octave + 1) - octave_alphabet().edge(rng, octave) >= unit)
        by {
        if octave == 0 {
            assert(rng - unit * 5 >= unit);
        } else if octave < 5 {
            assert(unit * (6 - octave) == unit * (6 - (octave + 1)) + unit) by (nonlinear_arith);
        } else {
            assert(unit * 1 == unit);
        }
    }
    lemma_cost(e, octave_alphabet(), octave, 3);
    lemma_cost(e, postfilter_flag(), flag(b), 1);
}

/// The postfilter's parameters come back, where there are bits for all of them.
proof fn lemma_parameters_come_back(d: DecoderState, e: EncoderState, pf: Postfilter, total: int)
    requires
        in_step(d, e),
        pf.wf(),
        e.meter().tell() + 17 <= total,
        names(d.data, write_parameters(e, pf).interval),
        holds_raw(d.data, write_parameters(e, pf).raw),
    ensures
        ({
            let (after, read) = read_parameters(d, total);
            &&& read == pf
            &&& in_step(after, write_parameters(e, pf))
            &&& after.data == d.data
        }),
{
    let pitch = pf.pitch_index as int;
    let octave = octave_of(pitch);
    law_period_fields_round_trip(pitch);
    let e1 = e.coded(octave_alphabet(), octave);
    let e2 = e1.with_raw(residual_of(pitch), 4 + octave);
    let e3 = e2.with_raw(pf.gain_index as int, 3);
    lemma_part(e.interval, octave_alphabet(), octave);
    lemma_names_earlier(d.data, e3, Alphabet::Tapset, pf.tapset as int);
    lemma_in_step(d, e, octave_alphabet(), octave);
    let d1 = d.read(octave_alphabet());
    lemma_holds_earlier(d.data, e2.raw, bits_of(pf.gain_index as int, 3));
    lemma_raw_in_step(d1, e1, residual_of(pitch), 4 + octave);
    let d2 = d1.read_raw(4 + octave);
    lemma_two_to_values();
    assert(two_to(3) == 2 * two_to(2));
    lemma_raw_in_step(d2, e2, pf.gain_index as int, 3);
    let d3 = d2.read_raw(3);
    lemma_field_costs(e, octave, true);
    assert(e3.meter().tell() == e1.meter().tell() + 4 + octave + 3);
    lemma_in_step(d3, e3, Alphabet::Tapset, pf.tapset as int);
}

/// A decoder finds what a frame starts with as the encoder spelled it out, and
/// is in step with it afterwards: the postfilter where the frame says it has
/// one, the transient where it says so. The decoder counts the bits of the frame
/// as it was in the end, and these have to hold the postfilter's last field.
pub proof fn law_header_comes_back(
    d: DecoderState,
    e: EncoderState,
    h: FrameHeader,
    start_band: int,
    lm: int,
    total: int,
    vbr: bool,
)
    requires
        in_step(d, e),
        h.postfilter matches Some(pf) ==> pf.wf(),
        ({
            let (after, silent, bits) = write_header(e, h, start_band, lm, total, vbr);
            let (e1, _, _) = write_silence(e, h.silence, total, vbr);
            &&& names(d.data, after.interval)
            &&& holds_raw(d.data, after.raw)
            &&& e.meter().tell() < bits
            &&& h.postfilter is Some ==> e1.meter().tell() + 18 <= bits
        }),
    ensures
        ({
            let (after, silent, bits) = write_header(e, h, start_band, lm, total, vbr);
            let (d_after, read) = read_header(d, start_band, lm, bits);
            &&& read.silence == silent
            &&& read.postfilter == (if start_band == 0 && !silent {
                h.postfilter
            } else {
                None
            })
            &&& read.transient == cut_short(e, h, start_band, lm, total, vbr)
            &&& in_step(d_after, after)
        }),
{
    let (e1, silent, bits) = write_silence(e, h.silence, total, vbr);
    let e2 = write_postfilter(e1, h.postfilter, start_band, silent, bits);
    let e3 = write_transient(e2, h.transient, lm, bits);
    let data = d.data;
    // Every interval on the way can be divided.
    lemma_part(e.interval, silence_flag(), flag(h.silence));
    assert(e1.interval.wf());
    let says = says_postfilter(e1.meter().tell(), start_band, silent, bits);
    let f = e1.coded(postfilter_flag(), flag(h.postfilter is Some));
    lemma_part(e1.interval, postfilter_flag(), flag(h.postfilter is Some));
    assert(e2.interval.wf()) by {
        if says {
            if let Some(pf) = h.postfilter {
                let octave = octave_of(pf.pitch_index as int);
                law_period_fields_round_trip(pf.pitch_index as int);
                lemma_part(f.interval, octave_alphabet(), octave);
                lemma_part(
                    f.coded(octave_alphabet(), octave).interval,
                    Alphabet::Tapset,
                    pf.tapset as int,
                );
            }
        }
    }
    // The number lies in every one of them.
    if says_transient(e2.meter().tell(), lm, bits) {
        lemma_names_earlier(data, e2, transient_flag(), flag(h.transient));
    }
    assert(names(data, e2.interval));
    assert(holds_raw(data, e2.raw));
    assert(names(data, e1.interval)) by {
        if says {
            if let Some(pf) = h.postfilter {
                let octave = octave_of(pf.pitch_index as int);
                law_period_fields_round_trip(pf.pitch_index as int);
                lemma_part(f.interval, octave_alphabet(), octave);
                let g = f.coded(octave_alphabet(), octave);
                lemma_names_earlier(data, g, Alphabet::Tapset, pf.tapset as int);
                lemma_names_earlier(data, f, octave_alphabet(), octave);
            }
            lemma_names_earlier(data, e1, postfilter_flag(), flag(h.postfilter is Some));
        }
    }
    // Silence.
    if e.meter().tell() == 1 {
        lemma_in_step(d, e, silence_flag(), flag(h.silence));
    }
    let (d1, silence) = read_silence(d, bits);
    assert(silence == silent && in_step(d1, e1) && d1.data == data);
    // The postfilter.
    if says {
        if let Some(pf) = h.postfilter {
            let octave = octave_of(pf.pitch_index as int);
            law_period_fields_round_trip(pf.pitch_index as int);
            lemma_part(f.interval, octave_alphabet(), octave);
            let g = f.coded(octave_alphabet(), octave);
            lemma_names_earlier(data, g, Alphabet::Tapset, pf.tapset as int);
            lemma_names_earlier(data, f, octave_alphabet(), octave);
            lemma_in_step(d1, e1, postfilter_flag(), 1);
            lemma_field_costs(e1, octave, true);
            lemma_parameters_come_back(d1.read(postfilter_flag()), f, pf, bits);
        } else {
            lemma_in_step(d1, e1, postfilter_flag(), 0);
        }
    }
    let (d2, postfilter) = read_postfilter(d1, start_band, silence, bits);
    assert(in_step(d2, e2) && d2.data == data);
    // The transient.
    if says_transient(e2.meter().tell(), lm, bits) {
        lemma_in_step(d2, e2, transient_flag(), flag(h.transient));
    }
}

/// What a frame goes on as once its start is spelled out.
#[derive(Debug, Clone, Copy, PartialEq, Eq, Structural)]
pub struct CodedHeader {
    /// Whether it goes on as a silent one.
    pub silent: bool,
    /// Whether it is cut into short blocks, which it is only where the decoder
    /// could be told so.
    pub short: bool,
    /// Its bits.
    pub bits: i32,
}

/// Whether a frame is cut into short blocks: where it is a transient, and there
/// are the bits to say so after the rest of its start.
pub open spec fn cut_short(
    e: EncoderState,
    h: FrameHeader,
    start_band: int,
    lm: int,
    total: int,
    vbr: bool,
) -> bool {
    let (e1, silent, bits) = write_silence(e, h.silence, total, vbr);
    let e2 = write_postfilter(e1, h.postfilter, start_band, silent, bits);
    h.transient && says_transient(e2.meter().tell(), lm, bits)
}

/// Spell out what a frame starts with, and say what it goes on as.
pub fn encode_header(
    h: FrameHeader,
    start_band: usize,
    lm: usize,
    total_bits: i32,
    vbr: bool,
    rc: &mut RangeEncoder,
) -> (r: CodedHeader)
    requires
        old(rc).wf(),
        old(rc)@.meter().bits() <= 0x20_0000,
        old(rc)@.skipped == 0,
        0 <= total_bits <= 0x20_0000,
        h.postfilter matches Some(pf) ==> pf.wf(),
    ensures
        final(rc).wf(),
        (final(rc)@, r.silent, r.bits as int) == write_header(
            old(rc)@,
            h,
            start_band as int,
            lm as int,
            total_bits as int,
            vbr,
        ),
        r.short == cut_short(
            old(rc)@,
            h,
            start_band as int,
            lm as int,
            total_bits as int,
            vbr,
        ),
        final(rc)@.meter().bits() <= 0x41_0000,
        16 <= r.bits <= total_bits || r.bits == total_bits || r.bits == 16,
{
    let (silent, bits): (bool, i32) = encode_silence(h.silence, total_bits, vbr, rc);
    encode_postfilter(h.postfilter, start_band, silent, bits, rc);
    let mut short: bool = false;
    if lm > 0 && rc.tell() + 3 <= bits {
        let value: u32 = if h.transient {
            1
        } else {
            0
        };
        rc.encode(Alphabet::Bit { logp: 3 }, value);
        short = h.transient;
    }
    CodedHeader { silent, short, bits }
}

/// Spell out whether a frame is silent.
fn encode_silence(silence: bool, total_bits: i32, vbr: bool, rc: &mut RangeEncoder) -> (r: (
    bool,
    i32,
))
    requires
        old(rc).wf(),
        old(rc)@.meter().bits() <= 0x20_0000,
        old(rc)@.skipped == 0,
        0 <= total_bits <= 0x20_0000,
    ensures
        final(rc).wf(),
        (final(rc)@, r.0, r.1 as int) == write_silence(
            old(rc)@,
            silence,
            total_bits as int,
            vbr,
        ),
        final(rc)@.meter().bits() <= 0x40_0400,
        16 <= r.1 <= total_bits || r.1 == total_bits || r.1 == 16,
        0 <= r.1 <= 0x20_0010,
{
    proof {
        rc.lemma_bounded();
        lemma_settled_length(rc@.interval.rng);
    }
    if rc.tell() != 1 {
        return (false, total_bits);
    }
    if !silence {
        rc.encode(Alphabet::Bit { logp: 15 }, 0);
        return (false, total_bits);
    }
    rc.encode(Alphabet::Bit { logp: 15 }, 1);
    proof {
        rc.lemma_bounded();
        lemma_settled_length(rc@.interval.rng);
    }
    let mut bits: i32 = total_bits;
    if vbr {
        let filled: i32 = (rc.tell() + 7) / 8;
        let n: i32 = max_i32(min_i32(total_bits / 8, filled + 2), 2);
        rc.shrink(n as usize);
        bits = 8 * n;
    }
    rc.skip_to(bits);
    proof {
        rc.lemma_bounded();
        lemma_settled_length(rc@.interval.rng);
    }
    (true, bits)
}

/// Spell out a frame's postfilter.
fn encode_postfilter(
    pf: Option<Postfilter>,
    start_band: usize,
    silent: bool,
    bits: i32,
    rc: &mut RangeEncoder,
)
    requires
        old(rc).wf(),
        old(rc)@.meter().bits() <= 0x40_0400,
        0 <= bits <= 0x20_0010,
        pf matches Some(p) ==> p.wf(),
    ensures
        final(rc).wf(),
        final(rc)@ == write_postfilter(old(rc)@, pf, start_band as int, silent, bits as int),
        final(rc)@.meter().bits() <= old(rc)@.meter().bits() + 200,
{
    if start_band == 0 && !silent && rc.tell() + 16 <= bits {
        match pf {
            None => rc.encode(Alphabet::Bit { logp: 1 }, 0),
            Some(p) => {
                rc.encode(Alphabet::Bit { logp: 1 }, 1);
                proof {
                    law_period_fields_round_trip(p.pitch_index as int);
                    lemma_two_to_monotone(octave_of(p.pitch_index as int), 5);
                    lemma_two_to_values();
                }
                let pi: u32 = p.pitch_index as u32 + 1;
                let octave: u32 = ilog(pi) - 5;
                rc.encode(Alphabet::Uniform { count: 6 }, octave);
                rc.enc_bits(pi - 16 * power_of_two(octave), 4 + octave);
                rc.enc_bits(p.gain_index, 3);
                rc.encode(Alphabet::Tapset, p.tapset);
            },
        }
    }
}

/// Read what a frame starts with.
pub fn decode_header(start_band: usize, lm: usize, total_bits: i32, rc: &mut RangeDecoder) -> (h:
    FrameHeader)
    requires
        old(rc).wf(),
        old(rc)@.meter().bits() <= 0x20_0000,
        old(rc)@.skipped == 0,
        0 <= total_bits <= 0x20_0010,
    ensures
        final(rc).wf(),
        (final(rc)@, h) == read_header(
            old(rc)@,
            start_band as int,
            lm as int,
            total_bits as int,
        ),
        final(rc)@.meter().bits() <= 0x41_0000,
        h.postfilter matches Some(pf) ==> pf.pitch_index >= COMBFILTER_MINPERIOD && pf.pitch_index
            < COMBFILTER_MAXPERIOD && pf.gain_index < 8 && pf.tapset < 3,
{
    let silence: bool = decode_silence(total_bits, rc);
    let postfilter: Option<Postfilter> = decode_postfilter(start_band, silence, total_bits, rc);
    let transient: bool = if lm > 0 && rc.tell() + 3 <= total_bits {
        rc.decode(Alphabet::Bit { logp: 3 }) == 1
    } else {
        false
    };
    FrameHeader { silence, postfilter, transient }
}

/// Read whether a frame is silent.
fn decode_silence(total_bits: i32, rc: &mut RangeDecoder) -> (silence: bool)
    requires
        old(rc).wf(),
        old(rc)@.meter().bits() <= 0x20_0000,
        old(rc)@.skipped == 0,
        0 <= total_bits <= 0x20_0010,
    ensures
        final(rc).wf(),
        (final(rc)@, silence) == read_silence(old(rc)@, total_bits as int),
        final(rc)@.meter().bits() <= 0x40_0400,
{
    proof {
        lemma_settled_length(rc@.place.rng);
    }
    let tell: i32 = rc.tell();
    let silence: bool = if tell >= total_bits {
        true
    } else if tell == 1 {
        rc.decode(Alphabet::Bit { logp: 15 }) == 1
    } else {
        false
    };
    if silence {
        proof {
            lemma_settled_length(rc@.place.rng);
        }
        rc.skip_to(total_bits);
        proof {
            lemma_settled_length(rc@.place.rng);
        }
    }
    silence
}

/// Read a frame's postfilter.
fn decode_postfilter(start_band: usize, silent: bool, total_bits: i32, rc: &mut RangeDecoder) -> (pf:
    Option<Postfilter>)
    requires
        old(rc).wf(),
        old(rc)@.meter().bits() <= 0x40_0400,
        0 <= total_bits <= 0x20_0010,
    ensures
        final(rc).wf(),
        (final(rc)@, pf) == read_postfilter(
            old(rc)@,
            start_band as int,
            silent,
            total_bits as int,
        ),
        final(rc)@.meter().bits() <= old(rc)@.meter().bits() + 200,
        pf matches Some(p) ==> p.pitch_index >= COMBFILTER_MINPERIOD && p.pitch_index
            < COMBFILTER_MAXPERIOD && p.gain_index < 8 && p.tapset < 3,
{
    if !(start_band == 0 && !silent && rc.tell() + 16 <= total_bits) {
        return None;
    }
    if rc.decode(Alphabet::Bit { logp: 1 }) != 1 {
        return None;
    }
    let octave: u32 = rc.decode(Alphabet::Uniform { count: 6 });
    proof {
        lemma_two_to_values();
        lemma_two_to_monotone(octave as int, 5);
        lemma_two_to_monotone(0, octave as int);
        crate::range_coder::interval::lemma_two_to_sum(4, octave as int);
        assert(two_to(4) == 16) by {
            reveal_with_fuel(two_to, 5);
        }
    }
    let residual: u32 = rc.dec_bits(4 + octave);
    let gain_index: u32 = rc.dec_bits(3);
    let tapset: u32 = if rc.tell() + 2 <= total_bits {
        rc.decode(Alphabet::Tapset)
    } else {
        0
    };
    assert(two_to(3) == 8) by {
        reveal_with_fuel(two_to, 4);
    }
    let pitch_index: usize = (16 * power_of_two(octave) + residual - 1) as usize;
    Some(Postfilter { pitch_index, gain_index, tapset })
}

} // verus!
