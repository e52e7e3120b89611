//! A decoder that goes along with an encoder.

use vstd::arithmetic::div_mod::{lemma_fundamental_div_mod, lemma_fundamental_div_mod_converse};
use vstd::prelude::*;

use crate::range_coder::alphabet::{lemma_two_to_monotone, two_to, Alphabet};
use crate::range_coder::decoder::{raw_bit, raw_value, DecoderState};
use crate::range_coder::encoder::{bits_of, EncoderState};
use crate::range_coder::interval::lemma_part;
use crate::range_coder::laws::{lemma_one_comes_back, names, place_in};

verus! {

/// Whether a decoder stands where an encoder stood: its number lies in the
/// encoder's interval, it has read as many raw bits as were written, and both
/// count the same bits.
pub open spec fn in_step(d: DecoderState, e: EncoderState) -> bool {
    &&& e.interval.wf()
    &&& names(d.data, e.interval)
    &&& d.place == place_in(d.data, e.interval)
    &&& d.raw == e.raw.len()
    &&& d.skipped == e.skipped
}

/// A decoder in step reads the value that the encoder codes, and stays in step,
/// as long as its number lies in the interval that the value leaves behind.
pub proof fn lemma_in_step(d: DecoderState, e: EncoderState, alphabet: Alphabet, s: int)
    requires
        in_step(d, e),
        alphabet.wf(),
        0 <= s < alphabet.count(),
        names(d.data, e.coded(alphabet, s).interval),
    ensures
        d.value(alphabet) == s,
        in_step(d.read(alphabet), e.coded(alphabet, s)),
        d.read(alphabet).data == d.data,
        d.meter() == e.meter(),
        d.read(alphabet).meter() == e.coded(alphabet, s).meter(),
        d.read(alphabet).raw == d.raw,
        d.read(alphabet).skipped == d.skipped,
{
    lemma_one_comes_back(d, e.interval, alphabet, s);
}

/// A number in the interval that a value leaves behind lies in the interval
/// before it.
pub proof fn lemma_names_earlier(data: Seq<u8>, e: EncoderState, alphabet: Alphabet, s: int)
    requires
        e.interval.wf(),
        alphabet.wf(),
        0 <= s < alphabet.count(),
        names(data, e.coded(alphabet, s).interval),
    ensures
        names(data, e.interval),
        e.coded(alphabet, s).interval.wf(),
{
    let d = DecoderState {
        data,
        place: place_in(data, e.interval),
        raw: 0,
        skipped: 0,
    };
    lemma_part(e.interval, alphabet, s);
    lemma_one_comes_back(d, e.interval, alphabet, s);
}

/// Whether bytes hold raw bits at their end.
pub open spec fn holds_raw(data: Seq<u8>, raw: Seq<bool>) -> bool {
    forall|j: int| 0 <= j < raw.len() ==> raw_bit(data, j) == #[trigger] raw[j]
}

/// Raw bits that bytes hold read back as the number that they were.
proof fn lemma_raw_value(data: Seq<u8>, from: int, value: int, total: int, n: int)
    requires
        0 <= n <= total,
        0 <= value,
        forall|j: int| 0 <= j < total ==> raw_bit(data, from + j) == #[trigger] bits_of(
            value,
            total,
        )[j],
    ensures
        raw_value(data, from, n) == value % two_to(n),
    decreases n,
{
    lemma_two_to_monotone(0, n);
    if n > 0 {
        lemma_raw_value(data, from, value, total, n - 1);
        lemma_two_to_monotone(0, n - 1);
        let p = two_to(n - 1);
        assert(bits_of(value, total)[n - 1] == raw_bit(data, from + n - 1));
        let q = value / p;
        let r = value % p;
        lemma_fundamental_div_mod(value, p);
        lemma_fundamental_div_mod(q, 2);
        let bit = q % 2;
        assert(value == (2 * p) * (q / 2) + (bit * p + r)) by (nonlinear_arith)
            requires
                value == p * q + r,
                q == 2 * (q / 2) + bit,
        ;
        assert(0 <= r < p) by (nonlinear_arith)
            requires
                r == value % p,
                p > 0,
        ;
        assert(0 <= bit * p + r < 2 * p) by (nonlinear_arith)
            requires
                0 <= bit <= 1,
                0 <= r < p,
        ;
        assert((2 * p) * (q / 2) == (q / 2) * (2 * p)) by (nonlinear_arith);
        lemma_fundamental_div_mod_converse(value, 2 * p, q / 2, bit * p + r);
        assert(bit == 0 || bit == 1);
        assert(0 * p == 0 && 1 * p == p);
    } else {
        assert(two_to(0) == 1);
        assert(value % 1 == 0);
    }
}

/// A decoder in step reads the raw bits that the encoder wrote, and stays in
/// step.
pub proof fn lemma_raw_in_step(d: DecoderState, e: EncoderState, value: int, n: int)
    requires
        in_step(d, e),
        0 <= n,
        0 <= value < two_to(n),
        holds_raw(d.data, e.with_raw(value, n).raw),
    ensures
        raw_value(d.data, d.raw, n) == value,
        in_step(d.read_raw(n), e.with_raw(value, n)),
        d.read_raw(n).data == d.data,
        d.read_raw(n).meter() == e.with_raw(value, n).meter(),
{
    let all = e.with_raw(value, n).raw;
    let from = e.raw.len() as int;
    assert forall|j: int| 0 <= j < n implies raw_bit(d.data, from + j) == #[trigger] bits_of(
        value,
        n,
    )[j] by {
        assert(all[from + j] == bits_of(value, n)[j]);
        assert(raw_bit(d.data, from + j) == all[from + j]);
    }
    lemma_raw_value(d.data, from, value, n, n);
    vstd::arithmetic::div_mod::lemma_small_mod(value as nat, two_to(n) as nat);
}

/// What holds the raw bits after more of them holds those before.
pub proof fn lemma_holds_earlier(data: Seq<u8>, raw: Seq<bool>, more: Seq<bool>)
    requires
        holds_raw(data, raw + more),
    ensures
        holds_raw(data, raw),
{
    assert forall|j: int| 0 <= j < raw.len() implies raw_bit(data, j) == #[trigger] raw[j] by {
        assert((raw + more)[j] == raw[j]);
    }
}

} // verus!
