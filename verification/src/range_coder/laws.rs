//! What is coded comes back.

use vstd::prelude::*;

use crate::range_coder::alphabet::{lemma_value_found, Alphabet};
use crate::range_coder::closing::{
    all_fits, law_closing_names_the_interval, law_raw_bits_come_back, lemma_scale_sum, whole_bytes,
};
use crate::range_coder::decoder::{
    code, lemma_code_step, opened, raw_bit, settled_place, DecoderState, Place,
};
use crate::range_coder::interval::{
    lemma_part, lemma_scale_positive, lemma_settled_scale, scale, settled, whole, Interval, BOTTOM,
    TOP,
};

verus! {

/// A value of an alphabet.
pub struct Symbol {
    /// What it can be.
    pub alphabet: Alphabet,
    /// What it is.
    pub value: int,
}

impl Symbol {
    /// Whether the value is one of the alphabet's.
    pub open spec fn wf(self) -> bool {
        self.alphabet.wf() && 0 <= self.value < self.alphabet.count()
    }
}

/// Whether every symbol is a value of its alphabet.
pub open spec fn valid(symbols: Seq<Symbol>) -> bool {
    forall|k: int| 0 <= k < symbols.len() ==> (#[trigger] symbols[k]).wf()
}

/// The interval after the first `n` symbols.
pub open spec fn all_coded(i: Interval, symbols: Seq<Symbol>, n: int) -> Interval
    decreases n,
{
    if n <= 0 {
        i
    } else {
        all_coded(i, symbols, n - 1).coded(symbols[n - 1].alphabet, symbols[n - 1].value)
    }
}

/// The decoder after the first `n` symbols.
pub open spec fn all_read(d: DecoderState, symbols: Seq<Symbol>, n: int) -> DecoderState
    decreases n,
{
    if n <= 0 {
        d
    } else {
        all_read(d, symbols, n - 1).read(symbols[n - 1].alphabet)
    }
}

/// Whether the number that some bytes name lies in an interval.
pub open spec fn names(data: Seq<u8>, i: Interval) -> bool {
    i.low <= code(data, i.shifts) < i.low + i.rng
}

/// Where the number that some bytes name lies in an interval.
pub open spec fn place_in(data: Seq<u8>, i: Interval) -> Place {
    Place { at: code(data, i.shifts) - i.low, rng: i.rng, shifts: i.shifts }
}

/// A number goes on with as many bits as its interval is scaled up by.
proof fn lemma_code_scale(data: Seq<u8>, shifts: int, more: int)
    requires
        0 <= shifts,
        0 <= more,
    ensures
        code(data, shifts) * scale(more) <= code(data, shifts + more) < (code(data, shifts) + 1)
            * scale(more),
    decreases more,
{
    if more > 0 {
        lemma_code_scale(data, shifts, more - 1);
        lemma_code_step(data, shifts + more - 1);
        let c = code(data, shifts);
        let k = scale(more - 1);
        assert(c * (256 * k) == 256 * (c * k)) by (nonlinear_arith);
        assert((c + 1) * (256 * k) == 256 * ((c + 1) * k)) by (nonlinear_arith);
    } else {
        assert(code(data, shifts) * 1 == code(data, shifts));
        assert((code(data, shifts) + 1) * 1 == code(data, shifts) + 1);
    }
}

/// A number that lies in the scaled interval lies in the interval.
proof fn lemma_names_before_scaling(data: Seq<u8>, i: Interval)
    requires
        0 < i.rng <= TOP,
        0 <= i.shifts,
        names(data, settled(i)),
    ensures
        names(data, i),
{
    lemma_settled_scale(i);
    let j = settled(i);
    let m = j.shifts - i.shifts;
    let k = scale(m);
    let c = code(data, i.shifts);
    lemma_scale_positive(m);
    lemma_code_scale(data, i.shifts, m);
    assert(i.low <= c) by (nonlinear_arith)
        requires
            i.low * k < (c + 1) * k,
            k >= 1,
    ;
    assert(i.low * k + i.rng * k == (i.low + i.rng) * k) by (nonlinear_arith);
    assert(c < i.low + i.rng) by (nonlinear_arith)
        requires
            c * k < (i.low + i.rng) * k,
            k >= 1,
    ;
}

/// The decoder scales its place as the encoder scales its interval.
proof fn lemma_scaled_together(data: Seq<u8>, i: Interval)
    requires
        0 < i.rng <= TOP,
        0 <= i.shifts,
    ensures
        settled_place(data, place_in(data, i)) == place_in(data, settled(i)),
    decreases (if i.rng <= BOTTOM {
        BOTTOM - i.rng + 1
    } else {
        0
    }),
{
    if i.rng <= BOTTOM {
        lemma_code_step(data, i.shifts);
        lemma_scaled_together(
            data,
            Interval { low: i.low * 256, rng: i.rng * 256, shifts: i.shifts + 1 },
        );
    }
}

/// A decoder whose number lies in the interval that a value left behind reads
/// that value, and goes on in that interval.
pub proof fn lemma_one_comes_back(d: DecoderState, i: Interval, alphabet: Alphabet, s: int)
    requires
        i.wf(),
        alphabet.wf(),
        0 <= s < alphabet.count(),
        d.place == place_in(d.data, i),
        names(d.data, i.coded(alphabet, s)),
    ensures
        names(d.data, i),
        d.value(alphabet) == s,
        d.read(alphabet) == (DecoderState {
            place: place_in(d.data, i.coded(alphabet, s)),
            ..d
        }),
        i.coded(alphabet, s).wf(),
{
    lemma_part(i, alphabet, s);
    let part = i.part(alphabet, s);
    lemma_names_before_scaling(d.data, part);
    lemma_scaled_together(d.data, part);
    lemma_value_found(alphabet, i.rng, d.place.at, 0, s);
}

/// Every interval on the way can be divided.
pub proof fn lemma_all_coded_wf(i: Interval, symbols: Seq<Symbol>, n: int)
    requires
        i.wf(),
        valid(symbols),
        0 <= n <= symbols.len(),
    ensures
        all_coded(i, symbols, n).wf(),
        all_coded(i, symbols, n).shifts >= i.shifts,
    decreases n,
{
    if n > 0 {
        lemma_all_coded_wf(i, symbols, n - 1);
        assert(symbols[n - 1].wf());
        lemma_part(
            all_coded(i, symbols, n - 1),
            symbols[n - 1].alphabet,
            symbols[n - 1].value,
        );
    }
}

/// A number in the interval that all symbols left behind lies in every interval
/// on the way.
proof fn lemma_names_all(data: Seq<u8>, i: Interval, symbols: Seq<Symbol>, k: int, n: int)
    requires
        i.wf(),
        valid(symbols),
        0 <= k <= n <= symbols.len(),
        names(data, all_coded(i, symbols, n)),
    ensures
        names(data, all_coded(i, symbols, k)),
    decreases n - k,
{
    if k < n {
        let before = all_coded(i, symbols, n - 1);
        let symbol = symbols[n - 1];
        lemma_all_coded_wf(i, symbols, n - 1);
        assert(symbol.wf());
        lemma_part(before, symbol.alphabet, symbol.value);
        lemma_names_before_scaling(data, before.part(symbol.alphabet, symbol.value));
        lemma_names_all(data, i, symbols, k, n - 1);
    }
}

/// The decoder goes through the intervals that the encoder went through.
proof fn lemma_reads_along(d: DecoderState, i: Interval, symbols: Seq<Symbol>, k: int)
    requires
        i.wf(),
        valid(symbols),
        0 <= k <= symbols.len(),
        d.place == place_in(d.data, i),
        names(d.data, all_coded(i, symbols, symbols.len() as int)),
    ensures
        all_read(d, symbols, k) == (DecoderState {
            place: place_in(d.data, all_coded(i, symbols, k)),
            ..d
        }),
    decreases k,
{
    if k > 0 {
        lemma_reads_along(d, i, symbols, k - 1);
        lemma_all_coded_wf(i, symbols, k - 1);
        lemma_names_all(d.data, i, symbols, k, symbols.len() as int);
        let symbol = symbols[k - 1];
        assert(symbol.wf());
        lemma_one_comes_back(
            all_read(d, symbols, k - 1),
            all_coded(i, symbols, k - 1),
            symbol.alphabet,
            symbol.value,
        );
    }
}

/// A decoder of bytes that name a number in the interval that some symbols left
/// behind reads those symbols, one after the other, and has used after each of
/// them what the encoder had.
pub proof fn law_symbols_come_back(data: Seq<u8>, symbols: Seq<Symbol>, k: int)
    requires
        valid(symbols),
        names(data, all_coded(whole(), symbols, symbols.len() as int)),
        0 <= k < symbols.len(),
    ensures
        ({
            let d = all_read(opened(data), symbols, k);
            let i = all_coded(whole(), symbols, k);
            &&& d.value(symbols[k].alphabet) == symbols[k].value
            &&& d.place.rng == i.rng
            &&& d.place.shifts == i.shifts
        }),
{
    let d = opened(data);
    let i = whole();
    lemma_reads_along(d, i, symbols, k);
    lemma_all_coded_wf(i, symbols, k);
    lemma_names_all(data, i, symbols, k + 1, symbols.len() as int);
    assert(symbols[k].wf());
    lemma_one_comes_back(
        all_read(d, symbols, k),
        all_coded(i, symbols, k),
        symbols[k].alphabet,
        symbols[k].value,
    );
}

/// An interval never reaches beyond the numbers that its digits can spell.
proof fn lemma_coded_bounded(i: Interval, alphabet: Alphabet, s: int)
    requires
        i.wf(),
        i.low + i.rng <= TOP * scale(i.shifts),
        alphabet.wf(),
        0 <= s < alphabet.count(),
    ensures
        ({
            let j = i.coded(alphabet, s);
            j.low + j.rng <= TOP * scale(j.shifts)
        }),
{
    lemma_part(i, alphabet, s);
    let part = i.part(alphabet, s);
    lemma_settled_scale(part);
    let j = settled(part);
    let m = j.shifts - i.shifts;
    lemma_scale_sum(i.shifts, m);
    lemma_scale_positive(m);
    let k = scale(m);
    let w = scale(i.shifts);
    assert(part.low * k + part.rng * k == (part.low + part.rng) * k) by (nonlinear_arith);
    assert((part.low + part.rng) * k <= (TOP * w) * k) by (nonlinear_arith)
        requires
            part.low + part.rng <= TOP * w,
            k >= 1,
    ;
    assert((TOP * w) * k == TOP * (w * k)) by (nonlinear_arith);
}

/// No interval on the way reaches beyond the numbers that its digits can spell.
proof fn lemma_all_bounded(symbols: Seq<Symbol>, n: int)
    requires
        valid(symbols),
        0 <= n <= symbols.len(),
    ensures
        ({
            let i = all_coded(whole(), symbols, n);
            i.low + i.rng <= TOP * scale(i.shifts)
        }),
    decreases n,
{
    if n > 0 {
        lemma_all_bounded(symbols, n - 1);
        lemma_all_coded_wf(whole(), symbols, n - 1);
        assert(symbols[n - 1].wf());
        lemma_coded_bounded(
            all_coded(whole(), symbols, n - 1),
            symbols[n - 1].alphabet,
            symbols[n - 1].value,
        );
    } else {
        assert(TOP * scale(0) == TOP);
    }
}

/// What goes into the coder comes out of its bytes: every symbol, in order, and
/// every raw bit, as long as all of it fitted.
pub proof fn law_everything_comes_back(symbols: Seq<Symbol>, raw: Seq<bool>, storage: int)
    requires
        valid(symbols),
        all_fits(
            all_coded(whole(), symbols, symbols.len() as int),
            raw.len() as int,
            storage,
        ),
    ensures
        ({
            let data = whole_bytes(
                all_coded(whole(), symbols, symbols.len() as int),
                raw,
                storage,
            );
            &&& forall|k: int|
                0 <= k < symbols.len() ==> all_read(opened(data), symbols, k).value(
                    (#[trigger] symbols[k]).alphabet,
                ) == symbols[k].value
            &&& forall|j: int| 0 <= j < raw.len() ==> raw_bit(data, j) == #[trigger] raw[j]
        }),
{
    let i = all_coded(whole(), symbols, symbols.len() as int);
    let data = whole_bytes(i, raw, storage);
    lemma_all_bounded(symbols, symbols.len() as int);
    lemma_all_coded_wf(whole(), symbols, symbols.len() as int);
    law_closing_names_the_interval(i, raw, storage);
    assert forall|k: int| 0 <= k < symbols.len() implies all_read(opened(data), symbols, k).value(
        (#[trigger] symbols[k]).alphabet,
    ) == symbols[k].value by {
        law_symbols_come_back(data, symbols, k);
    }
    assert forall|j: int| 0 <= j < raw.len() implies raw_bit(data, j) == #[trigger] raw[j] by {
        law_raw_bits_come_back(i, raw, storage, j);
    }
}

} // verus!
