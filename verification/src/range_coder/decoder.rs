//! Reading symbols and raw bits back.

use vstd::prelude::*;

use crate::range_coder::alphabet::{
    lemma_two_to_monotone, lemma_value_at, power_of_two, two_to, Alphabet,
};
use crate::range_coder::interval::{
    lemma_meter_coded, lemma_part, lemma_settled_length, tell_frac_of, tell_of, Interval, Meter,
    BOTTOM, MAX_BITS, TOP,
};

verus! {

/// A byte, or zero past the end.
pub open spec fn byte_at(data: Seq<u8>, i: int) -> int {
    if 0 <= i < data.len() {
        data[i] as int
    } else {
        0
    }
}

/// The number that the first `n` bytes are, with zeros past the end.
pub open spec fn prefix(data: Seq<u8>, n: int) -> int
    decreases n,
{
    if n <= 0 {
        0
    } else {
        256 * prefix(data, n - 1) + byte_at(data, n - 1)
    }
}

/// The number that the bytes name, in 31 bits and eight more for each time that
/// the interval was scaled up.
pub open spec fn code(data: Seq<u8>, shifts: int) -> int {
    prefix(data, 4 + shifts) / 2
}

/// The eight bits that a number named by the bytes goes on with.
pub open spec fn next_bits(data: Seq<u8>, shifts: int) -> int {
    (byte_at(data, 3 + shifts) % 2) * 128 + byte_at(data, 4 + shifts) / 2
}

/// A number named by the bytes goes on with eight bits at a time.
pub proof fn lemma_code_step(data: Seq<u8>, shifts: int)
    requires
        0 <= shifts,
    ensures
        code(data, shifts + 1) == 256 * code(data, shifts) + next_bits(data, shifts),
        0 <= next_bits(data, shifts) < 256,
{
    assert(prefix(data, 5 + shifts) == 256 * prefix(data, 4 + shifts) + byte_at(data, 4 + shifts));
    assert(prefix(data, 4 + shifts) == 256 * prefix(data, 3 + shifts) + byte_at(data, 3 + shifts));
}

/// One of the raw bits, or zero past the start.
pub open spec fn raw_bit(data: Seq<u8>, j: int) -> bool {
    (byte_at(data, data.len() - 1 - j / 8) / two_to(j % 8)) % 2 == 1
}

/// The number that some raw bits are.
pub open spec fn raw_value(data: Seq<u8>, from: int, n: int) -> int
    decreases n,
{
    if n <= 0 {
        0
    } else {
        raw_value(data, from, n - 1) + (if raw_bit(data, from + n - 1) {
            two_to(n - 1)
        } else {
            0
        })
    }
}

/// Where the bytes' number lies in an interval.
#[verifier::ext_equal]
pub struct Place {
    /// How far the number is above the interval's least.
    pub at: int,
    /// How many numbers the interval has.
    pub rng: int,
    /// How often it was scaled up.
    pub shifts: int,
}

/// A place in an interval that is scaled up until it is large enough to divide.
pub open spec fn settled_place(data: Seq<u8>, p: Place) -> Place
    decreases (if p.rng > 0 && p.rng <= BOTTOM {
        BOTTOM - p.rng + 1
    } else {
        0
    }),
{
    if 0 < p.rng <= BOTTOM {
        settled_place(
            data,
            Place {
                at: p.at * 256 + next_bits(data, p.shifts),
                rng: p.rng * 256,
                shifts: p.shifts + 1,
            },
        )
    } else {
        p
    }
}

/// Reads symbols from the interval that bytes name a number in, and raw bits
/// from their end.
#[derive(Debug)]
pub struct RangeDecoder<'a> {
    data: &'a [u8],
    at: u32,
    rng: u32,
    shifts: usize,
    raw: usize,
    skipped: i32,
}

/// What a [`RangeDecoder`] holds.
#[verifier::ext_equal]
pub struct DecoderState {
    /// The bytes.
    pub data: Seq<u8>,
    /// Where the number that they name lies.
    pub place: Place,
    /// How many raw bits have been read.
    pub raw: int,
    /// Bits that were declared used.
    pub skipped: int,
}

impl DecoderState {
    /// What has been used.
    pub open spec fn meter(self) -> Meter {
        Meter {
            rng: self.place.rng,
            shifts: self.place.shifts,
            raw: self.raw,
            skipped: self.skipped,
        }
    }

    /// The value that comes next.
    pub open spec fn value(self, alphabet: Alphabet) -> int {
        alphabet.value_at(self.place.rng, self.place.at, 0)
    }

    /// Once a value has been taken.
    pub open spec fn taken(self, alphabet: Alphabet, s: int) -> DecoderState {
        let from = alphabet.edge(self.place.rng, s);
        let to = alphabet.edge(self.place.rng, s + 1);
        DecoderState {
            place: settled_place(
                self.data,
                Place { at: self.place.at - from, rng: to - from, shifts: self.place.shifts },
            ),
            ..self
        }
    }

    /// Once the value that comes next has been read.
    pub open spec fn read(self, alphabet: Alphabet) -> DecoderState {
        self.taken(alphabet, self.value(alphabet))
    }

    /// Once raw bits have been read.
    pub open spec fn read_raw(self, n: int) -> DecoderState {
        DecoderState { raw: self.raw + n, ..self }
    }

    /// Once every bit up to a total is declared used.
    pub open spec fn skipped_to(self, total: int) -> DecoderState {
        DecoderState { skipped: self.meter().skipped_to(total).skipped, ..self }
    }

    /// Whether the place is one in an interval that can be divided.
    pub open spec fn wf(self) -> bool {
        &&& 0 <= self.place.at < self.place.rng
        &&& self.meter().wf()
    }
}

impl<'a> View for RangeDecoder<'a> {
    type V = DecoderState;

    closed spec fn view(&self) -> DecoderState {
        DecoderState {
            data: self.data@,
            place: Place {
                at: self.at as int,
                rng: self.rng as int,
                shifts: self.shifts as int,
            },
            raw: self.raw as int,
            skipped: self.skipped as int,
        }
    }
}

/// What a decoder holds at first.
pub open spec fn opened(data: Seq<u8>) -> DecoderState {
    DecoderState {
        data,
        place: Place { at: code(data, 0), rng: TOP as int, shifts: 0 },
        raw: 0,
        skipped: 0,
    }
}

/// A byte, or zero past the end.
fn byte_or_zero(data: &[u8], i: usize) -> (b: u32)
    ensures
        b == byte_at(data@, i as int),
        b <= 255,
{
    if i < data.len() {
        data[i] as u32
    } else {
        0
    }
}

/// A place stays within its interval when that is scaled up.
proof fn lemma_place_settled(data: Seq<u8>, p: Place)
    requires
        0 <= p.at < p.rng <= TOP,
        0 <= p.shifts,
    ensures
        ({
            let q = settled_place(data, p);
            let i = crate::range_coder::interval::settled(
                Interval { low: 0, rng: p.rng, shifts: p.shifts },
            );
            &&& 0 <= q.at < q.rng
            &&& q.rng == i.rng
            &&& q.shifts == i.shifts
        }),
    decreases (if p.rng <= BOTTOM {
        BOTTOM - p.rng + 1
    } else {
        0
    }),
{
    if p.rng <= BOTTOM {
        lemma_code_step(data, p.shifts);
        lemma_place_settled(
            data,
            Place {
                at: p.at * 256 + next_bits(data, p.shifts),
                rng: p.rng * 256,
                shifts: p.shifts + 1,
            },
        );
    }
}

/// Reading a value uses what coding it does.
pub proof fn lemma_taken_meter(d: DecoderState, alphabet: Alphabet, s: int)
    requires
        d.wf(),
        alphabet.wf(),
        0 <= s < alphabet.count(),
        alphabet.edge(d.place.rng, s) <= d.place.at < alphabet.edge(d.place.rng, s + 1),
    ensures
        d.taken(alphabet, s).wf(),
        d.taken(alphabet, s).meter() == d.meter().coded(alphabet, s),
        d.meter().bits() <= d.taken(alphabet, s).meter().bits() <= d.meter().bits() + 32,
{
    let i = Interval { low: 0, rng: d.place.rng, shifts: d.place.shifts };
    lemma_part(i, alphabet, s);
    lemma_meter_coded(d.meter(), i, alphabet, s);
    let from = alphabet.edge(d.place.rng, s);
    let to = alphabet.edge(d.place.rng, s + 1);
    lemma_place_settled(
        d.data,
        Place { at: d.place.at - from, rng: to - from, shifts: d.place.shifts },
    );
    crate::range_coder::interval::lemma_settled_size(
        Interval { low: 0, rng: to - from, shifts: d.place.shifts },
        i.part(alphabet, s),
    );
}

/// The value that comes next is one of the alphabet's, and the number lies in
/// its part.
pub proof fn lemma_next_value(d: DecoderState, alphabet: Alphabet)
    requires
        d.wf(),
        alphabet.wf(),
    ensures
        ({
            let s = d.value(alphabet);
            &&& 0 <= s < alphabet.count()
            &&& alphabet.edge(d.place.rng, s) <= d.place.at < alphabet.edge(d.place.rng, s + 1)
        }),
{
    lemma_value_at(alphabet, d.place.rng, d.place.at, 0);
}

impl<'a> RangeDecoder<'a> {
    /// What holds of every decoder.
    pub open spec fn wf(&self) -> bool {
        self@.wf()
    }

    /// Whether bits can still be counted.
    pub open spec fn counts(&self) -> bool {
        self@.meter().bits() <= MAX_BITS
    }

    /// A decoder of some bytes.
    pub fn new_decoder(data: &'a [u8]) -> (d: Self)
        ensures
            d.wf(),
            d@ == opened(data@),
    {
        let b0: u32 = byte_or_zero(data, 0);
        let b1: u32 = byte_or_zero(data, 1);
        let b2: u32 = byte_or_zero(data, 2);
        let b3: u32 = byte_or_zero(data, 3);
        proof {
            reveal_with_fuel(prefix, 5);
        }
        let at: u32 = (b0 * 0x100_0000 + b1 * 0x1_0000 + b2 * 0x100 + b3) / 2;
        RangeDecoder { data, at, rng: TOP, shifts: 0, raw: 0, skipped: 0 }
    }

    /// How many bytes there are.
    pub fn storage(&self) -> (n: usize)
        ensures
            n == self@.data.len(),
    {
        self.data.len()
    }

    /// The size of the interval, which the encoder's was equal to.
    pub fn range(&self) -> (rng: u32)
        ensures
            rng == self@.place.rng,
    {
        self.rng
    }

    /// Whole bits, less what the interval can still be narrowed by for free.
    fn bits(&self) -> (n: i32)
        requires
            self.wf(),
            self.counts(),
        ensures
            n == self@.meter().bits(),
            -0x0800_0000 <= n <= 0x0800_0000,
    {
        33 + 8 * self.shifts as i32 + self.raw as i32 + self.skipped
    }

    /// Bits used, rounded up.
    pub fn tell(&self) -> (t: i32)
        requires
            self.wf(),
            self.counts(),
        ensures
            t == self@.meter().tell(),
            -0x0800_0032 <= t <= MAX_BITS,
    {
        proof {
            lemma_settled_length(self.rng as int);
        }
        tell_of(self.bits(), self.rng)
    }

    /// Eighths of a bit used.
    pub fn tell_frac(&self) -> (t: i32)
        requires
            self.wf(),
            self.counts(),
        ensures
            t == self@.meter().tell_frac(),
            -0x4000_0200 <= t <= 8 * MAX_BITS,
    {
        tell_frac_of(self.bits(), self.rng)
    }

    /// Read a value.
    pub fn decode(&mut self, alphabet: Alphabet) -> (s: u32)
        requires
            old(self).wf(),
            old(self).counts(),
            alphabet.wf(),
        ensures
            final(self).wf(),
            s == old(self)@.value(alphabet),
            s < alphabet.count(),
            final(self)@ == old(self)@.read(alphabet),
            final(self)@.meter() == old(self)@.meter().coded(alphabet, s as int),
            final(self)@.meter().bits() <= old(self)@.meter().bits() + 32,
    {
        let ghost before = self@;
        proof {
            lemma_next_value(before, alphabet);
        }
        let size: u32 = alphabet.size();
        let mut s: u32 = 0;
        let mut from: u32 = 0;
        let mut to: u32 = alphabet.start_of(self.rng, 1);
        while s + 1 < size && self.at >= to
            invariant
                self@ == before,
                before.wf(),
                alphabet.wf(),
                size == alphabet.count(),
                s < size <= 256,
                from == alphabet.edge(before.place.rng, s as int),
                to == alphabet.edge(before.place.rng, s + 1),
                from <= self.at,
                alphabet.value_at(before.place.rng, before.place.at, s as int) == before.value(
                    alphabet,
                ),
            decreases size - s,
        {
            from = to;
            s = s + 1;
            to = alphabet.start_of(self.rng, s + 1);
        }
        proof {
            lemma_taken_meter(before, alphabet, s as int);
        }
        self.at = self.at - from;
        self.rng = to - from;
        self.settle();
        s
    }

    /// Scale the interval up until it is large enough to divide.
    fn settle(&mut self)
        requires
            0 <= old(self).at < old(self).rng <= TOP,
            old(self).shifts <= 2 * MAX_BITS,
        ensures
            final(self)@ == (DecoderState {
                place: settled_place(old(self)@.data, old(self)@.place),
                ..old(self)@
            }),
    {
        let ghost goal = settled_place(self@.data, self@.place);
        let ghost first = self.shifts as int;
        proof {
            let i = Interval { low: 0, rng: self.rng as int, shifts: self.shifts as int };
            lemma_place_settled(self@.data, self@.place);
            crate::range_coder::interval::lemma_settled(i);
        }
        while self.rng <= BOTTOM
            invariant
                self.at < self.rng <= TOP,
                settled_place(self@.data, self@.place) == goal,
                self@.data == old(self)@.data,
                self@.raw == old(self)@.raw,
                self@.skipped == old(self)@.skipped,
                first <= self.shifts,
                goal.shifts <= first + 4,
                first <= 2 * MAX_BITS,
            decreases (if self.rng <= BOTTOM {
                BOTTOM - self.rng + 1
            } else {
                0
            }),
        {
            proof {
                lemma_code_step(self@.data, self.shifts as int);
                lemma_place_settled(self@.data, self@.place);
                lemma_shifts_grow(self@.data, self@.place);
            }
            let low: u32 = byte_or_zero(self.data, self.shifts + 3);
            let high: u32 = byte_or_zero(self.data, self.shifts + 4);
            let next: u32 = (low % 2) * 128 + high / 2;
            self.at = self.at * 256 + next;
            self.rng = self.rng * 256;
            self.shifts = self.shifts + 1;
        }
    }

    /// Read a number of so many bits.
    pub fn dec_bits(&mut self, n: u32) -> (v: u32)
        requires
            old(self).wf(),
            old(self).counts(),
            n <= 25,
        ensures
            final(self).wf(),
            v == raw_value(old(self)@.data, old(self)@.raw, n as int),
            v < two_to(n as int),
            final(self)@ == old(self)@.read_raw(n as int),
            final(self)@.meter() == old(self)@.meter().with_raw(n as int),
    {
        let mut v: u32 = 0;
        let mut p: u32 = 1;
        let mut i: u32 = 0;
        let ghost from = self.raw as int;
        while i < n
            invariant
                i <= n <= 25,
                p == two_to(i as int),
                v == raw_value(self@.data, from, i as int),
                v < p,
                self@ == old(self)@,
                from == self.raw,
                from <= 2 * MAX_BITS,
            decreases n - i,
        {
            proof {
                lemma_two_to_monotone(i + 1, 31);
                crate::range_coder::alphabet::lemma_two_to_values();
                assert(two_to(i + 1) == 2 * two_to(i as int));
            }
            if self.raw_bit_at(self.raw + i as usize) {
                v = v + p;
            }
            p = p * 2;
            i = i + 1;
        }
        self.raw = self.raw + n as usize;
        v
    }

    /// One of the raw bits.
    fn raw_bit_at(&self, j: usize) -> (bit: bool)
        ensures
            bit == raw_bit(self@.data, j as int),
    {
        let back: usize = j / 8;
        if back < self.data.len() {
            let byte: u32 = self.data[self.data.len() - 1 - back] as u32;
            (byte / power_of_two((j % 8) as u32)) % 2 == 1
        } else {
            proof {
                lemma_two_to_monotone(0, j as int % 8);
                let p = two_to(j as int % 8);
                assert(0int / p == 0) by (nonlinear_arith)
                    requires
                        p >= 1,
                ;
            }
            false
        }
    }

    /// Declare every bit up to `total` used.
    pub fn skip_to(&mut self, total: i32)
        requires
            old(self).wf(),
            old(self).counts(),
            -MAX_BITS <= old(self)@.skipped_to(total as int).skipped <= MAX_BITS,
            -MAX_BITS <= total <= MAX_BITS,
        ensures
            final(self).wf(),
            final(self)@ == old(self)@.skipped_to(total as int),
            final(self)@.meter() == old(self)@.meter().skipped_to(total as int),
            final(self)@.meter().tell() == total,
    {
        let t: i32 = self.tell();
        self.skipped = self.skipped + (total - t);
    }
}

/// An interval that is too small to divide is scaled up at least once.
proof fn lemma_shifts_grow(data: Seq<u8>, p: Place)
    requires
        0 <= p.at < p.rng <= BOTTOM,
        0 <= p.shifts,
    ensures
        settled_place(data, p).shifts >= p.shifts + 1,
{
    lemma_code_step(data, p.shifts);
    let next = Place {
        at: p.at * 256 + next_bits(data, p.shifts),
        rng: p.rng * 256,
        shifts: p.shifts + 1,
    };
    lemma_place_settled(data, next);
    crate::range_coder::interval::lemma_settled(
        Interval { low: 0, rng: next.rng, shifts: next.shifts },
    );
}

} // verus!
