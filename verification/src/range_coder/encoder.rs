//! Coding symbols and raw bits.

use vstd::prelude::*;

use crate::bytes::{be_bytes, be_value, pow256};
use crate::range_coder::alphabet::{lemma_two_to_values, power_of_two, two_to, Alphabet};
use crate::range_coder::closing::{
    all_fits, closing, lemma_closing, lemma_range_bytes, lemma_round_up, lemma_short_byte, lemma_whole_byte,
    range_bytes, raw_byte, round_up, whole_bytes,
};
use crate::range_coder::interval::{
    ilog, lemma_bit_length, lemma_meter_coded, lemma_part, lemma_scale_positive, lemma_settled,
    lemma_settled_length, lemma_two_to_sum, scale, settled, tell_frac_of, tell_of, whole, Interval,
    Meter, BOTTOM, MAX_BITS, TOP,
};

verus! {

/// Codes symbols into an interval, and raw bits beside it.
#[derive(Debug)]
pub struct RangeEncoder {
    digits: Vec<u8>,
    val: u32,
    rng: u32,
    raw: Vec<bool>,
    skipped: i32,
    storage: usize,
}

/// What a [`RangeEncoder`] holds.
#[verifier::ext_equal]
pub struct EncoderState {
    /// The interval that the symbols have narrowed.
    pub interval: Interval,
    /// The raw bits.
    pub raw: Seq<bool>,
    /// Bits that were declared used.
    pub skipped: int,
    /// Bytes that the whole may take.
    pub storage: int,
}

/// The low bits of a number, the lowest first.
pub open spec fn bits_of(value: int, n: int) -> Seq<bool> {
    Seq::new(n as nat, |i: int| (value / two_to(i)) % 2 == 1)
}

impl EncoderState {
    /// What has been used.
    pub open spec fn meter(self) -> Meter {
        Meter {
            rng: self.interval.rng,
            shifts: self.interval.shifts,
            raw: self.raw.len() as int,
            skipped: self.skipped,
        }
    }

    /// Once a value is coded.
    pub open spec fn coded(self, alphabet: Alphabet, s: int) -> EncoderState {
        EncoderState { interval: self.interval.coded(alphabet, s), ..self }
    }

    /// Once raw bits are coded.
    pub open spec fn with_raw(self, value: int, n: int) -> EncoderState {
        EncoderState { raw: self.raw + bits_of(value, n), ..self }
    }

    /// Once every bit up to a total is declared used.
    pub open spec fn skipped_to(self, total: int) -> EncoderState {
        EncoderState { skipped: self.meter().skipped_to(total).skipped, ..self }
    }
}

impl View for RangeEncoder {
    type V = EncoderState;

    closed spec fn view(&self) -> EncoderState {
        EncoderState {
            interval: Interval {
                low: be_value(self.digits@) * TOP + self.val,
                rng: self.rng as int,
                shifts: self.digits@.len() as int,
            },
            raw: self.raw@,
            skipped: self.skipped as int,
            storage: self.storage as int,
        }
    }
}

/// A number of digits, cut off before its last.
proof fn lemma_last_digit(digits: Seq<u8>)
    requires
        digits.len() > 0,
    ensures
        be_value(digits) == 256 * be_value(digits.drop_last()) + digits.last(),
{
}

/// Powers of 256, two ways.
pub proof fn lemma_scale_is_pow256(n: nat)
    ensures
        scale(n as int) == pow256(n),
    decreases n,
{
    if n > 0 {
        lemma_scale_is_pow256((n - 1) as nat);
    }
}

/// Add one to the number that the first `n` digits are.
fn increment(digits: &mut Vec<u8>, n: usize)
    requires
        n <= old(digits)@.len(),
        be_value(old(digits)@.subrange(0, n as int)) + 1 < pow256(n as nat),
    ensures
        final(digits)@.len() == old(digits)@.len(),
        be_value(final(digits)@.subrange(0, n as int)) == be_value(
            old(digits)@.subrange(0, n as int),
        ) + 1,
        forall|i: int| n <= i < old(digits)@.len() ==> final(digits)@[i] == old(digits)@[i],
    decreases n,
{
    let ghost before = digits@.subrange(0, n as int);
    proof {
        if n == 0 {
            assert(before.len() == 0);
            assert(pow256(0) == 1);
        }
    }
    let ghost shorter = digits@.subrange(0, n - 1);
    proof {
        lemma_last_digit(before);
        assert(before.drop_last() =~= shorter);
    }
    if digits[n - 1] == 255 {
        digits.set(n - 1, 0);
        assert(digits@.subrange(0, n - 1) =~= shorter);
        increment(digits, n - 1);
    } else {
        let d: u8 = digits[n - 1];
        digits.set(n - 1, d + 1);
        assert(digits@.subrange(0, n - 1) =~= shorter);
    }
    proof {
        let after = digits@.subrange(0, n as int);
        lemma_last_digit(after);
        assert(after.drop_last() =~= digits@.subrange(0, n - 1));
    }
}

impl RangeEncoder {
    /// What holds of every encoder.
    pub closed spec fn wf(&self) -> bool {
        &&& self@.interval.wf()
        &&& self.val + self.rng <= 0x1_0000_0000
        &&& self.rng == TOP ==> self.val < TOP
        &&& self@.interval.low + self.rng <= TOP * scale(self.digits@.len() as int)
        &&& -MAX_BITS <= self.skipped <= MAX_BITS
    }

    /// Whether bits can still be counted.
    pub open spec fn counts(&self) -> bool {
        self@.meter().bits() <= MAX_BITS
    }

    /// An encoder that has `size` bytes.
    pub fn new_encoder(size: usize) -> (e: Self)
        ensures
            e.wf(),
            e@ == (EncoderState {
                interval: whole(),
                raw: Seq::empty(),
                skipped: 0,
                storage: size as int,
            }),
    {
        let e = RangeEncoder {
            digits: Vec::new(),
            val: 0,
            rng: TOP,
            raw: Vec::new(),
            skipped: 0,
            storage: size,
        };
        proof {
            assert(be_value(e.digits@) == 0);
            assert(e@.raw =~= Seq::empty());
            assert(TOP * scale(0) == TOP);
        }
        e
    }

    /// Bytes that the whole may take.
    pub fn storage(&self) -> (n: usize)
        ensures
            n == self@.storage,
    {
        self.storage
    }

    /// Give the whole another number of bytes.
    pub fn shrink(&mut self, size: usize)
        requires
            old(self).wf(),
        ensures
            final(self).wf(),
            final(self)@ == (EncoderState { storage: size as int, ..old(self)@ }),
    {
        self.storage = size;
    }

    /// The size of the interval, which the decoder's is equal to.
    pub fn range(&self) -> (rng: u32)
        ensures
            rng == self@.interval.rng,
    {
        self.rng
    }

    /// Whole bits, less what the interval can still be narrowed by for free.
    fn bits(&self) -> (n: i32)
        requires
            self.wf(),
            self.counts(),
        ensures
            n == self@.meter().bits(),
            -0x0800_0000 <= n <= 0x0800_0000,
    {
        33 + 8 * self.digits.len() as i32 + self.raw.len() as i32 + self.skipped
    }

    /// Bits used, rounded up.
    pub fn tell(&self) -> (t: i32)
        requires
            self.wf(),
            self.counts(),
        ensures
            t == self@.meter().tell(),
            -0x0800_0032 <= t <= MAX_BITS,
    {
        proof {
            lemma_settled_length(self.rng as int);
        }
        tell_of(self.bits(), self.rng)
    }

    /// Eighths of a bit used.
    pub fn tell_frac(&self) -> (t: i32)
        requires
            self.wf(),
            self.counts(),
        ensures
            t == self@.meter().tell_frac(),
            -0x4000_0200 <= t <= 8 * MAX_BITS,
    {
        tell_frac_of(self.bits(), self.rng)
    }

    /// Code a value.
    pub fn encode(&mut self, alphabet: Alphabet, s: u32)
        requires
            old(self).wf(),
            old(self).counts(),
            alphabet.wf(),
            s < alphabet.count(),
        ensures
            final(self).wf(),
            final(self)@ == old(self)@.coded(alphabet, s as int),
            final(self)@.meter() == old(self)@.meter().coded(alphabet, s as int),
            final(self)@.meter().bits() <= old(self)@.meter().bits() + 32,
    {
        let ghost i = self@.interval;
        proof {
            lemma_part(i, alphabet, s as int);
            lemma_meter_coded(self@.meter(), i, alphabet, s as int);
        }
        let from: u32 = alphabet.start_of(self.rng, s);
        let to: u32 = alphabet.start_of(self.rng, s + 1);
        self.val = self.val + from;
        self.rng = to - from;
        assert(self@.interval == i.part(alphabet, s as int));
        self.settle();
    }

    /// Scale the interval up until it is large enough to divide.
    fn settle(&mut self)
        requires
            0 < old(self).rng < TOP,
            old(self).val + old(self).rng <= 0x1_0000_0000,
            old(self)@.interval.low + old(self).rng <= TOP * scale(
                old(self).digits@.len() as int,
            ),
            -MAX_BITS <= old(self).skipped <= MAX_BITS,
        ensures
            final(self).wf(),
            final(self)@ == (EncoderState {
                interval: settled(old(self)@.interval),
                ..old(self)@
            }),
    {
        let ghost goal = settled(self@.interval);
        proof {
            lemma_settled(self@.interval);
        }
        while self.rng <= BOTTOM
            invariant
                0 < self.rng <= TOP,
                self.val + self.rng <= 0x1_0000_0000,
                self.rng == TOP ==> self.val < TOP,
                self@.interval.low + self.rng <= TOP * scale(self.digits@.len() as int),
                settled(self@.interval) == goal,
                goal.wf(),
                self@.raw == old(self)@.raw,
                self@.skipped == old(self)@.skipped,
                self@.storage == old(self)@.storage,
                -MAX_BITS <= self.skipped <= MAX_BITS,
            decreases (if self.rng <= BOTTOM {
                BOTTOM - self.rng + 1
            } else {
                0
            }),
        {
            self.shift();
        }
        proof {
            assert(self@.interval == goal);
        }
    }

    /// Move the interval's leading digit out, and scale it up by 256.
    fn shift(&mut self)
        requires
            0 < old(self).rng <= BOTTOM,
            old(self).val + old(self).rng <= 0x1_0000_0000,
            old(self)@.interval.low + old(self).rng <= TOP * scale(
                old(self).digits@.len() as int,
            ),
        ensures
            final(self).rng == old(self).rng * 256,
            final(self).val + final(self).rng <= 0x1_0000_0000,
            final(self).val < TOP,
            final(self)@.interval.low + final(self).rng <= TOP * scale(
                final(self).digits@.len() as int,
            ),
            final(self)@ == (EncoderState {
                interval: Interval {
                    low: old(self)@.interval.low * 256,
                    rng: old(self)@.interval.rng * 256,
                    shifts: old(self)@.interval.shifts + 1,
                },
                ..old(self)@
            }),
    {
        self.emit_digit();
        self.rng = self.rng * 256;
    }

    /// Move the least number's leading digit out.
    fn emit_digit(&mut self)
        requires
            old(self)@.interval.low < TOP * scale(old(self).digits@.len() as int),
        ensures
            final(self).val < TOP,
            final(self).rng == old(self).rng,
            final(self).digits@.len() == old(self).digits@.len() + 1,
            scale(final(self).digits@.len() as int) == 256 * scale(old(self).digits@.len() as int),
            final(self)@ == (EncoderState {
                interval: Interval {
                    low: old(self)@.interval.low * 256,
                    shifts: old(self)@.interval.shifts + 1,
                    ..old(self)@.interval
                },
                ..old(self)@
            }),
    {
        let ghost before = self.digits@;
        let n: usize = self.digits.len();
        let mut lead: u32 = self.val / BOTTOM;
        let rest: u32 = self.val % BOTTOM;
        if lead >= 256 {
            proof {
                lemma_scale_is_pow256(n as nat);
                let b = be_value(before) as int;
                let p = scale(n as int);
                assert(self.val >= TOP);
                assert(b + 1 < p) by (nonlinear_arith)
                    requires
                        b * 0x8000_0000 + self.val < 0x8000_0000 * p,
                        self.val >= 0x8000_0000,
                ;
                assert(before.subrange(0, n as int) =~= before);
            }
            increment(&mut self.digits, n);
            assert(self.digits@.subrange(0, n as int) =~= self.digits@);
            lead = lead - 256;
        }
        let ghost carried = self.digits@;
        self.digits.push(lead as u8);
        self.val = rest * 256;
        proof {
            assert(self.digits@.drop_last() =~= carried);
            lemma_last_digit(self.digits@);
            assert(scale(n + 1) == 256 * scale(n as int));
        }
    }

    /// Code the low bits of a number.
    pub fn enc_bits(&mut self, value: u32, n: u32)
        requires
            old(self).wf(),
            old(self).counts(),
            n <= 25,
        ensures
            final(self).wf(),
            final(self)@ == old(self)@.with_raw(value as int, n as int),
            final(self)@.meter() == old(self)@.meter().with_raw(n as int),
    {
        let mut rest: u32 = value;
        let mut i: u32 = 0;
        proof {
            assert(value as int / two_to(0) == value) by {
                assert(two_to(0) == 1);
            }
            assert(self@.raw + bits_of(value as int, 0) =~= self@.raw);
        }
        while i < n
            invariant
                self.wf(),
                i <= n <= 25,
                rest == value as int / two_to(i as int),
                self@ == old(self)@.with_raw(value as int, i as int),
            decreases n - i,
        {
            let ghost so_far = self@.raw;
            self.raw.push(rest % 2 == 1);
            proof {
                assert(self@.raw =~= old(self)@.raw + bits_of(value as int, i + 1));
                lemma_halve(value as int, i as int);
            }
            rest = rest / 2;
            i = i + 1;
        }
    }

    /// Declare every bit up to `total` used.
    pub fn skip_to(&mut self, total: i32)
        requires
            old(self).wf(),
            old(self).counts(),
            -MAX_BITS <= old(self)@.skipped_to(total as int).skipped <= MAX_BITS,
            -MAX_BITS <= total <= MAX_BITS,
        ensures
            final(self).wf(),
            final(self)@ == old(self)@.skipped_to(total as int),
            final(self)@.meter() == old(self)@.meter().skipped_to(total as int),
            final(self)@.meter().tell() == total,
    {
        let t: i32 = self.tell();
        self.skipped = self.skipped + (total - t);
    }

    /// Bits that can still be counted have not overflown.
    pub proof fn lemma_bounded(&self)
        requires
            self.wf(),
        ensures
            self@.interval.wf(),
            self@.interval.low + self@.interval.rng <= TOP * scale(self@.interval.shifts),
            self@.meter().wf(),
    {
    }

    /// End with as few bits as it takes, and hand the bytes over: nothing where
    /// they are too few.
    pub fn done(self) -> (bytes: Option<Vec<u8>>)
        requires
            self.wf(),
            self.counts(),
        ensures
            match bytes {
                Some(b) => all_fits(self@.interval, self@.raw.len() as int, self@.storage) && b@
                    == whole_bytes(self@.interval, self@.raw, self@.storage),
                None => !all_fits(self@.interval, self@.raw.len() as int, self@.storage),
            },
    {
        let ghost i = self@.interval;
        let ghost before = self.digits@;
        let mut coder = self;
        proof {
            lemma_settled_length(coder.rng as int);
            lemma_closing(i);
            lemma_range_bytes(i);
        }
        let mut log: u32 = ilog(coder.rng) - 1;
        let mut end: u64 = coder.val_rounded(log);
        if end + power_of_two(log) as u64 > coder.val as u64 + coder.rng as u64 {
            log = log - 1;
            end = coder.val_rounded(log);
        }
        let ghost c = closing(i);
        assert(log == c.log && be_value(before) * TOP + end == c.end);
        coder.val = end as u32;
        let tail: u32 = (31 - log + 7) / 8;
        let free: u32 = 8 * tail - (31 - log);
        let mut k: u32 = 0;
        proof {
            assert(c.end * scale(0) == c.end);
        }
        while k < tail
            invariant
                k <= tail <= 2,
                i.wf(),
                i.low + i.rng <= TOP * scale(i.shifts),
                c == closing(i),
                c.end < TOP * scale(i.shifts),
                coder@.interval.low == c.end * scale(k as int),
                coder.digits@.len() == i.shifts + k,
                scale(i.shifts + k) == scale(i.shifts) * scale(k as int),
                coder@.raw == self@.raw,
                coder@.storage == self@.storage,
                k > 0 ==> coder.val < TOP,
                k == 0 ==> coder.val == end && coder.digits@ == before,
            decreases tail - k,
        {
            proof {
                let s = scale(k as int);
                lemma_scale_positive(k as int);
                let w = scale(i.shifts);
                assert(c.end * s < TOP * (w * s)) by (nonlinear_arith)
                    requires
                        c.end < TOP * w,
                        s >= 1,
                ;
            }
            coder.emit_digit();
            k = k + 1;
            proof {
                let s = scale(k - 1);
                let w = scale(i.shifts);
                assert(scale(k as int) == 256 * s);
                assert((c.end * s) * 256 == c.end * (256 * s)) by (nonlinear_arith);
                assert(256 * (w * s) == w * (256 * s)) by (nonlinear_arith);
            }
        }
        let range: Vec<u8> = coder.digits;
        proof {
            // What is left of the number is nothing.
            let v = be_value(range@) as int;
            let r = be_value(range_bytes(i)) as int;
            if tail == 0 {
                assert(c.log == 31);
                lemma_two_to_values();
                assert(c.end * scale(0) == c.end);
                lemma_bit_length(i.rng);
                lemma_multiple(c.end, be_value(before) as int, end as int);
            }
            assert(coder.val == 0 && v == r) by (nonlinear_arith)
                requires
                    v * 0x8000_0000 + coder.val == r * 0x8000_0000,
                    0 <= coder.val < 0x8000_0000,
            ;
            lemma_bytes_of_value(range@);
            assert(range@ =~= range_bytes(i));
        }
        let raw: Vec<bool> = coder.raw;
        let storage: usize = coder.storage;
        let len: usize = range.len();
        let full: usize = raw.len() / 8;
        let part: usize = raw.len() % 8;
        let whole_raw: usize = (raw.len() + 7) / 8;
        let fits: bool = len + whole_raw <= storage || len + full == storage && part
            <= free as usize;
        if !fits {
            return None;
        }
        Some(assemble(&range, &raw, storage, Ghost(i)))
    }

    /// The least number rounded up, without its digits.
    fn val_rounded(&self, log: u32) -> (end: u64)
        requires
            log <= 31,
        ensures
            be_value(self.digits@) * TOP + end == round_up(self@.interval.low, two_to(log as int)),
            end < self.val + two_to(log as int),
    {
        let unit: u64 = power_of_two(log) as u64;
        let ghost u = unit as int;
        let ghost b = be_value(self.digits@) as int;
        proof {
            lemma_two_to_values();
            lemma_two_to_sum(31 - log, log as int);
            let m = two_to(31 - log);
            let v = self.val as int;
            lemma_round_up(v, u);
            lemma_round_up(self@.interval.low, u);
            let q = (v + u - 1) / u;
            assert(b * TOP == (b * m) * u) by (nonlinear_arith)
                requires
                    TOP == m * u,
            ;
            vstd::arithmetic::div_mod::lemma_fundamental_div_mod(v + u - 1, u);
            let rest = (v + u - 1) % u;
            assert(b * TOP + v + u - 1 == (b * m + q) * u + rest) by (nonlinear_arith)
                requires
                    b * TOP == (b * m) * u,
                    v + u - 1 == u * q + rest,
            ;
            vstd::arithmetic::div_mod::lemma_fundamental_div_mod_converse(
                b * TOP + v + u - 1,
                u,
                b * m + q,
                rest,
            );
            assert((b * m + q) * u == (b * m) * u + q * u) by (nonlinear_arith);
        }
        (self.val as u64 + unit - 1) / unit * unit
    }
}

/// Halving a quotient.
pub proof fn lemma_halve(value: int, i: int)
    requires
        0 <= value,
        0 <= i,
    ensures
        value / two_to(i + 1) == (value / two_to(i)) / 2,
{
    let p = two_to(i);
    crate::range_coder::alphabet::lemma_two_to_monotone(0, i);
    assert(value / (p * 2) == (value / p) / 2) by {
        vstd::arithmetic::div_mod::lemma_div_denominator(value, p, 2);
    }
}

/// A number below 2^32 that a multiple of 2^31 is made of is one itself.
proof fn lemma_multiple(total: int, b: int, v: int)
    requires
        total == b * 0x8000_0000 + v,
        total % 0x8000_0000 == 0,
        0 <= v < 0x8000_0000,
    ensures
        v == 0,
{
}

/// A number's bytes are the bytes it came from.
proof fn lemma_bytes_of_value(s: Seq<u8>)
    ensures
        be_bytes(be_value(s), s.len()) == s,
    decreases s.len(),
{
    if s.len() > 0 {
        lemma_bytes_of_value(s.drop_last());
        assert(be_bytes(be_value(s), s.len()) =~= s);
    } else {
        assert(be_bytes(be_value(s), 0) =~= s);
    }
}

/// A byte of raw bits.
fn raw_byte_of(raw: &Vec<bool>, j: usize) -> (b: u32)
    requires
        j <= 0x1000_0000,
    ensures
        b == raw_byte(raw@, j as int, 8),
        b < 256,
{
    let mut b: u32 = 0;
    let mut p: u32 = 1;
    let mut n: usize = 0;
    proof {
        lemma_two_to_values();
    }
    while n < 8
        invariant
            n <= 8,
            j <= 0x1000_0000,
            p == two_to(n as int),
            p <= 256,
            b == raw_byte(raw@, j as int, n as int),
            b < p,
        decreases 8 - n,
    {
        proof {
            crate::range_coder::alphabet::lemma_two_to_monotone(n + 1, 8);
            lemma_two_to_values();
            assert(two_to(n + 1) == 2 * two_to(n as int));
        }
        let at: usize = 8 * j + n;
        if at < raw.len() && raw[at] {
            b = b + p;
        }
        p = p * 2;
        n = n + 1;
    }
    b
}

/// Put the range coder's bytes and the raw bits together.
fn assemble(range: &Vec<u8>, raw: &Vec<bool>, storage: usize, Ghost(i): Ghost<Interval>) -> (bytes:
    Vec<u8>)
    requires
        range@ == range_bytes(i),
        i.wf(),
        i.low + i.rng <= TOP * scale(i.shifts),
        all_fits(i, raw@.len() as int, storage as int),
        raw@.len() <= 0x1000_0000,
    ensures
        bytes@ == whole_bytes(i, raw@, storage as int),
{
    let mut bytes: Vec<u8> = Vec::new();
    while bytes.len() < storage
        invariant
            bytes@.len() <= storage,
            range@ == range_bytes(i),
            i.wf(),
            i.low + i.rng <= TOP * scale(i.shifts),
            all_fits(i, raw@.len() as int, storage as int),
            raw@.len() <= 0x1000_0000,
            bytes@ =~= whole_bytes(i, raw@, storage as int).subrange(0, bytes@.len() as int),
        decreases storage - bytes@.len(),
    {
        let p: usize = bytes.len();
        proof {
            lemma_whole_byte(i, raw@, storage as int, p as int);
        }
        let own: u32 = if p < range.len() {
            range[p] as u32
        } else {
            0
        };
        let back: usize = storage - 1 - p;
        let w: u32 = if back <= raw.len() / 8 {
            raw_byte_of(raw, back)
        } else {
            proof {
                lemma_short_byte(raw@, back as int, 0, 8);
            }
            0
        };
        bytes.push((own + w) as u8);
    }
    bytes
}

} // verus!
