//! The bytes that a coder ends with.

use vstd::prelude::*;

use crate::bytes::{be_bytes, be_value, lemma_be_bytes_len, lemma_be_round_trip, pow256};
use crate::range_coder::alphabet::{lemma_two_to_monotone, lemma_two_to_values, two_to};
use crate::range_coder::decoder::{byte_at, prefix, raw_bit};
use crate::range_coder::interval::{
    bit_length, lemma_bit_length, lemma_scale_positive, lemma_settled_length, lemma_two_to_sum,
    scale, Interval, TOP,
};
use crate::range_coder::laws::names;

verus! {

/// The least multiple of a unit that is not below a number.
pub open spec fn round_up(v: int, unit: int) -> int {
    ((v + unit - 1) / unit) * unit
}

/// How a coder ends: all numbers from `end` on that differ from it only in their
/// last `log` bits lie in its interval.
#[verifier::ext_equal]
pub struct Closing {
    /// The least of the numbers.
    pub end: int,
    /// How many bits they may differ in.
    pub log: int,
}

/// How a coder ends with as few bits as it can.
pub open spec fn closing(i: Interval) -> Closing {
    let log = bit_length(i.rng) - 1;
    let end = round_up(i.low, two_to(log));
    if end + two_to(log) <= i.low + i.rng {
        Closing { end, log }
    } else {
        Closing { end: round_up(i.low, two_to(log - 1)), log: log - 1 }
    }
}

impl Closing {
    /// Bytes after the digits that have been moved out.
    pub open spec fn tail(self) -> int {
        (31 - self.log + 7) / 8
    }

    /// Bits of the last byte that may be anything.
    pub open spec fn free(self) -> int {
        8 * self.tail() - (31 - self.log)
    }
}

/// The bytes that name a number in an interval.
pub open spec fn range_bytes(i: Interval) -> Seq<u8> {
    let c = closing(i);
    be_bytes(
        (c.end * scale(c.tail()) / (TOP as int)) as nat,
        (i.shifts + c.tail()) as nat,
    )
}

/// A byte of raw bits, of which the first `n` are counted.
pub open spec fn raw_byte(raw: Seq<bool>, j: int, n: int) -> int
    decreases n,
{
    if n <= 0 {
        0
    } else {
        raw_byte(raw, j, n - 1) + (if 0 <= 8 * j + n - 1 < raw.len() && raw[8 * j + n - 1] {
            two_to(n - 1)
        } else {
            0
        })
    }
}

/// Whether everything fits: the last raw bits may share a byte with the last of
/// the range coder's, as far as that one may be anything.
pub open spec fn all_fits(i: Interval, raw: int, storage: int) -> bool {
    let len = i.shifts + closing(i).tail();
    ||| len + (raw + 7) / 8 <= storage
    ||| len + raw / 8 == storage && raw % 8 <= closing(i).free()
}

/// The bytes of the whole: the range coder's from the start, and the raw bits
/// from the end.
pub open spec fn whole_bytes(i: Interval, raw: Seq<bool>, storage: int) -> Seq<u8> {
    let range = range_bytes(i);
    Seq::new(
        storage as nat,
        |p: int|
            ((if p < range.len() {
                range[p] as int
            } else {
                0
            }) + raw_byte(raw, storage - 1 - p, 8)) as u8,
    )
}

/// A number rounded up.
pub proof fn lemma_round_up(v: int, unit: int)
    requires
        0 <= v,
        0 < unit,
    ensures
        v <= round_up(v, unit) < v + unit,
        round_up(v, unit) % unit == 0,
        round_up(v, unit) >= 0,
        round_up(v, unit) == ((v + unit - 1) / unit) * unit,
{
    let q = (v + unit - 1) / unit;
    assert(q * unit <= v + unit - 1 < q * unit + unit) by (nonlinear_arith)
        requires
            q == (v + unit - 1) / unit,
            unit > 0,
            v >= 0,
    ;
    vstd::arithmetic::div_mod::lemma_mod_multiples_basic(q, unit);
    assert(q >= 0) by (nonlinear_arith)
        requires
            q == (v + unit - 1) / unit,
            unit > 0,
            v >= 0,
    ;
    assert(q * unit >= 0) by (nonlinear_arith)
        requires
            q >= 0,
            unit > 0,
    ;
}

/// A closing lies in its interval.
pub proof fn lemma_closing(i: Interval)
    requires
        i.wf(),
    ensures
        ({
            let c = closing(i);
            &&& 22 <= c.log <= 31
            &&& i.low <= c.end
            &&& c.end + two_to(c.log) <= i.low + i.rng
            &&& c.end % two_to(c.log) == 0
            &&& c.end >= 0
            &&& 0 <= c.tail() <= 2
            &&& 0 <= c.free() <= 7
            &&& 1 <= two_to(c.log)
        }),
{
    let log = bit_length(i.rng) - 1;
    lemma_settled_length(i.rng);
    lemma_bit_length(i.rng);
    lemma_two_to_monotone(0, log - 1);
    lemma_two_to_monotone(0, log);
    lemma_round_up(i.low, two_to(log));
    lemma_round_up(i.low, two_to(log - 1));
    assert(two_to(log) == 2 * two_to(log - 1));
}

/// The number that the range coder's bytes are.
pub proof fn lemma_range_bytes(i: Interval)
    requires
        i.wf(),
        i.low + i.rng <= TOP * scale(i.shifts),
    ensures
        ({
            let c = closing(i);
            let v = c.end * scale(c.tail()) / (TOP as int);
            &&& range_bytes(i).len() == i.shifts + c.tail()
            &&& be_value(range_bytes(i)) == v
            &&& v * TOP == c.end * scale(c.tail())
            &&& v % two_to(c.free()) == 0
            &&& 0 <= v
        }),
{
    let c = closing(i);
    lemma_closing(i);
    let unit = two_to(c.log);
    let q = c.end / unit;
    assert(c.end == q * unit) by (nonlinear_arith)
        requires
            q == c.end / unit,
            c.end % unit == 0,
            unit > 0,
    ;
    let k = scale(c.tail());
    assert(k == two_to(8 * c.tail())) by {
        lemma_two_to_values();
        lemma_two_to_sum(8, 8);
        reveal_with_fuel(scale, 3);
    }
    // unit * k is a power of two from TOP on.
    lemma_two_to_sum(c.log, 8 * c.tail());
    lemma_two_to_sum(c.free(), 31);
    lemma_two_to_values();
    let f = two_to(c.free());
    lemma_two_to_monotone(0, c.free());
    assert(unit * k == f * TOP);
    let v = q * f;
    assert(c.end * k == v * TOP) by (nonlinear_arith)
        requires
            c.end == q * unit,
            unit * k == f * TOP,
            v == q * f,
    ;
    assert((v * TOP) / (TOP as int) == v);
    vstd::arithmetic::div_mod::lemma_mod_multiples_basic(q, f);
    assert(q >= 0) by (nonlinear_arith)
        requires
            q == c.end / unit,
            c.end >= 0,
            unit > 0,
    ;
    assert(v >= 0) by (nonlinear_arith)
        requires
            v == q * f,
            q >= 0,
            f >= 1,
    ;
    // It has no more bytes than it is given.
    let n = (i.shifts + c.tail()) as nat;
    lemma_scale_sum(i.shifts, c.tail());
    crate::range_coder::encoder::lemma_scale_is_pow256(n);
    lemma_scale_positive(c.tail());
    assert(v < pow256(n)) by (nonlinear_arith)
        requires
            v * TOP == c.end * k,
            c.end < TOP * scale(i.shifts),
            k >= 1,
            pow256(n) == scale(i.shifts) * k,
    ;
    lemma_be_round_trip(v as nat, n);
    lemma_be_bytes_len(v as nat, n);
}

/// Powers of 256 multiply.
pub proof fn lemma_scale_sum(a: int, b: int)
    requires
        0 <= a,
        0 <= b,
    ensures
        scale(a + b) == scale(a) * scale(b),
    decreases a,
{
    if a > 0 {
        lemma_scale_sum(a - 1, b);
        assert(scale(a - 1 + b) == scale(a - 1) * scale(b));
        assert(256 * (scale(a - 1) * scale(b)) == (256 * scale(a - 1)) * scale(b))
            by (nonlinear_arith);
    } else {
        assert(1 * scale(b) == scale(b));
    }
}

/// A byte of raw bits is a byte, and its bits are the raw bits.
pub proof fn lemma_raw_byte(raw: Seq<bool>, j: int, n: int)
    requires
        0 <= j,
        0 <= n <= 8,
    ensures
        0 <= raw_byte(raw, j, n) < two_to(n),
        forall|b: int|
            0 <= b < n ==> ((#[trigger] (raw_byte(raw, j, n) / two_to(b))) % 2 == 1) == (8 * j + b
                < raw.len() && raw[8 * j + b]),
    decreases n,
{
    if n > 0 {
        lemma_raw_byte(raw, j, n - 1);
        let w = raw_byte(raw, j, n - 1);
        let top = raw_byte(raw, j, n) - w;
        let p = two_to(n - 1);
        lemma_two_to_monotone(0, n - 1);
        assert forall|b: int| 0 <= b < n implies ((#[trigger] (raw_byte(raw, j, n) / two_to(b)))
            % 2 == 1) == (8 * j + b < raw.len() && raw[8 * j + b]) by {
            let u = two_to(b);
            lemma_two_to_monotone(0, b);
            if b < n - 1 {
                // The top bit is an even multiple of the unit.
                lemma_two_to_sum(n - 2 - b, b);
                assert(p == 2 * two_to(n - 2));
                let m = if top == 0 {
                    0
                } else {
                    two_to(n - 2 - b)
                };
                assert(top == (2 * m) * u) by (nonlinear_arith)
                    requires
                        top == 0 && m == 0 || top == 2 * (m * u),
                ;
                lemma_even_part(w, 2 * m, u);
                assert((w / u) % 2 == 1 <==> (8 * j + b < raw.len() && raw[8 * j + b]));
            } else {
                assert(u == p);
                if top == 0 {
                    assert(w / u == 0) by (nonlinear_arith)
                        requires
                            0 <= w < u,
                    ;
                } else {
                    assert((w + u) / u == 1) by (nonlinear_arith)
                        requires
                            0 <= w < u,
                    ;
                }
            }
        }
    } else {
        assert(two_to(0) == 1);
    }
}

/// An even multiple of a unit does not change whether a quotient is odd.
proof fn lemma_even_part(w: int, m: int, u: int)
    requires
        0 <= w,
        0 < u,
        m % 2 == 0,
    ensures
        ((w + m * u) / u) % 2 == (w / u) % 2,
{
    assert((w + m * u) / u == w / u + m) by {
        vstd::arithmetic::div_mod::lemma_div_multiples_vanish_fancy(m, w % u, u);
        vstd::arithmetic::div_mod::lemma_fundamental_div_mod(w, u);
        let q = w / u;
        assert(w + m * u == u * (q + m) + w % u) by (nonlinear_arith)
            requires
                w == u * q + w % u,
        ;
        assert(u * (q + m) == (q + m) * u) by (nonlinear_arith);
        vstd::arithmetic::div_mod::lemma_fundamental_div_mod_converse(
            w + m * u,
            u,
            q + m,
            w % u,
        );
    }
}

/// Only the low bits of a byte are set where the raw bits end in it.
pub proof fn lemma_short_byte(raw: Seq<bool>, j: int, k: int, n: int)
    requires
        0 <= j,
        0 <= k <= n <= 8,
        raw.len() <= 8 * j + k,
    ensures
        raw_byte(raw, j, n) == raw_byte(raw, j, k),
        0 <= raw_byte(raw, j, n) < two_to(k),
    decreases n - k,
{
    if n > k {
        lemma_short_byte(raw, j, k, n - 1);
    } else {
        lemma_raw_byte(raw, j, k);
    }
}

/// The last of the range coder's bytes, and what it may share.
proof fn lemma_last_free(i: Interval)
    requires
        i.wf(),
        i.low + i.rng <= TOP * scale(i.shifts),
        range_bytes(i).len() > 0,
    ensures
        range_bytes(i).last() as int % two_to(closing(i).free()) == 0,
{
    let r = range_bytes(i);
    let f = two_to(closing(i).free());
    lemma_closing(i);
    lemma_range_bytes(i);
    lemma_two_to_monotone(0, closing(i).free());
    lemma_two_to_values();
    let v = be_value(r) as int;
    let last = r.last() as int;
    let rest = be_value(r.drop_last()) as int;
    // 256 is a multiple of the unit.
    lemma_two_to_sum(8 - closing(i).free(), closing(i).free());
    let m = two_to(8 - closing(i).free());
    assert(256 == m * f);
    assert(v == rest * 256 + last);
    let q = v / f;
    assert(v == q * f) by (nonlinear_arith)
        requires
            q == v / f,
            v % f == 0,
            f > 0,
    ;
    assert(last == (q - rest * m) * f) by (nonlinear_arith)
        requires
            v == rest * 256 + last,
            v == q * f,
            256 == m * f,
    ;
    vstd::arithmetic::div_mod::lemma_mod_multiples_basic(q - rest * m, f);
}

/// What stands at each place.
pub proof fn lemma_whole_byte(i: Interval, raw: Seq<bool>, storage: int, p: int)
    requires
        i.wf(),
        i.low + i.rng <= TOP * scale(i.shifts),
        all_fits(i, raw.len() as int, storage),
        0 <= p < storage,
    ensures
        ({
            let r = range_bytes(i);
            let w = raw_byte(raw, storage - 1 - p, 8);
            let own = if p < r.len() {
                r[p] as int
            } else {
                0
            };
            &&& whole_bytes(i, raw, storage)[p] == own + w
            &&& 0 <= w
            &&& p < r.len() - 1 ==> w == 0
            &&& p == r.len() - 1 ==> w < two_to(closing(i).free())
        }),
{
    let r = range_bytes(i);
    let j = storage - 1 - p;
    let w = raw_byte(raw, j, 8);
    let f = two_to(closing(i).free());
    lemma_closing(i);
    lemma_range_bytes(i);
    lemma_raw_byte(raw, j, 8);
    lemma_two_to_values();
    lemma_two_to_monotone(0, closing(i).free());
    lemma_two_to_monotone(closing(i).free(), 8);
    if p < r.len() {
        if p < r.len() - 1 {
            lemma_short_byte(raw, j, 0, 8);
        } else {
            if raw.len() <= 8 * j {
                lemma_short_byte(raw, j, 0, 8);
            } else {
                let k = raw.len() - 8 * j;
                assert(k == raw.len() as int % 8 && k <= closing(i).free());
                lemma_short_byte(raw, j, k, 8);
                lemma_two_to_monotone(k, closing(i).free());
            }
            lemma_last_free(i);
            let own = r[p] as int;
            // Multiples of the unit leave room below the next.
            lemma_two_to_sum(8 - closing(i).free(), closing(i).free());
            let m = two_to(8 - closing(i).free());
            let q = own / f;
            assert(own == q * f) by (nonlinear_arith)
                requires
                    q == own / f,
                    own % f == 0,
                    f > 0,
            ;
            assert(q < m) by (nonlinear_arith)
                requires
                    q * f < m * f,
                    f > 0,
            ;
            assert((q + 1) * f <= m * f) by (nonlinear_arith)
                requires
                    q + 1 <= m,
                    f > 0,
            ;
            assert((q + 1) * f == q * f + f) by (nonlinear_arith);
        }
    }
}

/// The first bytes of the whole are the range coder's, but for what the last of
/// them shares.
proof fn lemma_prefix_is_range(i: Interval, raw: Seq<bool>, storage: int, n: int)
    requires
        i.wf(),
        i.low + i.rng <= TOP * scale(i.shifts),
        all_fits(i, raw.len() as int, storage),
        0 <= n <= range_bytes(i).len(),
    ensures
        ({
            let r = range_bytes(i);
            let v = be_value(r.subrange(0, n)) as int;
            let p = prefix(whole_bytes(i, raw, storage), n);
            &&& n < r.len() ==> p == v
            &&& n == r.len() ==> v <= p < v + two_to(closing(i).free())
        }),
    decreases n,
{
    let r = range_bytes(i);
    let data = whole_bytes(i, raw, storage);
    lemma_closing(i);
    lemma_range_bytes(i);
    lemma_two_to_monotone(0, closing(i).free());
    if n > 0 {
        lemma_prefix_is_range(i, raw, storage, n - 1);
        lemma_whole_byte(i, raw, storage, n - 1);
        assert(r.subrange(0, n).drop_last() =~= r.subrange(0, n - 1));
        assert(r.subrange(0, n).last() == r[n - 1]);
        assert(byte_at(data, n - 1) == data[n - 1]);
    } else {
        assert(r.subrange(0, 0).len() == 0);
    }
}

/// A longer beginning is the shorter one and some more digits.
proof fn lemma_prefix_grows(data: Seq<u8>, n: int, more: int)
    requires
        0 <= n,
        0 <= more,
    ensures
        prefix(data, n) * scale(more) <= prefix(data, n + more) < (prefix(data, n) + 1) * scale(
            more,
        ),
    decreases more,
{
    let p = prefix(data, n);
    if more > 0 {
        lemma_prefix_grows(data, n, more - 1);
        let k = scale(more - 1);
        assert(p * (256 * k) == 256 * (p * k)) by (nonlinear_arith);
        assert((p + 1) * (256 * k) == 256 * ((p + 1) * k)) by (nonlinear_arith);
    } else {
        assert(p * 1 == p);
        assert((p + 1) * 1 == p + 1);
    }
}

/// The bytes of the whole name a number in the interval, whatever raw bits they
/// hold.
pub proof fn law_closing_names_the_interval(i: Interval, raw: Seq<bool>, storage: int)
    requires
        i.wf(),
        i.low + i.rng <= TOP * scale(i.shifts),
        all_fits(i, raw.len() as int, storage),
    ensures
        names(whole_bytes(i, raw, storage), i),
{
    let c = closing(i);
    let data = whole_bytes(i, raw, storage);
    let r = range_bytes(i);
    let n = r.len() as int;
    lemma_closing(i);
    lemma_range_bytes(i);
    lemma_prefix_is_range(i, raw, storage, n);
    assert(r.subrange(0, n) =~= r);
    let v = be_value(r) as int;
    let p = prefix(data, n);
    let more = 4 - c.tail();
    lemma_prefix_grows(data, n, more);
    let full = prefix(data, 4 + i.shifts);
    let m = scale(more);
    let t = scale(c.tail());
    let f = two_to(c.free());
    assert(m * t == 0x1_0000_0000) by {
        lemma_scale_sum(more, c.tail());
        reveal_with_fuel(scale, 5);
    }
    lemma_scale_positive(c.tail());
    lemma_scale_positive(more);
    // The unit, scaled as the bytes are.
    assert(f * 0x8000_0000 == two_to(c.log) * t) by {
        lemma_two_to_values();
        lemma_two_to_sum(8, 8);
        reveal_with_fuel(scale, 3);
        lemma_two_to_sum(c.log, 8 * c.tail());
        lemma_two_to_sum(c.free(), 31);
    }
    let u = two_to(c.log);
    // full is at least v * m, and v * TOP is end * t.
    assert(v * m <= p * m) by (nonlinear_arith)
        requires
            v <= p,
            m >= 1,
    ;
    assert(2 * c.end <= full) by (nonlinear_arith)
        requires
            v * m <= p * m <= full,
            v * 0x8000_0000 == c.end * t,
            m * t == 0x1_0000_0000,
            t >= 1,
            m >= 1,
    ;
    assert(full < 2 * (c.end + u)) by (nonlinear_arith)
        requires
            full < (p + 1) * m,
            p + 1 <= v + f,
            v * 0x8000_0000 == c.end * t,
            f * 0x8000_0000 == u * t,
            m * t == 0x1_0000_0000,
            t >= 1,
            m >= 1,
    ;
}

/// The raw bits of the whole are those that went in.
pub proof fn law_raw_bits_come_back(i: Interval, raw: Seq<bool>, storage: int, j: int)
    requires
        i.wf(),
        i.low + i.rng <= TOP * scale(i.shifts),
        all_fits(i, raw.len() as int, storage),
        0 <= j < raw.len(),
    ensures
        raw_bit(whole_bytes(i, raw, storage), j) == raw[j],
{
    let data = whole_bytes(i, raw, storage);
    let r = range_bytes(i);
    let back = j / 8;
    let b = j % 8;
    let p = storage - 1 - back;
    lemma_closing(i);
    lemma_range_bytes(i);
    assert(0 <= p < storage);
    lemma_whole_byte(i, raw, storage, p);
    let w = raw_byte(raw, back, 8);
    lemma_raw_byte(raw, back, 8);
    assert((w / two_to(b)) % 2 == 1 <==> raw[j]);
    lemma_two_to_monotone(0, b);
    assert(byte_at(data, data.len() - 1 - back) == data[p]);
    if p < r.len() {
        assert(p == r.len() - 1);
        let free = closing(i).free();
        lemma_last_free(i);
        lemma_two_to_monotone(0, free);
        let own = r[p] as int;
        let f = two_to(free);
        let q = own / f;
        assert(own == q * f) by (nonlinear_arith)
            requires
                q == own / f,
                own % f == 0,
                f > 0,
        ;
        assert(b < free);
        lemma_two_to_sum(free - 1 - b, b);
        let m = two_to(free - 1 - b);
        let u = two_to(b);
        assert(f == 2 * two_to(free - 1));
        assert(own == (2 * (q * m)) * u) by (nonlinear_arith)
            requires
                own == q * f,
                f == 2 * (m * u),
        ;
        lemma_even_part(w, 2 * (q * m), u);
    }
}

} // verus!
