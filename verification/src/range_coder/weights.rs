//! How likely each value of an alphabet is taken to be, and what that costs.

use vstd::prelude::*;

use crate::range_coder::alphabet::{
    lemma_two_to_monotone, table_above, table_total, two_to, Alphabet,
};
use crate::range_coder::closing::{closing, lemma_closing};
use crate::range_coder::decoder::{
    byte_at, code, opened, prefix, raw_bit, raw_value, DecoderState,
};
use crate::range_coder::encoder::{bits_of, EncoderState};
use crate::range_coder::interval::{
    bit_length, eighths, lemma_bit_length, lemma_bit_length_monotone, settled, whole, Interval,
    Meter, BOTTOM, TOP,
};

verus! {

/// How much of the range a value gets.
pub open spec fn share(a: Alphabet, rng: int, s: int) -> int {
    a.edge(rng, s + 1) - a.edge(rng, s)
}

/// What each value of the filter's response is worth, of 4.
pub open spec fn tapset_weights() -> Seq<int> {
    seq![2, 1, 1]
}

/// What each spreading is worth, of 32.
pub open spec fn spread_weights() -> Seq<int> {
    seq![7, 2, 21, 2]
}

/// What each tilt of the allocation is worth, of 128.
pub open spec fn trim_weights() -> Seq<int> {
    seq![2, 2, 5, 10, 22, 46, 22, 10, 5, 2, 2]
}

/// What a value of a table gets, by the table.
proof fn lemma_table_shares(a: Alphabet, rng: int, s: int)
    requires
        256 <= rng,
        a == Alphabet::Tapset || a == Alphabet::Spread || a == Alphabet::Trim,
        0 <= s < a.count(),
    ensures
        ({
            let q = rng / table_total(a);
            let weight = table_above(a, s) - table_above(a, s + 1);
            &&& s >= 1 ==> share(a, rng, s) == weight * q
            &&& s == 0 ==> share(a, rng, s) == (table_total(a) - table_above(a, 1)) * q + rng
                % table_total(a)
        }),
{
    let q = rng / table_total(a);
    let x = table_above(a, s);
    let y = table_above(a, s + 1);
    let t = table_total(a);
    assert(q * x - q * y == (x - y) * q) by (nonlinear_arith);
    assert(t * q - q * y == (t - y) * q) by (nonlinear_arith);
    assert(rng == t * q + rng % t) by (nonlinear_arith)
        requires
            t >= 1,
            q == rng / t,
    ;
    if s + 1 == a.count() {
        assert(q * y == 0) by (nonlinear_arith)
            requires
                y == 0,
        ;
    }
}

/// Each value gets its weight of the range, and the first of them what is left over.
/// A set bit of a probability that is a power of a half gets that much of it, and the
/// values that are all as likely get the same.
pub proof fn law_values_have_their_weights(rng: int, s: int, logp: u32, count: u32)
    requires
        256 <= rng,
        1 <= logp <= 15,
        2 <= count <= 256,
    ensures
        1 <= s < 3 ==> share(Alphabet::Tapset, rng, s) == tapset_weights()[s] * (rng / 4),
        1 <= s < 4 ==> share(Alphabet::Spread, rng, s) == spread_weights()[s] * (rng / 32),
        1 <= s < 11 ==> share(Alphabet::Trim, rng, s) == trim_weights()[s] * (rng / 128),
        share(Alphabet::Tapset, rng, 0) == tapset_weights()[0] * (rng / 4) + rng % 4,
        share(Alphabet::Spread, rng, 0) == spread_weights()[0] * (rng / 32) + rng % 32,
        share(Alphabet::Trim, rng, 0) == trim_weights()[0] * (rng / 128) + rng % 128,
        share(Alphabet::Bit { logp }, rng, 1) == rng / two_to(logp as int),
        share(Alphabet::Bit { logp }, rng, 0) + share(Alphabet::Bit { logp }, rng, 1) == rng,
        1 <= s < count ==> share(Alphabet::Uniform { count }, rng, s) == rng / count as int,
        share(Alphabet::Uniform { count }, rng, 0) == rng / count as int + rng % count as int,
{
    if 1 <= s < 3 {
        lemma_table_shares(Alphabet::Tapset, rng, s);
    }
    if 1 <= s < 4 {
        lemma_table_shares(Alphabet::Spread, rng, s);
    }
    if 1 <= s < 11 {
        lemma_table_shares(Alphabet::Trim, rng, s);
    }
    lemma_table_shares(Alphabet::Tapset, rng, 0);
    lemma_table_shares(Alphabet::Spread, rng, 0);
    lemma_table_shares(Alphabet::Trim, rng, 0);
    let c = count as int;
    let q = rng / c;
    assert(q * (c - s) - q * (c - s - 1) == q) by (nonlinear_arith);
    assert(q * (c - 1) + q == q * c) by (nonlinear_arith);
    assert(q * (c - (s + 1)) == q * (c - s - 1));
    if s == c - 1 {
        assert(q * (c - s) == q) by (nonlinear_arith)
            requires
                s == c - 1,
        ;
    }
    assert(rng == c * q + rng % c) by (nonlinear_arith)
        requires
            c >= 2,
            q == rng / c,
    ;
    assert(c * q == q * c) by (nonlinear_arith);
}

/// `n` eight times over.
pub open spec fn eighth_power(n: int) -> int {
    let square = n * n;
    let fourth = square * square;
    fourth * fourth
}

/// Eighth powers keep their order.
proof fn lemma_eighth_power_monotone(a: int, b: int)
    requires
        0 <= a <= b,
    ensures
        eighth_power(a) <= eighth_power(b),
{
    let a2 = a * a;
    let b2 = b * b;
    assert(0 <= a2 <= b2) by (nonlinear_arith)
        requires
            a2 == a * a,
            b2 == b * b,
            0 <= a <= b,
    ;
    let a4 = a2 * a2;
    let b4 = b2 * b2;
    assert(0 <= a4 <= b4) by (nonlinear_arith)
        requires
            a4 == a2 * a2,
            b4 == b2 * b2,
            0 <= a2 <= b2,
    ;
    assert(a4 * a4 <= b4 * b4) by (nonlinear_arith)
        requires
            0 <= a4 <= b4,
    ;
}

/// Two to the hundred and twentieth, which is the eighth power of two to the
/// fifteenth.
pub open spec fn unit() -> int {
    0x100_0000_0000_0000int * 0x1_0000_0000_0000_0000int
}

/// Eighths of a bit are logarithms: a number from two to the fifteenth up, below two
/// to the sixteenth, is as many eighths above the former as twos fit into its eighth
/// power, give or take one in that number.
pub proof fn law_eighths_are_logarithms(r: int)
    requires
        0x8000 <= r <= 0xffff,
    ensures
        0 <= eighths(r) <= 7,
        two_to(eighths(r)) * unit() <= eighth_power(r + 1),
        eighth_power(r - 1) < two_to(eighths(r) + 1) * unit(),
{
    reveal_with_fuel(two_to, 10);
    assert(two_to(0) == 1 && two_to(1) == 2 && two_to(2) == 4 && two_to(3) == 8 && two_to(4) == 16
        && two_to(5) == 32 && two_to(6) == 64 && two_to(7) == 128 && two_to(8) == 256);
    assert(eighth_power(0x8001) >= unit()) by (nonlinear_arith);
    assert(eighth_power(35_732) < 2 * unit() <= eighth_power(35_735)) by (nonlinear_arith);
    assert(eighth_power(38_966) < 4 * unit() <= eighth_power(38_969)) by (nonlinear_arith);
    assert(eighth_power(42_494) < 8 * unit() <= eighth_power(42_497)) by (nonlinear_arith);
    assert(eighth_power(46_339) < 16 * unit() <= eighth_power(46_342)) by (nonlinear_arith);
    assert(eighth_power(50_534) < 32 * unit() <= eighth_power(50_537)) by (nonlinear_arith);
    assert(eighth_power(55_108) < 64 * unit() <= eighth_power(55_111)) by (nonlinear_arith);
    assert(eighth_power(60_096) < 128 * unit() <= eighth_power(60_099)) by (nonlinear_arith);
    assert(eighth_power(65_534) < 256 * unit()) by (nonlinear_arith);
    let marks = seq![
        0x7fffint, 35_733, 38_967, 42_495, 46_340, 50_535, 55_109, 60_097, 65_535,
    ];
    let k = eighths(r);
    assert(0 <= k <= 7 && marks[k] < r <= marks[k + 1]);
    lemma_eighth_power_monotone(marks[k] + 2, r + 1);
    lemma_eighth_power_monotone(r - 1, marks[k + 1] - 1);
}

/// What has been coded is counted in whole bits and in eighths by the range that is
/// left: it costs a bit for each time the range has halved.
pub proof fn law_halves_cost_a_bit(m: Meter)
    requires
        BOTTOM < m.rng <= TOP,
        0x100_0000 <= m.rng,
        m.rng % 2 == 0,
    ensures
        ({
            let half = Meter { rng: m.rng / 2, ..m };
            half.tell() == m.tell() + 1 && half.tell_frac() == m.tell_frac() + 8
        }),
        (Meter { shifts: m.shifts + 1, ..m }).tell() == m.tell() + 8,
        (Meter { raw: m.raw + 1, ..m }).tell() == m.tell() + 1,
        (Meter { skipped: m.skipped + 1, ..m }).tell() == m.tell() + 1,
        (Meter { rng: 0x8000_0000, shifts: 0, raw: 0, skipped: 0 }).tell() == 1,
        (Meter { rng: 0x8000_0000, shifts: 0, raw: 0, skipped: 0 }).tell_frac() == 8,
{
    lemma_bit_length(m.rng);
    let l = bit_length(m.rng);
    lemma_bit_length_monotone(0x100_0000, m.rng);
    reveal_with_fuel(bit_length, 34);
    assert(bit_length(0x100_0000) == 25);
    assert(bit_length(0x8000_0000) == 32);
    assert(bit_length(m.rng / 2) == l - 1);
    assert(two_to(l - 16) == 2 * two_to(l - 17));
    lemma_two_to_monotone(0, l - 17);
    vstd::arithmetic::div_mod::lemma_div_denominator(m.rng, 2, two_to(l - 17));
    assert(two_to(16) == 0x1_0000) by {
        reveal_with_fuel(two_to, 18);
    }
    assert(eighths(0x8000) == 0);
    assert(0x8000_0000int / 0x1_0000 == 0x8000);
}

/// What the first powers of two are.
proof fn lemma_powers()
    ensures
        two_to(0) == 1,
        two_to(1) == 2,
        two_to(2) == 4,
        two_to(3) == 8,
        two_to(4) == 16,
        two_to(5) == 32,
        two_to(6) == 64,
        two_to(7) == 128,
{
    reveal_with_fuel(two_to, 9);
}

/// Raw bits are read from the last byte to the first, and in each from the lowest bit
/// to the highest; before the first byte they are not set.
pub proof fn law_raw_bits_run_backwards(data: Seq<u8>, j: int, k: u8)
    requires
        0 <= j < data.len(),
        k < 8,
    ensures
        raw_bit(data, 8 * j + k) <==> (data[data.len() - 1 - j] >> k) & 1 == 1,
        !raw_bit(data, 8 * data.len() + 8 * j + k),
{
    lemma_powers();
    let b = data[data.len() - 1 - j];
    assert((8 * j + k) / 8 == j && (8 * j + k) % 8 == k as int);
    assert((8 * data.len() + 8 * j + k) / 8 == data.len() + j);
    assert(k < 8 ==> (((b >> k) & 1 == 1) <==> ((k == 0 && b % 2 == 1) || (k == 1 && (b / 2) % 2
        == 1) || (k == 2 && (b / 4) % 2 == 1) || (k == 3 && (b / 8) % 2 == 1) || (k == 4 && (b / 16)
        % 2 == 1) || (k == 5 && (b / 32) % 2 == 1) || (k == 6 && (b / 64) % 2 == 1) || (k == 7 && (b
        / 128) % 2 == 1)))) by (bit_vector);
}

/// The first raw bits of a byte are its lowest.
proof fn lemma_lowest_bits(data: Seq<u8>, j: int, n: int)
    requires
        0 <= j < data.len(),
        0 <= n <= 8,
    ensures
        raw_value(data, 8 * j, n) == data[data.len() - 1 - j] as int % two_to(n),
    decreases n,
{
    let b = data[data.len() - 1 - j] as int;
    if n > 0 {
        lemma_lowest_bits(data, j, n - 1);
        let p = two_to(n - 1);
        lemma_two_to_monotone(0, n - 1);
        assert((8 * j + n - 1) / 8 == j && (8 * j + n - 1) % 8 == n - 1);
        vstd::arithmetic::div_mod::lemma_mod_breakdown(b, p, 2);
        assert(p * 2 == two_to(n));
        let bit = (b / p) % 2;
        assert(p * bit == (if bit == 1 {
            p
        } else {
            0
        })) by (nonlinear_arith)
            requires
                bit == 0 || bit == 1,
        ;
    } else {
        assert(b % 1 == 0);
    }
}

/// Eight raw bits from a byte's lowest on are that byte.
pub proof fn law_raw_bytes_are_themselves(data: Seq<u8>, j: int)
    requires
        0 <= j < data.len(),
    ensures
        raw_value(data, 8 * j, 8) == data[data.len() - 1 - j],
{
    lemma_powers();
    lemma_lowest_bits(data, j, 8);
    assert(two_to(8) == 256) by {
        assert(two_to(8) == 2 * two_to(7));
    }
    let b = data[data.len() - 1 - j] as int;
    assert(b % 256 == b);
}

/// Raw bits are written from the lowest of a value to the highest, behind those that
/// were.
pub proof fn law_raw_bits_are_written_in_order(e: EncoderState, value: int, n: int, i: int)
    requires
        0 <= i < n,
    ensures
        ({
            let after = e.with_raw(value, n);
            &&& after.raw.len() == e.raw.len() + n
            &&& after.raw[e.raw.len() + i] <==> (value / two_to(i)) % 2 == 1
            &&& after.interval == e.interval
            &&& after.meter().tell() == e.meter().tell() + n
        }),
{
    assert(bits_of(value, n).len() == n);
}

/// A reader starts from the first 31 bits, out of as many as there can be.
pub proof fn law_reading_starts_with_31_bits(data: Seq<u8>)
    requires
        4 <= data.len(),
    ensures
        opened(data).place.at == (((data[0] * 256 + data[1]) * 256 + data[2]) * 256 + data[3]) / 2,
        opened(data).place.rng == 0x8000_0000,
        opened(data).meter().tell() == 1,
        whole() == (Interval { low: 0, rng: 0x8000_0000, shifts: 0 }),
{
    reveal_with_fuel(prefix, 5);
    reveal_with_fuel(bit_length, 34);
    assert(byte_at(data, 0) == data[0] && byte_at(data, 1) == data[1] && byte_at(data, 2)
        == data[2] && byte_at(data, 3) == data[3]);
    assert(prefix(data, 1) == data[0]);
    assert(prefix(data, 2) == 256 * data[0] + data[1]);
    assert(prefix(data, 3) == 256 * prefix(data, 2) + data[2]);
    assert(prefix(data, 4) == 256 * prefix(data, 3) + data[3]);
    assert(code(data, 0) == prefix(data, 4) / 2);
}

/// A set bit is at the top of the range: what comes first is one of even chances where
/// the first bit is set, one in eight where the first three are, and one in 32 768
/// where the first fifteen are.
pub proof fn law_first_bits_are_at_the_top(data: Seq<u8>)
    requires
        4 <= data.len(),
    ensures
        opened(data).value(Alphabet::Bit { logp: 1 }) == 1 <==> data[0] >= 128,
        opened(data).value(Alphabet::Bit { logp: 3 }) == 1 <==> data[0] >= 224,
        opened(data).value(Alphabet::Bit { logp: 15 }) == 1 <==> data[0] == 255 && data[1] >= 254,
{
    law_reading_starts_with_31_bits(data);
    lemma_powers();
    reveal_with_fuel(two_to, 17);
    assert(two_to(15) == 32_768);
    reveal_with_fuel(Alphabet::value_at, 3);
    let v = ((data[0] * 256 + data[1]) * 256 + data[2]) * 256 + data[3];
    let at = opened(data).place.at;
    let last = Alphabet::Bit { logp: 15 };
    assert(0x8000_0000int / 32_768 == 65_536);
    assert(last.edge(0x8000_0000, 1) == 0x7fff_0000);
    assert(opened(data).value(last) == 1 <==> at >= 0x7fff_0000);
    if data[0] == 255 && data[1] >= 254 {
        assert(v >= 0xfffe_0000);
    } else if data[0] < 255 {
        assert(v < 0xff00_0000);
    } else {
        assert(v < 0xfffe_0000);
    }
}

/// The range is kept above 8 388 608, a byte at a time.
pub proof fn law_ranges_are_kept_up(i: Interval)
    requires
        0 < i.rng <= 0x8000_0000,
    ensures
        i.rng > 0x80_0000 ==> settled(i) == i,
        i.rng <= 0x80_0000 ==> settled(i) == settled(
            Interval { low: 256 * i.low, rng: 256 * i.rng, shifts: i.shifts + 1 },
        ),
{
    assert(i.low * 256 == 256 * i.low);
}

/// How many values there are of each alphabet.
pub proof fn law_alphabets_have_their_values(logp: u32, count: u32)
    ensures
        (Alphabet::Bit { logp }).count() == 2,
        (Alphabet::Uniform { count }).count() == count,
        Alphabet::Tapset.count() == tapset_weights().len(),
        Alphabet::Spread.count() == spread_weights().len(),
        Alphabet::Trim.count() == trim_weights().len(),
{
}

/// What is skipped counts as taken, and raw bits take what they are.
pub proof fn law_skipping_is_counted(m: Meter, total: int, n: int, d: DecoderState)
    ensures
        m.skipped_to(total).tell() == total,
        m.with_raw(n).tell() == m.tell() + n,
        m.skipped_to(total).rng == m.rng,
        d.read_raw(n).raw == d.raw + n,
        d.read_raw(n).meter().tell() == d.meter().tell() + n,
        d.read_raw(n).place == d.place,
{
}

/// Bytes are closed with as few bits as name a part of the interval: a block of at
/// least a quarter of it, and just the bytes that those bits take.
pub proof fn law_closing_is_short(i: Interval)
    requires
        i.wf(),
    ensures
        ({
            let c = closing(i);
            &&& bit_length(i.rng) - 2 <= c.log < bit_length(i.rng)
            &&& i.low <= c.end
            &&& c.end + two_to(c.log) <= i.low + i.rng
            &&& c.end % two_to(c.log) == 0
            &&& 31 - c.log <= 8 * c.tail() < 31 - c.log + 8
            &&& c.free() == 8 * c.tail() - 31 + c.log
        }),
{
    lemma_closing(i);
}

} // verus!
