//! Fixed-width integers as bytes, in both byte orders, and a few operations on
//! byte strings.

use vstd::prelude::*;

verus! {

/// `256^n`, the number of values `n` bytes can hold.
pub open spec fn pow256(n: nat) -> nat
    decreases n,
{
    if n == 0 {
        1
    } else {
        256 * pow256((n - 1) as nat)
    }
}

/// The number a byte string spells, most significant byte first.
pub open spec fn be_value(s: Seq<u8>) -> nat
    decreases s.len(),
{
    if s.len() == 0 {
        0
    } else {
        be_value(s.drop_last()) * 256 + s.last() as nat
    }
}

/// The low `n` bytes of `v`, most significant byte first.
pub open spec fn be_bytes(v: nat, n: nat) -> Seq<u8>
    decreases n,
{
    if n == 0 {
        Seq::empty()
    } else {
        be_bytes(v / 256, (n - 1) as nat).push((v % 256) as u8)
    }
}

/// The number a byte string spells, least significant byte first.
pub open spec fn le_value(s: Seq<u8>) -> nat
    decreases s.len(),
{
    if s.len() == 0 {
        0
    } else {
        s[0] as nat + 256 * le_value(s.subrange(1, s.len() as int))
    }
}

/// The low `n` bytes of `v`, least significant byte first.
pub open spec fn le_bytes(v: nat, n: nat) -> Seq<u8>
    decreases n,
{
    if n == 0 {
        Seq::empty()
    } else {
        seq![(v % 256) as u8] + le_bytes(v / 256, (n - 1) as nat)
    }
}

/// The 64-bit two's-complement reading of an unsigned value.
pub open spec fn signed64(v: nat) -> int {
    if v < 0x8000_0000_0000_0000 {
        v as int
    } else {
        v - 0x1_0000_0000_0000_0000
    }
}

/// The unsigned value with the same 64 bits as `v`.
pub open spec fn unsigned64(v: int) -> nat {
    if v >= 0 {
        v as nat
    } else {
        (v + 0x1_0000_0000_0000_0000) as nat
    }
}

/// The 32-bit two's-complement reading of an unsigned value.
pub open spec fn signed32(v: nat) -> int {
    if v < 0x8000_0000 {
        v as int
    } else {
        v - 0x1_0000_0000
    }
}

/// The unsigned value with the same 32 bits as `v`.
pub open spec fn unsigned32(v: int) -> nat {
    if v >= 0 {
        v as nat
    } else {
        (v + 0x1_0000_0000) as nat
    }
}

/// The 16-bit two's-complement reading of an unsigned value.
pub open spec fn signed16(v: nat) -> int {
    if v < 0x8000 {
        v as int
    } else {
        v - 0x1_0000
    }
}

/// The unsigned value with the same 16 bits as `v`.
pub open spec fn unsigned16(v: int) -> nat {
    if v >= 0 {
        v as nat
    } else {
        (v + 0x1_0000) as nat
    }
}

/// The widths the containers use.
pub proof fn lemma_pow256_values()
    ensures
        pow256(0) == 1,
        pow256(1) == 0x100,
        pow256(2) == 0x1_0000,
        pow256(4) == 0x1_0000_0000,
        pow256(8) == 0x1_0000_0000_0000_0000,
{
    reveal_with_fuel(pow256, 9);
}

/// A longer byte string holds at least as many values.
pub proof fn lemma_pow256_monotone(a: nat, b: nat)
    requires
        a <= b,
    ensures
        0 < pow256(a) <= pow256(b),
    decreases b,
{
    if b == 0 {
    } else if a == b {
        lemma_pow256_monotone((a - 1) as nat, (b - 1) as nat);
    } else {
        lemma_pow256_monotone(a, (b - 1) as nat);
    }
}

/// A byte string of length `n` spells a number below `256^n`.
pub proof fn lemma_be_value_bound(s: Seq<u8>)
    ensures
        be_value(s) < pow256(s.len()),
    decreases s.len(),
{
    if s.len() > 0 {
        lemma_be_value_bound(s.drop_last());
    }
}

/// A byte string of length `n` spells a number below `256^n`.
pub proof fn lemma_le_value_bound(s: Seq<u8>)
    ensures
        le_value(s) < pow256(s.len()),
    decreases s.len(),
{
    if s.len() > 0 {
        lemma_le_value_bound(s.subrange(1, s.len() as int));
    }
}

/// Spelling a number big-endian and reading it back gives the number.
pub proof fn lemma_be_round_trip(v: nat, n: nat)
    requires
        v < pow256(n),
    ensures
        be_bytes(v, n).len() == n,
        be_value(be_bytes(v, n)) == v,
    decreases n,
{
    if n > 0 {
        lemma_be_round_trip(v / 256, (n - 1) as nat);
        let rest = be_bytes(v / 256, (n - 1) as nat);
        assert(be_bytes(v, n).drop_last() =~= rest);
    }
}

/// The big-endian spelling has the width that was asked for.
pub proof fn lemma_be_bytes_len(v: nat, n: nat)
    ensures
        be_bytes(v, n).len() == n,
    decreases n,
{
    if n > 0 {
        lemma_be_bytes_len(v / 256, (n - 1) as nat);
    }
}

/// Spelling a number little-endian and reading it back gives the number.
pub proof fn lemma_le_round_trip(v: nat, n: nat)
    requires
        v < pow256(n),
    ensures
        le_bytes(v, n).len() == n,
        le_value(le_bytes(v, n)) == v,
    decreases n,
{
    if n > 0 {
        lemma_le_round_trip(v / 256, (n - 1) as nat);
        let rest = le_bytes(v / 256, (n - 1) as nat);
        assert(le_bytes(v, n).subrange(1, n as int) =~= rest);
    }
}

/// The little-endian spelling has the width that was asked for.
pub proof fn lemma_le_bytes_len(v: nat, n: nat)
    ensures
        le_bytes(v, n).len() == n,
    decreases n,
{
    if n > 0 {
        lemma_le_bytes_len(v / 256, (n - 1) as nat);
    }
}

/// Read `n` bytes at `from` as a big-endian number.
pub fn read_be(bytes: &[u8], from: usize, n: usize) -> (v: u64)
    requires
        n <= 8,
        from + n <= bytes@.len(),
    ensures
        v == be_value(bytes@.subrange(from as int, from + n)),
        v < pow256(n as nat),
    decreases n,
{
    proof {
        lemma_be_value_bound(bytes@.subrange(from as int, from + n));
        lemma_pow256_monotone(n as nat, 8);
        lemma_pow256_values();
        assert(from + n <= bytes.len());
    }
    if n == 0 {
        0
    } else {
        let high: u64 = read_be(bytes, from, n - 1);
        proof {
            assert(bytes@.subrange(from as int, from + n).drop_last() =~= bytes@.subrange(
                from as int,
                from + n - 1,
            ));
        }
        high * 256 + bytes[from + n - 1] as u64
    }
}

/// Read `n` bytes at `from` as a little-endian number.
pub fn read_le(bytes: &[u8], from: usize, n: usize) -> (v: u64)
    requires
        n <= 8,
        from + n <= bytes@.len(),
    ensures
        v == le_value(bytes@.subrange(from as int, from + n)),
        v < pow256(n as nat),
    decreases n,
{
    proof {
        lemma_le_value_bound(bytes@.subrange(from as int, from + n));
        lemma_pow256_monotone(n as nat, 8);
        lemma_pow256_values();
        assert(from + n <= bytes.len());
    }
    if n == 0 {
        0
    } else {
        let high: u64 = read_le(bytes, from + 1, n - 1);
        proof {
            let s = bytes@.subrange(from as int, from + n);
            assert(s.subrange(1, n as int) =~= bytes@.subrange(from + 1, from + n));
        }
        bytes[from] as u64 + 256 * high
    }
}

/// Append the low `n` bytes of `v`, most significant first.
pub fn push_be(out: &mut Vec<u8>, v: u64, n: usize)
    ensures
        final(out)@ == old(out)@ + be_bytes(v as nat, n as nat),
    decreases n,
{
    if n > 0 {
        push_be(out, v / 256, n - 1);
        out.push((v % 256) as u8);
        assert(out@ =~= old(out)@ + be_bytes(v as nat, n as nat));
    }
}

/// Append the low `n` bytes of `v`, least significant first.
pub fn push_le(out: &mut Vec<u8>, v: u64, n: usize)
    ensures
        final(out)@ == old(out)@ + le_bytes(v as nat, n as nat),
    decreases n,
{
    if n > 0 {
        out.push((v % 256) as u8);
        push_le(out, v / 256, n - 1);
        assert(out@ =~= old(out)@ + le_bytes(v as nat, n as nat));
    }
}

/// Append a byte string.
pub fn push_all(out: &mut Vec<u8>, bytes: &[u8])
    ensures
        final(out)@ == old(out)@ + bytes@,
{
    out.extend_from_slice(bytes);
    assert(out@ =~= old(out)@ + bytes@);
}

/// Whether two byte strings are the same.
pub fn same_bytes(a: &[u8], b: &[u8]) -> (same: bool)
    ensures
        same == (a@ == b@),
{
    if a.len() != b.len() {
        return false;
    }
    let mut i: usize = 0;
    while i < a.len()
        invariant
            a@.len() == b@.len(),
            i <= a@.len(),
            forall|k: int| 0 <= k < i ==> a@[k] == b@[k],
        decreases a@.len() - i,
    {
        if a[i] != b[i] {
            return false;
        }
        i += 1;
    }
    assert(a@ =~= b@);
    true
}

/// Reinterpret 64 bits as a signed number.
pub fn to_signed64(v: u64) -> (s: i64)
    ensures
        s == signed64(v as nat),
        unsigned64(s as int) == v,
{
    let s: i64 = v as i64;
    assert(v < 0x8000_0000_0000_0000u64 ==> v as i64 == v) by (bit_vector);
    assert(v >= 0x8000_0000_0000_0000u64 ==> v as i64 == v - 0x1_0000_0000_0000_0000int)
        by (bit_vector);
    s
}

/// Reinterpret a signed number as 64 bits.
pub fn to_unsigned64(s: i64) -> (v: u64)
    ensures
        v == unsigned64(s as int),
        signed64(v as nat) == s,
{
    let v: u64 = s as u64;
    assert(s >= 0 ==> s as u64 == s) by (bit_vector);
    assert(s < 0 ==> s as u64 == s + 0x1_0000_0000_0000_0000int) by (bit_vector);
    v
}

/// Reinterpret 32 bits as a signed number.
pub fn to_signed32(v: u32) -> (s: i32)
    ensures
        s == signed32(v as nat),
        unsigned32(s as int) == v,
{
    let s: i32 = v as i32;
    assert(v < 0x8000_0000u32 ==> v as i32 == v) by (bit_vector);
    assert(v >= 0x8000_0000u32 ==> v as i32 == v - 0x1_0000_0000int) by (bit_vector);
    s
}

/// Reinterpret a signed number as 32 bits.
pub fn to_unsigned32(s: i32) -> (v: u32)
    ensures
        v == unsigned32(s as int),
        signed32(v as nat) == s,
{
    let v: u32 = s as u32;
    assert(s >= 0 ==> s as u32 == s) by (bit_vector);
    assert(s < 0 ==> s as u32 == s + 0x1_0000_0000int) by (bit_vector);
    v
}

/// Reinterpret 16 bits as a signed number.
pub fn to_signed16(v: u16) -> (s: i16)
    ensures
        s == signed16(v as nat),
        unsigned16(s as int) == v,
{
    let s: i16 = v as i16;
    assert(v < 0x8000u16 ==> v as i16 == v) by (bit_vector);
    assert(v >= 0x8000u16 ==> v as i16 == v - 0x1_0000int) by (bit_vector);
    s
}

/// Reinterpret a signed number as 16 bits.
pub fn to_unsigned16(s: i16) -> (v: u16)
    ensures
        v == unsigned16(s as int),
        signed16(v as nat) == s,
{
    let v: u16 = s as u16;
    assert(s >= 0 ==> s as u16 == s) by (bit_vector);
    assert(s < 0 ==> s as u16 == s + 0x1_0000int) by (bit_vector);
    v
}

} // verus!
