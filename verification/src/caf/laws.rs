//! What the file pieces promise together: everything written reads back.

use vstd::prelude::*;

use crate::bytes::{
    be_bytes, lemma_be_bytes_len, lemma_be_round_trip, lemma_pow256_values, unsigned32, unsigned64,
};
use crate::caf::chunk::{
    continued_groups, desc_bytes, pakt_header_bytes, parse_desc, parse_pakt_header, varint_bytes,
    varint_from, Desc, PaktHeader, FORMAT_OPUS,
};

verus! {

/// `128^n`.
spec fn pow128(n: nat) -> nat
    decreases n,
{
    if n == 0 {
        1
    } else {
        128 * pow128((n - 1) as nat)
    }
}

/// A number below `128^k` has at most `k` groups.
proof fn lemma_group_count(v: nat, k: nat)
    requires
        v < pow128(k),
    ensures
        continued_groups(v).len() <= k,
    decreases k,
{
    if v > 0 && k > 0 {
        lemma_group_count(v / 128, (k - 1) as nat);
    }
}

/// Reading across the continued groups of `w` accumulates `w`.
proof fn lemma_read_groups(bytes: Seq<u8>, pos: int, w: nat)
    requires
        w < 0x1_0000_0000_0000_0000,
        0 <= pos,
        continued_groups(w).len() <= 10,
        pos + continued_groups(w).len() <= bytes.len(),
        bytes.subrange(pos, pos + continued_groups(w).len()) == continued_groups(w),
    ensures
        varint_from(bytes, pos, 0, 0) == varint_from(
            bytes,
            pos + continued_groups(w).len(),
            w,
            continued_groups(w).len(),
        ),
    decreases w,
{
    if w > 0 {
        let g = continued_groups(w).len();
        let init = continued_groups(w / 128);
        assert(bytes.subrange(pos, pos + g - 1) =~= bytes.subrange(pos, pos + g).drop_last());
        assert(continued_groups(w).drop_last() =~= init);
        lemma_read_groups(bytes, pos, w / 128);
        assert(bytes[pos + g - 1] == bytes.subrange(pos, pos + g)[g - 1]);
        assert(bytes[pos + g - 1] == (128 + w % 128) as u8);
        assert((w / 128) * 128 + w % 128 == w);
    }
}

/// Every 64-bit integer reads back from where it was written, and the reader
/// stops exactly at its end.
pub proof fn law_varint_round_trip(prefix: Seq<u8>, value: u64, rest: Seq<u8>)
    ensures
        varint_from(prefix + varint_bytes(value as nat) + rest, prefix.len() as int, 0, 0) == (
            Ok::<u64, crate::error::Error>(value),
            (prefix.len() + varint_bytes(value as nat).len()) as int,
        ),
        1 <= varint_bytes(value as nat).len() <= 10,
{
    let v = value as nat;
    let all = prefix + varint_bytes(v) + rest;
    let pos = prefix.len() as int;
    let groups = continued_groups(v / 128);
    assert(pow128(9) == 0x8000_0000_0000_0000) by {
        reveal_with_fuel(pow128, 10);
    }
    lemma_group_count(v / 128, 9);
    assert(all.subrange(pos, pos + groups.len()) =~= groups);
    lemma_read_groups(all, pos, v / 128);
    assert(all[pos + groups.len()] == (v % 128) as u8);
    assert((v / 128) * 128 + v % 128 == v);
}

/// A `desc` chunk says after the file what it said before.
pub proof fn law_desc_round_trip(d: Desc)
    ensures
        parse_desc(desc_bytes(d)) == Ok::<Desc, crate::error::Error>(d),
        desc_bytes(d).len() == 32,
{
    lemma_pow256_values();
    lemma_be_round_trip(d.sample_rate_bits as nat, 8);
    lemma_be_round_trip(d.bytes_per_packet as nat, 4);
    lemma_be_round_trip(d.frames_per_packet as nat, 4);
    lemma_be_round_trip(d.channels as nat, 4);
    lemma_be_bytes_len(0, 4);
    let b = desc_bytes(d);
    assert(b.subrange(0, 8) =~= be_bytes(d.sample_rate_bits as nat, 8));
    assert(b.subrange(8, 12) =~= FORMAT_OPUS@);
    assert(b.subrange(16, 20) =~= be_bytes(d.bytes_per_packet as nat, 4));
    assert(b.subrange(20, 24) =~= be_bytes(d.frames_per_packet as nat, 4));
    assert(b.subrange(24, 28) =~= be_bytes(d.channels as nat, 4));
}

/// The head of a packet table says after the file what it said before, whatever
/// table follows it.
pub proof fn law_pakt_header_round_trip(h: PaktHeader, table: Seq<u8>)
    ensures
        parse_pakt_header(pakt_header_bytes(h) + table) == Ok::<PaktHeader, crate::error::Error>(h),
        pakt_header_bytes(h).len() == 24,
{
    lemma_pow256_values();
    lemma_be_round_trip(unsigned64(h.packets as int), 8);
    lemma_be_round_trip(unsigned64(h.valid_frames as int), 8);
    lemma_be_round_trip(unsigned32(h.priming_frames as int), 4);
    lemma_be_round_trip(unsigned32(h.remainder_frames as int), 4);
    let b = pakt_header_bytes(h) + table;
    assert(b.subrange(0, 8) =~= be_bytes(unsigned64(h.packets as int), 8));
    assert(b.subrange(8, 16) =~= be_bytes(unsigned64(h.valid_frames as int), 8));
    assert(b.subrange(16, 20) =~= be_bytes(unsigned32(h.priming_frames as int), 4));
    assert(b.subrange(20, 24) =~= be_bytes(unsigned32(h.remainder_frames as int), 4));
}

} // verus!
