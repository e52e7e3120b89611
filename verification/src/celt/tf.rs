//! The time-frequency resolution of each band, as the frame spells it out.

use vstd::prelude::*;

use crate::celt::step::{in_step, lemma_in_step, lemma_names_earlier};
use crate::range_coder::alphabet::Alphabet;
use crate::range_coder::decoder::{lemma_next_value, lemma_taken_meter, DecoderState, RangeDecoder};
use crate::range_coder::encoder::{EncoderState, RangeEncoder};
use crate::range_coder::interval::{lemma_meter_coded, lemma_part, Meter, MAX_BITS};
use crate::range_coder::laws::names;

verus! {

/// The change of resolution that a band's flag stands for, by the frame's size,
/// whether it is a transient, and which of two tables it uses.
pub open spec fn tf_change(lm: int, transient: bool, select: int, flag: int) -> int {
    if !transient {
        if flag == 0 {
            0
        } else if select == 0 {
            if lm <= 1 {
                -1
            } else {
                -2
            }
        } else {
            if lm == 0 {
                -1
            } else if lm == 1 {
                -2
            } else {
                -3
            }
        }
    } else if lm == 0 {
        if flag == 0 {
            0
        } else {
            -1
        }
    } else if select == 0 {
        if flag == 0 {
            lm
        } else {
            0
        }
    } else {
        if flag == 0 {
            1
        } else {
            -1
        }
    }
}

/// The change of resolution that a band's flag stands for.
pub fn tf_select_table(lm: usize, transient: bool, select: usize, flag: usize) -> (change: i32)
    requires
        lm <= 3,
    ensures
        change == tf_change(lm as int, transient, select as int, flag as int),
{
    if !transient {
        if flag == 0 {
            0
        } else if select == 0 {
            if lm <= 1 {
                -1
            } else {
                -2
            }
        } else {
            if lm == 0 {
                -1
            } else if lm == 1 {
                -2
            } else {
                -3
            }
        }
    } else if lm == 0 {
        if flag == 0 {
            0
        } else {
            -1
        }
    } else if select == 0 {
        if flag == 0 {
            lm as i32
        } else {
            0
        }
    } else {
        if flag == 0 {
            1
        } else {
            -1
        }
    }
}

/// How rarely a band's flag differs from the one before.
pub open spec fn flag_logp(transient: bool, k: int) -> int {
    if k == 0 {
        if transient {
            2
        } else {
            4
        }
    } else {
        if transient {
            4
        } else {
            5
        }
    }
}

/// The alphabet of a band's flag.
pub open spec fn flag_alphabet(transient: bool, k: int) -> Alphabet {
    Alphabet::Bit { logp: flag_logp(transient, k) as u32 }
}

/// Whether a bit is kept for the choice of table.
pub open spec fn keeps_select(m: Meter, lm: int, transient: bool, storage: int) -> bool {
    lm > 0 && m.tell() + flag_logp(transient, 0) < 8 * storage
}

/// The bits that the flags may take.
pub open spec fn flag_budget(m: Meter, lm: int, transient: bool, storage: int) -> int {
    8 * storage - (if keeps_select(m, lm, transient, storage) {
        1int
    } else {
        0
    })
}

/// Whether the choice of table is spelled out: where a bit is kept for it and it
/// makes a difference.
pub open spec fn spells_select(kept: bool, lm: int, transient: bool, changed: bool) -> bool {
    let flag = if changed {
        1int
    } else {
        0
    };
    kept && tf_change(lm, transient, 0, flag) != tf_change(lm, transient, 1, flag)
}

/// The flags of some bands once they are coded.
#[verifier::ext_equal]
pub struct FlagsWritten {
    /// The coder.
    pub e: EncoderState,
    /// The last flag.
    pub curr: int,
    /// Whether any flag is set.
    pub changed: bool,
    /// The flags as the decoder sees them.
    pub flags: Seq<int>,
}

/// The first `n` flags, coded as changes as long as the budget lasts.
pub open spec fn write_flags(
    e: EncoderState,
    transient: bool,
    flags: Seq<int>,
    budget: int,
    n: int,
) -> FlagsWritten
    decreases n,
{
    if n <= 0 {
        FlagsWritten { e, curr: 0, changed: false, flags: Seq::empty() }
    } else {
        let w = write_flags(e, transient, flags, budget, n - 1);
        let flag = flags[n - 1];
        if w.e.meter().tell() + flag_logp(transient, n - 1) <= budget {
            FlagsWritten {
                e: w.e.coded(
                    flag_alphabet(transient, n - 1),
                    if flag != w.curr {
                        1
                    } else {
                        0
                    },
                ),
                curr: flag,
                changed: w.changed || flag == 1,
                flags: w.flags.push(flag),
            }
        } else {
            FlagsWritten { flags: w.flags.push(w.curr), ..w }
        }
    }
}

/// The flags of some bands once they are read.
#[verifier::ext_equal]
pub struct FlagsRead {
    /// The decoder.
    pub d: DecoderState,
    /// The last flag.
    pub curr: int,
    /// Whether any flag is set.
    pub changed: bool,
    /// The flags.
    pub flags: Seq<int>,
}

/// The first `n` flags, read as changes as long as the budget lasts.
pub open spec fn read_flags(d: DecoderState, transient: bool, budget: int, n: int) -> FlagsRead
    decreases n,
{
    if n <= 0 {
        FlagsRead { d, curr: 0, changed: false, flags: Seq::empty() }
    } else {
        let r = read_flags(d, transient, budget, n - 1);
        if r.d.meter().tell() + flag_logp(transient, n - 1) <= budget {
            let alphabet = flag_alphabet(transient, n - 1);
            let curr = if r.d.value(alphabet) == 1 {
                1 - r.curr
            } else {
                r.curr
            };
            FlagsRead {
                d: r.d.read(alphabet),
                curr,
                changed: r.changed || curr == 1,
                flags: r.flags.push(curr),
            }
        } else {
            FlagsRead { flags: r.flags.push(r.curr), ..r }
        }
    }
}

/// Flags as the changes of resolution that they stand for.
pub open spec fn changes(flags: Seq<int>, lm: int, transient: bool, select: int) -> Seq<int> {
    Seq::new(flags.len(), |k: int| tf_change(lm, transient, select, flags[k]))
}

/// Some bands' flags, coded, and the changes of resolution that they stand for.
pub open spec fn tf_written(
    e: EncoderState,
    transient: bool,
    flags: Seq<int>,
    lm: int,
    select: int,
) -> (Seq<int>, EncoderState) {
    let kept = keeps_select(e.meter(), lm, transient, e.storage);
    let budget = flag_budget(e.meter(), lm, transient, e.storage);
    let w = write_flags(e, transient, flags, budget, flags.len() as int);
    if spells_select(kept, lm, transient, w.changed) {
        (
            changes(w.flags, lm, transient, select),
            w.e.coded(Alphabet::Bit { logp: 1 }, select),
        )
    } else {
        (changes(w.flags, lm, transient, 0), w.e)
    }
}

/// Some bands' flags, read, and the changes of resolution that they stand for.
pub open spec fn tf_read(d: DecoderState, transient: bool, n: int, lm: int) -> (
    Seq<int>,
    DecoderState,
) {
    let storage = d.data.len() as int;
    let kept = keeps_select(d.meter(), lm, transient, storage);
    let budget = flag_budget(d.meter(), lm, transient, storage);
    let r = read_flags(d, transient, budget, n);
    if spells_select(kept, lm, transient, r.changed) {
        let one = Alphabet::Bit { logp: 1 };
        (changes(r.flags, lm, transient, r.d.value(one)), r.d.read(one))
    } else {
        (changes(r.flags, lm, transient, 0), r.d)
    }
}

/// Whether flags are 0 or 1.
pub open spec fn are_flags(flags: Seq<int>) -> bool {
    forall|k: int| 0 <= k < flags.len() ==> 0 <= #[trigger] flags[k] <= 1
}

/// Values as numbers.
pub open spec fn numbers(v: Seq<i32>) -> Seq<int> {
    Seq::new(v.len(), |k: int| v[k] as int)
}

/// What coding flags keeps.
proof fn lemma_write_flags(e: EncoderState, transient: bool, flags: Seq<int>, budget: int, n: int)
    requires
        e.interval.wf(),
        are_flags(flags),
        0 <= n <= flags.len(),
    ensures
        ({
            let w = write_flags(e, transient, flags, budget, n);
            &&& w.e.interval.wf()
            &&& 0 <= w.curr <= 1
            &&& w.flags.len() == n
            &&& are_flags(w.flags)
            &&& w.e.raw == e.raw
            &&& w.e.skipped == e.skipped
            &&& w.e.storage == e.storage
            &&& w.e.meter().bits() <= e.meter().bits() + 32 * n
        }),
    decreases n,
{
    if n > 0 {
        lemma_write_flags(e, transient, flags, budget, n - 1);
        let w = write_flags(e, transient, flags, budget, n - 1);
        let s = if flags[n - 1] != w.curr {
            1int
        } else {
            0
        };
        lemma_part(w.e.interval, flag_alphabet(transient, n - 1), s);
        lemma_meter_coded(w.e.meter(), w.e.interval, flag_alphabet(transient, n - 1), s);
        assert(0 <= flags[n - 1] <= 1);
    }
}

/// A number in the interval that the flags leave behind lies in that of the
/// first of them.
proof fn lemma_flags_named(
    data: Seq<u8>,
    e: EncoderState,
    transient: bool,
    flags: Seq<int>,
    budget: int,
    k: int,
    n: int,
)
    requires
        e.interval.wf(),
        are_flags(flags),
        0 <= k <= n <= flags.len(),
        names(data, write_flags(e, transient, flags, budget, n).e.interval),
    ensures
        names(data, write_flags(e, transient, flags, budget, k).e.interval),
    decreases n - k,
{
    if k < n {
        let w = write_flags(e, transient, flags, budget, n - 1);
        lemma_write_flags(e, transient, flags, budget, n - 1);
        if w.e.meter().tell() + flag_logp(transient, n - 1) <= budget {
            lemma_names_earlier(
                data,
                w.e,
                flag_alphabet(transient, n - 1),
                if flags[n - 1] != w.curr {
                    1
                } else {
                    0
                },
            );
        }
        lemma_flags_named(data, e, transient, flags, budget, k, n - 1);
    }
}

/// The decoder reads the flags that were coded.
proof fn lemma_flags_come_back(
    d: DecoderState,
    e: EncoderState,
    transient: bool,
    flags: Seq<int>,
    budget: int,
    n: int,
)
    requires
        in_step(d, e),
        are_flags(flags),
        0 <= n <= flags.len(),
        names(d.data, write_flags(e, transient, flags, budget, n).e.interval),
    ensures
        ({
            let w = write_flags(e, transient, flags, budget, n);
            let r = read_flags(d, transient, budget, n);
            &&& in_step(r.d, w.e)
            &&& r.d.data == d.data
            &&& r.curr == w.curr
            &&& r.changed == w.changed
            &&& r.flags == w.flags
        }),
    decreases n,
{
    if n > 0 {
        lemma_flags_named(d.data, e, transient, flags, budget, n - 1, n);
        lemma_flags_come_back(d, e, transient, flags, budget, n - 1);
        lemma_write_flags(e, transient, flags, budget, n - 1);
        let w = write_flags(e, transient, flags, budget, n - 1);
        let r = read_flags(d, transient, budget, n - 1);
        assert(0 <= flags[n - 1] <= 1);
        assert(r.d.meter() == w.e.meter());
        if w.e.meter().tell() + flag_logp(transient, n - 1) <= budget {
            lemma_in_step(
                r.d,
                w.e,
                flag_alphabet(transient, n - 1),
                if flags[n - 1] != w.curr {
                    1
                } else {
                    0
                },
            );
        }
    }
}

/// What saying the resolution keeps: an interval that can be divided, and a
/// number in it lies in the one before.
pub proof fn lemma_tf_written(
    data: Seq<u8>,
    e: EncoderState,
    transient: bool,
    flags: Seq<int>,
    lm: int,
    select: int,
)
    requires
        e.interval.wf(),
        are_flags(flags),
        0 <= select <= 1,
    ensures
        ({
            let after = tf_written(e, transient, flags, lm, select).1;
            &&& after.interval.wf()
            &&& after.raw == e.raw
            &&& after.skipped == e.skipped
            &&& after.storage == e.storage
            &&& names(data, after.interval) ==> names(data, e.interval)
        }),
{
    let n = flags.len() as int;
    let budget = flag_budget(e.meter(), lm, transient, e.storage);
    let w = write_flags(e, transient, flags, budget, n);
    lemma_write_flags(e, transient, flags, budget, n);
    let one = Alphabet::Bit { logp: 1 };
    lemma_part(w.e.interval, one, select);
    let after = tf_written(e, transient, flags, lm, select).1;
    if names(data, after.interval) {
        if after.interval != w.e.interval {
            lemma_names_earlier(data, w.e, one, select);
        }
        lemma_flags_named(data, e, transient, flags, budget, 0, n);
    }
}

/// Reading the resolution leaves the bytes as they are.
pub proof fn lemma_tf_read_data(d: DecoderState, transient: bool, n: int, lm: int)
    ensures
        tf_read(d, transient, n, lm).1.data == d.data,
{
    let budget = flag_budget(d.meter(), lm, transient, d.data.len() as int);
    lemma_read_data(d, transient, budget, n);
}

/// Reading flags leaves the bytes as they are.
proof fn lemma_read_data(d: DecoderState, transient: bool, budget: int, n: int)
    ensures
        read_flags(d, transient, budget, n).d.data == d.data,
    decreases n,
{
    if n > 0 {
        lemma_read_data(d, transient, budget, n - 1);
    }
}

/// The decoder finds the time-frequency resolution that the encoder settled on,
/// band by band, and is in step with it afterwards, whatever the budget cut off.
pub proof fn law_tf_comes_back(
    d: DecoderState,
    e: EncoderState,
    transient: bool,
    flags: Seq<int>,
    lm: int,
    select: int,
)
    requires
        in_step(d, e),
        d.data.len() == e.storage,
        are_flags(flags),
        0 <= select <= 1,
        names(d.data, tf_written(e, transient, flags, lm, select).1.interval),
    ensures
        ({
            let (written, after) = tf_written(e, transient, flags, lm, select);
            let (read, d_after) = tf_read(d, transient, flags.len() as int, lm);
            &&& read == written
            &&& in_step(d_after, after)
            &&& d_after.meter().tell() == after.meter().tell()
        }),
{
    let n = flags.len() as int;
    let kept = keeps_select(e.meter(), lm, transient, e.storage);
    let budget = flag_budget(e.meter(), lm, transient, e.storage);
    assert(d.meter() == e.meter());
    let w = write_flags(e, transient, flags, budget, n);
    lemma_write_flags(e, transient, flags, budget, n);
    let one = Alphabet::Bit { logp: 1 };
    if spells_select(kept, lm, transient, w.changed) {
        lemma_names_earlier(d.data, w.e, one, select);
    }
    lemma_flags_come_back(d, e, transient, flags, budget, n);
    let r = read_flags(d, transient, budget, n);
    if spells_select(kept, lm, transient, w.changed) {
        lemma_in_step(r.d, w.e, one, select);
    }
}

/// Code the flags of the bands from `start` to `end`, and replace them by the
/// changes of resolution that the decoder will find. Returns whether any flag is
/// set.
pub fn tf_encode(
    start: usize,
    end: usize,
    is_transient: bool,
    tf_res: &mut Vec<i32>,
    lm: usize,
    tf_select: usize,
    rc: &mut RangeEncoder,
) -> (changed: bool)
    requires
        start <= end <= old(tf_res)@.len(),
        end - start <= 21,
        lm <= 3,
        tf_select <= 1,
        are_flags(numbers(old(tf_res)@.subrange(start as int, end as int))),
        old(rc).wf(),
        old(rc)@.meter().bits() + 1000 <= MAX_BITS,
        8 * old(rc)@.storage <= i32::MAX,
    ensures
        final(rc).wf(),
        ({
            let flags = numbers(old(tf_res)@.subrange(start as int, end as int));
            let (written, after) = tf_written(
                old(rc)@,
                is_transient,
                flags,
                lm as int,
                tf_select as int,
            );
            let budget = flag_budget(old(rc)@.meter(), lm as int, is_transient, old(rc)@.storage);
            &&& final(rc)@ == after
            &&& final(tf_res)@.len() == old(tf_res)@.len()
            &&& numbers(final(tf_res)@.subrange(start as int, end as int)) == written
            &&& forall|k: int|
                0 <= k < start || end <= k < old(tf_res)@.len() ==> final(tf_res)@[k] == old(
                    tf_res,
                )@[k]
            &&& changed == write_flags(
                old(rc)@,
                is_transient,
                flags,
                budget,
                flags.len() as int,
            ).changed
            &&& final(rc)@.meter().bits() <= old(rc)@.meter().bits() + 1000
        }),
{
    let ghost before = rc@;
    let ghost first = tf_res@;
    let ghost n = end - start;
    let ghost flags = numbers(tf_res@.subrange(start as int, end as int));
    proof {
        rc.lemma_bounded();
    }
    let first_logp: i32 = if is_transient {
        2
    } else {
        4
    };
    let total: i32 = rc.storage() as i32 * 8;
    let kept: bool = lm > 0 && rc.tell() + first_logp < total;
    let budget: i32 = if kept {
        total - 1
    } else {
        total
    };
    let mut curr: i32 = 0;
    let mut changed: bool = false;
    let mut i: usize = start;
    while i < end
        invariant
            start <= i <= end <= tf_res@.len(),
            n == end - start <= 21,
            first.len() == tf_res@.len(),
            flags == numbers(first.subrange(start as int, end as int)),
            are_flags(flags),
            before.interval.wf(),
            before.meter().bits() + 1000 <= MAX_BITS,
            rc.wf(),
            -1 <= budget,
            0 <= curr <= 1,
            ({
                let w = write_flags(before, is_transient, flags, budget as int, i - start);
                &&& rc@ == w.e
                &&& curr == w.curr
                &&& changed == w.changed
                &&& numbers(tf_res@.subrange(start as int, i as int)) == w.flags
            }),
            forall|k: int|
                0 <= k < start || i <= k < tf_res@.len() ==> tf_res@[k] == first[k],
        decreases end - i,
    {
        let ghost k = i - start;
        let ghost so_far = tf_res@;
        proof {
            lemma_write_flags(before, is_transient, flags, budget as int, k);
            assert(flags[k] == first[i as int]);
            assert(tf_res@[i as int] == flags[k]);
            assert(0 <= flags[k] <= 1);
        }
        let logp: u32 = if i == start {
            if is_transient {
                2
            } else {
                4
            }
        } else {
            if is_transient {
                4
            } else {
                5
            }
        };
        let flag: i32 = tf_res[i];
        if rc.tell() + logp as i32 <= budget {
            let change: u32 = if flag != curr {
                1
            } else {
                0
            };
            rc.encode(Alphabet::Bit { logp }, change);
            curr = flag;
            changed = changed || flag == 1;
        } else {
            tf_res.set(i, curr);
        }
        i = i + 1;
        proof {
            let w = write_flags(before, is_transient, flags, budget as int, k + 1);
            assert(numbers(tf_res@.subrange(start as int, i as int)) =~= numbers(
                so_far.subrange(start as int, i - 1),
            ).push(w.flags.last()));
        }
    }
    let ghost w = write_flags(before, is_transient, flags, budget as int, n);
    proof {
        lemma_write_flags(before, is_transient, flags, budget as int, n);
    }
    let flag: usize = if changed {
        1
    } else {
        0
    };
    let mut select: usize = 0;
    if kept && tf_select_table(lm, is_transient, 0, flag) != tf_select_table(
        lm,
        is_transient,
        1,
        flag,
    ) {
        rc.encode(Alphabet::Bit { logp: 1 }, tf_select as u32);
        select = tf_select;
    }
    let ghost settled = tf_res@;
    let mut j: usize = start;
    while j < end
        invariant
            start <= j <= end <= tf_res@.len(),
            lm <= 3,
            n == end - start,
            settled.len() == tf_res@.len(),
            w.flags == numbers(settled.subrange(start as int, end as int)),
            w.flags.len() == n,
            are_flags(w.flags),
            forall|k: int|
                0 <= k < start || j <= k < tf_res@.len() ==> tf_res@[k] == settled[k],
            forall|k: int|
                start <= k < j ==> tf_res@[k] == #[trigger] tf_change(
                    lm as int,
                    is_transient,
                    select as int,
                    w.flags[k - start],
                ),
        decreases end - j,
    {
        proof {
            assert(w.flags[j - start] == settled[j as int]);
            assert(0 <= w.flags[j - start] <= 1);
        }
        let flag: usize = tf_res[j] as usize;
        tf_res.set(j, tf_select_table(lm, is_transient, select, flag));
        j = j + 1;
    }
    proof {
        let out = numbers(tf_res@.subrange(start as int, end as int));
        assert forall|k: int| 0 <= k < n implies out[k] == changes(
            w.flags,
            lm as int,
            is_transient,
            select as int,
        )[k] by {
            assert(tf_res@[start + k] == tf_change(
                lm as int,
                is_transient,
                select as int,
                w.flags[start + k - start],
            ));
        }
        assert(out =~= changes(w.flags, lm as int, is_transient, select as int));
    }
    changed
}

/// What reading flags keeps.
proof fn lemma_read_flags(d: DecoderState, transient: bool, budget: int, n: int)
    requires
        d.wf(),
        0 <= n,
    ensures
        ({
            let r = read_flags(d, transient, budget, n);
            &&& r.d.wf()
            &&& 0 <= r.curr <= 1
            &&& r.flags.len() == n
            &&& are_flags(r.flags)
            &&& r.d.data == d.data
            &&& r.d.meter().bits() <= d.meter().bits() + 32 * n
        }),
    decreases n,
{
    if n > 0 {
        lemma_read_flags(d, transient, budget, n - 1);
        let r = read_flags(d, transient, budget, n - 1);
        let alphabet = flag_alphabet(transient, n - 1);
        lemma_next_value(r.d, alphabet);
        lemma_taken_meter(r.d, alphabet, r.d.value(alphabet));
    }
}

/// Read the flags of the bands from `start` to `end` into the changes of
/// resolution that they stand for.
pub fn tf_decode(
    start: usize,
    end: usize,
    is_transient: bool,
    tf_res: &mut Vec<i32>,
    lm: usize,
    rc: &mut RangeDecoder,
)
    requires
        start <= end <= old(tf_res)@.len(),
        end - start <= 21,
        lm <= 3,
        old(rc).wf(),
        old(rc)@.meter().bits() + 1000 <= MAX_BITS,
        8 * old(rc)@.data.len() <= i32::MAX,
    ensures
        final(rc).wf(),
        ({
            let (read, after) = tf_read(old(rc)@, is_transient, end - start, lm as int);
            &&& final(rc)@ == after
            &&& final(tf_res)@.len() == old(tf_res)@.len()
            &&& numbers(final(tf_res)@.subrange(start as int, end as int)) == read
            &&& forall|k: int|
                0 <= k < start || end <= k < old(tf_res)@.len() ==> final(tf_res)@[k] == old(
                    tf_res,
                )@[k]
            &&& final(rc)@.meter().bits() <= old(rc)@.meter().bits() + 1000
        }),
{
    let ghost before = rc@;
    let ghost first = tf_res@;
    let ghost n = end - start;
    let first_logp: i32 = if is_transient {
        2
    } else {
        4
    };
    let total: i32 = rc.storage() as i32 * 8;
    let kept: bool = lm > 0 && rc.tell() + first_logp < total;
    let budget: i32 = if kept {
        total - 1
    } else {
        total
    };
    let mut curr: i32 = 0;
    let mut changed: bool = false;
    let mut i: usize = start;
    while i < end
        invariant
            start <= i <= end <= tf_res@.len(),
            n == end - start <= 21,
            first.len() == tf_res@.len(),
            before.wf(),
            before.meter().bits() + 1000 <= MAX_BITS,
            rc.wf(),
            -1 <= budget,
            0 <= curr <= 1,
            ({
                let r = read_flags(before, is_transient, budget as int, i - start);
                &&& rc@ == r.d
                &&& curr == r.curr
                &&& changed == r.changed
                &&& numbers(tf_res@.subrange(start as int, i as int)) == r.flags
            }),
            forall|k: int|
                0 <= k < start || i <= k < tf_res@.len() ==> tf_res@[k] == first[k],
        decreases end - i,
    {
        let ghost k = i - start;
        let ghost so_far = tf_res@;
        proof {
            lemma_read_flags(before, is_transient, budget as int, k);
        }
        let logp: u32 = if i == start {
            if is_transient {
                2
            } else {
                4
            }
        } else {
            if is_transient {
                4
            } else {
                5
            }
        };
        if rc.tell() + logp as i32 <= budget {
            if rc.decode(Alphabet::Bit { logp }) == 1 {
                curr = 1 - curr;
            }
            changed = changed || curr == 1;
        }
        tf_res.set(i, curr);
        i = i + 1;
        proof {
            let r = read_flags(before, is_transient, budget as int, k + 1);
            assert(numbers(tf_res@.subrange(start as int, i as int)) =~= numbers(
                so_far.subrange(start as int, i - 1),
            ).push(r.flags.last()));
        }
    }
    let ghost r = read_flags(before, is_transient, budget as int, n);
    proof {
        lemma_read_flags(before, is_transient, budget as int, n);
    }
    let flag: usize = if changed {
        1
    } else {
        0
    };
    let mut select: usize = 0;
    if kept && tf_select_table(lm, is_transient, 0, flag) != tf_select_table(
        lm,
        is_transient,
        1,
        flag,
    ) {
        select = rc.decode(Alphabet::Bit { logp: 1 }) as usize;
    }
    let ghost settled = tf_res@;
    let mut j: usize = start;
    while j < end
        invariant
            start <= j <= end <= tf_res@.len(),
            lm <= 3,
            n == end - start,
            settled.len() == tf_res@.len(),
            r.flags == numbers(settled.subrange(start as int, end as int)),
            r.flags.len() == n,
            are_flags(r.flags),
            forall|k: int|
                0 <= k < start || j <= k < tf_res@.len() ==> tf_res@[k] == settled[k],
            forall|k: int|
                start <= k < j ==> tf_res@[k] == #[trigger] tf_change(
                    lm as int,
                    is_transient,
                    select as int,
                    r.flags[k - start],
                ),
        decreases end - j,
    {
        proof {
            assert(r.flags[j - start] == settled[j as int]);
            assert(0 <= r.flags[j - start] <= 1);
        }
        let flag: usize = tf_res[j] as usize;
        tf_res.set(j, tf_select_table(lm, is_transient, select, flag));
        j = j + 1;
    }
    proof {
        let out = numbers(tf_res@.subrange(start as int, end as int));
        assert forall|k: int| 0 <= k < n implies out[k] == changes(
            r.flags,
            lm as int,
            is_transient,
            select as int,
        )[k] by {
            assert(tf_res@[start + k] == tf_change(
                lm as int,
                is_transient,
                select as int,
                r.flags[start + k - start],
            ));
        }
        assert(out =~= changes(r.flags, lm as int, is_transient, select as int));
    }
}

} // verus!
