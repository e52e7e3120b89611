//! The search for the time-frequency resolution that suits a frame best.

use vstd::prelude::*;

use crate::celt::tf::{are_flags, numbers, tf_change, tf_select_table};
use crate::math::{least, min_i32};

verus! {

/// The resolution that suits a band, in half steps, from the number of steps
/// that made it the most compact. A band of one bin has no say over the finest
/// and the coarsest, and is put half a step off.
pub open spec fn band_metric(best_level: int, transient: bool, narrow: bool, lm: int) -> int {
    let m = if transient {
        2 * best_level
    } else {
        -2 * best_level
    };
    if narrow && (m == 0 || m == -2 * lm) {
        m - 1
    } else {
        m
    }
}

/// The resolution that suits a band, in half steps.
pub fn tf_metric(best_level: i32, is_transient: bool, narrow: bool, lm: i32) -> (m: i32)
    requires
        -1 <= best_level <= 4,
        0 <= lm <= 3,
    ensures
        m == band_metric(best_level as int, is_transient, narrow, lm as int),
        -9 <= m <= 8,
{
    let m: i32 = if is_transient {
        2 * best_level
    } else {
        -(2 * best_level)
    };
    if narrow && (m == 0 || m == -(2 * lm)) {
        m - 1
    } else {
        m
    }
}

/// How far from what suits a band a flag puts it.
pub open spec fn misfit(metric: int, lm: int, transient: bool, select: int, flag: int) -> int {
    let d = metric - 2 * tf_change(lm, transient, select, flag);
    if d < 0 {
        -d
    } else {
        d
    }
}

/// What the choice of flags is made from.
pub struct Search {
    /// The resolution that suits each band.
    pub metric: Seq<int>,
    /// How much each band matters.
    pub importance: Seq<int>,
    /// What a change from band to band costs.
    pub lambda: int,
    /// The frame's size.
    pub lm: int,
    /// Whether the frame is a transient.
    pub transient: bool,
    /// Which table the flags use.
    pub select: int,
}

impl Search {
    /// What a flag costs in a band.
    pub open spec fn cost(self, i: int, flag: int) -> int {
        self.importance[i] * misfit(self.metric[i], self.lm, self.transient, self.select, flag)
    }

    /// What the first band's flag costs beside that: a long frame starts without
    /// a change.
    pub open spec fn first_cost(self, flag: int) -> int {
        if flag == 1 && !self.transient {
            self.lambda
        } else {
            0
        }
    }

    /// What some flags cost altogether.
    pub open spec fn total(self, flags: Seq<int>) -> int
        decreases flags.len(),
    {
        if flags.len() == 0 {
            0
        } else if flags.len() == 1 {
            self.cost(0, flags[0]) + self.first_cost(flags[0])
        } else {
            let n = flags.len() - 1;
            self.total(flags.drop_last()) + self.cost(n, flags[n]) + (if flags[n]
                != flags[n - 1] {
                self.lambda
            } else {
                0
            })
        }
    }

    /// The least that flags up to band `i` cost, if the last of them is `flag`.
    pub open spec fn least_cost(self, i: int, flag: int) -> int
        decreases i,
    {
        if i <= 0 {
            self.cost(0, flag) + self.first_cost(flag)
        } else {
            least(
                self.least_cost(i - 1, flag),
                self.least_cost(i - 1, 1 - flag) + self.lambda,
            ) + self.cost(i, flag)
        }
    }

    /// The least that any flags cost.
    pub open spec fn best(self, n: int) -> int {
        least(self.least_cost(n - 1, 0), self.least_cost(n - 1, 1))
    }

    /// The flag of a band, from what the flags up to it cost.
    pub open spec fn chosen(self, i: int) -> int {
        if self.least_cost(i, 0) < self.least_cost(i, 1) {
            0
        } else {
            1
        }
    }

    /// With another table.
    pub open spec fn with_select(self, select: int) -> Search {
        Search { select, ..self }
    }
}

/// No flags cost less than the least that was found for their last.
proof fn lemma_least(s: Search, flags: Seq<int>)
    requires
        flags.len() >= 1,
        are_flags(flags),
        0 <= s.lambda,
    ensures
        s.least_cost(flags.len() - 1, flags.last()) <= s.total(flags),
    decreases flags.len(),
{
    assert(0 <= flags.last() <= 1);
    if flags.len() > 1 {
        let before = flags.drop_last();
        assert forall|k: int| 0 <= k < before.len() implies 0 <= #[trigger] before[k] <= 1 by {
            assert(0 <= flags[k] <= 1);
        }
        lemma_least(s, before);
        assert(before.last() == flags[flags.len() - 2]);
        assert(0 <= flags[flags.len() - 2] <= 1);
    }
}

/// Some flags that cost the least.
pub open spec fn cheapest(s: Search, i: int, flag: int) -> Seq<int>
    decreases i,
{
    if i <= 0 {
        seq![flag]
    } else if s.least_cost(i - 1, flag) <= s.least_cost(i - 1, 1 - flag) + s.lambda {
        cheapest(s, i - 1, flag).push(flag)
    } else {
        cheapest(s, i - 1, 1 - flag).push(flag)
    }
}

/// They do cost the least.
proof fn lemma_cheapest(s: Search, i: int, flag: int)
    requires
        0 <= i,
        0 <= flag <= 1,
    ensures
        ({
            let f = cheapest(s, i, flag);
            &&& f.len() == i + 1
            &&& f.last() == flag
            &&& are_flags(f)
            &&& s.total(f) == s.least_cost(i, flag)
        }),
    decreases i,
{
    let f = cheapest(s, i, flag);
    if i > 0 {
        let prev = if s.least_cost(i - 1, flag) <= s.least_cost(i - 1, 1 - flag) + s.lambda {
            flag
        } else {
            1 - flag
        };
        lemma_cheapest(s, i - 1, prev);
        let before = cheapest(s, i - 1, prev);
        assert(f.drop_last() =~= before);
        assert(f[f.len() - 2] == before.last());
        assert forall|k: int| 0 <= k < f.len() implies 0 <= #[trigger] f[k] <= 1 by {
            if k < before.len() {
                assert(f[k] == before[k]);
            }
        }
    }
}

/// The search finds the least that any flags cost: none cost less, and some cost
/// just that.
pub proof fn law_search_finds_the_least(s: Search, n: int, flags: Seq<int>)
    requires
        1 <= n,
        flags.len() == n,
        are_flags(flags),
        0 <= s.lambda,
    ensures
        s.best(n) <= s.total(flags),
        exists|f: Seq<int>| f.len() == n && are_flags(f) && #[trigger] s.total(f) == s.best(n),
{
    lemma_least(s, flags);
    assert(0 <= flags.last() <= 1);
    lemma_cheapest(s, n - 1, 0);
    lemma_cheapest(s, n - 1, 1);
    let f = if s.least_cost(n - 1, 0) <= s.least_cost(n - 1, 1) {
        cheapest(s, n - 1, 0)
    } else {
        cheapest(s, n - 1, 1)
    };
    assert(s.total(f) == s.best(n));
}

/// The second table is used where it costs less, and only for a transient.
pub open spec fn better_table(s: Search, n: int) -> int {
    if s.transient && s.with_select(1).best(n) < s.with_select(0).best(n) {
        1
    } else {
        0
    }
}

/// What a flag costs in a band.
fn flag_cost(
    metric: i32,
    importance: i32,
    lm: usize,
    is_transient: bool,
    select: usize,
    flag: usize,
) -> (c: i32)
    requires
        -9 <= metric <= 8,
        0 <= importance <= 0x1_0000,
        lm <= 3,
    ensures
        c == importance * misfit(
            metric as int,
            lm as int,
            is_transient,
            select as int,
            flag as int,
        ),
        0 <= c <= 0x10_0000,
{
    let d: i32 = metric - 2 * tf_select_table(lm, is_transient, select, flag);
    let m: i32 = if d < 0 {
        -d
    } else {
        d
    };
    assert(0 <= importance * m <= 0x1_0000 * 16) by (nonlinear_arith)
        requires
            0 <= importance <= 0x1_0000,
            0 <= m <= 16,
    ;
    importance * m
}

/// The costs of a band's two flags, and what the search goes by.
pub open spec fn search_of(
    metric: Seq<i32>,
    importance: Seq<i32>,
    lambda: i32,
    lm: usize,
    transient: bool,
    select: usize,
) -> Search {
    Search {
        metric: numbers(metric),
        importance: numbers(importance),
        lambda: lambda as int,
        lm: lm as int,
        transient,
        select: select as int,
    }
}

/// Go through the bands with one of the tables: the least that the flags cost,
/// and the flags that are chosen on the way.
fn go_through(
    metric: &[i32],
    importance: &[i32],
    lambda: i32,
    lm: usize,
    is_transient: bool,
    select: usize,
) -> (r: (i32, Vec<i32>))
    requires
        1 <= metric@.len() <= 21,
        importance@.len() == metric@.len(),
        forall|i: int| 0 <= i < metric@.len() ==> -9 <= #[trigger] metric@[i] <= 8,
        forall|i: int| 0 <= i < importance@.len() ==> 0 <= #[trigger] importance@[i] <= 0x1_0000,
        0 <= lambda <= 0x1_0000,
        lm <= 3,
    ensures
        ({
            let s = search_of(metric@, importance@, lambda, lm, is_transient, select);
            &&& r.0 == s.best(metric@.len() as int)
            &&& r.1@.len() == metric@.len()
            &&& forall|i: int| 0 <= i < r.1@.len() ==> #[trigger] r.1@[i] == s.chosen(i)
        }),
{
    let ghost s = search_of(metric@, importance@, lambda, lm, is_transient, select);
    let n: usize = metric.len();
    let mut flags: Vec<i32> = Vec::new();
    let mut cost0: i32 = flag_cost(metric[0], importance[0], lm, is_transient, select, 0);
    let mut cost1: i32 = flag_cost(metric[0], importance[0], lm, is_transient, select, 1)
        + (if is_transient {
        0
    } else {
        lambda
    });
    assert(cost0 == s.least_cost(0, 0) && cost1 == s.least_cost(0, 1));
    flags.push(
        if cost0 < cost1 {
            0
        } else {
            1
        },
    );
    let mut i: usize = 1;
    while i < n
        invariant
            1 <= i <= n <= 21,
            n == metric@.len(),
            importance@.len() == n,
            forall|k: int| 0 <= k < metric@.len() ==> -9 <= #[trigger] metric@[k] <= 8,
            forall|k: int|
                0 <= k < importance@.len() ==> 0 <= #[trigger] importance@[k] <= 0x1_0000,
            0 <= lambda <= 0x1_0000,
            lm <= 3,
            s == search_of(metric@, importance@, lambda, lm, is_transient, select),
            cost0 == s.least_cost(i - 1, 0),
            cost1 == s.least_cost(i - 1, 1),
            0 <= cost0 <= i * 0x11_0000,
            0 <= cost1 <= i * 0x11_0000,
            flags@.len() == i,
            forall|k: int| 0 <= k < i ==> #[trigger] flags@[k] == s.chosen(k),
        decreases n - i,
    {
        let curr0: i32 = min_i32(cost0, cost1 + lambda);
        let curr1: i32 = min_i32(cost1, cost0 + lambda);
        cost0 = curr0 + flag_cost(metric[i], importance[i], lm, is_transient, select, 0);
        cost1 = curr1 + flag_cost(metric[i], importance[i], lm, is_transient, select, 1);
        assert(cost0 == s.least_cost(i as int, 0) && cost1 == s.least_cost(i as int, 1));
        flags.push(
            if cost0 < cost1 {
                0
            } else {
                1
            },
        );
        i = i + 1;
    }
    (min_i32(cost0, cost1), flags)
}

/// Settle on the table and the flags of a frame's bands, from the resolution
/// that suits each, how much it matters, and what a change costs.
pub fn tf_choose(
    metric: &[i32],
    importance: &[i32],
    lambda: i32,
    lm: usize,
    is_transient: bool,
) -> (r: (usize, Vec<i32>))
    requires
        1 <= metric@.len() <= 21,
        importance@.len() == metric@.len(),
        forall|i: int| 0 <= i < metric@.len() ==> -9 <= #[trigger] metric@[i] <= 8,
        forall|i: int| 0 <= i < importance@.len() ==> 0 <= #[trigger] importance@[i] <= 0x1_0000,
        0 <= lambda <= 0x1_0000,
        lm <= 3,
    ensures
        ({
            let s = search_of(metric@, importance@, lambda, lm, is_transient, r.0);
            &&& r.0 == better_table(s, metric@.len() as int)
            &&& r.1@.len() == metric@.len()
            &&& forall|i: int| 0 <= i < r.1@.len() ==> #[trigger] r.1@[i] == s.chosen(i)
        }),
{
    let (best0, flags0): (i32, Vec<i32>) = go_through(
        metric,
        importance,
        lambda,
        lm,
        is_transient,
        0,
    );
    let (best1, flags1): (i32, Vec<i32>) = go_through(
        metric,
        importance,
        lambda,
        lm,
        is_transient,
        1,
    );
    if is_transient && best1 < best0 {
        (1, flags1)
    } else {
        (0, flags0)
    }
}

} // verus!
