//! What a symbol can be, and how an interval is divided between its values.

use vstd::prelude::*;

verus! {

/// A power of two.
pub open spec fn two_to(n: int) -> int
    decreases n,
{
    if n <= 0 {
        1
    } else {
        2 * two_to(n - 1)
    }
}

/// A power of two.
pub fn power_of_two(n: u32) -> (p: u32)
    requires
        n <= 31,
    ensures
        p == two_to(n as int),
        p >= 1,
{
    let mut p: u32 = 1;
    let mut i: u32 = 0;
    proof {
        lemma_two_to_values();
    }
    while i < n
        invariant
            i <= n <= 31,
            p == two_to(i as int),
            p >= 1,
        decreases n - i,
    {
        proof {
            lemma_two_to_monotone(i + 1, 31);
            lemma_two_to_values();
        }
        p = p * 2;
        i = i + 1;
    }
    p
}

/// The powers of two that are used by value.
pub proof fn lemma_two_to_values()
    ensures
        two_to(0) == 1,
        two_to(1) == 2,
        two_to(2) == 4,
        two_to(5) == 32,
        two_to(7) == 128,
        two_to(8) == 256,
        two_to(15) == 32_768,
        two_to(23) == 8_388_608,
        two_to(31) == 0x8000_0000,
{
    reveal_with_fuel(two_to, 33);
}

/// Powers of two grow.
pub proof fn lemma_two_to_monotone(a: int, b: int)
    requires
        0 <= a <= b,
    ensures
        1 <= two_to(a) <= two_to(b),
    decreases b,
{
    if a < b {
        lemma_two_to_monotone(a, b - 1);
    } else if b > 0 {
        lemma_two_to_monotone(a - 1, b - 1);
    }
}

/// What a symbol can be.
#[derive(Debug, Clone, Copy, PartialEq, Eq, Structural)]
pub enum Alphabet {
    /// A flag that is set once in `2^logp` times.
    Bit {
        /// How rarely the flag is set.
        logp: u32,
    },
    /// One of so many equally likely values.
    Uniform {
        /// How many values there are.
        count: u32,
    },
    /// Which of the postfilter's three responses is used.
    Tapset,
    /// How much the pulses of a band are spread.
    Spread,
    /// How the allocation is tilted.
    Trim,
}

/// The share of a table's values above the first `s`, out of [`table_total`].
pub open spec fn table_above(alphabet: Alphabet, s: int) -> int {
    match alphabet {
        Alphabet::Tapset => if s == 1 {
            2
        } else if s == 2 {
            1
        } else {
            0
        },
        Alphabet::Spread => if s == 1 {
            25
        } else if s == 2 {
            23
        } else if s == 3 {
            2
        } else {
            0
        },
        _ => if s == 1 {
            126
        } else if s == 2 {
            124
        } else if s == 3 {
            119
        } else if s == 4 {
            109
        } else if s == 5 {
            87
        } else if s == 6 {
            41
        } else if s == 7 {
            19
        } else if s == 8 {
            9
        } else if s == 9 {
            4
        } else if s == 10 {
            2
        } else {
            0
        },
    }
}

/// What a table's shares are parts of.
pub open spec fn table_total(alphabet: Alphabet) -> int {
    match alphabet {
        Alphabet::Tapset => 4,
        Alphabet::Spread => 32,
        _ => 128,
    }
}

impl Alphabet {
    /// Whether an interval can be divided between the values.
    pub open spec fn wf(self) -> bool {
        match self {
            Alphabet::Bit { logp } => 1 <= logp <= 15,
            Alphabet::Uniform { count } => 2 <= count <= 256,
            _ => true,
        }
    }

    /// How many values there are.
    pub open spec fn count(self) -> int {
        match self {
            Alphabet::Bit { .. } => 2,
            Alphabet::Uniform { count } => count as int,
            Alphabet::Tapset => 3,
            Alphabet::Spread => 4,
            Alphabet::Trim => 11,
        }
    }

    /// Where value `s` starts in an interval of size `rng`; its end is where the
    /// next one starts. What the division leaves over goes to the first value.
    pub open spec fn edge(self, rng: int, s: int) -> int {
        if s <= 0 {
            0
        } else if s >= self.count() {
            rng
        } else {
            match self {
                Alphabet::Bit { logp } => rng - rng / two_to(logp as int),
                Alphabet::Uniform { count } => rng - (rng / count as int) * (count - s),
                _ => rng - (rng / table_total(self)) * table_above(self, s),
            }
        }
    }

    /// The value that a place in an interval belongs to, from `s` on.
    pub open spec fn value_at(self, rng: int, place: int, s: int) -> int
        decreases self.count() - s,
    {
        if s + 1 >= self.count() || place < self.edge(rng, s + 1) {
            s
        } else {
            self.value_at(rng, place, s + 1)
        }
    }

    /// How many values there are.
    pub fn size(self) -> (n: u32)
        ensures
            n == self.count(),
    {
        match self {
            Alphabet::Bit { .. } => 2,
            Alphabet::Uniform { count } => count,
            Alphabet::Tapset => 3,
            Alphabet::Spread => 4,
            Alphabet::Trim => 11,
        }
    }

    /// Where value `s` starts in an interval of size `rng`.
    pub fn start_of(self, rng: u32, s: u32) -> (at: u32)
        requires
            self.wf(),
            rng >= 256,
        ensures
            at == self.edge(rng as int, s as int),
            at <= rng,
    {
        proof {
            lemma_edges(self, rng as int, s as int);
            lemma_two_to_values();
        }
        if s == 0 {
            return 0;
        }
        if s >= self.size() {
            return rng;
        }
        match self {
            Alphabet::Bit { logp } => {
                proof {
                    lemma_two_to_monotone(logp as int, 15);
                }
                rng - rng / power_of_two(logp)
            },
            Alphabet::Uniform { count } => {
                let unit: u32 = rng / count;
                let above: u32 = count - s;
                assert(unit * above == (rng as int / count as int) * (count - s));
                rng - unit * above
            },
            _ => {
                let unit: u32 = rng / table_size(self);
                let above: u32 = table_value(self, s);
                assert(unit * above == (rng as int / table_total(self)) * table_above(
                    self,
                    s as int,
                ));
                rng - unit * above
            },
        }
    }
}

/// What a table's shares are parts of.
fn table_size(alphabet: Alphabet) -> (n: u32)
    ensures
        n == table_total(alphabet),
{
    match alphabet {
        Alphabet::Tapset => 4,
        Alphabet::Spread => 32,
        _ => 128,
    }
}

/// The share of a table's values above the first `s`.
fn table_value(alphabet: Alphabet, s: u32) -> (v: u32)
    ensures
        v == table_above(alphabet, s as int),
        v <= 126,
{
    match alphabet {
        Alphabet::Tapset => match s {
            1 => 2,
            2 => 1,
            _ => 0,
        },
        Alphabet::Spread => match s {
            1 => 25,
            2 => 23,
            3 => 2,
            _ => 0,
        },
        _ => match s {
            1 => 126,
            2 => 124,
            3 => 119,
            4 => 109,
            5 => 87,
            6 => 41,
            7 => 19,
            8 => 9,
            9 => 4,
            10 => 2,
            _ => 0,
        },
    }
}

/// Every value gets a part of an interval that is not too small.
pub proof fn lemma_edges(alphabet: Alphabet, rng: int, s: int)
    requires
        alphabet.wf(),
        256 <= rng,
    ensures
        0 <= alphabet.edge(rng, s) <= rng,
        0 <= s < alphabet.count() && rng >= 32_768 ==> alphabet.edge(rng, s) < alphabet.edge(
            rng,
            s + 1,
        ),
{
    match alphabet {
        Alphabet::Bit { logp } => {
            let p = two_to(logp as int);
            lemma_two_to_monotone(1, logp as int);
            lemma_two_to_monotone(logp as int, 15);
            lemma_two_to_values();
            assert(0 <= rng / p < rng) by (nonlinear_arith)
                requires
                    2 <= p,
                    1 <= rng,
            ;
            assert(rng >= 32_768 ==> rng / p >= 1) by (nonlinear_arith)
                requires
                    2 <= p <= 32_768,
            ;
        },
        Alphabet::Uniform { count } => {
            let n = count as int;
            let unit = rng / n;
            assert(unit * n <= rng) by (nonlinear_arith)
                requires
                    unit == rng / n,
                    n >= 2,
                    rng >= 0,
            ;
            assert(unit >= 1) by (nonlinear_arith)
                requires
                    unit == rng / n,
                    2 <= n <= 256,
                    rng >= 256,
            ;
            if 0 < s < n {
                assert(0 <= unit * (n - s) <= unit * n) by (nonlinear_arith)
                    requires
                        0 < s < n,
                        unit >= 1,
                ;
                assert(unit * (n - s) < unit * n) by (nonlinear_arith)
                    requires
                        0 < s,
                        unit >= 1,
                ;
                assert(unit * (n - s) == unit * (n - (s + 1)) + unit) by (nonlinear_arith);
                if s + 1 == n {
                    assert(unit * (n - s) >= 1) by (nonlinear_arith)
                        requires
                            s < n,
                            unit >= 1,
                    ;
                }
            }
            if s == 0 {
                assert(unit * (n - 1) < unit * n) by (nonlinear_arith)
                    requires
                        unit >= 1,
                ;
            }
        },
        _ => {
            let unit = rng / table_total(alphabet);
            assert(unit >= 1);
            let a = table_above(alphabet, s);
            let b = table_above(alphabet, s + 1);
            assert(0 <= unit * a <= rng) by (nonlinear_arith)
                requires
                    0 <= a <= table_total(alphabet),
                    unit == rng / table_total(alphabet),
                    table_total(alphabet) > 0,
                    rng >= 0,
            ;
            if 0 < s < alphabet.count() {
                assert(b < a);
                assert(unit * b < unit * a) by (nonlinear_arith)
                    requires
                        b < a,
                        unit >= 1,
                ;
            }
            if s == 0 {
                assert(unit * b < rng) by (nonlinear_arith)
                    requires
                        0 <= b < table_total(alphabet),
                        unit == rng / table_total(alphabet),
                        table_total(alphabet) > 0,
                        rng >= 1,
                ;
            }
        },
    }
}

/// The value that a place belongs to is the one whose part it is in.
pub proof fn lemma_value_at(alphabet: Alphabet, rng: int, place: int, s: int)
    requires
        alphabet.wf(),
        32_768 <= rng,
        0 <= s < alphabet.count(),
        alphabet.edge(rng, s) <= place < rng,
    ensures
        ({
            let v = alphabet.value_at(rng, place, s);
            &&& s <= v < alphabet.count()
            &&& alphabet.edge(rng, v) <= place < alphabet.edge(rng, v + 1)
        }),
    decreases alphabet.count() - s,
{
    if !(s + 1 >= alphabet.count() || place < alphabet.edge(rng, s + 1)) {
        lemma_value_at(alphabet, rng, place, s + 1);
    }
}

/// A place within a value's part belongs to that value.
pub proof fn lemma_value_found(alphabet: Alphabet, rng: int, place: int, s: int, v: int)
    requires
        alphabet.wf(),
        32_768 <= rng,
        0 <= s <= v < alphabet.count(),
        alphabet.edge(rng, v) <= place < alphabet.edge(rng, v + 1),
    ensures
        alphabet.value_at(rng, place, s) == v,
    decreases v - s,
{
    if s < v {
        lemma_edges_monotone(alphabet, rng, s + 1, v);
        lemma_value_found(alphabet, rng, place, s + 1, v);
    }
}

/// Parts follow one another.
proof fn lemma_edges_monotone(alphabet: Alphabet, rng: int, s: int, v: int)
    requires
        alphabet.wf(),
        32_768 <= rng,
        0 <= s <= v <= alphabet.count(),
    ensures
        alphabet.edge(rng, s) <= alphabet.edge(rng, v),
    decreases v - s,
{
    if s < v {
        lemma_edges(alphabet, rng, v - 1);
        lemma_edges_monotone(alphabet, rng, s, v - 1);
    }
}

} // verus!
