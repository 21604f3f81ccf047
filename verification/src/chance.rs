//! Random choices, in parts per million.
//!
//! The generator is outside the library. Every function that draws from it
//! has a twin that takes the number drawn as an argument and says exactly
//! what follows from it.

use crate::space::Point;
use vstd::prelude::*;

verus! {

/// The number of parts in the whole: a probability of `PARTS` is certainty.
pub const PARTS: u32 = 1_000_000;

/// `rand::random::<u32>`: a number from the thread's generator. Any `u32`
/// may come back, so nothing is stated of it.
#[verifier::external_body]
fn draw() -> (number: u32) {
    rand::random::<u32>()
}

/// A roll: a random number below `PARTS`.
pub fn random() -> (roll: u32)
    ensures
        roll < PARTS,
{
    draw() % PARTS
}

/// Whether an event of probability `p` parts per million happens at `roll`.
pub open spec fn happens(roll: u32, p: u32) -> bool {
    roll < p
}

/// Whether an event of probability `p` parts per million happens at `roll`.
pub fn decide(roll: u32, p: u32) -> (yes: bool)
    ensures
        yes == happens(roll, p),
{
    roll < p
}

/// Whether an event of probability `p` parts per million happens now. It
/// never does for `p == 0` and always does for `p >= PARTS`.
pub fn probability(p: u32) -> (yes: bool)
    ensures
        p == 0 ==> !yes,
        p >= PARTS ==> yes,
{
    decide(random(), p)
}

/// The point of the way from `lo` to `hi` that `roll` stands for: `lo` for a
/// roll of zero, and short of `hi` by less than one part of the way for the
/// highest roll. Rounded down.
pub open spec fn spread(lo: i32, hi: i32, roll: u32) -> int {
    lo + ((hi - lo) * roll) / (PARTS as int)
}

/// `spread` stays between its ends.
pub proof fn lemma_spread(lo: i32, hi: i32, roll: u32)
    requires
        roll < PARTS,
    ensures
        lo <= hi ==> lo <= spread(lo, hi, roll) <= hi,
        hi <= lo ==> hi <= spread(lo, hi, roll) <= lo,
        spread(lo, hi, 0) == lo,
{
    let d = hi - lo;
    let n = d * roll;
    let parts = PARTS as int;
    vstd::arithmetic::div_mod::lemma_fundamental_div_mod(n, parts);
    vstd::arithmetic::div_mod::lemma_mod_bound(n, parts);
    let q = n / parts;
    if d >= 0 {
        assert(0 <= q <= d) by (nonlinear_arith)
            requires
                n == parts * q + n % parts,
                0 <= n % parts < parts,
                n == d * roll,
                0 <= roll < parts,
                d >= 0,
                parts == 1_000_000,
        ;
    } else {
        assert(d <= q <= 0) by (nonlinear_arith)
            requires
                n == parts * q + n % parts,
                0 <= n % parts < parts,
                n == d * roll,
                0 <= roll < parts,
                d < 0,
                parts == 1_000_000,
        ;
    }
    assert(d * 0 == 0) by (nonlinear_arith);
    assert(0int / parts == 0) by (nonlinear_arith)
        requires
            parts == 1_000_000,
    ;
}

/// The point of the way from `lo` to `hi` that `roll` stands for.
pub fn spread_at(lo: i32, hi: i32, roll: u32) -> (x: i32)
    requires
        roll < PARTS,
    ensures
        x == spread(lo, hi, roll),
{
    proof {
        lemma_spread(lo, hi, roll);
    }
    let d: i64 = hi as i64 - lo as i64;
    if d >= 0 {
        proof {
            assert(0 <= d * roll < 0x1_0000_0000 * 1_000_000) by (nonlinear_arith)
                requires
                    0 <= d < 0x1_0000_0000,
                    0 <= roll < 1_000_000,
            ;
        }
        let n: u64 = (d as u64) * (roll as u64);
        let q: u64 = n / (PARTS as u64);
        (lo as i64 + q as i64) as i32
    } else {
        let m: u64 = (-d) as u64;
        proof {
            assert(0 <= m * roll < 0x1_0000_0000 * 1_000_000) by (nonlinear_arith)
                requires
                    0 <= m < 0x1_0000_0000,
                    0 <= roll < 1_000_000,
            ;
            assert(d * roll == -(m * roll)) by (nonlinear_arith)
                requires
                    m == -d,
            ;
        }
        let n: u64 = m * (roll as u64);
        if n == 0 {
            proof {
                assert(0int / (PARTS as int) == 0) by (nonlinear_arith);
            }
            lo
        } else {
            let q: u64 = (n + (PARTS as u64) - 1) / (PARTS as u64);
            proof {
                crate::space::lemma_floor_of_negative(n as int, PARTS as int);
            }
            (lo as i64 - q as i64) as i32
        }
    }
}

/// A random point of the way from `lo` to `hi`: the point that a fresh roll
/// stands for, which lies between the two ends.
pub fn rand_in(lo: i32, hi: i32) -> (x: i32)
    ensures
        exists|roll: u32| roll < PARTS && x == #[trigger] spread(lo, hi, roll),
        lo <= hi ==> lo <= x <= hi,
        hi <= lo ==> hi <= x <= lo,
{
    let roll = random();
    proof {
        lemma_spread(lo, hi, roll);
    }
    let x = spread_at(lo, hi, roll);
    proof {
        assert(x == spread(lo, hi, roll));
    }
    x
}

/// A random point of the square from `lo` to `hi` in both coordinates.
pub fn rand_in2d(lo: i32, hi: i32) -> (p: Point)
    ensures
        lo <= hi ==> lo <= p.0 <= hi && lo <= p.1 <= hi,
        hi <= lo ==> hi <= p.0 <= lo && hi <= p.1 <= lo,
{
    (rand_in(lo, hi), rand_in(lo, hi))
}

/// The choice that `roll` makes in `table` from entry `from` on: the first
/// entry whose probability is above what is left of the roll after the
/// probabilities of the entries before it; `fallback` if there is none.
pub open spec fn picked<S>(table: Seq<(S, u32)>, roll: int, fallback: S, from: int) -> S
    decreases table.len() - from,
{
    if from < 0 || from >= table.len() {
        fallback
    } else if roll < table[from].1 {
        table[from].0
    } else {
        picked(table, roll - table[from].1, fallback, from + 1)
    }
}

/// Chooses from a table of states with their probabilities in parts per
/// million: the first state whose probability is above what is left of the
/// roll; `fallback` if the roll passes the whole table.
pub fn pick_by_probability<S: Copy>(table: &Vec<(S, u32)>, roll: u32, fallback: S) -> (choice: S)
    ensures
        choice == picked(table@, roll as int, fallback, 0),
{
    let mut left: u32 = roll;
    let mut n: usize = 0;
    while n < table.len()
        invariant
            0 <= n <= table.len(),
            picked(table@, roll as int, fallback, 0) == picked(table@, left as int, fallback, n as int),
        decreases table.len() - n,
    {
        let (state, p) = table[n];
        if left < p {
            return state;
        }
        left = left - p;
        n += 1;
    }
    fallback
}

/// Chooses from a table of states with their probabilities, by a fresh
/// roll: the choice is what some roll picks in the table. With an empty
/// table that is `fallback`.
pub fn by_probability<S: Copy>(table: &Vec<(S, u32)>, fallback: S) -> (choice: S)
    ensures
        exists|roll: u32| roll < PARTS && choice == #[trigger] picked(table@, roll as int, fallback, 0),
        table@.len() == 0 ==> choice == fallback,
{
    let roll = random();
    let choice = pick_by_probability(table, roll, fallback);
    proof {
        assert(choice == picked(table@, roll as int, fallback, 0));
    }
    choice
}

} // verus!
