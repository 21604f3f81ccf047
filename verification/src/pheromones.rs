//! Pheromone trails: marks that point the way and fade with time.
//!
//! The strength of a trail is counted in millionths and depends on the
//! trail's age alone: it halves with every `HALF_LIFE` ticks, whatever the
//! steps in which the time passed. Within a half-life the strength follows
//! the power `2^(-age / HALF_LIFE)` in fixed point, with the age taken in
//! `STEPS` steps to the half-life.

use crate::grid::Griddable;
use crate::object::TICKS_PER_SECOND;
use crate::space::{dist2, distance2, dot, dot_product, radius2, Point, UNIT};
use vstd::prelude::*;

verus! {

/// What a trail points to.
#[derive(Clone, Copy, Debug, PartialEq, Eq, Structural)]
pub enum Pheromone {
    ToFood,
    ToHome,
}

/// The strength of a new trail: one, in millionths.
pub const FULL_STRENGTH: u64 = 1_000_000;

/// The ticks in which a trail loses half its strength.
pub const HALF_LIFE: u64 = 7 * TICKS_PER_SECOND;

/// The strength, in millionths, above which a trail is alive.
pub const ALIVE_THRESHOLD: u64 = 12_500;

/// The distance below which two trails may merge.
pub const MERGE_RADIUS: u32 = 10 * (UNIT as u32);

/// `UNIT` squared: the dot product of a direction with itself.
pub const UNIT_SQUARED: i128 = 1_048_576;

/// One, in the fixed point of the decay curve.
pub const SCALE: u64 = 0x1_0000_0000;

/// The number of steps in which the age within a half-life is taken.
pub const STEPS: u64 = 65_536;

/// The number of binary digits of a step count.
pub const STEP_BITS: u32 = 16;

/// The size at which a trail is drawn.
pub const TRAIL_SIZE: u32 = 3;

/// A mark on the ground that points in a direction.
#[derive(Clone, Copy, Debug)]
pub struct Trail {
    pub pos: Point,
    /// The direction, a vector of length `UNIT`.
    pub dir: Point,
    pub ty: Pheromone,
    /// The strength at age zero, in millionths.
    pub start: u64,
    /// The ticks that have passed since the trail was laid.
    pub age: u64,
}

/// The middle between two coordinates, rounded down.
pub open spec fn middle(a: i32, b: i32) -> i32 {
    ((a + b) / 2) as i32
}

/// The middle between two coordinates, rounded down.
pub fn midpoint(a: i32, b: i32) -> (m: i32)
    ensures
        m == middle(a, b),
{
    let sum: i64 = a as i64 + b as i64;
    if sum >= 0 {
        (sum / 2) as i32
    } else {
        let up: u64 = ((-sum) as u64 + 1) / 2;
        proof {
            crate::space::lemma_floor_of_negative(-(sum as int), 2);
        }
        (-(up as i64)) as i32
    }
}

/// `2^(-2^-i)` in fixed point, rounded to the nearest: the factor by which
/// the strength falls in the `2^i`-th part of a half-life. For `i` from 1 to
/// 16; one for any other `i`.
pub open spec fn root(i: int) -> int {
    if i == 1 {
        3037000500
    } else if i == 2 {
        3611622603
    } else if i == 3 {
        3938502376
    } else if i == 4 {
        4112874773
    } else if i == 5 {
        4202935003
    } else if i == 6 {
        4248701965
    } else if i == 7 {
        4271771996
    } else if i == 8 {
        4283353945
    } else if i == 9 {
        4289156690
    } else if i == 10 {
        4292061010
    } else if i == 11 {
        4293513907
    } else if i == 12 {
        4294240540
    } else if i == 13 {
        4294603903
    } else if i == 14 {
        4294785595
    } else if i == 15 {
        4294876445
    } else if i == 16 {
        4294921870
    } else {
        SCALE as int
    }
}

/// `2^(-q / 2^bits)` in fixed point, for a step count `q` of `bits` binary
/// digits: the product of the roots that stand for the digits of `q` that
/// are set, the highest digit first, each product rounded down.
pub open spec fn curve(q: int, bits: int) -> int
    decreases bits,
{
    if bits <= 0 {
        SCALE as int
    } else if q % 2 == 1 {
        curve(q / 2, bits - 1) * root(bits) / (SCALE as int)
    } else {
        curve(q / 2, bits - 1)
    }
}

/// `x` halved `k` times, each time rounded down.
pub open spec fn halved(x: int, k: int) -> int
    decreases k,
{
    if k <= 0 {
        x
    } else {
        halved(x, k - 1) / 2
    }
}

/// The strength at `age` of a trail that had strength `start` at age zero:
/// `start` times `2^(-age / HALF_LIFE)`. The whole half-lives in `age` halve
/// the strength once each; what is left of `age`, taken in `STEPS` steps
/// to the half-life, goes through the curve.
pub open spec fn strength_at(start: u64, age: u64) -> int {
    halved(
        (start * curve(((age % HALF_LIFE) * STEPS) / (HALF_LIFE as int), STEP_BITS as int)) / (SCALE as int),
        age as int / (HALF_LIFE as int),
    )
}

/// The age after `delta` more ticks, as far as `u64` goes.
pub open spec fn aged(age: u64, delta: u64) -> u64 {
    if age + delta > u64::MAX {
        u64::MAX
    } else {
        (age + delta) as u64
    }
}

/// The age after the first `n` of `steps` have passed one by one.
pub open spec fn aged_by(age: u64, steps: Seq<u64>, n: int) -> u64
    decreases n,
{
    if n <= 0 {
        age
    } else {
        aged(aged_by(age, steps, n - 1), steps[n - 1])
    }
}

/// The sum of the first `n` of `steps`.
pub open spec fn total(steps: Seq<u64>, n: int) -> int
    decreases n,
{
    if n <= 0 {
        0
    } else {
        total(steps, n - 1) + steps[n - 1]
    }
}

/// Each root is the square root of the one before it, within rounding, and
/// the first is the square root of a half: so `root(i)` stands for
/// `2^(-2^-i)`.
pub proof fn lemma_roots()
    ensures
        -2 * SCALE <= root(1) * root(1) - (SCALE / 2) * SCALE <= 2 * SCALE,
        forall|i: int| 2 <= i <= 16 ==> -2 * SCALE <= #[trigger] root(i) * root(i) - root(i - 1) * SCALE <= 2
            * SCALE,
        forall|i: int| 1 <= i <= 16 ==> SCALE / 2 < #[trigger] root(i) < SCALE,
{
    assert(root(1) * root(1) - (SCALE / 2) * SCALE == 145474192) by (nonlinear_arith)
        requires
            root(1) == 3037000500,
            SCALE == 0x1_0000_0000,
    ;
    assert forall|i: int| 2 <= i <= 16 implies -2 * SCALE <= #[trigger] root(i) * root(i) - root(i - 1) * SCALE
        <= 2 * SCALE by {
        let r = root(i);
        let p = root(i - 1);
        assert(-2 * 0x1_0000_0000 <= r * r - p * 0x1_0000_0000 <= 2 * 0x1_0000_0000) by (nonlinear_arith)
            requires
                (r == 3611622603 && p == 3037000500) || (r == 3938502376 && p == 3611622603) || (r
                    == 4112874773 && p == 3938502376) || (r == 4202935003 && p == 4112874773) || (r
                    == 4248701965 && p == 4202935003) || (r == 4271771996 && p == 4248701965) || (r
                    == 4283353945 && p == 4271771996) || (r == 4289156690 && p == 4283353945) || (r
                    == 4292061010 && p == 4289156690) || (r == 4293513907 && p == 4292061010) || (r
                    == 4294240540 && p == 4293513907) || (r == 4294603903 && p == 4294240540) || (r
                    == 4294785595 && p == 4294603903) || (r == 4294876445 && p == 4294785595) || (r
                    == 4294921870 && p == 4294876445),
        ;
    }
}

/// The curve stays between nothing and one, and starts at one.
pub proof fn lemma_curve(q: int, bits: int)
    requires
        bits <= 16,
    ensures
        0 <= curve(q, bits) <= SCALE,
        curve(0, bits) == SCALE,
    decreases bits,
{
    if bits > 0 {
        lemma_curve(q / 2, bits - 1);
        lemma_curve(0, bits - 1);
        let rest = curve(q / 2, bits - 1);
        let r = root(bits);
        assert(0 <= r <= 0x1_0000_0000);
        assert(0 <= rest * r / 0x1_0000_0000 <= rest) by (nonlinear_arith)
            requires
                0 <= rest,
                0 <= r <= 0x1_0000_0000,
        ;
    }
}

/// Halving keeps the order of what is halved, and never adds.
pub proof fn lemma_halved(x: int, y: int, k: int)
    requires
        0 <= x <= y,
    ensures
        0 <= halved(x, k) <= halved(y, k) <= y,
        k >= 0 ==> halved(x, k + 1) <= halved(x, k),
    decreases k,
{
    if k > 0 {
        lemma_halved(x, y, k - 1);
    }
}

/// More halvings leave no more.
pub proof fn lemma_halved_more(x: int, j: int, k: int)
    requires
        0 <= x,
        j <= k,
    ensures
        0 <= halved(x, k) <= halved(x, j),
    decreases k - j,
{
    lemma_halved(x, x, j);
    if j < k {
        lemma_halved_more(x, j, k - 1);
        lemma_halved(x, x, k - 1);
    }
}

/// A new trail has its full strength.
pub proof fn lemma_fresh(start: u64)
    ensures
        strength_at(start, 0) == start,
{
    lemma_curve(0, 16);
    assert((0int % (HALF_LIFE as int)) * STEPS / (HALF_LIFE as int) == 0);
    assert(0int / (HALF_LIFE as int) == 0);
    assert(start * 0x1_0000_0000 / 0x1_0000_0000 == start) by (nonlinear_arith)
        requires
            start >= 0,
    ;
}

/// Half-life: whenever `HALF_LIFE` more ticks have passed, the strength is
/// half of what it was, rounded down.
pub proof fn lemma_half_life(start: u64, age: u64)
    requires
        age + HALF_LIFE <= u64::MAX,
    ensures
        strength_at(start, (age + HALF_LIFE) as u64) == strength_at(start, age) / 2,
        strength_at(start, HALF_LIFE) == start / 2,
{
    let h = HALF_LIFE as int;
    let later = age + HALF_LIFE;
    vstd::arithmetic::div_mod::lemma_fundamental_div_mod(age as int, h);
    vstd::arithmetic::div_mod::lemma_mod_bound(age as int, h);
    assert(later == (age as int / h + 1) * h + age as int % h) by (nonlinear_arith)
        requires
            age as int == h * (age as int / h) + age as int % h,
            later == age + h,
    ;
    vstd::arithmetic::div_mod::lemma_fundamental_div_mod_converse(later, h, age as int / h + 1, age as int % h);
    assert(age as int / h >= 0) by (nonlinear_arith)
        requires
            age as int == h * (age as int / h) + age as int % h,
            0 <= age as int % h < h,
            age >= 0,
            h > 0,
    ;
    lemma_fresh(start);
    if age == 0 {
        assert(halved(start as int, 0) == start);
    }
    vstd::arithmetic::div_mod::lemma_fundamental_div_mod_converse(h, h, 1, 0);
    assert(strength_at(start, HALF_LIFE) == halved(strength_at(start, 0), 1));
}

/// The strength depends on the time that has passed and on nothing else:
/// steps that add up to the same time lead to the same age.
pub proof fn lemma_steps_add(age: u64, steps: Seq<u64>, n: int)
    requires
        0 <= n <= steps.len(),
        age + total(steps, n) <= u64::MAX,
    ensures
        aged_by(age, steps, n) == age + total(steps, n),
        total(steps, n) >= 0,
    decreases n,
{
    if n > 0 {
        lemma_total_grows(steps, n - 1);
        lemma_steps_add(age, steps, n - 1);
    }
}

/// A sum of steps is not negative.
pub proof fn lemma_total_grows(steps: Seq<u64>, n: int)
    ensures
        total(steps, n) >= 0,
        total(steps, n + 1) >= total(steps, n) || n < 0,
    decreases n,
{
    if n > 0 {
        lemma_total_grows(steps, n - 1);
    }
}

/// Trail decay: a trail laid with strength `start` has half of it left when
/// `HALF_LIFE` ticks have passed, in whatever steps they passed.
pub proof fn lemma_halves_in_any_steps(start: u64, steps: Seq<u64>)
    requires
        total(steps, steps.len() as int) == HALF_LIFE,
    ensures
        strength_at(start, aged_by(0, steps, steps.len() as int)) == start / 2,
{
    lemma_steps_add(0, steps, steps.len() as int);
    lemma_half_life(start, 0);
}

/// A trail never gains strength, and after `k` whole half-lives it has at
/// most its strength halved `k` times.
pub proof fn lemma_fades(start: u64, age: u64)
    ensures
        0 <= strength_at(start, age) <= halved(start as int, age as int / (HALF_LIFE as int)) <= start,
{
    let h = HALF_LIFE as int;
    let q = ((age % HALF_LIFE) * STEPS) / h;
    lemma_curve(q, 16);
    let c = curve(q, 16);
    assert(0 <= start * c / 0x1_0000_0000 <= start) by (nonlinear_arith)
        requires
            0 <= start,
            0 <= c <= 0x1_0000_0000,
    ;
    lemma_halved((start * c) / (SCALE as int), start as int, age as int / h);
}

/// A trail of full strength is dead once seven half-lives have passed.
pub proof fn lemma_new_trail_dies(age: u64)
    requires
        age >= 7 * HALF_LIFE,
    ensures
        strength_at(FULL_STRENGTH, age) <= ALIVE_THRESHOLD,
{
    let h = HALF_LIFE as int;
    lemma_fades(FULL_STRENGTH, age);
    vstd::arithmetic::div_mod::lemma_div_is_ordered(7 * h, age as int, h);
    vstd::arithmetic::div_mod::lemma_fundamental_div_mod_converse(7 * h, h, 7, 0);
    lemma_halved_more(FULL_STRENGTH as int, 7, age as int / h);
    assert(halved(1_000_000, 7) == 7812) by {
        reveal_with_fuel(halved, 8);
    }
}

/// Whether two trails are close enough, alike enough in direction and of the
/// same kind, so that they may merge: less than `MERGE_RADIUS` apart, and
/// the dot product of the directions above half of `UNIT_SQUARED`.
pub open spec fn mergeable(a: Trail, b: Trail) -> bool {
    &&& dist2(a.pos, b.pos) < MERGE_RADIUS * MERGE_RADIUS
    &&& 2 * dot(a.dir, b.dir) > UNIT_SQUARED
    &&& a.ty == b.ty
}

/// The trail that two trails merge into: a new trail halfway between them in
/// place and direction, with the strength that both have now, as far as
/// `u64` goes.
pub open spec fn merged(a: Trail, b: Trail) -> Trail {
    Trail {
        pos: (middle(a.pos.0, b.pos.0), middle(a.pos.1, b.pos.1)),
        dir: (middle(a.dir.0, b.dir.0), middle(a.dir.1, b.dir.1)),
        ty: a.ty,
        start: if a.strength_now() + b.strength_now() > u64::MAX {
            u64::MAX
        } else {
            (a.strength_now() + b.strength_now()) as u64
        },
        age: 0,
    }
}

/// The root for digit `i` of a step count.
fn root_of(i: u32) -> (r: u64)
    requires
        1 <= i <= 16,
    ensures
        r == root(i as int),
        r <= SCALE,
{
    if i == 1 {
        3037000500
    } else if i == 2 {
        3611622603
    } else if i == 3 {
        3938502376
    } else if i == 4 {
        4112874773
    } else if i == 5 {
        4202935003
    } else if i == 6 {
        4248701965
    } else if i == 7 {
        4271771996
    } else if i == 8 {
        4283353945
    } else if i == 9 {
        4289156690
    } else if i == 10 {
        4292061010
    } else if i == 11 {
        4293513907
    } else if i == 12 {
        4294240540
    } else if i == 13 {
        4294603903
    } else if i == 14 {
        4294785595
    } else if i == 15 {
        4294876445
    } else {
        4294921870
    }
}

/// `2^(-q / 2^bits)` in fixed point.
pub fn curve_at(q: u32, bits: u32) -> (c: u64)
    requires
        bits <= 16,
    ensures
        c == curve(q as int, bits as int),
        c <= SCALE,
    decreases bits,
{
    proof {
        lemma_curve(q as int, bits as int);
    }
    if bits == 0 {
        SCALE
    } else {
        let rest = curve_at(q / 2, bits - 1);
        if q % 2 == 1 {
            let r = root_of(bits);
            proof {
                assert(rest * r <= 0x1_0000_0000 * 0x1_0000_0000) by (nonlinear_arith)
                    requires
                        0 <= rest <= 0x1_0000_0000,
                        0 <= r <= 0x1_0000_0000,
                ;
            }
            (((rest as u128) * (r as u128)) / (SCALE as u128)) as u64
        } else {
            rest
        }
    }
}

/// `x` halved `k` times.
pub fn halve(x: u64, k: u64) -> (h: u64)
    ensures
        h == halved(x as int, k as int),
{
    let mut h = x;
    let mut done: u64 = 0;
    while done < k && h > 0
        invariant
            0 <= done <= k,
            h == halved(x as int, done as int),
        decreases h,
    {
        h = h / 2;
        done += 1;
    }
    proof {
        if done < k {
            lemma_halved_more(x as int, done as int, k as int);
        }
    }
    h
}

impl Trail {
    /// A trail of full strength.
    pub open spec fn new_trail(pos: Point, dir: Point, ty: Pheromone) -> Trail {
        Trail { pos, dir, ty, start: FULL_STRENGTH, age: 0 }
    }

    /// The strength that the trail has now, in millionths.
    pub open spec fn strength_now(self) -> int {
        strength_at(self.start, self.age)
    }

    /// A trail of full strength.
    pub fn new(pos: Point, dir: Point, ty: Pheromone) -> (trail: Self)
        ensures
            trail == Trail::new_trail(pos, dir, ty),
            trail.strength_now() == FULL_STRENGTH,
    {
        proof {
            lemma_fresh(FULL_STRENGTH);
        }
        Trail { pos, dir, ty, start: FULL_STRENGTH, age: 0 }
    }

    /// The strength that the trail has now, in millionths: what its age has
    /// left of the strength it started with.
    pub fn strength(&self) -> (strength: u64)
        ensures
            strength == self.strength_now(),
            strength <= self.start,
    {
        let part: u64 = self.age % HALF_LIFE;
        proof {
            lemma_fades(self.start, self.age);
            assert(part * STEPS < 7_000_000 * 65_536) by (nonlinear_arith)
                requires
                    0 <= part < 7_000_000,
                    STEPS == 65_536,
            ;
            let n = part * STEPS;
            vstd::arithmetic::div_mod::lemma_fundamental_div_mod(n, 7_000_000);
            vstd::arithmetic::div_mod::lemma_mod_bound(n, 7_000_000);
            assert(0 <= n / 7_000_000 < 65_536) by (nonlinear_arith)
                requires
                    n == 7_000_000 * (n / 7_000_000) + n % 7_000_000,
                    0 <= n % 7_000_000,
                    0 <= n < 7_000_000 * 65_536,
            ;
        }
        let q: u32 = ((part * STEPS) / HALF_LIFE) as u32;
        let c = curve_at(q, STEP_BITS);
        proof {
            assert(self.start * c <= 0xffff_ffff_ffff_ffff * 0x1_0000_0000) by (nonlinear_arith)
                requires
                    0 <= self.start <= 0xffff_ffff_ffff_ffff,
                    0 <= c <= 0x1_0000_0000,
            ;
            assert(0 <= self.start * c / 0x1_0000_0000 <= self.start) by (nonlinear_arith)
                requires
                    0 <= self.start,
                    0 <= c <= 0x1_0000_0000,
            ;
        }
        let left: u64 = (((self.start as u128) * (c as u128)) / (SCALE as u128)) as u64;
        halve(left, self.age / HALF_LIFE)
    }

    /// The trail that `a` and `b` merge into, if they may merge.
    pub fn clump(a: &Self, b: &Self) -> (one: Option<Self>)
        ensures
            one == (if mergeable(*a, *b) {
                Some(merged(*a, *b))
            } else {
                None::<Trail>
            }),
    {
        let near = distance2(a.pos, b.pos) < radius2(MERGE_RADIUS);
        let alike = 2 * dot_product(a.dir, b.dir) > UNIT_SQUARED;
        if near && alike && a.ty == b.ty {
            let start = match a.strength().checked_add(b.strength()) {
                Some(sum) => sum,
                None => u64::MAX,
            };
            Some(
                Trail {
                    pos: (midpoint(a.pos.0, b.pos.0), midpoint(a.pos.1, b.pos.1)),
                    dir: (midpoint(a.dir.0, b.dir.0), midpoint(a.dir.1, b.dir.1)),
                    ty: a.ty,
                    start,
                    age: 0,
                },
            )
        } else {
            None
        }
    }

    /// Lets `delta` ticks pass. Only the age changes; the strength follows
    /// from it, so it does not matter in which steps the time passes.
    pub fn decay(&mut self, delta: u64)
        ensures
            final(self).age == aged(old(self).age, delta),
            final(self).start == old(self).start,
            final(self).pos == old(self).pos,
            final(self).dir == old(self).dir,
            final(self).ty == old(self).ty,
    {
        self.age = match self.age.checked_add(delta) {
            Some(age) => age,
            None => u64::MAX,
        };
    }
}

impl Griddable for Trail {
    open spec fn position(&self) -> Point {
        self.pos
    }

    open spec fn is_alive(&self) -> bool {
        self.strength_now() > ALIVE_THRESHOLD
    }

    fn pos(&self) -> (p: Point) {
        self.pos
    }

    fn alive(&self) -> (a: bool) {
        self.strength() > ALIVE_THRESHOLD
    }
}

} // verus!
