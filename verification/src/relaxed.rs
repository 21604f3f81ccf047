//! A wrapper for objects that need not plan at every tick.
//!
//! [`Relaxed`] runs the plan of the object it holds at most `plan_frequency`
//! times a second, unless the object says that it must plan now. Updates and
//! rendering run at every tick; cleanup goes by the same timer as planning.

use crate::grid::Griddable;
use crate::messenger::{Dispatch, Messenger};
use crate::object::{plans_to, shows, External, GameObject, Instance, TICKS_PER_SECOND};
use crate::space::Point;
use std::sync::mpsc::Sender;
use vstd::prelude::*;

verus! {

/// Whether more than one period has passed at `now` since `last`, at
/// `frequency` periods a second. Never, if `now` is not after `last`.
pub open spec fn overdue(last: int, now: int, frequency: int) -> bool {
    (now - last) * frequency > TICKS_PER_SECOND
}

/// Whether a plan is due at `now` for an object that planned last at `last`
/// and plans `frequency` times a second: more than one period has passed.
pub open spec fn due(last: u64, now: u64, frequency: u32) -> bool {
    overdue(last as int, now as int, frequency as int)
}

/// Whether a plan is due at `now`.
pub fn is_due(last: u64, now: u64, frequency: u32) -> (d: bool)
    ensures
        d == due(last, now, frequency),
{
    if now <= last {
        proof {
            assert((now - last) * frequency <= 0) by (nonlinear_arith)
                requires
                    now - last <= 0,
                    frequency >= 0,
            ;
        }
        false
    } else {
        let elapsed: u128 = (now - last) as u128;
        proof {
            assert(elapsed * frequency <= 0xffff_ffff_ffff_ffff * 0xffff_ffff) by (nonlinear_arith)
                requires
                    0 <= elapsed <= 0xffff_ffff_ffff_ffff,
                    0 <= frequency <= 0xffff_ffff,
            ;
        }
        elapsed * (frequency as u128) > TICKS_PER_SECOND as u128
    }
}

/// The number of ticks of length `tick` from one plan to the next, for an
/// object that plans `frequency` times a second: the least number of ticks
/// that take more than one period.
pub open spec fn stride(tick: int, frequency: int) -> int {
    TICKS_PER_SECOND as int / (tick * frequency) + 1
}

/// The time of the latest plan after `n` ticks of length `tick`, for an
/// object that planned last at `start` and is never forced to plan: at each
/// tick the plan runs exactly when it is overdue, as in [`Relaxed::plan`].
pub open spec fn last_plan_after(start: int, tick: int, frequency: int, n: nat) -> int
    decreases n,
{
    if n == 0 {
        start
    } else {
        let last = last_plan_after(start, tick, frequency, (n - 1) as nat);
        if overdue(last, start + n * tick, frequency) {
            start + n * tick
        } else {
            last
        }
    }
}

/// The number of plans that ran during `n` ticks of length `tick`.
pub open spec fn plans_during(start: int, tick: int, frequency: int, n: nat) -> nat
    decreases n,
{
    if n == 0 {
        0
    } else {
        let last = last_plan_after(start, tick, frequency, (n - 1) as nat);
        plans_during(start, tick, frequency, (n - 1) as nat) + if overdue(last, start + n * tick, frequency) {
            1nat
        } else {
            0nat
        }
    }
}

/// With ticks of a fixed length the plan runs at every `stride`-th tick:
/// `m` ticks after a plan the next one is due exactly when `m` has reached
/// the stride.
pub proof fn lemma_stride(tick: int, frequency: int, m: int)
    requires
        tick >= 1,
        frequency >= 1,
        m >= 0,
    ensures
        stride(tick, frequency) >= 1,
        (m * tick) * frequency > TICKS_PER_SECOND <==> m >= stride(tick, frequency),
{
    let d = tick * frequency;
    let tps = TICKS_PER_SECOND as int;
    assert(d >= 1) by (nonlinear_arith)
        requires
            tick >= 1,
            frequency >= 1,
            d == tick * frequency,
    ;
    let q = tps / d;
    vstd::arithmetic::div_mod::lemma_fundamental_div_mod(tps, d);
    vstd::arithmetic::div_mod::lemma_mod_bound(tps, d);
    assert(q >= 0) by (nonlinear_arith)
        requires
            tps == d * q + tps % d,
            0 <= tps % d < d,
            tps >= 0,
            d >= 1,
    ;
    assert((m * tick) * frequency == m * d) by (nonlinear_arith)
        requires
            d == tick * frequency,
    ;
    assert(m * d > tps <==> m >= q + 1) by (nonlinear_arith)
        requires
            tps == d * q + tps % d,
            0 <= tps % d < d,
            d >= 1,
            m >= 0,
    ;
}

/// Throttle correctness. Over `n` ticks of the fixed length `tick`, an object
/// that plans `frequency` times a second and is never forced to plan runs
/// its plan at every `stride`-th tick: `n / stride` times in all. That is
/// never more than `frequency` times the seconds that passed; and it is at
/// most one less than that number, rounded down, as long as the ticks that
/// each stride overshoots its period by have not added up to a period.
pub proof fn lemma_throttle(start: int, tick: int, frequency: int, n: nat)
    requires
        tick >= 1,
        frequency >= 1,
    ensures
        plans_during(start, tick, frequency, n) == n as int / stride(tick, frequency),
        last_plan_after(start, tick, frequency, n) == start + (n - n as int % stride(tick, frequency)) * tick,
        plans_during(start, tick, frequency, n) <= (n * tick * frequency) / TICKS_PER_SECOND as int,
        n * (stride(tick, frequency) * tick * frequency - TICKS_PER_SECOND) <= stride(tick, frequency)
            * TICKS_PER_SECOND ==> (n * tick * frequency) / TICKS_PER_SECOND as int <= plans_during(
            start,
            tick,
            frequency,
            n,
        ) + 1,
    decreases n,
{
    let k = stride(tick, frequency);
    let tps = TICKS_PER_SECOND as int;
    let d = tick * frequency;
    lemma_stride(tick, frequency, 0);
    assert(d >= 1) by (nonlinear_arith)
        requires
            tick >= 1,
            frequency >= 1,
            d == tick * frequency,
    ;
    if n == 0 {
        assert(0int / k == 0 && 0int % k == 0) by (nonlinear_arith)
            requires
                k >= 1,
        ;
        assert(0 * tick * frequency == 0) by (nonlinear_arith);
        assert(0int / tps == 0) by (nonlinear_arith)
            requires
                tps == 1_000_000,
        ;
    } else {
        let p = (n - 1) as nat;
        lemma_throttle(start, tick, frequency, p);
        let last = last_plan_after(start, tick, frequency, p);
        let m = p as int % k + 1;
        vstd::arithmetic::div_mod::lemma_fundamental_div_mod(p as int, k);
        vstd::arithmetic::div_mod::lemma_mod_bound(p as int, k);
        assert(start + n * tick - last == m * tick) by (nonlinear_arith)
            requires
                last == start + (p - p as int % k) * tick,
                m == p as int % k + 1,
                n == p + 1,
        ;
        lemma_stride(tick, frequency, m);
        let q = p as int / k;
        let r = p as int % k;
        if m >= k {
            assert(r == k - 1);
            assert(n as int == k * (q + 1) + 0) by (nonlinear_arith)
                requires
                    p as int == k * q + r,
                    r == k - 1,
                    n == p + 1,
            ;
            vstd::arithmetic::div_mod::lemma_fundamental_div_mod_converse(n as int, k, q + 1, 0);
            assert(start + n * tick == start + (n - 0) * tick);
        } else {
            assert(n as int == k * q + (r + 1)) by (nonlinear_arith)
                requires
                    p as int == k * q + r,
                    n == p + 1,
            ;
            vstd::arithmetic::div_mod::lemma_fundamental_div_mod_converse(n as int, k, q, r + 1);
            assert(n - (r + 1) == p - r);
        }
    }
    let count = n as int / k;
    let total = n * tick * frequency;
    assert(total == n * d) by (nonlinear_arith)
        requires
            total == n * tick * frequency,
            d == tick * frequency,
    ;
    vstd::arithmetic::div_mod::lemma_fundamental_div_mod(n as int, k);
    vstd::arithmetic::div_mod::lemma_mod_bound(n as int, k);
    vstd::arithmetic::div_mod::lemma_fundamental_div_mod(total, tps);
    vstd::arithmetic::div_mod::lemma_mod_bound(total, tps);
    lemma_stride(tick, frequency, k);
    assert((k * tick) * frequency == k * d) by (nonlinear_arith)
        requires
            d == tick * frequency,
    ;
    assert(k * tick * frequency == k * d) by (nonlinear_arith)
        requires
            d == tick * frequency,
    ;
    let whole = total / tps;
    assert(count <= whole) by (nonlinear_arith)
        requires
            n as int == k * count + n as int % k,
            0 <= n as int % k < k,
            total == n * d,
            total == tps * whole + total % tps,
            0 <= total % tps < tps,
            k * d > tps,
            k >= 1,
            d >= 1,
    ;
    if n * (k * tick * frequency - tps) <= k * tps {
        assert(whole <= count + 1) by (nonlinear_arith)
            requires
                n as int == k * count + n as int % k,
                0 <= n as int % k < k,
                total == n * d,
                total == tps * whole + total % tps,
                0 <= total % tps < tps,
                n * (k * d - tps) <= k * tps,
                k * d > tps,
                k >= 1,
                d >= 1,
                tps >= 1,
        ;
    }
}

/// An object that says how often it wants to plan.
pub trait Relax: GameObject {
    /// The plans per second that the object asks for, as contracts see it.
    spec fn frequency(&self) -> u32;

    /// Whether the object must plan now whatever the timer says, as
    /// contracts see it.
    spec fn must(&self, scene: &Self::Scene, external: &External) -> bool;

    /// Whether the object wants a cleanup whatever the timer says, as
    /// contracts see it.
    spec fn needs(&self) -> bool;

    /// The number of plans per second.
    fn plan_frequency(&self) -> (frequency: u32)
        ensures
            frequency == self.frequency(),
    ;

    /// Whether the object must plan now whatever the timer says.
    fn must_plan(&self, scene: &Self::Scene, external: &External) -> (must: bool)
        ensures
            must == self.must(scene, external),
    ;

    /// Whether the object wants a cleanup whatever the timer says.
    fn needs_cleanup(&self) -> (needs: bool)
        ensures
            needs == self.needs(),
    ;
}

/// An object with the time of its latest plan.
pub struct Relaxed<T> {
    last_plan: u64,
    now: u64,
    inner: T,
}

impl<T> Relaxed<T> {
    /// The time of the latest plan.
    pub closed spec fn last_plan(&self) -> u64 {
        self.last_plan
    }

    /// The time of the latest update.
    pub closed spec fn clock(&self) -> u64 {
        self.now
    }

    /// The object inside.
    pub closed spec fn inner(&self) -> T {
        self.inner
    }

    /// Wraps `value` at time `now`. The first plan is due one period later.
    pub fn new(value: T, now: u64) -> (relaxed: Self)
        ensures
            relaxed.last_plan() == now,
            relaxed.clock() == now,
            relaxed.inner() == value,
    {
        Relaxed { last_plan: now, now, inner: value }
    }

    /// The object inside.
    pub fn get(&self) -> (inner: &T)
        ensures
            *inner == self.inner(),
    {
        &self.inner
    }
}

impl<T: Griddable> Griddable for Relaxed<T> {
    open spec fn position(&self) -> Point {
        self.inner().position()
    }

    open spec fn is_alive(&self) -> bool {
        self.inner().is_alive()
    }

    fn pos(&self) -> (p: Point) {
        self.inner.pos()
    }

    fn alive(&self) -> (a: bool) {
        self.inner.alive()
    }
}

impl<T: Relax> Relaxed<T> {
    /// Whether a plan at the time of `external` runs the plan of the object
    /// inside: it is due, or the object must plan now.
    pub open spec fn plans_at(&self, scene: &T::Scene, external: &External) -> bool {
        due(self.last_plan(), external.now, self.inner().frequency()) || self.inner().must(scene, external)
    }

    /// Whether a cleanup runs the cleanup of the object inside.
    pub open spec fn cleans(&self) -> bool {
        due(self.last_plan(), self.clock(), self.inner().frequency()) || self.inner().needs()
    }
}

impl<T: Relax> GameObject for Relaxed<T> {
    type Scene = T::Scene;

    type Action = T::Action;

    type Plan = Option<(u64, T::Plan)>;

    /// Runs the plan of the object inside if it is due or forced, and
    /// returns it with the time of the plan; else `None`.
    fn plan(&self, scene: &Self::Scene, external: &External, messenger: &Sender<Dispatch>) -> (plan:
        Self::Plan)
        ensures
            plan is Some == self.plans_at(scene, external),
            plan matches Some(p) ==> p.0 == external.now && plans_to(
                self.inner(),
                scene,
                external,
                messenger,
                p.1,
            ),
    {
        let frequency = self.inner.plan_frequency();
        if is_due(self.last_plan, external.now, frequency) || self.inner.must_plan(scene, external) {
            Some((external.now, self.inner.plan(scene, external, messenger)))
        } else {
            None
        }
    }

    /// Hands a plan that ran to the object inside and restarts the timer at
    /// the time of the plan. `None` changes nothing.
    fn adopt(&mut self, plan: Self::Plan)
        ensures
            final(self).clock() == old(self).clock(),
            final(self).last_plan() == (match plan {
                Some(p) => p.0,
                None => old(self).last_plan(),
            }),
            match plan {
                Some(p) => exists|inner: &mut T|
                    mut_ref_current(inner) == old(self).inner() && mut_ref_future(inner) == final(self).inner()
                        && #[trigger] call_ensures(T::adopt, (inner, p.1), ()),
                None => final(self).inner() == old(self).inner(),
            },
    {
        match plan {
            Some((time, decided)) => {
                self.last_plan = time;
                let inner = &mut self.inner;
                inner.adopt(decided);
            },
            None => {},
        }
    }

    /// Updates the object inside, at every tick.
    fn update(&mut self, external: &External, messenger: &Messenger) -> (action: Option<Self::Action>)
        ensures
            final(self).clock() == external.now,
            final(self).last_plan() == old(self).last_plan(),
            exists|inner: &mut T|
                mut_ref_current(inner) == old(self).inner() && mut_ref_future(inner) == final(self).inner()
                    && #[trigger] call_ensures(T::update, (inner, external, messenger), action),
    {
        self.now = external.now;
        let inner = &mut self.inner;
        let action = inner.update(external, messenger);
        action
    }

    /// What the object inside shows.
    fn instance(&self, external: &External) -> (instance: Option<Instance>)
        ensures
            shows(self.inner(), external, instance),
    {
        self.inner.instance(external)
    }

    /// Renders the object inside, at every tick, whatever the timer says.
    fn render(&self, external: &External, out: &mut Vec<Instance>)
        ensures
            exists|sink: &mut Vec<Instance>|
                mut_ref_current(sink) == *old(out) && mut_ref_future(sink) == *final(out) && #[trigger] call_ensures(
                    T::render,
                    (&self.inner(), external, sink),
                    (),
                ),
    {
        self.inner.render(external, out);
        proof {
            assert(self.inner() == self.inner);
        }
    }

    /// Cleans up the object inside if a plan is due at the time of the
    /// latest update, or the object asks for it.
    fn cleanup(&mut self)
        ensures
            final(self).clock() == old(self).clock(),
            final(self).last_plan() == old(self).last_plan(),
            if old(self).cleans() {
                exists|inner: &mut T|
                    mut_ref_current(inner) == old(self).inner() && mut_ref_future(inner) == final(self).inner()
                        && #[trigger] call_ensures(T::cleanup, (inner,), ())
            } else {
                final(self).inner() == old(self).inner()
            },
    {
        let frequency = self.inner.plan_frequency();
        if is_due(self.last_plan, self.now, frequency) || self.inner.needs_cleanup() {
            let inner = &mut self.inner;
            inner.cleanup();
        }
    }
}

} // verus!
