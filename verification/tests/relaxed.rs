use colony::messenger::{Dispatch, Messenger};
use colony::object::{External, GameObject, Instance, Texture, TICKS_PER_SECOND};
use colony::relaxed::{is_due, Relax, Relaxed};
use std::sync::mpsc::Sender;

struct Counter {
    frequency: u32,
    plans: u32,
    updates: u32,
    cleanups: u32,
    urgent: bool,
    messy: bool,
}

fn counter(frequency: u32) -> Counter {
    Counter { frequency, plans: 0, updates: 0, cleanups: 0, urgent: false, messy: false }
}

impl GameObject for Counter {
    type Scene = ();
    type Action = u32;
    type Plan = u32;

    fn plan(&self, _scene: &(), _external: &External, _messenger: &Sender<Dispatch>) -> u32 {
        self.plans + 1
    }

    fn adopt(&mut self, plan: u32) {
        self.plans = plan;
    }

    fn update(&mut self, _external: &External, _messenger: &Messenger) -> Option<u32> {
        self.updates += 1;
        Some(self.updates)
    }

    fn instance(&self, external: &External) -> Option<Instance> {
        Some(external.instance(Texture::Ant))
    }

    fn cleanup(&mut self) {
        self.cleanups += 1;
    }
}

impl Relax for Counter {
    fn frequency(&self) -> u32 {
        self.frequency
    }

    fn must(&self, _scene: &(), _external: &External) -> bool {
        self.urgent
    }

    fn needs(&self) -> bool {
        self.messy
    }

    fn plan_frequency(&self) -> u32 {
        self.frequency
    }

    fn must_plan(&self, _scene: &(), _external: &External) -> bool {
        self.urgent
    }

    fn needs_cleanup(&self) -> bool {
        self.messy
    }
}

fn run(frequency: u32, tick: u64, ticks: u64) -> (u32, u32) {
    let bus = Messenger::new(0);
    let sender = bus.sender();
    let mut external = External::new((800, 600), 0);
    let mut relaxed = Relaxed::new(counter(frequency), 0);
    for n in 1..=ticks {
        external.update(n * tick);
        let plan = relaxed.plan(&(), &external, &sender);
        relaxed.adopt(plan);
        relaxed.update(&external, &bus);
    }
    (relaxed.get().plans, relaxed.get().updates)
}

#[test]
fn plan_is_due_after_more_than_one_period() {
    assert!(!is_due(0, 100_000, 10));
    assert!(is_due(0, 100_001, 10));
    assert!(!is_due(500, 400, 10));
    assert!(!is_due(0, 5, 0));
    assert!(is_due(0, u64::MAX, u32::MAX));
    assert!(!is_due(7, 7, u32::MAX));
}

#[test]
fn plan_runs_at_every_stride() {
    // ten plans a second, ticks of ten milliseconds: a plan at every eleventh tick
    assert_eq!(run(10, 10_000, 110), (10, 110));
    assert_eq!(run(10, 10_000, 10), (0, 10));
    assert_eq!(run(10, 10_000, 11), (1, 11));
    assert_eq!(run(10, 10_000, 21), (1, 21));
    assert_eq!(run(10, 10_000, 22), (2, 22));
}

#[test]
fn plan_count_is_within_one_of_the_rate() {
    for (frequency, tick, ticks) in [(10u32, 10_000u64, 110u64), (60, 1_000, 500), (4, 16_667, 600), (1, 999_999, 2)] {
        let (plans, updates) = run(frequency, tick, ticks);
        let rate = ticks * tick * frequency as u64 / TICKS_PER_SECOND;
        assert_eq!(updates as u64, ticks);
        assert!(plans as u64 <= rate);
        assert!(rate <= plans as u64 + 1, "{} plans, rate {}", plans, rate);
    }
}

#[test]
fn slow_ticks_plan_at_every_tick() {
    // one tick a second at sixty plans a second: the plan runs once a tick, no more
    assert_eq!(run(60, TICKS_PER_SECOND, 10), (10, 10));
}

#[test]
fn forced_plan_runs_at_once_and_restarts_the_timer() {
    let bus = Messenger::new(0);
    let sender = bus.sender();
    let mut external = External::new((800, 600), 0);
    let mut urgent = counter(1);
    urgent.urgent = true;
    let mut relaxed = Relaxed::new(urgent, 0);
    external.update(10);
    let plan = relaxed.plan(&(), &external, &sender);
    assert_eq!(plan, Some((10, 1)));
    relaxed.adopt(plan);
    assert_eq!(relaxed.get().plans, 1);
}

#[test]
fn skipped_plan_changes_nothing() {
    let bus = Messenger::new(0);
    let sender = bus.sender();
    let mut external = External::new((800, 600), 0);
    let mut relaxed = Relaxed::new(counter(1), 0);
    external.update(TICKS_PER_SECOND);
    let plan = relaxed.plan(&(), &external, &sender);
    assert_eq!(plan, None);
    relaxed.adopt(plan);
    assert_eq!(relaxed.get().plans, 0);
    external.update(TICKS_PER_SECOND + 1);
    assert_eq!(relaxed.plan(&(), &external, &sender), Some((TICKS_PER_SECOND + 1, 1)));
}

#[test]
fn cleanup_goes_by_the_same_timer() {
    let bus = Messenger::new(0);
    let mut external = External::new((800, 600), 0);
    let mut relaxed = Relaxed::new(counter(1), 0);
    external.update(TICKS_PER_SECOND);
    relaxed.update(&external, &bus);
    relaxed.cleanup();
    assert_eq!(relaxed.get().cleanups, 0);
    external.update(TICKS_PER_SECOND + 1);
    relaxed.update(&external, &bus);
    relaxed.cleanup();
    assert_eq!(relaxed.get().cleanups, 1);
}

#[test]
fn cleanup_runs_when_asked_for() {
    let mut messy = counter(1);
    messy.messy = true;
    let mut relaxed = Relaxed::new(messy, 0);
    relaxed.cleanup();
    assert_eq!(relaxed.get().cleanups, 1);
}

#[test]
fn render_goes_to_the_object_inside() {
    let external = External::new((800, 600), 0);
    let relaxed = Relaxed::new(counter(1), 0);
    let mut out = Vec::new();
    relaxed.render(&external, &mut out);
    assert_eq!(out.len(), 1);
    assert_eq!(out[0].texture, Texture::Ant);
    assert!(relaxed.instance(&external).is_some());
}
