use colony::food::{Food, FOOD_AMOUNT};
use colony::grid::{Grid, Griddable};
use colony::interface::Interface;
use colony::messenger::{Dispatch, MessageTypes, Messenger, Signal};
use colony::object::{Camera, External, GameObject, MouseButton, Texture};
use colony::pheromones::{midpoint, Pheromone, Trail, ALIVE_THRESHOLD, FULL_STRENGTH, HALF_LIFE, MERGE_RADIUS};
use colony::plans::{
    next_wander, QueenPlan, WorkerPlan, WorkerState, EXPLORATION, SMELL_RAD, TRAIL_SEP, TRAIL_SMELL_RAD,
};
use colony::population::{adopt_all, plan_all, render_all, update_all};
use colony::relaxed::Relaxed;
use colony::space::{unit_toward, UNIT};
use colony::ui::ButtonState;

fn view() -> External {
    let mut external = External::new((800, 800), 0);
    external.camera = Camera { pos: (0, 0), scale: 1000 * UNIT as u32 };
    external
}

#[test]
fn constants_are_in_world_units() {
    assert_eq!(SMELL_RAD, 50 * 1024);
    assert_eq!(TRAIL_SEP, 15 * 1024);
    assert_eq!(TRAIL_SMELL_RAD, 75 * 1024);
    assert_eq!(EXPLORATION, 10 * 1024);
    assert_eq!(MERGE_RADIUS, 10 * 1024);
    assert_eq!(HALF_LIFE, 7_000_000);
}

#[test]
fn food_is_eaten_down_to_nothing() {
    let mut food = Food::new((5, 5));
    assert_eq!(food.amount, FOOD_AMOUNT);
    assert!(food.alive());
    food.eat(3);
    assert_eq!(food.amount, 7);
    food.eat(100);
    assert_eq!(food.amount, 0);
    assert!(!food.alive());
    assert_eq!(food.pos(), (5, 5));
}

#[test]
fn food_eats_what_the_messages_at_its_place_say() {
    let mut bus = Messenger::new(0);
    bus.ingest(vec![
        Dispatch::new(Some((5, 5)), Signal::ConsumeFood, 1),
        Dispatch::new(Some((5, 5)), Signal::ConsumeFood, 1),
        Dispatch::new(Some((5, 6)), Signal::ConsumeFood, 1),
        Dispatch::new(None, Signal::ConsumeFood, 1),
    ]);
    let mut food = Food::new((5, 5));
    let action = food.update(&view(), &bus);
    assert_eq!(action, None);
    assert_eq!(food.amount, FOOD_AMOUNT - 2);
}

#[test]
fn food_is_drawn_blue_and_as_large_as_it_is() {
    let mut food = Food::new((5, 5));
    food.eat(4);
    let instance = food.instance(&view()).unwrap();
    assert_eq!(instance.position, (5, 5));
    assert_eq!(instance.color_tint, (0, 0, 255, 255));
    assert_eq!(instance.texture, Texture::Flat);
    assert_eq!(instance.scale, (6, 6));
}

#[test]
fn trail_starts_at_full_strength() {
    let trail = Trail::new((1, 2), (UNIT, 0), Pheromone::ToFood);
    assert_eq!(trail.strength(), FULL_STRENGTH);
    assert_eq!(trail.age, 0);
    assert_eq!(trail.pos(), (1, 2));
    assert!(trail.alive());
}

#[test]
fn strength_follows_the_age() {
    let mut trail = Trail::new((0, 0), (UNIT, 0), Pheromone::ToHome);
    trail.decay(0);
    assert_eq!(trail.strength(), FULL_STRENGTH);
    trail.decay(HALF_LIFE / 2);
    // half a half-life: one over the root of two
    assert_eq!(trail.strength(), 707_106);
    trail.decay(HALF_LIFE / 2);
    assert_eq!(trail.strength(), 500_000);
    trail.decay(HALF_LIFE);
    assert_eq!(trail.strength(), 250_000);
    trail.decay(u64::MAX);
    assert_eq!(trail.age, u64::MAX);
    assert_eq!(trail.strength(), 0);
}

#[test]
fn one_step_of_a_half_life_halves() {
    let mut trail = Trail::new((0, 0), (UNIT, 0), Pheromone::ToHome);
    trail.decay(HALF_LIFE);
    assert_eq!(trail.strength(), FULL_STRENGTH / 2);
}

#[test]
fn trail_halves_in_its_half_life() {
    for steps in [1u64, 2, 3, 7, 60, 420, 1_000, 7_000, 1_000_000, 7_000_000] {
        let mut trail = Trail::new((0, 0), (UNIT, 0), Pheromone::ToHome);
        let tick = HALF_LIFE / steps;
        for _ in 0..steps {
            trail.decay(tick);
        }
        let half = FULL_STRENGTH / 2;
        // the steps may fall short of the half-life by less than one tick each
        assert!(trail.strength() >= half && trail.strength() <= half + 1_000, "{} steps: {}", steps, trail.strength());
        if HALF_LIFE % steps == 0 {
            assert_eq!(trail.strength(), half);
        }
    }
}

#[test]
fn curve_is_close_to_the_power_of_two() {
    let mut trail = Trail::new((0, 0), (UNIT, 0), Pheromone::ToHome);
    let tick = 10_000;
    let mut last = trail.strength();
    for n in 1..=5_000u64 {
        trail.decay(tick);
        let strength = trail.strength();
        let ideal = 1_000_000f64 * (-(n as f64 * tick as f64) / HALF_LIFE as f64).exp2();
        assert!((strength as f64 - ideal).abs() <= 20.0, "age {}: {} for {}", n * tick, strength, ideal);
        assert!(strength <= last);
        last = strength;
    }
}

#[test]
fn small_steps_wear_a_trail_down() {
    let mut trail = Trail::new((0, 0), (UNIT, 0), Pheromone::ToHome);
    let mut ticks = 0u64;
    while trail.alive() {
        trail.decay(10);
        ticks += 10;
        assert!(ticks <= 7 * HALF_LIFE);
    }
    // strength 0.0125 is reached after log2(80) half lives, a little over 44 seconds
    assert!((44_000_000..=44_500_000).contains(&ticks), "{}", ticks);
}

#[test]
fn faded_trail_is_gone_after_maintenance() {
    let mut grid: Grid<Trail> = Grid::new(3 * TRAIL_SEP);
    let fading = grid.insert(Trail::new((0, 0), (UNIT, 0), Pheromone::ToHome));
    let tick = 16_667;
    let mut ticks = 0;
    while grid.entity(fading).unwrap().strength() > ALIVE_THRESHOLD {
        grid.entity_mut(fading).unwrap().decay(tick);
        ticks += 1;
        assert!(ticks < 1_000_000);
    }
    let seconds = ticks * tick / 1_000_000;
    assert!((43..=46).contains(&seconds), "{}", seconds);
    let fresh = grid.insert(Trail::new((5, 5), (UNIT, 0), Pheromone::ToFood));
    assert_eq!(grid.count(), 2);
    assert_eq!(grid.iter().len(), 1);
    grid.maintain();
    assert_eq!(grid.count(), 1);
    assert!(grid.entity(fading).is_none());
    assert_eq!(grid.indices(), vec![fresh]);
    assert_eq!(grid.iter().len(), 1);
}

#[test]
fn near_and_alike_trails_merge() {
    let a = Trail { pos: (0, 0), dir: (UNIT, 0), ty: Pheromone::ToHome, start: 600_000, age: 0 };
    let b = Trail { pos: (1001, -3), dir: (UNIT, 0), ty: Pheromone::ToHome, start: 600_000, age: HALF_LIFE };
    let one = Trail::clump(&a, &b).unwrap();
    assert_eq!(one.pos, (500, -2));
    assert_eq!(one.dir, (UNIT, 0));
    assert_eq!(one.ty, Pheromone::ToHome);
    assert_eq!(one.strength(), 900_000);
    assert_eq!(one.age, 0);
}

#[test]
fn trails_apart_or_unlike_do_not_merge() {
    let a = Trail { pos: (0, 0), dir: (UNIT, 0), ty: Pheromone::ToHome, start: 1, age: 0 };
    let far = Trail { pos: (MERGE_RADIUS as i32, 0), ..a };
    assert!(Trail::clump(&a, &far).is_none());
    let close = Trail { pos: (MERGE_RADIUS as i32 - 1, 0), ..a };
    assert!(Trail::clump(&a, &close).is_some());
    let across = Trail { dir: (0, UNIT), ..a };
    assert!(Trail::clump(&a, &across).is_none());
    // the dot product of the directions must be above a half
    let at_sixty = Trail { dir: (512, 887), ..a };
    assert!(Trail::clump(&a, &at_sixty).is_none());
    let inside_sixty = Trail { dir: (513, 886), ..a };
    assert!(Trail::clump(&a, &inside_sixty).is_some());
    let other = Trail { ty: Pheromone::ToFood, ..a };
    assert!(Trail::clump(&a, &other).is_none());
    let strong = Trail { start: u64::MAX, ..a };
    assert_eq!(Trail::clump(&strong, &strong).unwrap().strength(), u64::MAX);
}

#[test]
fn middle_rounds_down() {
    assert_eq!(midpoint(1, 2), 1);
    assert_eq!(midpoint(-1, -2), -2);
    assert_eq!(midpoint(-1, 2), 0);
    assert_eq!(midpoint(-3, 2), -1);
    assert_eq!(midpoint(i32::MAX, i32::MAX), i32::MAX);
    assert_eq!(midpoint(i32::MIN, i32::MIN), i32::MIN);
}

#[test]
fn worker_starts_wandering_ahead() {
    let plan = WorkerPlan::spawn((10, 10), (UNIT, 0));
    assert_eq!(plan.state, WorkerState::Wander((10 + UNIT, 10)));
    assert_eq!(plan.last_trail, (10, 10));
    assert_eq!(plan.texture(), Texture::Ant);
}

#[test]
fn wanderer_turns_to_the_nearest_food_it_smells() {
    let mut food: Grid<Food> = Grid::new(32 * UNIT as u32);
    food.insert(Food::new((40 * UNIT, 0)));
    food.insert(Food::new((30 * UNIT, 0)));
    food.insert(Food::new((0, 51 * UNIT)));
    let plan = WorkerPlan::spawn((0, 0), (UNIT, 0));
    let (next, message) = plan.decide((0, 0), (UNIT, 0), &food, (0, 0), (0, 0));
    assert_eq!(next.state, WorkerState::GoToFood((30 * UNIT, 0)));
    assert!(message.is_none());
    let (far, _) = plan.decide((-21 * UNIT, 0), (UNIT, 0), &food, (0, 0), (0, 0));
    assert_eq!(far.state, WorkerState::Wander((UNIT, 0)));
}

#[test]
fn wanderer_picks_a_new_place_when_it_has_arrived() {
    let food: Grid<Food> = Grid::new(32 * UNIT as u32);
    let plan = WorkerPlan { state: WorkerState::Wander((100, 0)), last_trail: (0, 0) };
    let (next, _) = plan.decide((0, 0), (UNIT, 0), &food, (-UNIT / 2, UNIT), (0, 0));
    assert_eq!(next.state, WorkerState::Wander((20 * (UNIT / 2), 20 * UNIT)));
    assert_eq!(next_wander((5, 5), (UNIT, 0), (0, 0)), (5 + 20 * UNIT, 5));
    let away = WorkerPlan { state: WorkerState::Wander((EXPLORATION as i32, 0)), last_trail: (0, 0) };
    let (same, _) = away.decide((0, 0), (UNIT, 0), &food, (1, 1), (0, 0));
    assert_eq!(same.state, away.state);
}

#[test]
fn worker_gives_up_food_that_is_gone() {
    let food: Grid<Food> = Grid::new(32 * UNIT as u32);
    let plan = WorkerPlan { state: WorkerState::GoToFood((500, 500)), last_trail: (0, 0) };
    let (next, message) = plan.decide((0, 0), (UNIT, 0), &food, (0, 0), (0, 0));
    assert_eq!(next.state, WorkerState::Wander((500, 500)));
    assert!(message.is_none());
}

#[test]
fn worker_bites_and_turns_home_when_it_reaches_the_food() {
    let mut food: Grid<Food> = Grid::new(32 * UNIT as u32);
    let target = (100 * UNIT, 0);
    food.insert(Food::new(target));
    let plan = WorkerPlan { state: WorkerState::GoToFood(target), last_trail: (80 * UNIT, 3) };
    let (walking, none) = plan.decide((85 * UNIT, 0), (UNIT, 0), &food, (0, 0), (0, 0));
    assert_eq!(walking, plan);
    assert!(none.is_none());
    let (home, message) = plan.decide((85 * UNIT + 1, 0), (UNIT, 0), &food, (0, 0), (0, 0));
    assert_eq!(home.state, WorkerState::GoToHome((80 * UNIT - 85 * UNIT - 1, 3)));
    assert_eq!(home.last_trail, plan.last_trail);
    let message = message.unwrap();
    assert_eq!(message.pos, Some(target));
    assert_eq!(message.signal, Signal::ConsumeFood);
    assert_eq!(message.delay, 0);
}

#[test]
fn worker_follows_trails_home_and_wanders_on_without() {
    let food: Grid<Food> = Grid::new(32 * UNIT as u32);
    let plan = WorkerPlan { state: WorkerState::GoToHome((-UNIT, 0)), last_trail: (0, 0) };
    let (turned, _) = plan.decide((50, 50), (UNIT, 0), &food, (0, 0), (0, -UNIT));
    assert_eq!(turned.state, WorkerState::GoToHome((0, -UNIT)));
    let (lost, message) = plan.decide((50, 50), (UNIT, 0), &food, (0, 0), (-UNIT, 0));
    assert_eq!(lost.state, WorkerState::Wander((50 - UNIT, 50)));
    assert!(message.is_none());
}

#[test]
fn fresh_draw_stays_within_one_step_of_the_heading() {
    let food: Grid<Food> = Grid::new(32 * UNIT as u32);
    let plan = WorkerPlan { state: WorkerState::Wander((0, 0)), last_trail: (0, 0) };
    for _ in 0..200 {
        let (next, _) = plan.next_plan((0, 0), (UNIT, 0), &food, (0, 0));
        match next.state {
            WorkerState::Wander(to) => {
                assert!((0..=40 * UNIT).contains(&to.0) && (-20 * UNIT..=20 * UNIT).contains(&to.1));
            }
            _ => panic!("a wanderer without food wanders on"),
        }
    }
}

#[test]
fn worker_leaves_a_trail_when_it_has_come_far_enough() {
    let mut plan = WorkerPlan { state: WorkerState::GoToFood((100, 0)), last_trail: (0, 0) };
    let (way, trail) = plan.action((TRAIL_SEP as i32, 0), (UNIT, 0));
    assert_eq!(way, (100 - TRAIL_SEP as i32, 0));
    assert!(trail.is_none());
    assert_eq!(plan.last_trail, (0, 0));
    let (_, trail) = plan.action((TRAIL_SEP as i32 + 1, 0), (UNIT, 0));
    let trail = trail.unwrap();
    assert_eq!(trail.pos, (TRAIL_SEP as i32 + 1, 0));
    assert_eq!(trail.dir, (UNIT, 0));
    assert_eq!(trail.ty, Pheromone::ToHome);
    assert_eq!(trail.strength(), FULL_STRENGTH);
    assert_eq!(plan.last_trail, (TRAIL_SEP as i32 + 1, 0));
    let mut home = WorkerPlan { state: WorkerState::GoToHome((0, UNIT)), last_trail: (0, 0) };
    let (way, trail) = home.action((0, 2 * TRAIL_SEP as i32), (0, UNIT));
    assert_eq!(way, (0, UNIT));
    assert_eq!(trail.unwrap().ty, Pheromone::ToFood);
}

#[test]
fn queen_wanders_and_bears_workers_at_a_click() {
    let queen = QueenPlan::spawn((0, 0), (0, UNIT));
    assert_eq!(queen, QueenPlan::Wander((0, UNIT)));
    assert_eq!(queen.texture(), Texture::Queen);
    assert_eq!(queen.decide((0, 0), (0, UNIT), (UNIT, 0)), QueenPlan::Wander((20 * UNIT, 20 * UNIT)));
    let away = QueenPlan::Wander((EXPLORATION as i32, 0));
    assert_eq!(away.decide((0, 0), (0, UNIT), (UNIT, 0)), away);
    let (way, born) = away.action((7, 7), ButtonState::Clicked, (UNIT, 0));
    assert_eq!(way, (EXPLORATION as i32, 0));
    assert_eq!(born, Some(WorkerPlan::spawn((7, 7), (UNIT, 0))));
    assert_eq!(away.action((7, 7), ButtonState::Down, (UNIT, 0)).1, None);
    assert_eq!(away.action((7, 7), ButtonState::Up, (UNIT, 0)).1, None);
    match away.next_plan((0, 0), (0, 0)) {
        QueenPlan::Wander(to) => assert_eq!(to, (EXPLORATION as i32, 0)),
    }
}

#[test]
fn pointer_draws_a_trail_back_to_where_it_came_from() {
    let mut external = view();
    let mut interface = Interface::new();
    assert!(interface.update(&external, (0, 0)).is_none());
    assert_eq!(interface.last_trail, None);
    external.mouse_button(MouseButton::Left, true);
    assert!(interface.update(&external, (0, 0)).is_none());
    assert_eq!(interface.last_trail, Some((0, 0)));
    external.update(1);
    assert_eq!(external.left_mouse, ButtonState::Down);
    assert!(interface.update(&external, (TRAIL_SEP as i32, 0)).is_none());
    let trail = interface.update(&external, (TRAIL_SEP as i32 + 1, 0)).unwrap();
    assert_eq!(trail.pos, (TRAIL_SEP as i32 + 1, 0));
    assert_eq!(trail.dir, (-UNIT, 0));
    assert_eq!(trail.dir, unit_toward(trail.pos, (0, 0)));
    assert_eq!(trail.ty, Pheromone::ToHome);
    assert_eq!(interface.last_trail, Some(trail.pos));
    let outside = (2000 * UNIT, 0);
    assert!(interface.update(&external, outside).is_none());
    external.mouse_button(MouseButton::Left, false);
    assert!(interface.update(&external, (0, 5 * TRAIL_SEP as i32)).is_none());
}

#[test]
fn population_plans_updates_and_renders_in_slot_order() {
    let mut bus = Messenger::new(0);
    bus.ingest(vec![Dispatch::new(Some((0, 0)), Signal::ConsumeFood, 5)]);
    let sender = bus.sender();
    let external = view();
    let mut grid: Grid<Relaxed<Food>> = Grid::new(32);
    let a = grid.insert(Relaxed::new(Food::new((0, 0)), 0));
    let b = grid.insert(Relaxed::new(Food::new((100, 100)), 0));
    let gone = grid.insert(Relaxed::new(Food { pos: (1, 1), amount: 0 }, 0));
    let plans = plan_all(&grid, &(), &external, &sender);
    assert_eq!(plans.iter().map(|p| p.0).collect::<Vec<usize>>(), vec![a, b]);
    adopt_all(&mut grid, plans);
    let actions = update_all(&mut grid, &external, &bus);
    assert!(actions.is_empty());
    assert_eq!(grid.entity(a).unwrap().get().amount, FOOD_AMOUNT - 1);
    assert_eq!(grid.entity(b).unwrap().get().amount, FOOD_AMOUNT);
    assert_eq!(grid.entity(gone).unwrap().get().amount, 0);
    let mut out = Vec::new();
    render_all(&grid, &external, &mut out);
    assert_eq!(out.len(), 2);
    assert_eq!(out[0].position, (0, 0));
    assert_eq!(out[1].position, (100, 100));
    assert!(has(&bus));
}

fn has(bus: &Messenger) -> bool {
    !bus.local_receive((0, 0), 0, &vec![MessageTypes::ConsumeFood]).is_empty()
}

#[test]
fn worker_finds_food_bites_and_turns_home() {
    let scale = 32 * UNIT as u32;
    let target = (100 * UNIT, 0);
    let mut food: Grid<Relaxed<Food>> = Grid::new(scale);
    let heap = food.insert(Relaxed::new(Food::new(target), 0));
    let mut bus = Messenger::new(0);
    let sender = bus.sender();
    let mut external = view();
    let mut pos = (0, 0);
    let dir = (UNIT, 0);
    let mut plan = WorkerPlan { state: WorkerState::Wander((200 * UNIT, 0)), last_trail: pos };
    let step = UNIT / 4;
    let mut smelled_at = None;
    let mut bitten_at = None;
    for tick in 1..=1000u64 {
        external.update(tick * 16_667);
        let (next, message) = plan.decide(pos, dir, &food, (0, 0), (-UNIT, 0));
        if let Some(message) = message {
            assert!(colony::messenger::post(&sender, message));
        }
        match (plan.state, next.state) {
            (WorkerState::Wander(_), WorkerState::GoToFood(found)) => {
                assert_eq!(found, target);
                smelled_at = Some(pos);
            }
            (WorkerState::GoToFood(_), WorkerState::GoToHome(_)) => {
                bitten_at = Some(pos);
            }
            _ => {}
        }
        plan = next;
        bus.update(external.now);
        if bitten_at == Some(pos) {
            let seen = bus.local_receive(target, 0, &vec![MessageTypes::ConsumeFood]);
            assert_eq!(seen, vec![(target, Signal::ConsumeFood)]);
            update_all(&mut food, &external, &bus);
            assert_eq!(food.entity(heap).unwrap().get().amount, FOOD_AMOUNT - 1);
            break;
        }
        update_all(&mut food, &external, &bus);
        let way = plan.action(pos, dir).0;
        pos.0 += way.0.signum() * step;
        food.maintain();
    }
    // the worker smells the food at the first step inside the smell radius
    let smelled_at = smelled_at.unwrap();
    assert_eq!(smelled_at, (50 * UNIT, 0));
    // and bites at the first step inside the trail distance
    let bitten_at = bitten_at.unwrap();
    assert_eq!(bitten_at, (85 * UNIT + step, 0));
    assert!(matches!(plan.state, WorkerState::GoToHome(_)));
}
