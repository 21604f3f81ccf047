//! The steps of a tick for a whole population: every live entity of a grid
//! plans, adopts its plan, updates and renders in turn.
//!
//! Entities move and die in their updates, so after `update_all` the grid is
//! well formed but need not be settled: a maintenance pass brings it in line.

use crate::grid::{Grid, Griddable};
use crate::messenger::{Dispatch, Messenger};
use crate::object::{appended, plans_to, External, GameObject, Instance};
use std::sync::mpsc::Sender;
use vstd::prelude::*;

verus! {

/// Lets every live entity plan, in slot order. Returns each plan with the
/// slot of the entity that made it. Nothing changes.
pub fn plan_all<T: GameObject + Griddable>(
    grid: &Grid<T>,
    scene: &T::Scene,
    external: &External,
    messenger: &Sender<Dispatch>,
) -> (plans: Vec<(usize, T::Plan)>)
    requires
        grid.wf(),
    ensures
        plans@.len() == grid@.live_slots(grid@.arena.slots.len() as int).len(),
        forall|k: int| 0 <= k < plans@.len() ==> (#[trigger] plans@[k]).0 == grid@.live_slots(
            grid@.arena.slots.len() as int,
        )[k] && plans_to(grid@.entity(plans@[k].0), scene, external, messenger, plans@[k].1),
{
    let slots = grid.indices();
    let mut plans: Vec<(usize, T::Plan)> = Vec::new();
    let mut n: usize = 0;
    proof {
        grid@.lemma_live_slots(grid@.arena.slots.len() as int);
    }
    while n < slots.len()
        invariant
            grid.wf(),
            0 <= n <= slots.len(),
            slots@ == grid@.live_slots(grid@.arena.slots.len() as int),
            forall|k: int| 0 <= k < slots@.len() ==> grid@.live(#[trigger] slots@[k]),
            plans@.len() == n,
            forall|k: int| 0 <= k < n ==> (#[trigger] plans@[k]).0 == slots@[k] && plans_to(
                grid@.entity(plans@[k].0),
                scene,
                external,
                messenger,
                plans@[k].1,
            ),
        decreases slots.len() - n,
    {
        let index = slots[n];
        assert(grid@.live(slots@[n as int]));
        match grid.entity(index) {
            Some(entity) => {
                plans.push((index, entity.plan(scene, external, messenger)));
            },
            None => {},
        }
        n += 1;
    }
    plans
}

/// Whether `plans` holds a plan for slot `i`.
pub open spec fn planned<P>(plans: Seq<(usize, P)>, i: usize) -> bool {
    exists|k: int| 0 <= k < plans.len() && (#[trigger] plans[k]).0 == i
}

/// Whether `plans` holds at most one plan for each slot.
pub open spec fn one_plan_each<P>(plans: Seq<(usize, P)>) -> bool {
    forall|j: int, k: int| 0 <= j < k < plans.len() ==> plans[j].0 != plans[k].0
}

/// Hands each plan to the entity in its slot. A plan for a slot that is
/// free is dropped. No entity is added or removed, an entity without a plan
/// stays as it is, and the grid stays well formed.
pub fn adopt_all<T: GameObject + Griddable>(grid: &mut Grid<T>, plans: Vec<(usize, T::Plan)>)
    requires
        old(grid).wf(),
    ensures
        final(grid).wf(),
        final(grid)@.scale == old(grid)@.scale,
        final(grid)@.buckets == old(grid)@.buckets,
        final(grid)@.filed == old(grid)@.filed,
        final(grid)@.arena.frees == old(grid)@.arena.frees,
        final(grid)@.arena.slots.len() == old(grid)@.arena.slots.len(),
        forall|i: int| final(grid)@.arena.occupied(i) == old(grid)@.arena.occupied(i),
        forall|i: usize| !planned(plans@, i) ==> final(grid)@.arena.get(i as int) == old(grid)@.arena.get(
            i as int,
        ),
        one_plan_each(plans@) ==> forall|k: int|
            0 <= k < plans@.len() && old(grid)@.arena.occupied((#[trigger] plans@[k]).0 as int) ==> exists|
                object: &mut T,
            |
                mut_ref_current(object) == old(grid)@.entity(plans@[k].0) && mut_ref_future(object) == final(grid)@.entity(plans@[k].0) && #[trigger] call_ensures(T::adopt, (object, plans@[k].1), ()),
{
    let ghost all = plans@;
    let mut plans = plans;
    while plans.len() > 0
        invariant
            grid.wf(),
            plans@.len() <= all.len(),
            plans@ == all.take(plans@.len() as int),
            grid@.scale == old(grid)@.scale,
            grid@.buckets == old(grid)@.buckets,
            grid@.filed == old(grid)@.filed,
            grid@.arena.frees == old(grid)@.arena.frees,
            grid@.arena.slots.len() == old(grid)@.arena.slots.len(),
            forall|i: int| grid@.arena.occupied(i) == old(grid)@.arena.occupied(i),
            forall|i: usize| !planned(all, i) ==> grid@.arena.get(i as int) == old(grid)@.arena.get(i as int),
            one_plan_each(all) ==> forall|k: int|
                0 <= k < plans@.len() ==> grid@.arena.get((#[trigger] all[k]).0 as int) == old(grid)@.arena.get(
                    all[k].0 as int,
                ),
            one_plan_each(all) ==> forall|k: int|
                plans@.len() <= k < all.len() && old(grid)@.arena.occupied((#[trigger] all[k]).0 as int)
                    ==> exists|object: &mut T|
                    mut_ref_current(object) == old(grid)@.entity(all[k].0) && mut_ref_future(object)
                        == grid@.entity(all[k].0) && #[trigger] call_ensures(T::adopt, (object, all[k].1), ()),
        decreases plans@.len(),
    {
        let ghost before = grid@;
        let ghost place = plans@.len() - 1;
        let (index, plan) = plans.pop().unwrap();
        proof {
            assert(all[place] == (index, plan));
            assert(planned(all, index));
            assert(plans@ =~= all.take(place));
        }
        match grid.entity_mut(index) {
            Some(entity) => {
                let ghost was = *entity;
                entity.adopt(plan);
                let ghost now = *entity;
                proof {
                    assert(exists|object: &mut T|
                        mut_ref_current(object) == was && mut_ref_future(object) == now && #[trigger] call_ensures(
                            T::adopt,
                            (object, plan),
                            (),
                        ));
                }
            },
            None => {},
        }
        proof {
            assert forall|i: usize| !planned(all, i) implies grid@.arena.get(i as int) == old(grid)@.arena.get(
                i as int,
            ) by {
                assert(i != index);
                assert(grid@.arena.get(i as int) == before.arena.get(i as int));
            }
            if one_plan_each(all) {
                assert forall|k: int| 0 <= k < plans@.len() implies grid@.arena.get((#[trigger] all[k]).0 as int)
                    == old(grid)@.arena.get(all[k].0 as int) by {
                    assert(all[k].0 != all[place].0);
                    assert(grid@.arena.get(all[k].0 as int) == before.arena.get(all[k].0 as int));
                }
                assert forall|k: int|
                    plans@.len() <= k < all.len() && old(grid)@.arena.occupied(
                        (#[trigger] all[k]).0 as int,
                    ) implies exists|object: &mut T|
                    mut_ref_current(object) == old(grid)@.entity(all[k].0) && mut_ref_future(object) == grid@.entity(
                        all[k].0,
                    ) && #[trigger] call_ensures(T::adopt, (object, all[k].1), ()) by {
                    if k == place {
                        assert(before.arena.get(index as int) == old(grid)@.arena.get(index as int));
                    } else {
                        assert(all[k].0 != all[place].0);
                        assert(grid@.entity(all[k].0) == before.entity(all[k].0));
                        let object = choose|object: &mut T|
                            mut_ref_current(object) == old(grid)@.entity(all[k].0) && mut_ref_future(object)
                                == before.entity(all[k].0) && #[trigger] call_ensures(
                                T::adopt,
                                (object, all[k].1),
                                (),
                            );
                        assert(call_ensures(T::adopt, (object, all[k].1), ()));
                    }
                }
            }
        }
    }
}

/// Updates every live entity, in slot order, and collects the actions that
/// the updates return. No entity is added or removed here; one that died in
/// its update stays in its slot until the next maintenance pass. The grid
/// stays well formed.
pub fn update_all<T: GameObject + Griddable>(grid: &mut Grid<T>, external: &External, messenger: &Messenger) -> (actions:
    Vec<T::Action>)
    requires
        old(grid).wf(),
        messenger.wf(),
    ensures
        final(grid).wf(),
        final(grid)@.scale == old(grid)@.scale,
        final(grid)@.buckets == old(grid)@.buckets,
        final(grid)@.filed == old(grid)@.filed,
        final(grid)@.arena.frees == old(grid)@.arena.frees,
        final(grid)@.arena.slots.len() == old(grid)@.arena.slots.len(),
        forall|i: int| final(grid)@.arena.occupied(i) == old(grid)@.arena.occupied(i),
        forall|i: usize| old(grid)@.arena.occupied(i as int) && !old(grid)@.live(i) ==> final(grid)@.arena.get(
            i as int,
        ) == old(grid)@.arena.get(i as int),
        exists|outcomes: Seq<Option<T::Action>>|
            {
                let slots = old(grid)@.live_slots(old(grid)@.arena.slots.len() as int);
                &&& outcomes.len() == slots.len()
                &&& actions@ == #[trigger] gathered(outcomes, outcomes.len() as int)
                &&& forall|k: int|
                    0 <= k < slots.len() && old(grid)@.live(#[trigger] slots[k]) ==> exists|object: &mut T|
                        mut_ref_current(object) == old(grid)@.entity(slots[k]) && mut_ref_future(object)
                            == final(grid)@.entity(slots[k]) && #[trigger] call_ensures(
                            T::update,
                            (object, external, messenger),
                            outcomes[k],
                        )
            },
{
    let slots = grid.indices();
    let mut actions: Vec<T::Action> = Vec::new();
    let ghost mut outcomes: Seq<Option<T::Action>> = Seq::empty();
    let mut n: usize = 0;
    proof {
        grid@.lemma_live_slots(grid@.arena.slots.len() as int);
    }
    while n < slots.len()
        invariant
            grid.wf(),
            messenger.wf(),
            0 <= n <= slots.len(),
            slots@ == old(grid)@.live_slots(old(grid)@.arena.slots.len() as int),
            forall|k: int| 0 <= k < slots@.len() ==> old(grid)@.live(#[trigger] slots@[k]),
            grid@.scale == old(grid)@.scale,
            grid@.buckets == old(grid)@.buckets,
            grid@.filed == old(grid)@.filed,
            grid@.arena.frees == old(grid)@.arena.frees,
            grid@.arena.slots.len() == old(grid)@.arena.slots.len(),
            forall|i: int| grid@.arena.occupied(i) == old(grid)@.arena.occupied(i),
            forall|i: usize| old(grid)@.arena.occupied(i as int) && !old(grid)@.live(i) ==> grid@.arena.get(
                i as int,
            ) == old(grid)@.arena.get(i as int),
            forall|j: int, k: int| 0 <= j < k < slots@.len() ==> slots@[j] < slots@[k],
            forall|k: int| n <= k < slots@.len() ==> grid@.arena.get((#[trigger] slots@[k]) as int) == old(grid)@.arena.get(
                slots@[k] as int,
            ),
            outcomes.len() == n,
            actions@ == gathered(outcomes, n as int),
            forall|k: int|
                0 <= k < n && old(grid)@.live(#[trigger] slots@[k]) ==> exists|object: &mut T|
                    mut_ref_current(object) == old(grid)@.entity(slots@[k]) && mut_ref_future(object)
                        == grid@.entity(slots@[k]) && #[trigger] call_ensures(
                        T::update,
                        (object, external, messenger),
                        outcomes[k],
                    ),
        decreases slots.len() - n,
    {
        let index = slots[n];
        assert(old(grid)@.live(slots@[n as int]));
        let ghost before = grid@;
        let ghost earlier = outcomes;
        let entity = grid.entity_mut(index).unwrap();
        let ghost was = *entity;
        let outcome = entity.update(external, messenger);
        let ghost updated = *entity;
        proof {
            assert(exists|object: &mut T|
                mut_ref_current(object) == was && mut_ref_future(object) == updated && #[trigger] call_ensures(
                    T::update,
                    (object, external, messenger),
                    outcome,
                ));
            outcomes = outcomes.push(outcome);
        }
        match outcome {
            Some(action) => {
                actions.push(action);
            },
            None => {},
        }
        proof {
            assert(grid@.entity(index) == updated);
            assert(was == old(grid)@.entity(index));
            assert forall|k: int| 0 <= k < n + 1 && old(grid)@.live(#[trigger] slots@[k]) implies exists|
                object: &mut T,
            |
                mut_ref_current(object) == old(grid)@.entity(slots@[k]) && mut_ref_future(object) == grid@.entity(
                    slots@[k],
                ) && #[trigger] call_ensures(T::update, (object, external, messenger), outcomes[k]) by {
                if k < n {
                    assert(slots@[k] < slots@[n as int]);
                    assert(grid@.entity(slots@[k]) == before.entity(slots@[k]));
                    assert(outcomes[k] == earlier[k]);
                    let object = choose|object: &mut T|
                        mut_ref_current(object) == old(grid)@.entity(slots@[k]) && mut_ref_future(object)
                            == before.entity(slots@[k]) && #[trigger] call_ensures(
                            T::update,
                            (object, external, messenger),
                            earlier[k],
                        );
                    assert(call_ensures(T::update, (object, external, messenger), outcomes[k]));
                } else {
                    let object = choose|object: &mut T|
                        mut_ref_current(object) == was && mut_ref_future(object) == updated && #[trigger] call_ensures(
                            T::update,
                            (object, external, messenger),
                            outcome,
                        );
                    assert(outcomes[k] == outcome);
                    assert(call_ensures(T::update, (object, external, messenger), outcomes[k]));
                }
            }
            assert(gathered(outcomes, n + 1) == actions@) by {
                assert(outcomes.drop_last() =~= earlier);
                lemma_gathered_same(outcomes, earlier, n as int);
            }
        }
        n += 1;
    }
    actions
}

/// The actions among the first `n` of `outcomes`, in order.
pub open spec fn gathered<A>(outcomes: Seq<Option<A>>, n: int) -> Seq<A>
    decreases n,
{
    if n <= 0 {
        Seq::empty()
    } else {
        match outcomes[n - 1] {
            Some(action) => gathered(outcomes, n - 1).push(action),
            None => gathered(outcomes, n - 1),
        }
    }
}

/// Sequences that agree on their first `n` outcomes hold the same actions
/// there.
pub proof fn lemma_gathered_same<A>(a: Seq<Option<A>>, b: Seq<Option<A>>, n: int)
    requires
        0 <= n <= a.len(),
        n <= b.len(),
        forall|k: int| 0 <= k < n ==> a[k] == b[k],
    ensures
        gathered(a, n) == gathered(b, n),
    decreases n,
{
    if n > 0 {
        lemma_gathered_same(a, b, n - 1);
    }
}

/// Lets every live entity render, in slot order: each entity renders to
/// what the one before it left in `out`. What was in `out` stays in front.
pub fn render_all<T: GameObject + Griddable>(grid: &Grid<T>, external: &External, out: &mut Vec<Instance>)
    requires
        grid.wf(),
    ensures
        appended(old(out)@, final(out)@),
        exists|stages: Seq<Vec<Instance>>|
            {
                let slots = grid@.live_slots(grid@.arena.slots.len() as int);
                &&& stages.len() == slots.len() + 1
                &&& #[trigger] stages[0] == *old(out)
                &&& stages[slots.len() as int] == *final(out)
                &&& forall|k: int|
                    0 <= k < slots.len() && grid@.live(#[trigger] slots[k]) ==> exists|sink: &mut Vec<Instance>|
                        mut_ref_current(sink) == stages[k] && mut_ref_future(sink) == stages[k + 1]
                            && #[trigger] call_ensures(T::render, (&grid@.entity(slots[k]), external, sink), ())
            },
{
    let entities = grid.iter();
    let ghost slots = grid@.live_slots(grid@.arena.slots.len() as int);
    let ghost mut stages: Seq<Vec<Instance>> = seq![*out];
    let mut n: usize = 0;
    proof {
        grid@.lemma_live_slots(grid@.arena.slots.len() as int);
        assert(out@.subrange(0, out@.len() as int) =~= out@);
    }
    while n < entities.len()
        invariant
            0 <= n <= entities.len(),
            entities@.len() == slots.len(),
            forall|k: int| 0 <= k < entities@.len() ==> *(#[trigger] entities@[k]) == grid@.entity(slots[k]),
            appended(old(out)@, out@),
            stages.len() == n + 1,
            stages[0] == *old(out),
            stages[n as int] == *out,
            forall|k: int|
                0 <= k < n && grid@.live(#[trigger] slots[k]) ==> exists|sink: &mut Vec<Instance>|
                    mut_ref_current(sink) == stages[k] && mut_ref_future(sink) == stages[k + 1]
                        && #[trigger] call_ensures(T::render, (&grid@.entity(slots[k]), external, sink), ()),
        decreases entities.len() - n,
    {
        let ghost before = *out;
        let ghost earlier = stages;
        let entity = entities[n];
        entity.render(external, out);
        let ghost after = *out;
        proof {
            assert(*entity == grid@.entity(slots[n as int]));
            assert(exists|sink: &mut Vec<Instance>|
                mut_ref_current(sink) == before && mut_ref_future(sink) == after && #[trigger] call_ensures(
                    T::render,
                    (&grid@.entity(slots[n as int]), external, sink),
                    (),
                ));
            stages = stages.push(after);
            assert(out@.subrange(0, old(out)@.len() as int) =~= before@.subrange(0, old(out)@.len() as int));
            assert forall|k: int| 0 <= k < n + 1 && grid@.live(#[trigger] slots[k]) implies exists|
                sink: &mut Vec<Instance>,
            |
                mut_ref_current(sink) == stages[k] && mut_ref_future(sink) == stages[k + 1]
                    && #[trigger] call_ensures(T::render, (&grid@.entity(slots[k]), external, sink), ()) by {
                if k < n {
                    assert(stages[k] == earlier[k] && stages[k + 1] == earlier[k + 1]);
                    let sink = choose|sink: &mut Vec<Instance>|
                        mut_ref_current(sink) == earlier[k] && mut_ref_future(sink) == earlier[k + 1]
                            && #[trigger] call_ensures(T::render, (&grid@.entity(slots[k]), external, sink), ());
                    assert(call_ensures(T::render, (&grid@.entity(slots[k]), external, sink), ()));
                } else {
                    assert(stages[k] == before && stages[k + 1] == after);
                    let sink = choose|sink: &mut Vec<Instance>|
                        mut_ref_current(sink) == before && mut_ref_future(sink) == after && #[trigger] call_ensures(
                            T::render,
                            (&grid@.entity(slots[n as int]), external, sink),
                            (),
                        );
                    assert(call_ensures(T::render, (&grid@.entity(slots[k]), external, sink), ()));
                }
            }
        }
        n += 1;
    }
}

} // verus!
