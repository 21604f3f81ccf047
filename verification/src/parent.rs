//! A composite: an object made of children that are planned, updated and
//! rendered in the order in which they were added.

use crate::arena::reverse;
use crate::messenger::{Dispatch, Messenger};
use crate::object::{plans_to, External, GameObject, Instance};
use std::sync::mpsc::Sender;
use vstd::prelude::*;

verus! {

/// An object that holds its children in order.
pub struct Parent<T> {
    children: Vec<T>,
}

impl<T> View for Parent<T> {
    type V = Seq<T>;

    /// The children, in the order in which they were added.
    closed spec fn view(&self) -> Seq<T> {
        self.children@
    }
}

impl<T> Parent<T> {
    /// A parent without children.
    pub fn new() -> (parent: Self)
        ensures
            parent@ == Seq::<T>::empty(),
    {
        Parent { children: Vec::new() }
    }

    /// Adds `child` behind the children that are there, which stay as they
    /// are, and hands the parent back for the next child.
    pub fn plus(&mut self, child: T) -> (parent: &mut Self)
        ensures
            parent@ == old(self)@.push(child),
            *final(self) == *final(parent),
    {
        self.children.push(child);
        self
    }

    /// Whether there is a child at place `k`.
    pub open spec fn has(&self, k: int) -> bool {
        0 <= k < self@.len()
    }

    /// The number of children.
    pub fn len(&self) -> (n: usize)
        ensures
            n == self@.len(),
    {
        self.children.len()
    }

    /// The child at place `i`, or `None` if there are not so many.
    pub fn child(&self, i: usize) -> (child: Option<&T>)
        ensures
            child == (if i < self@.len() {
                Some(&self@[i as int])
            } else {
                None
            }),
    {
        if i < self.children.len() {
            Some(&self.children[i])
        } else {
            None
        }
    }
}

impl<T: GameObject> GameObject for Parent<T> {
    type Scene = T::Scene;

    type Action = T::Action;

    type Plan = Vec<T::Plan>;

    /// Lets every child plan, in order. Returns the plans in that order.
    fn plan(&self, scene: &Self::Scene, external: &External, messenger: &Sender<Dispatch>) -> (plans:
        Self::Plan)
        ensures
            plans@.len() == self@.len(),
            forall|k: int| 0 <= k < self@.len() ==> plans_to(
                self@[k],
                scene,
                external,
                messenger,
                #[trigger] plans@[k],
            ),
    {
        let mut plans: Vec<T::Plan> = Vec::new();
        let mut n: usize = 0;
        while n < self.children.len()
            invariant
                0 <= n <= self.children.len(),
                plans@.len() == n,
                forall|k: int| 0 <= k < n ==> plans_to(self@[k], scene, external, messenger, #[trigger] plans@[k]),
            decreases self.children.len() - n,
        {
            let plan = self.children[n].plan(scene, external, messenger);
            plans.push(plan);
            n += 1;
        }
        plans
    }

    /// Hands the plan at each place to the child at that place. Children
    /// without a plan stay as they are; plans without a child are dropped.
    fn adopt(&mut self, plan: Self::Plan)
        ensures
            final(self)@.len() == old(self)@.len(),
            forall|k: int| #[trigger]
                old(self).has(k) && k < plan@.len() ==> exists|child: &mut T|
                    mut_ref_current(child) == old(self)@[k] && mut_ref_future(child) == final(self)@[k]
                        && #[trigger] call_ensures(T::adopt, (child, plan@[k]), ()),
            forall|k: int| #[trigger] old(self).has(k) && k >= plan@.len() ==> final(self)@[k] == old(self)@[k],
    {
        let ghost all = plan@;
        let mut plans = plan;
        reverse(&mut plans);
        let mut n: usize = 0;
        while n < self.children.len() && plans.len() > 0
            invariant
                0 <= n <= self.children.len(),
                self@.len() == old(self)@.len(),
                n <= all.len(),
                plans@.len() == all.len() - n,
                forall|j: int| 0 <= j < plans@.len() ==> plans@[j] == all[all.len() - 1 - j],
                forall|k: int| n <= k < self@.len() ==> self@[k] == old(self)@[k],
                forall|k: int| #[trigger]
                    old(self).has(k) && k < n ==> exists|child: &mut T|
                        mut_ref_current(child) == old(self)@[k] && mut_ref_future(child) == self@[k]
                            && #[trigger] call_ensures(T::adopt, (child, all[k]), ()),
            decreases self.children.len() - n,
        {
            let ghost before = self@;
            let decided = plans.pop().unwrap();
            proof {
                assert(decided == all[n as int]);
            }
            let child = &mut self.children[n];
            let ghost was = *child;
            child.adopt(decided);
            let ghost now = *child;
            proof {
                assert(exists|child: &mut T|
                    mut_ref_current(child) == was && mut_ref_future(child) == now && #[trigger] call_ensures(
                        T::adopt,
                        (child, decided),
                        (),
                    ));
            }
            proof {
                assert(self@ =~= before.update(n as int, now));
                assert forall|k: int| #[trigger] old(self).has(k) && k < n + 1 implies exists|child: &mut T|
                    mut_ref_current(child) == old(self)@[k] && mut_ref_future(child) == self@[k]
                        && #[trigger] call_ensures(T::adopt, (child, all[k]), ()) by {
                    if k < n {
                        assert(old(self).has(k));
                        let child = choose|child: &mut T|
                            mut_ref_current(child) == old(self)@[k] && mut_ref_future(child) == before[k]
                                && #[trigger] call_ensures(T::adopt, (child, all[k]), ());
                        assert(call_ensures(T::adopt, (child, all[k]), ()));
                    } else {
                        let child = choose|child: &mut T|
                            mut_ref_current(child) == was && mut_ref_future(child) == now && #[trigger] call_ensures(
                                T::adopt,
                                (child, decided),
                                (),
                            );
                        assert(call_ensures(T::adopt, (child, all[k]), ()));
                    }
                }
            }
            n += 1;
        }
    }

    /// Updates every child, in order. A parent asks nothing of its owner.
    fn update(&mut self, external: &External, messenger: &Messenger) -> (action: Option<Self::Action>)
        ensures
            action is None,
            final(self)@.len() == old(self)@.len(),
            exists|outcomes: Seq<Option<T::Action>>|
                #[trigger] outcomes.len() == old(self)@.len() && forall|k: int| #[trigger]
                    old(self).has(k) ==> exists|child: &mut T|
                        mut_ref_current(child) == old(self)@[k] && mut_ref_future(child) == final(self)@[k]
                            && #[trigger] call_ensures(T::update, (child, external, messenger), outcomes[k]),
    {
        let ghost mut outcomes: Seq<Option<T::Action>> = Seq::empty();
        let mut n: usize = 0;
        while n < self.children.len()
            invariant
                messenger.wf(),
                0 <= n <= self.children.len(),
                self@.len() == old(self)@.len(),
                outcomes.len() == n,
                forall|k: int| n <= k < self@.len() ==> self@[k] == old(self)@[k],
                forall|k: int| #[trigger]
                    old(self).has(k) && k < n ==> exists|child: &mut T|
                        mut_ref_current(child) == old(self)@[k] && mut_ref_future(child) == self@[k]
                            && #[trigger] call_ensures(T::update, (child, external, messenger), outcomes[k]),
            decreases self.children.len() - n,
        {
            let ghost before = self@;
            let ghost earlier = outcomes;
            let child = &mut self.children[n];
            let ghost was = *child;
            let outcome = child.update(external, messenger);
            let ghost now = *child;
            proof {
                assert(exists|child: &mut T|
                    mut_ref_current(child) == was && mut_ref_future(child) == now && #[trigger] call_ensures(
                        T::update,
                        (child, external, messenger),
                        outcome,
                    ));
                outcomes = outcomes.push(outcome);
            }
            proof {
                assert(self@ =~= before.update(n as int, now));
                assert forall|k: int| #[trigger] old(self).has(k) && k < n + 1 implies exists|child: &mut T|
                    mut_ref_current(child) == old(self)@[k] && mut_ref_future(child) == self@[k]
                        && #[trigger] call_ensures(T::update, (child, external, messenger), outcomes[k]) by {
                    if k < n {
                        assert(old(self).has(k));
                        let child = choose|child: &mut T|
                            mut_ref_current(child) == old(self)@[k] && mut_ref_future(child) == before[k]
                                && #[trigger] call_ensures(T::update, (child, external, messenger), earlier[k]);
                        assert(outcomes[k] == earlier[k]);
                        assert(call_ensures(T::update, (child, external, messenger), outcomes[k]));
                    } else {
                        let child = choose|child: &mut T|
                            mut_ref_current(child) == was && mut_ref_future(child) == now && #[trigger] call_ensures(
                                T::update,
                                (child, external, messenger),
                                outcome,
                            );
                        assert(outcomes[k] == outcome);
                        assert(call_ensures(T::update, (child, external, messenger), outcomes[k]));
                    }
                }
            }
            n += 1;
        }
        None
    }

    /// A parent shows nothing of its own.
    fn instance(&self, external: &External) -> (instance: Option<Instance>)
        ensures
            instance is None,
    {
        None
    }

    /// Lets every child render, in order: each child renders to what the one
    /// before it left in `out`.
    fn render(&self, external: &External, out: &mut Vec<Instance>)
        ensures
            exists|stages: Seq<Vec<Instance>>|
                {
                    &&& stages.len() == self@.len() + 1
                    &&& #[trigger] stages[0] == *old(out)
                    &&& stages[self@.len() as int] == *final(out)
                    &&& forall|k: int| #[trigger]
                        self.has(k) ==> exists|sink: &mut Vec<Instance>|
                            mut_ref_current(sink) == stages[k] && mut_ref_future(sink) == stages[k + 1]
                                && #[trigger] call_ensures(T::render, (&self@[k], external, sink), ())
                },
    {
        let ghost mut stages: Seq<Vec<Instance>> = seq![*out];
        let mut n: usize = 0;
        proof {
            assert(out@.subrange(0, out@.len() as int) =~= out@);
        }
        while n < self.children.len()
            invariant
                0 <= n <= self.children.len(),
                crate::object::appended(old(out)@, out@),
                stages.len() == n + 1,
                stages[0] == *old(out),
                stages[n as int] == *out,
                forall|k: int| #[trigger]
                    self.has(k) && k < n ==> exists|sink: &mut Vec<Instance>|
                        mut_ref_current(sink) == stages[k] && mut_ref_future(sink) == stages[k + 1]
                            && #[trigger] call_ensures(T::render, (&self@[k], external, sink), ()),
            decreases self.children.len() - n,
        {
            let ghost before = *out;
            let ghost earlier = stages;
            let child = &self.children[n];
            child.render(external, out);
            let ghost after = *out;
            proof {
                assert(*child == self@[n as int]);
                assert(exists|sink: &mut Vec<Instance>|
                    mut_ref_current(sink) == before && mut_ref_future(sink) == after && #[trigger] call_ensures(
                        T::render,
                        (&self@[n as int], external, sink),
                        (),
                    ));
                stages = stages.push(after);
                assert(out@.subrange(0, old(out)@.len() as int) =~= before@.subrange(0, old(out)@.len() as int));
                assert forall|k: int| #[trigger] self.has(k) && k < n + 1 implies exists|sink: &mut Vec<Instance>|
                    mut_ref_current(sink) == stages[k] && mut_ref_future(sink) == stages[k + 1]
                        && #[trigger] call_ensures(T::render, (&self@[k], external, sink), ()) by {
                    if k < n {
                        assert(self.has(k));
                        assert(stages[k] == earlier[k] && stages[k + 1] == earlier[k + 1]);
                        let sink = choose|sink: &mut Vec<Instance>|
                            mut_ref_current(sink) == earlier[k] && mut_ref_future(sink) == earlier[k + 1]
                                && #[trigger] call_ensures(T::render, (&self@[k], external, sink), ());
                        assert(call_ensures(T::render, (&self@[k], external, sink), ()));
                    } else {
                        assert(stages[k] == before && stages[k + 1] == after);
                        let sink = choose|sink: &mut Vec<Instance>|
                            mut_ref_current(sink) == before && mut_ref_future(sink) == after && #[trigger] call_ensures(
                                T::render,
                                (&self@[n as int], external, sink),
                                (),
                            );
                        assert(call_ensures(T::render, (&self@[k], external, sink), ()));
                    }
                }
            }
            n += 1;
        }
    }

    /// Cleans up every child, in order.
    fn cleanup(&mut self)
        ensures
            final(self)@.len() == old(self)@.len(),
            forall|k: int| #[trigger]
                old(self).has(k) ==> exists|child: &mut T|
                    mut_ref_current(child) == old(self)@[k] && mut_ref_future(child) == final(self)@[k]
                        && #[trigger] call_ensures(T::cleanup, (child,), ()),
    {
        let mut n: usize = 0;
        while n < self.children.len()
            invariant
                0 <= n <= self.children.len(),
                self@.len() == old(self)@.len(),
                forall|k: int| n <= k < self@.len() ==> self@[k] == old(self)@[k],
                forall|k: int| #[trigger]
                    old(self).has(k) && k < n ==> exists|child: &mut T|
                        mut_ref_current(child) == old(self)@[k] && mut_ref_future(child) == self@[k]
                            && #[trigger] call_ensures(T::cleanup, (child,), ()),
            decreases self.children.len() - n,
        {
            let ghost before = self@;
            let child = &mut self.children[n];
            let ghost was = *child;
            child.cleanup();
            let ghost now = *child;
            proof {
                assert(exists|child: &mut T|
                    mut_ref_current(child) == was && mut_ref_future(child) == now && #[trigger] call_ensures(
                        T::cleanup,
                        (child,),
                        (),
                    ));
            }
            proof {
                assert(self@ =~= before.update(n as int, now));
                assert forall|k: int| #[trigger] old(self).has(k) && k < n + 1 implies exists|child: &mut T|
                    mut_ref_current(child) == old(self)@[k] && mut_ref_future(child) == self@[k]
                        && #[trigger] call_ensures(T::cleanup, (child,), ()) by {
                    if k < n {
                        assert(old(self).has(k));
                        let child = choose|child: &mut T|
                            mut_ref_current(child) == old(self)@[k] && mut_ref_future(child) == before[k]
                                && #[trigger] call_ensures(T::cleanup, (child,), ());
                        assert(call_ensures(T::cleanup, (child,), ()));
                    } else {
                        let child = choose|child: &mut T|
                            mut_ref_current(child) == was && mut_ref_future(child) == now && #[trigger] call_ensures(
                                T::cleanup,
                                (child,),
                                (),
                            );
                        assert(call_ensures(T::cleanup, (child,), ()));
                    }
                }
            }
            n += 1;
        }
    }
}

} // verus!
