//! Objects that are in one of a closed set of states and move between them.

use crate::chance::{by_probability, picked, PARTS};
use crate::messenger::Messenger;
use crate::object::External;
use vstd::prelude::*;

verus! {

/// An object with a state, a rule for the next state, and hooks that run
/// when the state changes.
pub trait Automaton {
    /// What the object may ask its owner to do after an update.
    type Action;

    /// The states.
    type State: Copy;

    /// The state of the object, as contracts see it.
    spec fn current(&self) -> Self::State;

    /// The state that follows in the world of `external`, as contracts see it.
    spec fn next(&self, external: &External) -> Self::State;

    /// The state of the object.
    fn state(&self) -> (state: Self::State)
        ensures
            state == self.current(),
    ;

    /// Puts the object in `state`.
    fn set_state(&mut self, state: Self::State)
        ensures
            final(self).current() == state,
    ;

    /// Whether two states are different.
    fn differ(a: Self::State, b: Self::State) -> (different: bool)
        ensures
            different == (a != b),
    ;

    /// Runs after the object has entered its state from the state `from`.
    /// Leaves the state as it is.
    fn enter_from(&mut self, from: Self::State)
        ensures
            final(self).current() == old(self).current(),
    ;

    /// Runs before the object leaves its state for the state `to`. Leaves
    /// the state as it is.
    fn exit_to(&mut self, to: Self::State)
        ensures
            final(self).current() == old(self).current(),
    ;

    /// The state that follows in the world of `external`.
    fn next_state(&self, external: &External) -> (state: Self::State)
        ensures
            state == self.next(external),
    ;

    /// Chooses a state from a table of states with their probabilities in
    /// parts per million, by a fresh roll: the state that some roll picks in
    /// the table, and the present state if the roll passes the table.
    fn by_probability(&self, table: &Vec<(Self::State, u32)>) -> (state: Self::State)
        ensures
            exists|roll: u32| roll < PARTS && state == #[trigger] picked(table@, roll as int, self.current(), 0),
            table@.len() == 0 ==> state == self.current(),
    {
        by_probability(table, self.state())
    }

    /// Advances the object by one tick in its state.
    fn update(&mut self, external: &External, messenger: &Messenger) -> Option<Self::Action>
        requires
            messenger.wf(),
    ;
}

/// Moves the object to the state that follows. If that is another state, the
/// hook for leaving runs in the old state, then the state is set, then the
/// hook for entering runs in the new state; if it is the same state, nothing
/// runs and the object stays as it is.
pub fn transition<A: Automaton>(object: &mut A, external: &External)
    ensures
        final(object).current() == old(object).next(external),
        if old(object).current() != old(object).next(external) {
            exists|leaving: &mut A, setting: &mut A, entering: &mut A|
                #![trigger
                    call_ensures(A::exit_to, (leaving, old(object).next(external)), ()),
                    call_ensures(A::set_state, (setting, old(object).next(external)), ()),
                    call_ensures(A::enter_from, (entering, old(object).current()), ()),
                ]
                {
                    &&& mut_ref_current(leaving) == *old(object)
                    &&& call_ensures(A::exit_to, (leaving, old(object).next(external)), ())
                    &&& mut_ref_current(setting) == mut_ref_future(leaving)
                    &&& call_ensures(A::set_state, (setting, old(object).next(external)), ())
                    &&& mut_ref_current(entering) == mut_ref_future(setting)
                    &&& call_ensures(A::enter_from, (entering, old(object).current()), ())
                    &&& mut_ref_future(entering) == *final(object)
                }
        } else {
            *final(object) == *old(object)
        },
{
    let from = object.state();
    let to = object.next_state(external);
    if A::differ(to, from) {
        let ghost first = *object;
        object.exit_to(to);
        let ghost second = *object;
        object.set_state(to);
        let ghost third = *object;
        object.enter_from(from);
        let ghost fourth = *object;
        proof {
            assert(exists|leaving: &mut A|
                mut_ref_current(leaving) == first && mut_ref_future(leaving) == second && #[trigger] call_ensures(
                    A::exit_to,
                    (leaving, to),
                    (),
                ));
            assert(exists|setting: &mut A|
                mut_ref_current(setting) == second && mut_ref_future(setting) == third && #[trigger] call_ensures(
                    A::set_state,
                    (setting, to),
                    (),
                ));
            assert(exists|entering: &mut A|
                mut_ref_current(entering) == third && mut_ref_future(entering) == fourth && #[trigger] call_ensures(
                    A::enter_from,
                    (entering, from),
                    (),
                ));
            let leaving = choose|leaving: &mut A|
                mut_ref_current(leaving) == first && mut_ref_future(leaving) == second && #[trigger] call_ensures(
                    A::exit_to,
                    (leaving, to),
                    (),
                );
            let setting = choose|setting: &mut A|
                mut_ref_current(setting) == second && mut_ref_future(setting) == third && #[trigger] call_ensures(
                    A::set_state,
                    (setting, to),
                    (),
                );
            let entering = choose|entering: &mut A|
                mut_ref_current(entering) == third && mut_ref_future(entering) == fourth && #[trigger] call_ensures(
                    A::enter_from,
                    (entering, from),
                    (),
                );
            assert(call_ensures(A::exit_to, (leaving, old(object).next(external)), ()));
            assert(call_ensures(A::set_state, (setting, old(object).next(external)), ()));
            assert(call_ensures(A::enter_from, (entering, old(object).current()), ()));
        }
    }
}

/// One tick of an automaton: the transition to the state that follows, then
/// the update in that state.
pub fn advance<A: Automaton>(object: &mut A, external: &External, messenger: &Messenger) -> (action: Option<
    A::Action,
>)
    requires
        messenger.wf(),
    ensures
        exists|turned: &mut A|
            mut_ref_current(turned).current() == old(object).next(external) && mut_ref_future(turned) == *final(object) && #[trigger] call_ensures(A::update, (turned, external, messenger), action),
{
    transition(object, external);
    object.update(external, messenger)
}

} // verus!
