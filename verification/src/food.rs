//! Food: a heap at a fixed place that shrinks as it is eaten.

use crate::grid::Griddable;
use crate::messenger::{chosen, Dispatch, MessageTypes, Messenger};
use crate::object::{External, GameObject, Instance, Texture};
use crate::relaxed::Relax;
use crate::space::Point;
use std::sync::mpsc::Sender;
use vstd::prelude::*;

verus! {

/// The units of food in a new heap.
pub const FOOD_AMOUNT: usize = 10;

/// How often food asks to plan, in plans per second.
pub const FOOD_PLAN_FREQUENCY: u32 = 60;

/// A heap of food. It is alive as long as something is left of it.
#[derive(Clone, Copy, Debug)]
pub struct Food {
    pub pos: Point,
    pub amount: usize,
}

impl Food {
    /// A full heap at `pos`.
    pub fn new(pos: Point) -> (food: Self)
        ensures
            food == (Food { pos, amount: FOOD_AMOUNT }),
    {
        Food { pos, amount: FOOD_AMOUNT }
    }

    /// The amount left of `amount` after `bites` units were eaten.
    pub open spec fn left(amount: usize, bites: nat) -> usize {
        if bites >= amount {
            0
        } else {
            (amount - bites) as usize
        }
    }

    /// Takes `bites` units from the heap, as far as it goes.
    pub fn eat(&mut self, bites: usize)
        ensures
            final(self).pos == old(self).pos,
            final(self).amount == Food::left(old(self).amount, bites as nat),
    {
        if bites >= self.amount {
            self.amount = 0;
        } else {
            self.amount = self.amount - bites;
        }
    }

    /// Takes one unit from the heap for every message on the bus that says
    /// so at exactly the heap's position.
    pub fn consume(&mut self, messenger: &Messenger)
        requires
            messenger.wf(),
        ensures
            final(self).pos == old(self).pos,
            exists|hits: Seq<(u128, usize)>| #[trigger]
                messenger@.locals.answers(old(self).pos, 0, hits) && final(self).amount == Food::left(
                    old(self).amount,
                    chosen(messenger@.locals, hits, seq![MessageTypes::ConsumeFood], hits.len() as int).len(),
                ),
    {
        let mut kinds: Vec<MessageTypes> = Vec::new();
        kinds.push(MessageTypes::ConsumeFood);
        proof {
            assert(kinds@ =~= seq![MessageTypes::ConsumeFood]);
        }
        let found = messenger.local_receive(self.pos, 0, &kinds);
        self.eat(found.len());
    }
}

impl Griddable for Food {
    open spec fn position(&self) -> Point {
        self.pos
    }

    open spec fn is_alive(&self) -> bool {
        self.amount > 0
    }

    fn pos(&self) -> (p: Point) {
        self.pos
    }

    fn alive(&self) -> (a: bool) {
        self.amount > 0
    }
}

impl GameObject for Food {
    type Scene = ();

    type Action = ();

    type Plan = ();

    /// Food decides nothing.
    fn plan(&self, scene: &Self::Scene, external: &External, messenger: &Sender<Dispatch>) -> Self::Plan {
    }

    fn adopt(&mut self, plan: Self::Plan)
        ensures
            *final(self) == *old(self),
    {
    }

    /// Eats what the messages on the bus say.
    fn update(&mut self, external: &External, messenger: &Messenger) -> (action: Option<Self::Action>)
        ensures
            action is None,
            final(self).pos == old(self).pos,
            exists|hits: Seq<(u128, usize)>| #[trigger]
                messenger@.locals.answers(old(self).pos, 0, hits) && final(self).amount == Food::left(
                    old(self).amount,
                    chosen(messenger@.locals, hits, seq![MessageTypes::ConsumeFood], hits.len() as int).len(),
                ),
    {
        self.consume(messenger);
        None
    }

    /// A blue square at the heap's position, as large as the heap.
    fn instance(&self, external: &External) -> (instance: Option<Instance>)
        ensures
            instance == Some(self.picture()),
    {
        let size: u32 = if self.amount > u32::MAX as usize { u32::MAX } else { self.amount as u32 };
        Some(
            (Instance { position: self.pos, color_tint: (0, 0, 255, 255), ..external.instance(Texture::Flat) }).scale(
                size,
            ),
        )
    }

    /// Appends the heap's picture to `out` if it may show in the view.
    fn render(&self, external: &External, out: &mut Vec<Instance>)
        ensures
            final(out)@ == (if external.sees(self.picture()) {
                old(out)@.push(self.picture())
            } else {
                old(out)@
            }),
    {
        match self.instance(external) {
            Some(instance) => {
                external.clip(out, instance);
            },
            None => {},
        }
        proof {
            assert(out@.subrange(0, old(out)@.len() as int) =~= old(out)@);
        }
    }

    fn cleanup(&mut self)
        ensures
            *final(self) == *old(self),
    {
    }
}

impl Food {
    /// The heap's picture: a blue square at its position, as large as the
    /// heap.
    pub open spec fn picture(&self) -> Instance {
        (Instance {
            position: self.pos,
            color_tint: (0, 0, 255, 255),
            ..External::plain(Texture::Flat)
        }).scaled2(self.shown(), self.shown())
    }

    /// The size at which the heap is drawn: its amount, as far as `u32` goes.
    pub open spec fn shown(&self) -> u32 {
        if self.amount > u32::MAX {
            u32::MAX
        } else {
            self.amount as u32
        }
    }
}

impl Relax for Food {
    open spec fn frequency(&self) -> u32 {
        FOOD_PLAN_FREQUENCY
    }

    open spec fn must(&self, scene: &Self::Scene, external: &External) -> bool {
        false
    }

    open spec fn needs(&self) -> bool {
        false
    }

    fn plan_frequency(&self) -> (frequency: u32) {
        FOOD_PLAN_FREQUENCY
    }

    fn must_plan(&self, scene: &Self::Scene, external: &External) -> (must: bool) {
        false
    }

    fn needs_cleanup(&self) -> (needs: bool) {
        false
    }
}

} // verus!
