//! What an ant has in mind, and how it changes its mind.
//!
//! A plan is a small tagged value. Planning is a function from the plan, the
//! ant's position and what the world shows to the next plan and, at most,
//! one message to send; it changes nothing else.

use crate::chance::rand_in2d;
use crate::grid::{Grid, Griddable};
use crate::grid_model::GridState;
use crate::messenger::{Dispatch, Signal};
use crate::object::Texture;
use crate::pheromones::{Pheromone, Trail};
use crate::space::{
    clamp, clamped, dist2, distance2, offset, radius2, shift, shifted, vector, Point, UNIT,
};
use crate::ui::ButtonState;
use vstd::prelude::*;

verus! {

/// How far an ant smells food.
pub const SMELL_RAD: u32 = 50 * (UNIT as u32);

/// How far an ant goes between two trails that it leaves.
pub const TRAIL_SEP: u32 = 15 * (UNIT as u32);

/// How far an ant smells trails.
pub const TRAIL_SMELL_RAD: u32 = 5 * TRAIL_SEP;

/// How close an ant comes to the place it wanders to before it picks another.
pub const EXPLORATION: u32 = 10 * (UNIT as u32);

/// How many times the sum of heading and random offset the next place to
/// wander to lies ahead: twice `EXPLORATION`, in units of length.
pub const WANDER_STEP: i64 = 20;

/// The place to wander to next, for an ant at `pos` that heads in direction
/// `dir` and drew the random vector `drawn`.
pub open spec fn wander_target(pos: Point, dir: Point, drawn: Point) -> Point {
    shifted(pos, (clamped(WANDER_STEP * (dir.0 + drawn.0)), clamped(WANDER_STEP * (dir.1 + drawn.1))))
}

/// The place to wander to next.
pub fn next_wander(pos: Point, dir: Point, drawn: Point) -> (target: Point)
    ensures
        target == wander_target(pos, dir, drawn),
{
    let dx: i64 = WANDER_STEP * (dir.0 as i64 + drawn.0 as i64);
    let dy: i64 = WANDER_STEP * (dir.1 as i64 + drawn.1 as i64);
    shift(pos, (clamp(dx), clamp(dy)))
}

/// What a worker is doing.
#[derive(Clone, Copy, Debug, PartialEq, Eq)]
pub enum WorkerState {
    /// Walking to a place, for want of anything better.
    Wander(Point),
    /// Walking to the food at a place.
    GoToFood(Point),
    /// Walking home, in a direction.
    GoToHome(Point),
}

/// The plan of a worker.
#[derive(Clone, Copy, Debug, PartialEq, Eq)]
pub struct WorkerPlan {
    pub state: WorkerState,
    /// Where the worker left its latest trail.
    pub last_trail: Point,
}

/// Whether a worker at `pos` that wanders may turn to the food at `target`:
/// some nearest of the entities that a query with `SMELL_RAD` finds stands
/// there.
pub open spec fn smells<F: Griddable>(food: GridState<F>, pos: Point, target: Point) -> bool {
    exists|i: usize| #[trigger] food.nearest_hit(pos, SMELL_RAD as int, i) && food.position(i) == target
}

/// Whether a worker at `pos` smells no food at all.
pub open spec fn smells_nothing<F: Griddable>(food: GridState<F>, pos: Point) -> bool {
    forall|i: usize| !food.hit(pos, SMELL_RAD as int, i)
}

impl WorkerPlan {
    /// The message that a worker sends when it takes from the food at `food`.
    pub open spec fn bite(food: Point) -> Dispatch {
        Dispatch { pos: Some(food), signal: Signal::ConsumeFood, delay: 0 }
    }

    /// Whether `next` and `message` are what a worker with this plan at
    /// `pos` may decide, given the food it can find, the random vector it
    /// drew and the direction `homeward` that the trails around it suggest.
    ///
    /// A wanderer turns to the nearest food it smells; without food it picks
    /// a new place once it has come within `EXPLORATION` of the old one. A
    /// worker on its way to food gives up if the food is gone; within
    /// `TRAIL_SEP` of it, it takes a bite, which is the one case with a
    /// message, and turns home by the way it came. A worker on its way home
    /// follows the trails as long as they suggest a new direction, and
    /// wanders on when they do not.
    pub open spec fn decides<F: Griddable>(
        self,
        pos: Point,
        food: GridState<F>,
        drawn: Point,
        dir: Point,
        homeward: Point,
        next: WorkerPlan,
        message: Option<Dispatch>,
    ) -> bool {
        &&& next.last_trail == self.last_trail
        &&& match self.state {
            WorkerState::Wander(toward) => {
                &&& message is None
                &&& if smells_nothing(food, pos) {
                    next.state == (if dist2(pos, toward) < EXPLORATION * EXPLORATION {
                        WorkerState::Wander(wander_target(pos, dir, drawn))
                    } else {
                        WorkerState::Wander(toward)
                    })
                } else {
                    next.state matches WorkerState::GoToFood(target) && smells(food, pos, target)
                }
            },
            WorkerState::GoToFood(target) => {
                if food.none_at(target) {
                    next.state == WorkerState::Wander(target) && message is None
                } else if dist2(target, pos) < TRAIL_SEP * TRAIL_SEP {
                    next.state == WorkerState::GoToHome(offset(pos, self.last_trail)) && message == Some(
                        WorkerPlan::bite(target),
                    )
                } else {
                    next.state == self.state && message is None
                }
            },
            WorkerState::GoToHome(heading) => {
                &&& message is None
                &&& next.state == (if homeward != heading {
                    WorkerState::GoToHome(homeward)
                } else {
                    WorkerState::Wander(shifted(pos, heading))
                })
            },
        }
    }

    /// The plan of a worker that starts at `pos` heading in direction `dir`.
    pub fn spawn(pos: Point, dir: Point) -> (plan: Self)
        ensures
            plan == (WorkerPlan { state: WorkerState::Wander(shifted(pos, dir)), last_trail: pos }),
    {
        WorkerPlan { state: WorkerState::Wander(shift(pos, dir)), last_trail: pos }
    }

    /// The next plan of a worker at `pos` heading in direction `dir`, and
    /// the message to send, if any. `drawn` is the random vector for a new
    /// place to wander to; `homeward` is the direction that the trails
    /// around the worker suggest.
    pub fn decide<F: Griddable>(&self, pos: Point, dir: Point, food: &Grid<F>, drawn: Point, homeward: Point) -> (out:
        (WorkerPlan, Option<Dispatch>))
        requires
            food.wf(),
        ensures
            self.decides(pos, food@, drawn, dir, homeward, out.0, out.1),
    {
        match self.state {
            WorkerState::Wander(toward) => {
                match food.nearest(pos, SMELL_RAD) {
                    Some(found) => {
                        let target = found.pos();
                        proof {
                            let i = choose|i: usize| #[trigger]
                                food@.nearest_hit(pos, SMELL_RAD as int, i) && *found == food@.entity(i);
                            assert(food@.hit(pos, SMELL_RAD as int, i));
                            assert(food@.nearest_hit(pos, SMELL_RAD as int, i) && food@.position(i) == target);
                        }
                        (WorkerPlan { state: WorkerState::GoToFood(target), last_trail: self.last_trail }, None)
                    },
                    None => {
                        let state = if distance2(pos, toward) < radius2(EXPLORATION) {
                            WorkerState::Wander(next_wander(pos, dir, drawn))
                        } else {
                            WorkerState::Wander(toward)
                        };
                        (WorkerPlan { state, last_trail: self.last_trail }, None)
                    },
                }
            },
            WorkerState::GoToFood(target) => {
                match food.get(target) {
                    None => (
                        WorkerPlan { state: WorkerState::Wander(target), last_trail: self.last_trail },
                        None,
                    ),
                    Some(_) => {
                        proof {
                            let k = choose|k: int| #[trigger] food@.first_at(target, k);
                            assert(!food@.none_at(target));
                        }
                        if distance2(target, pos) < radius2(TRAIL_SEP) {
                            (
                                WorkerPlan {
                                    state: WorkerState::GoToHome(vector(pos, self.last_trail)),
                                    last_trail: self.last_trail,
                                },
                                Some(Dispatch::new(Some(target), Signal::ConsumeFood, 0)),
                            )
                        } else {
                            (*self, None)
                        }
                    },
                }
            },
            WorkerState::GoToHome(heading) => {
                let state = if homeward.0 != heading.0 || homeward.1 != heading.1 {
                    WorkerState::GoToHome(homeward)
                } else {
                    WorkerState::Wander(shift(pos, heading))
                };
                (WorkerPlan { state, last_trail: self.last_trail }, None)
            },
        }
    }

    /// The next plan of a worker, with a fresh random vector for the case
    /// that it picks a new place to wander to. What holds of the result
    /// holds for some vector in the square from `-UNIT` to `UNIT`.
    pub fn next_plan<F: Griddable>(&self, pos: Point, dir: Point, food: &Grid<F>, homeward: Point) -> (out: (
        WorkerPlan,
        Option<Dispatch>,
    ))
        requires
            food.wf(),
        ensures
            exists|drawn: Point| #[trigger]
                self.decides(pos, food@, drawn, dir, homeward, out.0, out.1) && -UNIT <= drawn.0 <= UNIT
                    && -UNIT <= drawn.1 <= UNIT,
    {
        let drawn = rand_in2d(-UNIT, UNIT);
        self.decide(pos, dir, food, drawn, homeward)
    }

    /// Where the worker wants to go from `pos`, as a vector, and what its
    /// trails point to.
    pub open spec fn wants(self, pos: Point) -> (Point, Pheromone) {
        match self.state {
            WorkerState::Wander(toward) => (offset(pos, toward), Pheromone::ToHome),
            WorkerState::GoToFood(target) => (offset(pos, target), Pheromone::ToHome),
            WorkerState::GoToHome(heading) => (heading, Pheromone::ToFood),
        }
    }

    /// Whether a worker at `pos` leaves a trail: it is more than `TRAIL_SEP`
    /// from its latest one.
    pub open spec fn leaves_trail(self, pos: Point) -> bool {
        dist2(pos, self.last_trail) > TRAIL_SEP * TRAIL_SEP
    }

    /// The way to go for a worker at `pos` heading in direction `dir`, and
    /// the trail that it leaves there, if it has come far enough from the
    /// latest.
    pub fn action(&mut self, pos: Point, dir: Point) -> (out: (Point, Option<Trail>))
        ensures
            final(self).state == old(self).state,
            out.0 == old(self).wants(pos).0,
            old(self).leaves_trail(pos) ==> final(self).last_trail == pos && out.1 == Some(
                Trail::new_trail(pos, dir, old(self).wants(pos).1),
            ),
            !old(self).leaves_trail(pos) ==> final(self).last_trail == old(self).last_trail && out.1 is None,
    {
        let (way, pheromone) = match self.state {
            WorkerState::Wander(toward) => (vector(pos, toward), Pheromone::ToHome),
            WorkerState::GoToFood(target) => (vector(pos, target), Pheromone::ToHome),
            WorkerState::GoToHome(heading) => (heading, Pheromone::ToFood),
        };
        let trail = if distance2(pos, self.last_trail) > radius2(TRAIL_SEP) {
            self.last_trail = pos;
            Some(Trail::new(pos, dir, pheromone))
        } else {
            None
        };
        (way, trail)
    }

    /// The picture of a worker.
    pub fn texture(&self) -> (texture: Texture)
        ensures
            texture == Texture::Ant,
    {
        Texture::Ant
    }
}

/// The plan of the queen: she wanders.
#[derive(Clone, Copy, Debug, PartialEq, Eq)]
pub enum QueenPlan {
    Wander(Point),
}

impl QueenPlan {
    /// The plan of a queen that starts at `pos` heading in direction `dir`.
    pub fn spawn(pos: Point, dir: Point) -> (plan: Self)
        ensures
            plan == QueenPlan::Wander(shifted(pos, dir)),
    {
        QueenPlan::Wander(shift(pos, dir))
    }

    /// The queen's next plan: a new place once she has come within
    /// `EXPLORATION` of the old one, else the old one.
    pub open spec fn decided(self, pos: Point, dir: Point, drawn: Point) -> QueenPlan {
        let QueenPlan::Wander(toward) = self;
        if dist2(pos, toward) < EXPLORATION * EXPLORATION {
            QueenPlan::Wander(wander_target(pos, dir, drawn))
        } else {
            self
        }
    }

    /// The next plan of a queen at `pos` heading in direction `dir` that
    /// drew the random vector `drawn`.
    pub fn decide(&self, pos: Point, dir: Point, drawn: Point) -> (next: QueenPlan)
        ensures
            next == self.decided(pos, dir, drawn),
    {
        match *self {
            QueenPlan::Wander(toward) => {
                if distance2(pos, toward) < radius2(EXPLORATION) {
                    QueenPlan::Wander(next_wander(pos, dir, drawn))
                } else {
                    *self
                }
            },
        }
    }

    /// The next plan of a queen, with a fresh random vector.
    pub fn next_plan(&self, pos: Point, dir: Point) -> (next: QueenPlan)
        ensures
            exists|drawn: Point| #[trigger]
                self.decided(pos, dir, drawn) == next && -UNIT <= drawn.0 <= UNIT && -UNIT <= drawn.1 <= UNIT,
    {
        let drawn = rand_in2d(-UNIT, UNIT);
        let next = self.decide(pos, dir, drawn);
        proof {
            assert(self.decided(pos, dir, drawn) == next);
        }
        next
    }

    /// The way to go for a queen at `pos`, and the plan of the worker that
    /// she bears now: one that starts where she is, heading in direction
    /// `heading`, at the edge of a click on the key.
    pub fn action(&self, pos: Point, key: ButtonState, heading: Point) -> (out: (Point, Option<WorkerPlan>))
        ensures
            self matches QueenPlan::Wander(toward) && out.0 == toward,
            out.1 == (if key == ButtonState::Clicked {
                Some(WorkerPlan { state: WorkerState::Wander(shifted(pos, heading)), last_trail: pos })
            } else {
                None::<WorkerPlan>
            }),
    {
        match *self {
            QueenPlan::Wander(toward) => {
                let born = if key == ButtonState::Clicked {
                    Some(WorkerPlan::spawn(pos, heading))
                } else {
                    None
                };
                (toward, born)
            },
        }
    }

    /// The picture of a queen.
    pub fn texture(&self) -> (texture: Texture)
        ensures
            texture == Texture::Queen,
    {
        Texture::Queen
    }
}

} // verus!
