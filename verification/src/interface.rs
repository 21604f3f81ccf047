//! Drawing trails by hand: while the left button is held, the pointer leaves
//! a trail behind it that leads back to where it came from.

use crate::object::External;
use crate::pheromones::{Pheromone, Trail, FULL_STRENGTH};
use crate::plans::TRAIL_SEP;
use crate::space::{dist2, distance2, is_direction, radius2, unit_toward, Point};
use crate::ui::ButtonState;
use vstd::prelude::*;

verus! {

/// The pointer's memory: where it left its latest trail.
#[derive(Clone, Copy, Debug)]
pub struct Interface {
    pub last_trail: Option<Point>,
}

impl Interface {
    /// An interface that has not drawn yet.
    pub fn new() -> (interface: Self)
        ensures
            interface.last_trail is None,
    {
        Interface { last_trail: None }
    }

    /// Whether the pointer at `pos` leaves a trail now: the button is held
    /// since an earlier sample, there is an earlier place, `pos` lies in the
    /// view, and it is more than `TRAIL_SEP` from the earlier place.
    pub open spec fn draws(&self, external: &External, pos: Point) -> bool {
        &&& external.left_mouse == ButtonState::Down
        &&& self.last_trail matches Some(last)
        &&& external.sees(External::dot(pos))
        &&& dist2(pos, last) > TRAIL_SEP * TRAIL_SEP
    }

    /// One tick of drawing, with the pointer at the place `pos` of the world.
    /// At the edge of a click the place is remembered. While the button is
    /// held, a trail is left at `pos` whenever it has come far enough from
    /// the remembered place; the trail points back to that place, and `pos`
    /// is remembered in its stead.
    pub fn update(&mut self, external: &External, pos: Point) -> (trail: Option<Trail>)
        ensures
            external.left_mouse == ButtonState::Clicked ==> final(self).last_trail == Some(pos) && trail is None,
            old(self).draws(external, pos) ==> final(self).last_trail == Some(pos) && (trail matches Some(t)
                && t.pos == pos && t.ty == Pheromone::ToHome && t.start == FULL_STRENGTH && t.age == 0
                && is_direction(pos, old(self).last_trail->0, t.dir)),
            external.left_mouse != ButtonState::Clicked && !old(self).draws(external, pos) ==> trail is None
                && final(self).last_trail == old(self).last_trail,
    {
        match external.left_mouse {
            ButtonState::Clicked => {
                self.last_trail = Some(pos);
                None
            },
            ButtonState::Down => {
                match self.last_trail {
                    Some(last) => {
                        if external.point_in_view(pos) && distance2(pos, last) > radius2(TRAIL_SEP) {
                            self.last_trail = Some(pos);
                            Some(Trail::new(pos, unit_toward(pos, last), Pheromone::ToHome))
                        } else {
                            None
                        }
                    },
                    None => None,
                }
            },
            _ => None,
        }
    }
}

} // verus!
