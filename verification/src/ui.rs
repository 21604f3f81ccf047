//! Edge-aware state of a key or mouse button.

use vstd::prelude::*;

verus! {

/// The state of a button as seen once per sample.
///
/// `Clicked` and `Released` last for exactly one sample: they mark the sample at
/// which the button went down or came up.
#[derive(Clone, Copy, Debug, PartialEq, Eq, Structural)]
pub enum ButtonState {
    Up,
    Clicked,
    Down,
    Released,
}

impl ButtonState {
    /// Whether the button is held in this state.
    pub open spec fn held(self) -> bool {
        self == ButtonState::Clicked || self == ButtonState::Down
    }

    /// The state that follows `self` when the next sample reads `down`.
    pub open spec fn next(self, down: bool) -> ButtonState {
        if down {
            if self.held() {
                ButtonState::Down
            } else {
                ButtonState::Clicked
            }
        } else {
            if self.held() {
                ButtonState::Released
            } else {
                ButtonState::Up
            }
        }
    }

    /// The state of a button first seen at a sample that reads `down`.
    pub open spec fn new_state(down: bool) -> ButtonState {
        if down {
            ButtonState::Clicked
        } else {
            ButtonState::Released
        }
    }

    /// The state of a button first seen at a sample that reads `down`.
    pub fn new(down: bool) -> (state: ButtonState)
        ensures
            state == ButtonState::new_state(down),
            state.held() == down,
    {
        if down {
            ButtonState::Clicked
        } else {
            ButtonState::Released
        }
    }

    /// Advances the state by one sample that reads `down`.
    pub fn update(&mut self, down: bool)
        ensures
            *final(self) == old(self).next(down),
            final(self).held() == down,
    {
        match *self {
            ButtonState::Up | ButtonState::Released => {
                if down {
                    *self = ButtonState::Clicked;
                } else {
                    *self = ButtonState::Up;
                }
            },
            ButtonState::Clicked | ButtonState::Down => {
                if down {
                    *self = ButtonState::Down;
                } else {
                    *self = ButtonState::Released;
                }
            },
        }
    }

    /// Whether the button is held.
    pub fn is_down(&self) -> (down: bool)
        ensures
            down == self.held(),
    {
        match *self {
            ButtonState::Up | ButtonState::Released => false,
            ButtonState::Clicked | ButtonState::Down => true,
        }
    }
}

} // verus!
