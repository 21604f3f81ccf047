//! The lifecycle that every object of the simulation follows, and what it
//! sees of the outside world.
//!
//! One tick runs four steps. `plan` reads the scene and the outside world
//! and decides; it changes nothing, so any number of objects may plan at the
//! same time. `adopt` hands the decision back to the object. `update` is the
//! one step that changes the object, and may return an action for its owner
//! to carry out on another population. `render` appends what is to be
//! drawn. `cleanup` is called now and then, and never has to be.

use crate::messenger::{Dispatch, Messenger};
use crate::space::Point;
use crate::ui::ButtonState;
use std::sync::mpsc::Sender;
use vstd::prelude::*;

verus! {

/// The number of clock ticks in one second.
pub const TICKS_PER_SECOND: u64 = 1_000_000;

/// Where the view is centred, and how far it reaches up and down from there.
#[derive(Clone, Copy, Debug)]
pub struct Camera {
    pub pos: Point,
    pub scale: u32,
}

/// The logical name of a picture.
#[derive(Clone, Copy, Debug, PartialEq, Eq, Structural, Hash)]
pub enum Texture {
    Ant,
    Swirl,
    Flat,
    Queen,
}

/// What a renderer needs to know of a set of pictures.
pub trait TextureType: Sized {
    /// Every picture of the set, each once.
    fn list() -> Vec<Self>;

    /// The name of the picture's file.
    fn name(&self) -> &'static str;

    /// The number of animation frames of the picture.
    fn frame_count(&self) -> u32;
}

impl TextureType for Texture {
    fn list() -> (all: Vec<Self>)
        ensures
            all@ == seq![Texture::Ant, Texture::Swirl, Texture::Flat, Texture::Queen],
    {
        vec![Texture::Ant, Texture::Swirl, Texture::Flat, Texture::Queen]
    }

    fn name(&self) -> (name: &'static str)
        ensures
            name == (match *self {
                Texture::Ant => "Ant",
                Texture::Swirl => "Swirl",
                Texture::Flat => "Flat",
                Texture::Queen => "Queen",
            }),
    {
        match *self {
            Texture::Ant => "Ant",
            Texture::Swirl => "Swirl",
            Texture::Flat => "Flat",
            Texture::Queen => "Queen",
        }
    }

    fn frame_count(&self) -> (frames: u32)
        ensures
            frames == 1,
    {
        1
    }
}

/// One thing to draw.
#[derive(Clone, Copy, Debug)]
pub struct Instance {
    /// Red, green, blue and opacity.
    pub color_tint: (u8, u8, u8, u8),
    /// The picture.
    pub texture: Texture,
    /// Half the width and half the height, in world units.
    pub scale: (u32, u32),
    /// The centre, in world units.
    pub position: Point,
    /// The rotation, in thousandths of a degree.
    pub rotation: i32,
    /// Whether the position is relative to the screen instead of the world.
    pub screen_relative: bool,
}

impl Instance {
    /// The instance with both sides scaled by `r`, saturating.
    pub fn scale(self, r: u32) -> (scaled: Self)
        ensures
            scaled == self.scaled2(r, r),
    {
        self.scale2(r, r)
    }

    /// The instance with the width scaled by `x` and the height by `y`. A
    /// side that would pass `u32::MAX` stays there.
    pub open spec fn scaled2(self, x: u32, y: u32) -> Self {
        Instance {
            scale: (
                if x * self.scale.0 > u32::MAX { u32::MAX } else { (x * self.scale.0) as u32 },
                if y * self.scale.1 > u32::MAX { u32::MAX } else { (y * self.scale.1) as u32 },
            ),
            ..self
        }
    }

    /// The instance with the width scaled by `x` and the height by `y`,
    /// saturating.
    pub fn scale2(self, x: u32, y: u32) -> (scaled: Self)
        ensures
            scaled == self.scaled2(x, y),
    {
        proof {
            assert(x * self.scale.0 <= u64::MAX && y * self.scale.1 <= u64::MAX) by (nonlinear_arith)
                requires
                    0 <= x <= u32::MAX,
                    0 <= y <= u32::MAX,
                    0 <= self.scale.0 <= u32::MAX,
                    0 <= self.scale.1 <= u32::MAX,
            ;
        }
        let w: u64 = (x as u64) * (self.scale.0 as u64);
        let h: u64 = (y as u64) * (self.scale.1 as u64);
        Instance {
            scale: (
                if w > u32::MAX as u64 { u32::MAX } else { w as u32 },
                if h > u32::MAX as u64 { u32::MAX } else { h as u32 },
            ),
            ..self
        }
    }
}

/// Whether a length `gap` along an axis on which the view reaches
/// `scale * num / den` from its centre stays below that reach plus the
/// length whose square is `size2`.
pub open spec fn in_reach(gap: int, scale: int, num: int, den: int, size2: int) -> bool {
    let a = den * gap - scale * num;
    a < 0 || a * a < den * den * size2
}

/// What an object sees of the outside world at one tick.
pub struct External {
    /// How far the wheel has turned.
    pub scroll: i32,
    /// Where the pointer is.
    pub mouse_pos: Point,
    pub left_mouse: ButtonState,
    pub right_mouse: ButtonState,
    /// The state of each key that was seen, by key code.
    pub keymap: Vec<(u32, ButtonState)>,
    /// Width and height of the window, in pixels.
    pub win_size: (u16, u16),
    pub camera: Camera,
    /// The time of this tick.
    pub now: u64,
    /// The ticks since the previous tick.
    pub delta: u64,
}

/// The buttons of a mouse.
#[derive(Clone, Copy, Debug, PartialEq, Eq, Structural)]
pub enum MouseButton {
    Left,
    Right,
    Other,
}

/// The state that `keys` records for `code`, looking at the first `n` entries;
/// `Up` if there is none.
pub open spec fn key_state(keys: Seq<(u32, ButtonState)>, code: u32, n: int) -> ButtonState
    decreases n,
{
    if n <= 0 {
        ButtonState::Up
    } else if keys[n - 1].0 == code {
        keys[n - 1].1
    } else {
        key_state(keys, code, n - 1)
    }
}

impl External {
    /// A world at time `now` with nothing pressed and the view centred on the
    /// origin.
    pub fn new(win_size: (u16, u16), now: u64) -> (external: Self)
        ensures
            external.now == now,
            external.delta == 0,
            external.win_size == win_size,
            external.keymap@.len() == 0,
            external.left_mouse == ButtonState::Up,
            external.right_mouse == ButtonState::Up,
    {
        External {
            scroll: 0,
            mouse_pos: (0, 0),
            left_mouse: ButtonState::Up,
            right_mouse: ButtonState::Up,
            keymap: Vec::new(),
            win_size,
            camera: Camera { pos: (0, 0), scale: 256 },
            now,
            delta: 0,
        }
    }

    /// The plain instance of `texture`: white, of size one, at the origin,
    /// not rotated, in world coordinates.
    pub open spec fn plain(texture: Texture) -> Instance {
        Instance {
            color_tint: (255, 255, 255, 255),
            texture,
            scale: (1, 1),
            position: (0, 0),
            rotation: 0,
            screen_relative: false,
        }
    }

    /// The plain instance of `texture`, for an object to place and colour.
    pub fn instance(&self, texture: Texture) -> (instance: Instance)
        ensures
            instance == External::plain(texture),
    {
        Instance {
            color_tint: (255, 255, 255, 255),
            texture,
            scale: (1, 1),
            position: (0, 0),
            rotation: 0,
            screen_relative: false,
        }
    }

    /// Whether `instance` may show in the view. An instance relative to the
    /// screen always may. Another one may if, along both axes, its centre is
    /// closer to the view's centre than half the view plus the instance's
    /// diagonal; the view reaches `camera.scale` up and down, and
    /// `camera.scale` times width over height to the sides.
    pub open spec fn sees(&self, instance: Instance) -> bool {
        let size2 = instance.scale.0 * instance.scale.0 + instance.scale.1 * instance.scale.1;
        let gap_x = if instance.position.0 >= self.camera.pos.0 {
            instance.position.0 - self.camera.pos.0
        } else {
            self.camera.pos.0 - instance.position.0
        };
        let gap_y = if instance.position.1 >= self.camera.pos.1 {
            instance.position.1 - self.camera.pos.1
        } else {
            self.camera.pos.1 - instance.position.1
        };
        instance.screen_relative || (in_reach(
            gap_x,
            self.camera.scale as int,
            self.win_size.0 as int,
            self.win_size.1 as int,
            size2,
        ) && in_reach(gap_y, self.camera.scale as int, 1, 1, size2))
    }

    /// Whether `instance` may show in the view.
    pub fn visible(&self, instance: Instance) -> (seen: bool)
        ensures
            seen == self.sees(instance),
    {
        if instance.screen_relative {
            return true;
        }
        let sx: u128 = instance.scale.0 as u128;
        let sy: u128 = instance.scale.1 as u128;
        proof {
            assert(sx * sx <= 0xffff_ffff * 0xffff_ffff && sy * sy <= 0xffff_ffff * 0xffff_ffff)
                by (nonlinear_arith)
                requires
                    0 <= sx <= 0xffff_ffff,
                    0 <= sy <= 0xffff_ffff,
            ;
        }
        let size2: u128 = sx * sx + sy * sy;
        let gap_x: u64 = if instance.position.0 >= self.camera.pos.0 {
            (instance.position.0 as i64 - self.camera.pos.0 as i64) as u64
        } else {
            (self.camera.pos.0 as i64 - instance.position.0 as i64) as u64
        };
        let gap_y: u64 = if instance.position.1 >= self.camera.pos.1 {
            (instance.position.1 as i64 - self.camera.pos.1 as i64) as u64
        } else {
            (self.camera.pos.1 as i64 - instance.position.1 as i64) as u64
        };
        within_reach(gap_x, self.camera.scale, self.win_size.0, self.win_size.1, size2) && within_reach(
            gap_y,
            self.camera.scale,
            1,
            1,
            size2,
        )
    }

    /// Appends `instance` to `out` if it may show in the view.
    pub fn clip(&self, out: &mut Vec<Instance>, instance: Instance)
        ensures
            final(out)@ == (if self.sees(instance) {
                old(out)@.push(instance)
            } else {
                old(out)@
            }),
    {
        if self.visible(instance) {
            out.push(instance);
        }
    }

    /// An instance without size at `p`.
    pub open spec fn dot(p: Point) -> Instance {
        Instance {
            color_tint: (0, 0, 0, 0),
            texture: Texture::Flat,
            scale: (0, 0),
            position: p,
            rotation: 0,
            screen_relative: false,
        }
    }

    /// Whether `p` lies in the view.
    pub fn point_in_view(&self, p: Point) -> (inside: bool)
        ensures
            inside == self.sees(External::dot(p)),
    {
        self.visible(
            Instance {
                color_tint: (0, 0, 0, 0),
                texture: Texture::Flat,
                scale: (0, 0),
                position: p,
                rotation: 0,
                screen_relative: false,
            },
        )
    }

    /// The state of the key with code `code`; `Up` if the key was never seen.
    /// Of several entries for one code the latest counts.
    pub fn key(&self, code: u32) -> (state: ButtonState)
        ensures
            state == key_state(self.keymap@, code, self.keymap@.len() as int),
    {
        let mut n: usize = self.keymap.len();
        while n > 0
            invariant
                0 <= n <= self.keymap.len(),
                key_state(self.keymap@, code, self.keymap@.len() as int) == key_state(
                    self.keymap@,
                    code,
                    n as int,
                ),
            decreases n,
        {
            if self.keymap[n - 1].0 == code {
                return self.keymap[n - 1].1;
            }
            n -= 1;
        }
        ButtonState::Up
    }

    /// Records that the key with code `code` reads `down`: a key seen before
    /// advances by one sample, a new key starts at its edge.
    pub fn capture_key(&mut self, code: u32, down: bool)
        ensures
            final(self).now == old(self).now,
            final(self).delta == old(self).delta,
            final(self).key_after(code) == (if old(self).knows(code) {
                old(self).key_after(code).next(down)
            } else {
                ButtonState::new_state(down)
            }),
            forall|other: u32| other != code ==> final(self).key_after(other) == old(self).key_after(other),
    {
        let mut n: usize = self.keymap.len();
        while n > 0
            invariant
                0 <= n <= self.keymap.len(),
                *self == *old(self),
                forall|j: int| n <= j < self.keymap@.len() ==> self.keymap@[j].0 != code,
            decreases n,
        {
            if self.keymap[n - 1].0 == code {
                let mut state = self.keymap[n - 1].1;
                state.update(down);
                let ghost before = self.keymap@;
                self.keymap[n - 1] = (code, state);
                proof {
                    lemma_key_state_update(before, (n - 1) as int, code, state);
                    lemma_key_state_found(before, code, (n - 1) as int);
                    assert(old(self).knows(code));
                }
                return ;
            }
            n -= 1;
        }
        let ghost before = self.keymap@;
        self.keymap.push((code, ButtonState::new(down)));
        proof {
            lemma_key_state_absent(before, code);
            assert forall|other: u32| other != code implies key_state(
                self.keymap@,
                other,
                self.keymap@.len() as int,
            ) == key_state(before, other, before.len() as int) by {
                lemma_key_state_prefix(self.keymap@, before, other, before.len() as int);
            }
        }
    }

    /// Whether the key with code `code` was seen.
    pub open spec fn knows(&self, code: u32) -> bool {
        exists|j: int| 0 <= j < self.keymap@.len() && (#[trigger] self.keymap@[j]).0 == code
    }

    /// The state recorded for the key with code `code`.
    pub open spec fn key_after(&self, code: u32) -> ButtonState {
        key_state(self.keymap@, code, self.keymap@.len() as int)
    }

    /// Records that `button` reads `down`.
    pub fn mouse_button(&mut self, button: MouseButton, down: bool)
        ensures
            final(self).left_mouse == (if button == MouseButton::Left {
                old(self).left_mouse.next(down)
            } else {
                old(self).left_mouse
            }),
            final(self).right_mouse == (if button == MouseButton::Right {
                old(self).right_mouse.next(down)
            } else {
                old(self).right_mouse
            }),
            final(self).keymap == old(self).keymap,
            final(self).now == old(self).now,
            final(self).delta == old(self).delta,
    {
        match button {
            MouseButton::Left => self.left_mouse.update(down),
            MouseButton::Right => self.right_mouse.update(down),
            MouseButton::Other => {},
        }
    }

    /// Advances both mouse buttons by one sample in which nothing changed.
    pub fn update_mouse(&mut self)
        ensures
            final(self).left_mouse == old(self).left_mouse.next(old(self).left_mouse.held()),
            final(self).right_mouse == old(self).right_mouse.next(old(self).right_mouse.held()),
            final(self).keymap == old(self).keymap,
            final(self).now == old(self).now,
            final(self).delta == old(self).delta,
    {
        let left = self.left_mouse.is_down();
        self.left_mouse.update(left);
        let right = self.right_mouse.is_down();
        self.right_mouse.update(right);
    }

    /// Moves the clock to `now` and advances every button and key by one
    /// sample in which nothing changed, so that a click turns into a hold and
    /// a release into rest. `delta` becomes the ticks since the previous
    /// time, and zero if the clock did not move forward.
    pub fn update(&mut self, now: u64)
        ensures
            final(self).now == now,
            final(self).delta == (if now >= old(self).now { now - old(self).now } else { 0 }),
            final(self).left_mouse == old(self).left_mouse.next(old(self).left_mouse.held()),
            final(self).right_mouse == old(self).right_mouse.next(old(self).right_mouse.held()),
            final(self).keymap@.len() == old(self).keymap@.len(),
            forall|j: int| 0 <= j < old(self).keymap@.len() ==> (#[trigger] final(self).keymap@[j]) == (
                old(self).keymap@[j].0,
                old(self).keymap@[j].1.next(old(self).keymap@[j].1.held()),
            ),
    {
        self.delta = if now >= self.now { now - self.now } else { 0 };
        self.now = now;
        self.update_mouse();
        let mut n: usize = 0;
        while n < self.keymap.len()
            invariant
                0 <= n <= self.keymap.len(),
                self.keymap@.len() == old(self).keymap@.len(),
                self.now == now,
                self.delta == (if now >= old(self).now { now - old(self).now } else { 0 }),
                self.left_mouse == old(self).left_mouse.next(old(self).left_mouse.held()),
                self.right_mouse == old(self).right_mouse.next(old(self).right_mouse.held()),
                forall|j: int| 0 <= j < n ==> (#[trigger] self.keymap@[j]) == (
                    old(self).keymap@[j].0,
                    old(self).keymap@[j].1.next(old(self).keymap@[j].1.held()),
                ),
                forall|j: int| n <= j < self.keymap@.len() ==> (#[trigger] self.keymap@[j]) == old(
                    self,
                ).keymap@[j],
            decreases self.keymap.len() - n,
        {
            let (code, mut state) = self.keymap[n];
            let held = state.is_down();
            state.update(held);
            self.keymap[n] = (code, state);
            n += 1;
        }
    }
}

/// Writing over entry `at`, which is for `code`, changes what is recorded for
/// `code` if no later entry is for it, and nothing else.
pub proof fn lemma_key_state_update(keys: Seq<(u32, ButtonState)>, at: int, code: u32, state: ButtonState)
    requires
        0 <= at < keys.len(),
        keys[at].0 == code,
        forall|j: int| at < j < keys.len() ==> keys[j].0 != code,
    ensures
        key_state(keys.update(at, (code, state)), code, keys.len() as int) == state,
        forall|other: u32| other != code ==> key_state(
            keys.update(at, (code, state)),
            other,
            keys.len() as int,
        ) == key_state(keys, other, keys.len() as int),
{
    let after = keys.update(at, (code, state));
    lemma_key_state_skip(after, code, at + 1, keys.len() as int);
    assert forall|other: u32| other != code implies key_state(after, other, keys.len() as int) == key_state(
        keys,
        other,
        keys.len() as int,
    ) by {
        lemma_key_state_same(after, keys, other, keys.len() as int);
    }
}

/// Entries above `lo` that are not for `code` do not count.
pub proof fn lemma_key_state_skip(keys: Seq<(u32, ButtonState)>, code: u32, lo: int, n: int)
    requires
        0 <= lo <= n <= keys.len(),
        forall|j: int| lo <= j < n ==> keys[j].0 != code,
    ensures
        key_state(keys, code, n) == key_state(keys, code, lo),
    decreases n - lo,
{
    if lo < n {
        lemma_key_state_skip(keys, code, lo, n - 1);
    }
}

/// Two tables that agree on every entry for `code` record the same for it.
pub proof fn lemma_key_state_same(a: Seq<(u32, ButtonState)>, b: Seq<(u32, ButtonState)>, code: u32, n: int)
    requires
        0 <= n <= a.len(),
        n <= b.len(),
        forall|j: int| 0 <= j < n ==> (a[j].0 == code || b[j].0 == code) ==> a[j] == b[j],
    ensures
        key_state(a, code, n) == key_state(b, code, n),
    decreases n,
{
    if n > 0 {
        lemma_key_state_same(a, b, code, n - 1);
    }
}

/// If the last entry for `code` is at `at`, that entry is what is recorded.
pub proof fn lemma_key_state_found(keys: Seq<(u32, ButtonState)>, code: u32, at: int)
    requires
        0 <= at < keys.len(),
        keys[at].0 == code,
        forall|j: int| at < j < keys.len() ==> keys[j].0 != code,
    ensures
        key_state(keys, code, keys.len() as int) == keys[at].1,
{
    lemma_key_state_skip(keys, code, at + 1, keys.len() as int);
}

/// A table without an entry for `code` records `Up` for it.
pub proof fn lemma_key_state_absent(keys: Seq<(u32, ButtonState)>, code: u32)
    requires
        forall|j: int| 0 <= j < keys.len() ==> keys[j].0 != code,
    ensures
        key_state(keys, code, keys.len() as int) == ButtonState::Up,
        key_state(keys.push((code, ButtonState::Up)), code, keys.len() as int) == ButtonState::Up,
{
    lemma_key_state_skip(keys, code, 0, keys.len() as int);
    lemma_key_state_skip(keys.push((code, ButtonState::Up)), code, 0, keys.len() as int);
}

/// A longer table records the same as its prefix, as far as the prefix goes.
pub proof fn lemma_key_state_prefix(
    longer: Seq<(u32, ButtonState)>,
    prefix: Seq<(u32, ButtonState)>,
    code: u32,
    n: int,
)
    requires
        0 <= n <= prefix.len() <= longer.len(),
        forall|j: int| 0 <= j < prefix.len() ==> longer[j] == prefix[j],
        forall|j: int| prefix.len() <= j < longer.len() ==> longer[j].0 != code,
    ensures
        key_state(longer, code, longer.len() as int) == key_state(prefix, code, n) || n < prefix.len(),
        key_state(longer, code, n) == key_state(prefix, code, n),
    decreases n,
{
    if n > 0 {
        lemma_key_state_prefix(longer, prefix, code, n - 1);
    }
    if n == prefix.len() {
        lemma_key_state_skip(longer, code, n, longer.len() as int);
    }
}

/// Whether `gap` stays below the view's reach `scale * num / den` plus the
/// length whose square is `size2`.
pub fn within_reach(gap: u64, scale: u32, num: u16, den: u16, size2: u128) -> (inside: bool)
    requires
        gap < 0x1_0000_0000,
        size2 < 0x2_0000_0000_0000_0000,
    ensures
        inside == in_reach(gap as int, scale as int, num as int, den as int, size2 as int),
{
    proof {
        assert(0 <= scale * num < 0x1_0000_0000_0000) by (nonlinear_arith)
            requires
                0 <= scale < 0x1_0000_0000,
                0 <= num < 0x1_0000,
        ;
        assert(0 <= den * gap < 0x1_0000_0000_0000) by (nonlinear_arith)
            requires
                0 <= gap < 0x1_0000_0000,
                0 <= den < 0x1_0000,
        ;
    }
    let reach: u64 = (scale as u64) * (num as u64);
    let span: u64 = (den as u64) * gap;
    if span < reach {
        return true;
    }
    let a: u128 = (span - reach) as u128;
    let d: u128 = den as u128;
    proof {
        assert(a * a < 0x1_0000_0000_0000 * 0x1_0000_0000_0000) by (nonlinear_arith)
            requires
                0 <= a < 0x1_0000_0000_0000,
        ;
        assert(d * d < 0x1_0000_0000) by (nonlinear_arith)
            requires
                0 <= d < 0x1_0000,
        ;
        assert(d * d * size2 < 0x1_0000_0000 * 0x2_0000_0000_0000_0000) by (nonlinear_arith)
            requires
                0 <= d * d < 0x1_0000_0000,
                0 <= size2 < 0x2_0000_0000_0000_0000,
        ;
    }
    a * a < d * d * size2
}

/// Whether `after` is `before` with zero or more instances added at the end.
pub open spec fn appended(before: Seq<Instance>, after: Seq<Instance>) -> bool {
    before.len() <= after.len() && after.subrange(0, before.len() as int) == before
}

/// The lifecycle of an object of the simulation.
pub trait GameObject {
    /// What the object reads while it plans.
    type Scene;

    /// What the object may ask its owner to do after an update.
    type Action;

    /// What the object decides while it plans.
    type Plan;

    /// Decides what to do next. Reads the scene and the outside world, may
    /// send messages, and changes nothing.
    fn plan(&self, scene: &Self::Scene, external: &External, messenger: &Sender<Dispatch>) -> Self::Plan;

    /// Takes over a decision of `plan`.
    fn adopt(&mut self, plan: Self::Plan);

    /// Advances the object by one tick. May read messages from the bus.
    fn update(&mut self, external: &External, messenger: &Messenger) -> Option<Self::Action>
        requires
            messenger.wf(),
    ;

    /// What to draw for an object that draws one thing.
    fn instance(&self, external: &External) -> Option<Instance>;

    /// Appends what to draw to `out`: by default the one instance, if there
    /// is one and it may show in the view.
    fn render(&self, external: &External, out: &mut Vec<Instance>)
        ensures
            appended(old(out)@, final(out)@),
    {
        match self.instance(external) {
            Some(instance) => {
                external.clip(out, instance);
            },
            None => {},
        }
        proof {
            assert(out@.subrange(0, old(out)@.len() as int) =~= old(out)@);
        }
    }

    /// Releases what is no longer needed. Not guaranteed to be called.
    fn cleanup(&mut self);
}

/// Whether `plan` is what `object` may decide in its plan step.
pub open spec fn plans_to<T: GameObject>(
    object: T,
    scene: &T::Scene,
    external: &External,
    messenger: &Sender<Dispatch>,
    plan: T::Plan,
) -> bool {
    call_ensures(T::plan, (&object, scene, external, messenger), plan)
}

/// Whether `instance` is what `object` may show.
pub open spec fn shows<T: GameObject>(object: T, external: &External, instance: Option<Instance>) -> bool {
    call_ensures(T::instance, (&object, external), instance)
}

/// The object at the root of the simulation.
pub trait Root: GameObject<Scene = ()> + Sized {
    /// The pictures that the simulation draws with.
    type Texture: TextureType;

    /// The world at its start, at time `now`.
    fn init(now: u64) -> Self;
}

} // verus!
