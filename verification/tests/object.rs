use colony::object::{within_reach, Camera, External, Instance, MouseButton, Texture, TextureType};
use colony::ui::ButtonState;

fn at(x: i32, y: i32, half: u32) -> Instance {
    Instance {
        color_tint: (255, 255, 255, 255),
        texture: Texture::Flat,
        scale: (half, half),
        position: (x, y),
        rotation: 0,
        screen_relative: false,
    }
}

fn world() -> External {
    let mut external = External::new((800, 400), 0);
    external.camera = Camera { pos: (0, 0), scale: 100 };
    external
}

#[test]
fn textures_are_listed_once_each() {
    assert_eq!(Texture::list(), vec![Texture::Ant, Texture::Swirl, Texture::Flat, Texture::Queen]);
    assert_eq!(Texture::Ant.name(), "Ant");
    assert_eq!(Texture::Swirl.name(), "Swirl");
    assert_eq!(Texture::Flat.name(), "Flat");
    assert_eq!(Texture::Queen.name(), "Queen");
    assert_eq!(Texture::Queen.frame_count(), 1);
}

#[test]
fn plain_instance_is_white_and_of_size_one() {
    let plain = world().instance(Texture::Swirl);
    assert_eq!(plain.texture, Texture::Swirl);
    assert_eq!(plain.color_tint, (255, 255, 255, 255));
    assert_eq!(plain.scale, (1, 1));
    assert_eq!(plain.position, (0, 0));
    assert_eq!(plain.rotation, 0);
    assert!(!plain.screen_relative);
}

#[test]
fn scaling_multiplies_and_saturates() {
    let i = at(0, 0, 3).scale2(2, 5);
    assert_eq!(i.scale, (6, 15));
    assert_eq!(at(0, 0, 3).scale(4).scale, (12, 12));
    assert_eq!(at(0, 0, u32::MAX).scale(2).scale, (u32::MAX, u32::MAX));
    assert_eq!(at(7, 8, 3).scale(0).position, (7, 8));
}

#[test]
fn view_reaches_scale_up_and_scale_times_aspect_sideways() {
    let external = world();
    // the view is 400 wide and 200 high around the origin
    assert!(external.point_in_view((199, 99)));
    assert!(!external.point_in_view((200, 0)));
    assert!(!external.point_in_view((0, 100)));
    assert!(external.point_in_view((-199, -99)));
    assert!(!external.point_in_view((-200, -99)));
}

#[test]
fn instance_shows_when_its_diagonal_reaches_the_view() {
    let external = world();
    // half sides 3 and 4: the diagonal is 5
    let mut i = at(204, 0, 0);
    i.scale = (3, 4);
    assert!(external.visible(i));
    i.position = (205, 0);
    assert!(!external.visible(i));
    i.position = (0, 104);
    assert!(external.visible(i));
    i.position = (0, 105);
    assert!(!external.visible(i));
    i.screen_relative = true;
    assert!(external.visible(i));
}

#[test]
fn clip_appends_what_shows() {
    let external = world();
    let mut out = Vec::new();
    external.clip(&mut out, at(0, 0, 1));
    external.clip(&mut out, at(5000, 0, 1));
    external.clip(&mut out, at(10, 10, 1));
    assert_eq!(out.len(), 2);
    assert_eq!(out[1].position, (10, 10));
}

#[test]
fn window_without_height_shows_all_that_is_level() {
    let mut external = world();
    external.win_size = (800, 0);
    assert!(external.point_in_view((1_000_000, 0)));
    assert!(!external.point_in_view((0, 100)));
    external.win_size = (0, 0);
    assert!(!external.point_in_view((0, 0)));
}

#[test]
fn reach_compares_without_rounding() {
    // the view reaches 2 * 3 / 2 = 3: a gap of 3 is outside, unless there is a size
    assert!(within_reach(2, 2, 3, 2, 0));
    assert!(!within_reach(3, 2, 3, 2, 0));
    assert!(within_reach(3, 2, 3, 2, 1));
    assert!(!within_reach(4, 2, 3, 2, 1));
    assert!(within_reach(4, 2, 3, 2, 2));
    assert!(within_reach(u32::MAX as u64, u32::MAX, u16::MAX, 1, 0));
    assert!(!within_reach(u32::MAX as u64, 0, 0, u16::MAX, 0));
}

#[test]
fn key_starts_at_its_edge_and_advances() {
    let mut external = world();
    assert_eq!(external.key(30), ButtonState::Up);
    external.capture_key(30, true);
    assert_eq!(external.key(30), ButtonState::Clicked);
    external.capture_key(30, true);
    assert_eq!(external.key(30), ButtonState::Down);
    external.capture_key(31, false);
    assert_eq!(external.key(31), ButtonState::Released);
    assert_eq!(external.key(30), ButtonState::Down);
    external.capture_key(30, false);
    assert_eq!(external.key(30), ButtonState::Released);
    assert_eq!(external.keymap.len(), 2);
}

#[test]
fn update_turns_clicks_into_holds_and_releases_into_rest() {
    let mut external = world();
    external.capture_key(1, true);
    external.capture_key(2, false);
    external.mouse_button(MouseButton::Left, true);
    external.mouse_button(MouseButton::Right, false);
    external.mouse_button(MouseButton::Other, true);
    assert_eq!(external.left_mouse, ButtonState::Clicked);
    assert_eq!(external.right_mouse, ButtonState::Up);
    external.update(250);
    assert_eq!(external.now, 250);
    assert_eq!(external.delta, 250);
    assert_eq!(external.key(1), ButtonState::Down);
    assert_eq!(external.key(2), ButtonState::Up);
    assert_eq!(external.left_mouse, ButtonState::Down);
    external.update(1000);
    assert_eq!(external.delta, 750);
    external.update(900);
    assert_eq!(external.delta, 0);
    assert_eq!(external.now, 900);
}

#[test]
fn mouse_release_is_seen_for_one_sample() {
    let mut external = world();
    external.mouse_button(MouseButton::Right, true);
    external.update_mouse();
    assert_eq!(external.right_mouse, ButtonState::Down);
    external.mouse_button(MouseButton::Right, false);
    assert_eq!(external.right_mouse, ButtonState::Released);
    external.update_mouse();
    assert_eq!(external.right_mouse, ButtonState::Up);
}
