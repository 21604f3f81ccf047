use colony::ui::ButtonState;

#[test]
fn new_button_marks_the_edge() {
    assert_eq!(ButtonState::new(true), ButtonState::Clicked);
    assert_eq!(ButtonState::new(false), ButtonState::Released);
}

#[test]
fn button_walks_through_click_hold_release() {
    let mut b = ButtonState::Up;
    b.update(true);
    assert_eq!(b, ButtonState::Clicked);
    assert!(b.is_down());
    b.update(true);
    assert_eq!(b, ButtonState::Down);
    b.update(true);
    assert_eq!(b, ButtonState::Down);
    b.update(false);
    assert_eq!(b, ButtonState::Released);
    assert!(!b.is_down());
    b.update(false);
    assert_eq!(b, ButtonState::Up);
    b.update(false);
    assert_eq!(b, ButtonState::Up);
}

#[test]
fn click_released_at_once() {
    let mut b = ButtonState::new(true);
    b.update(false);
    assert_eq!(b, ButtonState::Released);
    b.update(true);
    assert_eq!(b, ButtonState::Clicked);
}
