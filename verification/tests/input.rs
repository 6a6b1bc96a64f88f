use silk_engine::input::{Input, Mouse};

#[test]
fn input_starts_quiet_and_focused_once() {
    let mut i = Input::new();
    assert!(!i.mouse_down(Mouse::Left));
    assert!(!i.key_down(5));
    assert!(i.focused());
    i.reset();
    assert!(!i.focused());
}

#[test]
fn input_press_then_hold_then_release() {
    let mut i = Input::new();
    i.key_event(10, true);
    assert!(i.key_pressed(10) && i.key_down(10) && !i.key_released(10));
    i.reset();
    assert!(!i.key_pressed(10) && i.key_down(10));
    i.key_event(10, false);
    assert!(i.key_released(10) && !i.key_down(10) && !i.key_pressed(10));
    i.reset();
    assert!(!i.key_released(10) && !i.key_pressed(10));
}

#[test]
fn input_mouse_buttons_and_other_share_left() {
    let mut i = Input::new();
    i.mouse_event(Mouse::Other(7), true);
    assert!(i.mouse_down(Mouse::Left));
    assert!(i.mouse_pressed(Mouse::Left));
    assert!(!i.mouse_down(Mouse::Right));
    i.mouse_event(Mouse::Forward, true);
    assert!(i.mouse_pressed(Mouse::Forward));
    assert_eq!(Input::mouse_idx(Mouse::Back), 3);
}

#[test]
fn input_losing_focus_starts_a_new_frame() {
    let mut i = Input::new();
    i.mouse_event(Mouse::Right, true);
    i.focus_event(false);
    assert!(i.mouse_down(Mouse::Right));
    assert!(!i.mouse_pressed(Mouse::Right));
    i.focus_event(true);
    assert!(i.focused());
}
