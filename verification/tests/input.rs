use just::input::{MouseButton, MouseButtons, MOUSE_BUTTON_COUNT};

#[test]
fn nothing_is_pressed_at_start() {
    let m = MouseButtons::new();
    assert!(!m.mouse_moved);
    for i in 0..MOUSE_BUTTON_COUNT {
        assert!(!m.is_button_down(i));
        assert!(!m.button_pressed_in_last_frame(i));
    }
}

#[test]
fn a_press_is_reported_for_one_frame() {
    let mut m = MouseButtons::new();
    m.set_button_state(0, true);
    assert!(m.left_button_down());
    assert!(m.left_button_pressed_in_last_frame());
    assert!(m.button_pressed_in_last_frame(0));
    m.next_frame();
    assert!(m.left_button_down());
    assert!(!m.left_button_pressed_in_last_frame());
    m.set_button_state(0, false);
    assert!(!m.is_button_down(0));
    assert!(!m.button_pressed_in_last_frame(0));
}

#[test]
fn right_button_is_button_one() {
    let mut m = MouseButtons::new();
    m.set_button_state(1, true);
    assert!(m.right_button_down());
    assert!(m.righ_button_pressed_in_last_frame());
    assert!(!m.left_button_down());
    m.next_frame();
    assert!(!m.righ_button_pressed_in_last_frame());
    assert!(m.is_button_down(1));
}

#[test]
fn next_frame_clears_movement_and_keeps_buttons() {
    let mut m = MouseButtons::new();
    m.mouse_moved = true;
    m.set_button_state(7, true);
    m.next_frame();
    assert!(!m.mouse_moved);
    assert_eq!(m.buttons, m.old_buttons);
    assert!(m.is_button_down(7));
    assert!(!m.is_button_down(6));
}

#[test]
fn mouse_buttons_are_numbered() {
    let mut m = MouseButtons::new();
    assert_eq!(m.on_mouse_input(MouseButton::Left, true), 0);
    assert_eq!(m.on_mouse_input(MouseButton::Right, true), 1);
    assert_eq!(m.on_mouse_input(MouseButton::Middle, true), 2);
    assert_eq!(m.on_mouse_input(MouseButton::Other(5), true), 5);
    assert!(m.left_button_down() && m.right_button_down());
    assert!(m.is_button_down(2) && m.is_button_down(5));
    assert!(!m.is_button_down(3));
    assert_eq!(m.on_mouse_input(MouseButton::Right, false), 1);
    assert!(!m.right_button_down());
    assert!(!m.righ_button_pressed_in_last_frame());
}
