use just::events::{InputEvent, InputState, LoopAction, WindowEvent};
use just::input::MouseButton;

type Ev = WindowEvent<u32, (i32, i32)>;

fn frame_events(a: LoopAction<u32, (i32, i32)>) -> Option<Vec<InputEvent<u32, (i32, i32)>>> {
    match a {
        LoopAction::Frame(v) => Some(v),
        _ => None,
    }
}

fn describe(v: &[InputEvent<u32, (i32, i32)>]) -> Vec<String> {
    v.iter()
        .map(|e| match e {
            InputEvent::KeyPressed(k) => format!("key+{}", k),
            InputEvent::KeyReleased(k) => format!("key-{}", k),
            InputEvent::MouseButtonPressed(b) => format!("mouse+{}", b),
            InputEvent::MouseButtonReleased(b) => format!("mouse-{}", b),
            InputEvent::MouseMoved(p) => format!("moved{:?}", p),
        })
        .collect()
}

#[test]
fn events_are_handed_over_in_order_at_frame_end() {
    let mut s: InputState<u32, (i32, i32)> = InputState::new();
    assert!(matches!(s.handle_event(Ev::CursorMoved((3, 4))), LoopAction::Continue));
    assert!(matches!(s.handle_event(Ev::MouseInput { button: MouseButton::Right, pressed: true }), LoopAction::Continue));
    assert!(matches!(s.handle_event(Ev::KeyboardInput { key: Some(30), escape: false, pressed: true }), LoopAction::Continue));
    assert!(matches!(s.handle_event(Ev::KeyboardInput { key: None, escape: false, pressed: true }), LoopAction::Continue));
    assert!(s.mouse.mouse_moved);
    assert!(s.mouse.right_button_down());
    let v = frame_events(s.handle_event(Ev::MainEventsCleared)).expect("a frame runs");
    assert_eq!(describe(&v), vec!["moved(3, 4)", "mouse+1", "key+30"]);
    assert!(s.new_events.is_empty());
    s.end_frame();
    assert!(!s.mouse.mouse_moved);
    assert!(s.mouse.right_button_down());
    assert!(!s.mouse.righ_button_pressed_in_last_frame());
    let v = frame_events(s.handle_event(Ev::MainEventsCleared)).expect("a frame runs");
    assert!(v.is_empty());
}

#[test]
fn close_request_ends_the_loop_at_frame_end() {
    let mut s: InputState<u32, (i32, i32)> = InputState::new();
    assert!(matches!(s.handle_event(Ev::CloseRequested), LoopAction::Continue));
    assert!(s.end_requested);
    s.handle_event(Ev::MouseInput { button: MouseButton::Left, pressed: false });
    match s.handle_event(Ev::MainEventsCleared) {
        LoopAction::Exit(v) => assert_eq!(describe(&v), vec!["mouse-0"]),
        _ => panic!("the loop should end"),
    }
}

#[test]
fn escape_ends_the_loop_and_is_still_reported() {
    let mut s: InputState<u32, (i32, i32)> = InputState::new();
    s.handle_event(Ev::KeyboardInput { key: Some(1), escape: true, pressed: true });
    assert!(s.end_requested);
    match s.handle_event(Ev::MainEventsCleared) {
        LoopAction::Exit(v) => assert_eq!(describe(&v), vec!["key+1"]),
        _ => panic!("the loop should end"),
    }
}

#[test]
fn resize_keeps_the_last_size() {
    let mut s: InputState<u32, (i32, i32)> = InputState::new();
    s.handle_event(Ev::Resized(800, 600));
    s.handle_event(Ev::Resized(1024, 768));
    s.handle_event(Ev::Other);
    assert_eq!(s.new_frame_size, Some((1024, 768)));
    assert!(!s.end_requested);
    assert!(s.new_events.is_empty());
}
