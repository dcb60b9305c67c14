use vstd::prelude::*;
use crate::input::{MouseButton, MouseButtons, button_number};

verus! {

/// What happened to the input devices during a frame, as the engine hands it
/// to its systems. `K` is a key code and `P` a pointer position.
pub enum InputEvent<K, P> {
    KeyPressed(K),
    KeyReleased(K),
    MouseButtonPressed(usize),
    MouseButtonReleased(usize),
    MouseMoved(P),
}

/// An event of the window, as the frame loop receives it. A keyboard event
/// carries the key's code when it has one, and whether it is the Escape key.
pub enum WindowEvent<K, P> {
    CloseRequested,
    Resized(u32, u32),
    CursorMoved(P),
    MouseInput { button: MouseButton, pressed: bool },
    KeyboardInput { key: Option<K>, escape: bool, pressed: bool },
    MainEventsCleared,
    Other,
}

/// What the frame loop does after an event: wait for the next event, end,
/// or run a frame; the last two hand over the input events gathered since
/// the previous frame, in the order they came.
pub enum LoopAction<K, P> {
    Continue,
    Exit(Vec<InputEvent<K, P>>),
    Frame(Vec<InputEvent<K, P>>),
}

/// The state the frame loop keeps between events: whether the window is to
/// close, the last size it was given, the mouse buttons, and the input events
/// not yet handed over.
pub struct InputState<K, P> {
    pub end_requested: bool,
    pub new_frame_size: Option<(u32, u32)>,
    pub mouse: MouseButtons,
    pub new_events: Vec<InputEvent<K, P>>,
}

impl<K, P> InputState<K, P> {
    /// Nothing requested, no size, no button held and no event waiting.
    pub fn new() -> (r: Self)
        ensures
            !r.end_requested,
            r.new_frame_size is None,
            !r.mouse.mouse_moved,
            forall|i: int| 0 <= i < 8 ==> !r.mouse.buttons[i] && !r.mouse.old_buttons[i],
            r.new_events@ == Seq::<InputEvent<K, P>>::empty(),
    {
        InputState { end_requested: false, new_frame_size: None, mouse: MouseButtons::new(), new_events: Vec::new() }
    }

    /// Handles one window event.
    /// - A close request, or the Escape key, asks the loop to end.
    /// - A new size is kept.
    /// - Pointer movement marks the mouse as moved.
    /// - A mouse button changes the button state.
    /// - Pointer movement, mouse buttons and keys with a code are queued as
    ///   input events.
    /// - When the window's events are all in, the queued input events are
    ///   handed over: the loop ends if an end was asked for, and otherwise
    ///   runs a frame.
    pub fn handle_event(&mut self, event: WindowEvent<K, P>) -> (action: LoopAction<K, P>)
        requires
            event matches WindowEvent::MouseInput { button, .. } ==> button_number(button) < 8,
        ensures
            match event {
                WindowEvent::CloseRequested => {
                    &&& action is Continue
                    &&& final(self).end_requested
                    &&& final(self).new_frame_size == old(self).new_frame_size
                    &&& final(self).mouse == old(self).mouse
                    &&& final(self).new_events@ == old(self).new_events@
                },
                WindowEvent::Resized(w, h) => {
                    &&& action is Continue
                    &&& final(self).end_requested == old(self).end_requested
                    &&& final(self).new_frame_size == Some((w, h))
                    &&& final(self).mouse == old(self).mouse
                    &&& final(self).new_events@ == old(self).new_events@
                },
                WindowEvent::CursorMoved(p) => {
                    &&& action is Continue
                    &&& final(self).end_requested == old(self).end_requested
                    &&& final(self).new_frame_size == old(self).new_frame_size
                    &&& final(self).mouse.mouse_moved
                    &&& final(self).mouse.buttons == old(self).mouse.buttons
                    &&& final(self).mouse.old_buttons == old(self).mouse.old_buttons
                    &&& final(self).new_events@ == old(self).new_events@.push(InputEvent::MouseMoved(p))
                },
                WindowEvent::MouseInput { button, pressed } => {
                    let id = button_number(button) as usize;
                    &&& action is Continue
                    &&& final(self).end_requested == old(self).end_requested
                    &&& final(self).new_frame_size == old(self).new_frame_size
                    &&& final(self).mouse.buttons@ == old(self).mouse.buttons@.update(id as int, pressed)
                    &&& final(self).mouse.old_buttons == old(self).mouse.old_buttons
                    &&& final(self).mouse.mouse_moved == old(self).mouse.mouse_moved
                    &&& final(self).new_events@ == old(self).new_events@.push(
                        if pressed { InputEvent::MouseButtonPressed(id) } else { InputEvent::MouseButtonReleased(id) },
                    )
                },
                WindowEvent::KeyboardInput { key, escape, pressed } => {
                    &&& action is Continue
                    &&& final(self).end_requested == (old(self).end_requested || escape)
                    &&& final(self).new_frame_size == old(self).new_frame_size
                    &&& final(self).mouse == old(self).mouse
                    &&& final(self).new_events@ == match key {
                        Some(k) => old(self).new_events@.push(
                            if pressed { InputEvent::KeyPressed(k) } else { InputEvent::KeyReleased(k) },
                        ),
                        None => old(self).new_events@,
                    }
                },
                WindowEvent::MainEventsCleared => {
                    &&& (old(self).end_requested ==> (action matches LoopAction::Exit(v) && v@ == old(self).new_events@))
                    &&& (!old(self).end_requested ==> (action matches LoopAction::Frame(v) && v@ == old(self).new_events@))
                    &&& final(self).end_requested == old(self).end_requested
                    &&& final(self).new_frame_size == old(self).new_frame_size
                    &&& final(self).mouse == old(self).mouse
                    &&& final(self).new_events@ == Seq::<InputEvent<K, P>>::empty()
                },
                WindowEvent::Other => {
                    &&& action is Continue
                    &&& final(self).end_requested == old(self).end_requested
                    &&& final(self).new_frame_size == old(self).new_frame_size
                    &&& final(self).mouse == old(self).mouse
                    &&& final(self).new_events@ == old(self).new_events@
                },
            },
    {
        match event {
            WindowEvent::CloseRequested => {
                self.end_requested = true;
                LoopAction::Continue
            },
            WindowEvent::Resized(w, h) => {
                self.new_frame_size = Some((w, h));
                LoopAction::Continue
            },
            WindowEvent::CursorMoved(p) => {
                self.mouse.mouse_moved = true;
                self.new_events.push(InputEvent::MouseMoved(p));
                LoopAction::Continue
            },
            WindowEvent::MouseInput { button, pressed } => {
                let id = self.mouse.on_mouse_input(button, pressed);
                if pressed {
                    self.new_events.push(InputEvent::MouseButtonPressed(id));
                } else {
                    self.new_events.push(InputEvent::MouseButtonReleased(id));
                }
                LoopAction::Continue
            },
            WindowEvent::KeyboardInput { key, escape, pressed } => {
                if escape {
                    self.end_requested = true;
                }
                match key {
                    Some(k) => {
                        if pressed {
                            self.new_events.push(InputEvent::KeyPressed(k));
                        } else {
                            self.new_events.push(InputEvent::KeyReleased(k));
                        }
                    },
                    None => {},
                }
                LoopAction::Continue
            },
            WindowEvent::MainEventsCleared => {
                let mut delivered: Vec<InputEvent<K, P>> = Vec::new();
                core::mem::swap(&mut delivered, &mut self.new_events);
                if self.end_requested {
                    LoopAction::Exit(delivered)
                } else {
                    LoopAction::Frame(delivered)
                }
            },
            WindowEvent::Other => LoopAction::Continue,
        }
    }

    /// Ends a frame that was run: the mouse buttons of this frame become the
    /// previous ones and the pointer counts as still.
    pub fn end_frame(&mut self)
        ensures
            final(self).end_requested == old(self).end_requested,
            final(self).new_frame_size == old(self).new_frame_size,
            final(self).new_events@ == old(self).new_events@,
            final(self).mouse.buttons == old(self).mouse.buttons,
            final(self).mouse.old_buttons == old(self).mouse.buttons,
            !final(self).mouse.mouse_moved,
    {
        self.mouse.next_frame();
    }
}

} // verus!
