use vstd::prelude::*;

verus! {

/// Number of mouse buttons whose state is tracked.
pub const MOUSE_BUTTON_COUNT: usize = 8;

/// A mouse button as the windowing system reports it.
#[derive(Clone, Copy, PartialEq, Eq, Structural, Debug)]
pub enum MouseButton {
    Left,
    Right,
    Middle,
    Other(u16),
}

/// The number the engine gives a mouse button: 0, 1 and 2 for the left, right
/// and middle buttons, and its own number for any other.
pub open spec fn button_number(button: MouseButton) -> nat {
    match button {
        MouseButton::Left => 0,
        MouseButton::Right => 1,
        MouseButton::Middle => 2,
        MouseButton::Other(n) => n as nat,
    }
}

/// The left, right and middle buttons are numbered 0, 1 and 2, and any other
/// button keeps the number the windowing system gave it.
pub proof fn lemma_button_numbers(n: u16)
    ensures
        button_number(MouseButton::Left) == 0,
        button_number(MouseButton::Right) == 1,
        button_number(MouseButton::Middle) == 2,
        button_number(MouseButton::Other(n)) == n,
{
}

/// Button part of the mouse state: which buttons are held in the current
/// frame, which were held in the previous one, and whether the pointer moved
/// during this frame.
pub struct MouseButtons {
    pub mouse_moved: bool,
    pub buttons: [bool; 8],
    pub old_buttons: [bool; 8],
}

impl MouseButtons {
    /// The state before any input arrived: nothing pressed, nothing moved.
    pub fn new() -> (r: Self)
        ensures
            !r.mouse_moved,
            forall|i: int| 0 <= i < 8 ==> !r.buttons[i] && !r.old_buttons[i],
    {
        MouseButtons { mouse_moved: false, buttons: [false; 8], old_buttons: [false; 8] }
    }

    /// Whether button `id` is held in the current frame.
    pub fn is_button_down(&self, id: usize) -> (r: bool)
        requires
            id < 8,
        ensures
            r == self.buttons[id as int],
    {
        self.buttons[id]
    }

    /// Whether button `id` went down since the previous frame.
    pub fn button_pressed_in_last_frame(&self, id: usize) -> (r: bool)
        requires
            id < 8,
        ensures
            r == (self.buttons[id as int] && !self.old_buttons[id as int]),
    {
        self.buttons[id] && !self.old_buttons[id]
    }

    /// Whether the left button (button 0) is held.
    pub fn left_button_down(&self) -> (r: bool)
        ensures
            r == self.buttons[0],
    {
        self.buttons[0]
    }

    /// Whether the left button went down since the previous frame.
    pub fn left_button_pressed_in_last_frame(&self) -> (r: bool)
        ensures
            r == (self.buttons[0] && !self.old_buttons[0]),
    {
        self.buttons[0] && !self.old_buttons[0]
    }

    /// Whether the right button (button 1) is held.
    pub fn right_button_down(&self) -> (r: bool)
        ensures
            r == self.buttons[1],
    {
        self.buttons[1]
    }

    /// Whether the right button went down since the previous frame.
    pub fn righ_button_pressed_in_last_frame(&self) -> (r: bool)
        ensures
            r == (self.buttons[1] && !self.old_buttons[1]),
    {
        self.buttons[1] && !self.old_buttons[1]
    }

    /// Records that button `button` is now held (`value`) or released.
    pub fn set_button_state(&mut self, button: usize, value: bool)
        requires
            button < 8,
        ensures
            final(self).buttons@ == old(self).buttons@.update(button as int, value),
            final(self).old_buttons == old(self).old_buttons,
            final(self).mouse_moved == old(self).mouse_moved,
    {
        self.buttons[button] = value;
    }

    /// Records that `button` went down (`pressed`) or up, and gives the
    /// number the engine uses for it in its input events.
    pub fn on_mouse_input(&mut self, button: MouseButton, pressed: bool) -> (id: usize)
        requires
            button_number(button) < 8,
        ensures
            id == button_number(button),
            button == MouseButton::Left ==> id == 0,
            button == MouseButton::Right ==> id == 1,
            button == MouseButton::Middle ==> id == 2,
            match button {
                MouseButton::Other(n) => id == n as usize,
                _ => true,
            },
            final(self).buttons@ == old(self).buttons@.update(id as int, pressed),
            final(self).old_buttons == old(self).old_buttons,
            final(self).mouse_moved == old(self).mouse_moved,
    {
        let id: usize = match button {
            MouseButton::Left => 0,
            MouseButton::Right => 1,
            MouseButton::Middle => 2,
            MouseButton::Other(n) => n as usize,
        };
        self.set_button_state(id, pressed);
        id
    }

    /// Ends the frame: the current buttons become the previous ones and the
    /// pointer counts as still.
    pub fn next_frame(&mut self)
        ensures
            final(self).buttons == old(self).buttons,
            final(self).old_buttons == old(self).buttons,
            !final(self).mouse_moved,
    {
        self.mouse_moved = false;
        self.old_buttons = self.buttons;
    }
}

/// A press is reported in the frame it happened only: once the frame ends,
/// no button counts as pressed in the last frame until its state is set again.
pub proof fn lemma_press_reported_once(before: MouseButtons, after: MouseButtons, i: int)
    requires
        0 <= i < 8,
        after.buttons == before.buttons,
        after.old_buttons == before.buttons,
    ensures
        !(after.buttons[i] && !after.old_buttons[i]),
{
}

} // verus!
