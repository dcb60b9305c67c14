use vstd::prelude::*;

verus! {

/// The player's controls in a frame: the four held directions, and whether
/// the inventory key went down.
#[derive(Clone, Copy, Debug)]
pub struct Input {
    pub move_left: bool,
    pub move_right: bool,
    pub move_up: bool,
    pub move_down: bool,
    pub open_inventory: bool,
}

impl Default for Input {
    /// No control held.
    fn default() -> (r: Self)
        ensures
            !r.move_left && !r.move_right && !r.move_up && !r.move_down && !r.open_inventory,
    {
        Input { move_left: false, move_right: false, move_up: false, move_down: false, open_inventory: false }
    }
}

/// 1 for a held control, 0 otherwise.
pub open spec fn held(b: bool) -> int {
    if b { 1 } else { 0 }
}

/// The game played on top of the engine.
pub struct GameLogic;

impl GameLogic {
    /// The player's step on the ground plane this frame, in units of the
    /// walking speed: `(horizontal, vertical)`. Opposite controls cancel out;
    /// a lone control gives a step of two.
    pub fn movement_axes(input: &Input) -> (r: (i32, i32))
        ensures
            r.0 == 2 * (held(input.move_right) - held(input.move_left)),
            r.1 == 2 * (held(input.move_up) - held(input.move_down)),
    {
        let horizontal: i32 = (if input.move_right { 1i32 } else { -1i32 }) + (if input.move_left { -1i32 } else { 1i32 });
        let vertical: i32 = (if input.move_up { 1i32 } else { -1i32 }) + (if input.move_down { -1i32 } else { 1i32 });
        (horizontal, vertical)
    }
}

} // verus!
