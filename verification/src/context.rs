use vstd::prelude::*;

verus! {

/// A button of the mouse.
#[derive(Clone, Copy, Debug, PartialEq, Eq, Structural)]
pub enum MouseButton {
    Left,
    Middle,
    Right,
}

/// What the input simulator is asked to do.
#[derive(Clone, Copy, Debug, PartialEq, Eq, Structural)]
pub enum Action {
    /// Move the pointer to column `x` of row `y` of the screen.
    MoveTo { x: u32, y: u32 },
    /// Press and release a button.
    Click { btn: MouseButton },
    /// Turn the wheel by `dx` across and `dy` down.
    Scroll { dx: i32, dy: i32 },
}

} // verus!
