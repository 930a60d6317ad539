//! Input identifiers: mouse buttons, movement directions and their keys.

use vstd::prelude::*;

verus! {

/// Mouse button identifiers.
#[derive(Debug, Clone, Copy, PartialEq, Eq, Structural)]
pub enum MouseButton {
    Left,
    Right,
}

/// Movement direction for WASD controls.
#[derive(Debug, Clone, Copy, PartialEq, Eq, Structural)]
pub enum MoveDirection {
    /// W
    Forward,
    /// S
    Backward,
    /// A
    Left,
    /// D
    Right,
}

/// Raw mouse input device (relative moves and clicks).
pub struct RawMouse;

/// The key that moves in direction `dir`.
pub open spec fn key_of(dir: MoveDirection) -> char {
    match dir {
        MoveDirection::Forward => 'w',
        MoveDirection::Backward => 's',
        MoveDirection::Left => 'a',
        MoveDirection::Right => 'd',
    }
}

/// The keyboard key of a movement direction: W, S, A or D.
pub fn direction_key(dir: MoveDirection) -> (c: char)
    ensures
        c == key_of(dir),
{
    match dir {
        MoveDirection::Forward => 'w',
        MoveDirection::Backward => 's',
        MoveDirection::Left => 'a',
        MoveDirection::Right => 'd',
    }
}

} // verus!
