//! The pointer as sampled once per frame.
use vstd::prelude::*;
use crate::point::Point;

verus! {

/// The state of a mouse button.
#[derive(Clone, Copy, Debug, PartialEq, Eq)]
pub enum ButtonState {
    Up,
    Down,
}

/// The pointer position and the state of its left button.
#[derive(Clone, Copy, Debug, PartialEq, Eq)]
pub struct MouseState {
    pub pos: Point,
    pub left: ButtonState,
}

} // verus!
