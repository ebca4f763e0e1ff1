//! Axis-aligned rectangles.
use vstd::prelude::*;
use crate::point::Point;

verus! {

/// Whether `p` lies in the rectangle at `pos` of size `w` by `h`, taken
/// half-open on its far edges.
pub open spec fn contains(pos: Point, p: Point, w: int, h: int) -> bool {
    pos.x <= p.x < pos.x + w && pos.y <= p.y < pos.y + h
}

/// Whether the point `p` is over the rectangle at `pos` of size `w` by `h`.
pub fn is_over(pos: Point, p: Point, w: i64, h: i64) -> (r: bool)
    ensures
        r == contains(pos, p, w as int, h as int),
{
    let x = p.x as i128;
    let y = p.y as i128;
    pos.x as i128 <= x && x < pos.x as i128 + w as i128 && pos.y as i128 <= y && y < pos.y as i128
        + h as i128
}

} // verus!
