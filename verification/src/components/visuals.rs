//! Points in grid-cell coordinates.

use rand::Rng;
use vstd::prelude::*;

verus! {

/// A location on the grid, in whole-cell coordinates.
#[derive(Clone, Copy, Debug, PartialEq, Eq, Structural)]
pub struct Point {
    pub x: u32,
    pub y: u32,
}

impl Point {
    pub fn new(x: u32, y: u32) -> (p: Point)
        ensures
            p.x == x,
            p.y == y,
    {
        Point { x, y }
    }

    /// A point drawn uniformly from `0..=max_x` by `0..=max_y`.
    pub fn rand(max_x: u32, max_y: u32) -> (p: Point)
        ensures
            p.x <= max_x,
            p.y <= max_y,
    {
        Point { x: random_u32_up_to(max_x), y: random_u32_up_to(max_y) }
    }
}

/// Relies on rand::Rng::gen_range over an inclusive u32 range, which is never
/// empty and returns a value within the range.
#[verifier::external_body]
fn random_u32_up_to(max: u32) -> (r: u32)
    ensures
        r <= max,
{
    rand::thread_rng().gen_range(0..=max)
}

} // verus!
