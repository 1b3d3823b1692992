//! Sizes in grid-cell units.

use rand::Rng;
use vstd::prelude::*;

verus! {

/// A type that can be drawn at random from per-axis ranges starting at `min`.
pub trait RandomGen<T>: Sized {
    /// When a draw is allowed (for example, the ranges must be non-empty).
    spec fn rand_allowed(min: T, max_x: T, max_y: T) -> bool;

    /// What every draw satisfies, however the randomness falls.
    spec fn rand_bounded(min: T, max_x: T, max_y: T, result: &Self) -> bool;

    fn gen_range(min: T, max_x: T, max_y: T) -> (result: Self)
        requires
            Self::rand_allowed(min, max_x, max_y),
        ensures
            Self::rand_bounded(min, max_x, max_y, &result),
    ;
}

/// A width and height in whole grid cells.
#[derive(Clone, Copy, Debug, PartialEq, Eq, Structural)]
pub struct Size2i {
    pub width: i16,
    pub height: i16,
}

impl Size2i {
    pub fn new(width: i16, height: i16) -> (s: Size2i)
        ensures
            s.width == width,
            s.height == height,
    {
        Size2i { width, height }
    }

    /// Shrink both dimensions by the same divisor (used when subdividing).
    pub fn div(self, rhs: i16) -> (s: Size2i)
        requires
            0 <= self.width,
            0 <= self.height,
            1 <= rhs,
        ensures
            s.width == self.width as int / rhs as int,
            s.height == self.height as int / rhs as int,
    {
        Size2i { width: self.width / rhs, height: self.height / rhs }
    }
}

/// Relies on rand::Rng::gen_range over a half-open i16 range: it panics iff
/// the range is empty, and otherwise returns a value drawn from the range.
#[verifier::external_body]
fn random_i16_in(lo: i16, hi: i16) -> (r: i16)
    requires
        lo < hi,
    ensures
        lo <= r < hi,
{
    rand::thread_rng().gen_range(lo..hi)
}

impl RandomGen<i16> for Size2i {
    open spec fn rand_allowed(min: i16, max_x: i16, max_y: i16) -> bool {
        min < max_x && min < max_y
    }

    open spec fn rand_bounded(min: i16, max_x: i16, max_y: i16, result: &Self) -> bool {
        min <= result.width < max_x && min <= result.height < max_y
    }

    fn gen_range(min: i16, max_x: i16, max_y: i16) -> (result: Self) {
        Size2i { width: random_i16_in(min, max_x), height: random_i16_in(min, max_y) }
    }
}

} // verus!
