//! Fixed-point vectors of the plane.
use vstd::prelude::*;
use crate::arith::{ceil_div, div_floor, floor_div, lemma_ceil_div, lemma_floor_div_bounds};

verus! {

/// How many coordinate units make one whole step along an axis.
///
/// Every coordinate, extent and scalar of this crate counts units of
/// `1 / SCALE`, so the whole number `n` is written `n * SCALE`.
pub const SCALE: i32 = 10_000;

/// A point or an extent of the plane, in units of `1 / SCALE`.
#[derive(Debug, Clone, Copy, PartialEq, Eq, Structural)]
pub struct Vec2 {
    pub x: i32,
    pub y: i32,
}

impl Vec2 {
    /// The vector with the given components.
    pub fn new(x: i32, y: i32) -> (r: Self)
        ensures
            r.x == x,
            r.y == y,
    {
        Self { x, y }
    }

    /// Each component moved up to the next whole number of steps.
    pub fn ceil(self) -> (r: Self)
        requires
            fits(ceil_div(self.x as int, SCALE as int) * SCALE),
            fits(ceil_div(self.y as int, SCALE as int) * SCALE),
        ensures
            r.x == ceil_div(self.x as int, SCALE as int) * SCALE,
            r.y == ceil_div(self.y as int, SCALE as int) * SCALE,
    {
        Self { x: ceil_to_whole(self.x), y: ceil_to_whole(self.y) }
    }

    /// Each component with `other` added to it.
    pub fn add(&self, other: i32) -> (r: Self)
        requires
            fits(self.x + other),
            fits(self.y + other),
        ensures
            r.x == self.x + other,
            r.y == self.y + other,
    {
        Self { x: self.x + other, y: self.y + other }
    }

    /// Each component with `other` taken off it.
    pub fn sub(&self, other: i32) -> (r: Self)
        requires
            fits(self.x - other),
            fits(self.y - other),
        ensures
            r.x == self.x - other,
            r.y == self.y - other,
    {
        Self { x: self.x - other, y: self.y - other }
    }

    /// Each component divided by the scalar `other`, rounded down to a
    /// unit.
    pub fn div(&self, other: i32) -> (r: Self)
        requires
            other != 0,
            fits(quotient(self.x as int, other as int)),
            fits(quotient(self.y as int, other as int)),
        ensures
            r.x == quotient(self.x as int, other as int),
            r.y == quotient(self.y as int, other as int),
    {
        Self { x: scaled_quotient(self.x, other), y: scaled_quotient(self.y, other) }
    }

    /// Each component multiplied by the scalar `other`, rounded down to a
    /// unit.
    pub fn mul(&self, other: i32) -> (r: Self)
        requires
            fits(product(self.x as int, other as int)),
            fits(product(self.y as int, other as int)),
        ensures
            r.x == product(self.x as int, other as int),
            r.y == product(self.y as int, other as int),
    {
        Self { x: scaled_product(self.x, other), y: scaled_product(self.y, other) }
    }
}

/// `n` is a value of a component.
pub open spec fn fits(n: int) -> bool {
    i32::MIN <= n <= i32::MAX
}

/// The product of two numbers given in units, in units, rounded down.
pub open spec fn product(a: int, b: int) -> int {
    floor_div(a * b, SCALE as int)
}

/// The quotient of two numbers given in units, in units, rounded down.
pub open spec fn quotient(a: int, b: int) -> int
    recommends
        b != 0,
{
    floor_div(a * SCALE, b)
}

fn ceil_to_whole(a: i32) -> (r: i32)
    requires
        fits(ceil_div(a as int, SCALE as int) * SCALE),
    ensures
        r == ceil_div(a as int, SCALE as int) * SCALE,
{
    proof {
        lemma_ceil_div(a as int, SCALE as int);
        lemma_floor_div_bounds(a + SCALE - 1, SCALE as int);
    }
    let steps: i64 = div_floor(a as i64 + SCALE as i64 - 1, SCALE as i64);
    (steps * SCALE as i64) as i32
}

fn scaled_product(a: i32, b: i32) -> (r: i32)
    requires
        fits(product(a as int, b as int)),
    ensures
        r == product(a as int, b as int),
{
    assert(-0x4000_0000_0000_0000 <= a * b <= 0x4000_0000_0000_0000) by (nonlinear_arith)
        requires
            -0x8000_0000 <= a <= 0x7fff_ffff,
            -0x8000_0000 <= b <= 0x7fff_ffff,
    ;
    div_floor(a as i64 * b as i64, SCALE as i64) as i32
}

fn scaled_quotient(a: i32, b: i32) -> (r: i32)
    requires
        b != 0,
        fits(quotient(a as int, b as int)),
    ensures
        r == quotient(a as int, b as int),
{
    div_floor(a as i64 * SCALE as i64, b as i64) as i32
}

} // verus!
