//! Two-component vectors on the integer grid.
//!
//! Coordinates are 64-bit integers and all arithmetic wraps, so vectors form
//! a group under addition: `a.plus(b).minus(b) == a` for every `a` and `b`.

use vstd::prelude::*;

verus! {

/// The sum of two coordinates, reduced into the range of `i64`.
pub open spec fn wrap_sum(a: i64, b: i64) -> i64 {
    if a + b > i64::MAX {
        (a + b - 0x1_0000_0000_0000_0000) as i64
    } else if a + b < i64::MIN {
        (a + b + 0x1_0000_0000_0000_0000) as i64
    } else {
        (a + b) as i64
    }
}

/// The difference of two coordinates, reduced into the range of `i64`.
pub open spec fn wrap_diff(a: i64, b: i64) -> i64 {
    if a - b > i64::MAX {
        (a - b - 0x1_0000_0000_0000_0000) as i64
    } else if a - b < i64::MIN {
        (a - b + 0x1_0000_0000_0000_0000) as i64
    } else {
        (a - b) as i64
    }
}

/// A point or displacement in the plane.
#[derive(Clone, Copy, Debug, PartialEq, Eq, Structural)]
pub struct Vector2 {
    pub x: i64,
    pub y: i64,
}

impl Vector2 {
    /// Componentwise wrapping sum.
    pub open spec fn spec_plus(self, other: Vector2) -> Vector2 {
        Vector2 { x: wrap_sum(self.x, other.x), y: wrap_sum(self.y, other.y) }
    }

    /// Componentwise wrapping difference.
    pub open spec fn spec_minus(self, other: Vector2) -> Vector2 {
        Vector2 { x: wrap_diff(self.x, other.x), y: wrap_diff(self.y, other.y) }
    }

    /// The origin as a spec value.
    pub open spec fn spec_zero() -> Vector2 {
        Vector2 { x: 0, y: 0 }
    }

    /// The vector with the given components.
    pub fn new(x: i64, y: i64) -> (r: Self)
        ensures
            r.x == x,
            r.y == y,
    {
        Vector2 { x, y }
    }

    /// The origin.
    pub fn zero() -> (r: Self)
        ensures
            r == Self::spec_zero(),
    {
        Vector2 { x: 0, y: 0 }
    }

    /// Adds `other` to `self`, wrapping each component.
    pub fn plus(self, other: Vector2) -> (r: Vector2)
        ensures
            r == self.spec_plus(other),
    {
        Vector2 { x: self.x.wrapping_add(other.x), y: self.y.wrapping_add(other.y) }
    }

    /// Subtracts `other` from `self`, wrapping each component.
    pub fn minus(self, other: Vector2) -> (r: Vector2)
        ensures
            r == self.spec_minus(other),
    {
        Vector2 { x: self.x.wrapping_sub(other.x), y: self.y.wrapping_sub(other.y) }
    }
}

/// Subtracting a vector and adding it back undoes the subtraction.
pub proof fn lemma_minus_then_plus(a: Vector2, b: Vector2)
    ensures
        b.spec_plus(a.spec_minus(b)) == a,
        a.spec_minus(b).spec_plus(b) == a,
{
}

/// Addition is commutative and associative, the origin is its neutral
/// element, and a vector minus itself is the origin.
pub proof fn lemma_plus_group(a: Vector2, b: Vector2, c: Vector2)
    ensures
        a.spec_plus(b) == b.spec_plus(a),
        a.spec_plus(b).spec_plus(c) == a.spec_plus(b.spec_plus(c)),
        a.spec_plus(Vector2::spec_zero()) == a,
        a.spec_minus(a) == Vector2::spec_zero(),
{
}

} // verus!
