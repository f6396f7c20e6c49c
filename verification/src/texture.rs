//! Textures: what colours a surface, as far as it is decided without
//! arithmetic on colours.
use vstd::prelude::*;
use crate::scalar::Scalar;

verus! {

/// The two textures of a checkerboard.
#[derive(Clone, Copy, Debug, PartialEq, Eq, Structural)]
pub enum Cell {
    Even,
    Odd,
}

/// A pattern that is periodic in all three directions: at a point `p` it
/// shows `odd` where `sin(size * p.x) * sin(size * p.y) * sin(size * p.z)` is
/// below zero, and `even` elsewhere.
#[derive(Debug)]
pub struct Checkerboard<E, O> {
    pub even: E,
    pub odd: O,
    pub size: Scalar,
}

impl<E, O> Checkerboard<E, O> {
    /// The texture to show where the product of the three sines is
    /// `product`.
    pub fn cell(&self, product: Scalar) -> (c: Cell)
        ensures
            c == if product@ < Scalar::spec_zero()@ { Cell::Odd } else { Cell::Even },
    {
        if product.is_negative() {
            Cell::Odd
        } else {
            Cell::Even
        }
    }
}

/// Shows the surface coordinates of a hit as red and green; black where the
/// shape gives none.
#[derive(Clone, Copy, Debug, PartialEq, Eq, Structural)]
pub struct DebugUV;

/// Shows the place of a hit, each coordinate wrapped into one unit, as red,
/// green and blue.
#[derive(Clone, Copy, Debug, PartialEq, Eq, Structural)]
pub struct DebugPoint;

/// Shows the surface normal of a hit, moved from `[-1, 1]` to `[0, 1]`, as
/// red, green and blue.
#[derive(Clone, Copy, Debug, PartialEq, Eq, Structural)]
pub struct DebugNormal;

/// Shows the distance of a hit, wrapped into one unit, as a grey.
#[derive(Clone, Copy, Debug, PartialEq, Eq, Structural)]
pub struct DebugDistance;

} // verus!
