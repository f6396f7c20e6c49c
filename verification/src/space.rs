//! Points and directions of space.
use vstd::prelude::*;
use crate::scalar::Scalar;

verus! {

/// A point of space, by its three coordinates.
#[derive(Clone, Copy, Debug, PartialEq, Eq, Structural)]
pub struct Point {
    pub x: Scalar,
    pub y: Scalar,
    pub z: Scalar,
}

/// A direction with a length, by its three components.
#[derive(Clone, Copy, Debug, PartialEq, Eq, Structural)]
pub struct Vector {
    pub x: Scalar,
    pub y: Scalar,
    pub z: Scalar,
}

/// One of the three directions of the coordinates.
#[derive(Clone, Copy, Debug, PartialEq, Eq, Structural)]
pub enum Axis {
    X,
    Y,
    Z,
}

impl Point {
    /// Every coordinate is a valid scalar.
    pub open spec fn wf(&self) -> bool {
        self.x.wf() && self.y.wf() && self.z.wf()
    }

    /// The coordinate along `axis`.
    pub open spec fn spec_along(&self, axis: Axis) -> Scalar {
        match axis {
            Axis::X => self.x,
            Axis::Y => self.y,
            Axis::Z => self.z,
        }
    }

    /// The coordinate along `axis`.
    pub fn along(&self, axis: Axis) -> (c: Scalar)
        ensures
            c == self.spec_along(axis),
    {
        match axis {
            Axis::X => self.x,
            Axis::Y => self.y,
            Axis::Z => self.z,
        }
    }

    /// What `from_bits` returns.
    pub open spec fn spec_from_bits(x: u32, y: u32, z: u32) -> Option<Point> {
        match (Scalar::spec_from_bits(x), Scalar::spec_from_bits(y), Scalar::spec_from_bits(z)) {
            (Some(x), Some(y), Some(z)) => Some(Point { x, y, z }),
            _ => None,
        }
    }

    /// The point with the coordinates whose bit patterns are given, or
    /// `None` where one of them is NaN.
    pub fn from_bits(x: u32, y: u32, z: u32) -> (p: Option<Point>)
        ensures
            p == Self::spec_from_bits(x, y, z),
            p matches Some(q) ==> q.wf(),
    {
        match (Scalar::from_bits(x), Scalar::from_bits(y), Scalar::from_bits(z)) {
            (Some(x), Some(y), Some(z)) => Some(Point { x, y, z }),
            _ => None,
        }
    }
}

impl Vector {
    /// Every component is a valid scalar.
    pub open spec fn wf(&self) -> bool {
        self.x.wf() && self.y.wf() && self.z.wf()
    }

    /// What `from_bits` returns.
    pub open spec fn spec_from_bits(x: u32, y: u32, z: u32) -> Option<Vector> {
        match (Scalar::spec_from_bits(x), Scalar::spec_from_bits(y), Scalar::spec_from_bits(z)) {
            (Some(x), Some(y), Some(z)) => Some(Vector { x, y, z }),
            _ => None,
        }
    }

    /// Whether every component is zero.
    pub open spec fn spec_is_zero(&self) -> bool {
        self.x == Scalar::spec_zero() && self.y == Scalar::spec_zero() && self.z
            == Scalar::spec_zero()
    }

    /// The vector with the components whose bit patterns are given, or
    /// `None` where one of them is NaN.
    pub fn from_bits(x: u32, y: u32, z: u32) -> (v: Option<Vector>)
        ensures
            v == Self::spec_from_bits(x, y, z),
            v matches Some(w) ==> w.wf(),
    {
        match (Scalar::from_bits(x), Scalar::from_bits(y), Scalar::from_bits(z)) {
            (Some(x), Some(y), Some(z)) => Some(Vector { x, y, z }),
            _ => None,
        }
    }

    /// Whether every component is zero.
    pub fn is_zero(&self) -> (r: bool)
        ensures
            r == self.spec_is_zero(),
    {
        let zero: Scalar = Scalar::zero();
        self.x == zero && self.y == zero && self.z == zero
    }
}

} // verus!
