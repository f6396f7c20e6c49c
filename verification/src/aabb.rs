//! Axis-aligned bounding boxes.
use vstd::prelude::*;
use crate::space::Point;

verus! {

/// An axis-aligned box, by its least and its greatest corner.
#[derive(Clone, Copy, Debug, PartialEq, Eq, Structural)]
pub struct AABB {
    pub mins: Point,
    pub maxs: Point,
}

impl AABB {
    /// The least corner is nowhere above the greatest.
    pub open spec fn wf(&self) -> bool {
        &&& self.mins.x@ <= self.maxs.x@
        &&& self.mins.y@ <= self.maxs.y@
        &&& self.mins.z@ <= self.maxs.z@
    }

    /// Every point of `other` is a point of `self`.
    pub open spec fn spec_contains(&self, other: AABB) -> bool {
        &&& self.mins.x@ <= other.mins.x@
        &&& self.mins.y@ <= other.mins.y@
        &&& self.mins.z@ <= other.mins.z@
        &&& other.maxs.x@ <= self.maxs.x@
        &&& other.maxs.y@ <= self.maxs.y@
        &&& other.maxs.z@ <= self.maxs.z@
    }

    /// The smallest box that holds both `self` and `other`.
    pub open spec fn spec_merged(&self, other: AABB) -> AABB {
        AABB {
            mins: Point {
                x: if other.mins.x@ < self.mins.x@ { other.mins.x } else { self.mins.x },
                y: if other.mins.y@ < self.mins.y@ { other.mins.y } else { self.mins.y },
                z: if other.mins.z@ < self.mins.z@ { other.mins.z } else { self.mins.z },
            },
            maxs: Point {
                x: if other.maxs.x@ > self.maxs.x@ { other.maxs.x } else { self.maxs.x },
                y: if other.maxs.y@ > self.maxs.y@ { other.maxs.y } else { self.maxs.y },
                z: if other.maxs.z@ > self.maxs.z@ { other.maxs.z } else { self.maxs.z },
            },
        }
    }

    /// The box between two corners, or `None` where `mins` is above `maxs`
    /// on some axis.
    pub fn new(mins: Point, maxs: Point) -> (r: Option<AABB>)
        ensures
            r.is_some() <==> (AABB { mins, maxs }).wf(),
            r matches Some(b) ==> b.mins == mins && b.maxs == maxs,
    {
        if mins.x.le(&maxs.x) && mins.y.le(&maxs.y) && mins.z.le(&maxs.z) {
            Some(AABB { mins, maxs })
        } else {
            None
        }
    }

    /// Whether `other` lies inside `self`.
    pub fn contains(&self, other: &AABB) -> (r: bool)
        ensures
            r == self.spec_contains(*other),
    {
        self.mins.x.le(&other.mins.x) && self.mins.y.le(&other.mins.y) && self.mins.z.le(
            &other.mins.z,
        ) && other.maxs.x.le(&self.maxs.x) && other.maxs.y.le(&self.maxs.y) && other.maxs.z.le(
            &self.maxs.z,
        )
    }

    /// The smallest box that holds both `self` and `other`.
    pub fn merged(&self, other: &AABB) -> (r: AABB)
        ensures
            r == self.spec_merged(*other),
    {
        AABB {
            mins: Point {
                x: self.mins.x.min(other.mins.x),
                y: self.mins.y.min(other.mins.y),
                z: self.mins.z.min(other.mins.z),
            },
            maxs: Point {
                x: self.maxs.x.max(other.maxs.x),
                y: self.maxs.y.max(other.maxs.y),
                z: self.maxs.z.max(other.maxs.z),
            },
        }
    }
}

/// A merged box holds both of its parts, keeps its corners in order, and is
/// held by every box that holds both parts.
pub proof fn merged_is_least_upper_bound(a: AABB, b: AABB, c: AABB)
    requires
        a.wf(),
        b.wf(),
    ensures
        a.spec_merged(b).wf(),
        a.spec_merged(b).spec_contains(a),
        a.spec_merged(b).spec_contains(b),
        c.spec_contains(a) && c.spec_contains(b) ==> c.spec_contains(a.spec_merged(b)),
{
}

/// Containment is reflexive and transitive.
pub proof fn contains_is_a_preorder(a: AABB, b: AABB, c: AABB)
    ensures
        a.spec_contains(a),
        a.spec_contains(b) && b.spec_contains(c) ==> a.spec_contains(c),
{
}

} // verus!
