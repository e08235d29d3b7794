//! Rays.

use vstd::prelude::*;
use crate::vec::Vec3;

verus! {

/// A half line: the points `origin + t * direction` for the parameters `t`.
/// The direction need not have length one.
#[derive(Clone, Copy, Debug)]
pub struct Ray {
    a: Vec3,
    b: Vec3,
}

impl Ray {
    /// Where the ray starts.
    pub closed spec fn spec_origin(self) -> Vec3 {
        self.a
    }

    /// Where the ray points.
    pub closed spec fn spec_direction(self) -> Vec3 {
        self.b
    }

    /// The ray from `origin` along `direction`; both are copied.
    pub fn new(origin: &Vec3, direction: Vec3) -> (r: Ray)
        ensures
            r.spec_origin() == *origin,
            r.spec_direction() == direction,
    {
        Ray { a: *origin, b: direction }
    }

    /// Where the ray starts.
    pub fn origin(&self) -> (v: Vec3)
        ensures
            v == self.spec_origin(),
    {
        self.a
    }

    /// Where the ray points.
    pub fn direction(&self) -> (v: Vec3)
        ensures
            v == self.spec_direction(),
    {
        self.b
    }
}

} // verus!
