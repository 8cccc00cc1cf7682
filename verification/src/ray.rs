//! Rays: a starting point and a direction.

use crate::scalar::Scalar;
use crate::vec::{Point3, Vec3};
use vstd::prelude::*;

verus! {

/// A half-line from `origin()` along `direction()`. The direction need not
/// have unit length.
#[derive(Clone, Copy, Debug, PartialEq, Eq, Structural)]
pub struct Ray {
    orig: Point3,
    dir: Vec3,
}

impl Ray {
    /// The starting point, for contracts.
    pub closed spec fn origin_spec(&self) -> Point3 {
        self.orig
    }

    /// The direction, for contracts.
    pub closed spec fn direction_spec(&self) -> Vec3 {
        self.dir
    }

    /// The ray from `origin` along `direction`, for contracts.
    pub closed spec fn new_spec(origin: Vec3, direction: Vec3) -> Ray {
        Ray { orig: origin, dir: direction }
    }

    /// The point at parameter `t`: the origin plus `t` times the direction.
    pub open spec fn at_spec(self, t: Scalar) -> Point3 {
        self.origin().plus(self.direction().scaled(t))
    }

    /// The parts of a ray are those it was made from.
    pub proof fn lemma_new(origin: Vec3, direction: Vec3)
        ensures
            Ray::new(origin, direction).origin() == origin,
            Ray::new(origin, direction).direction() == direction,
    {
    }

    /// The ray from `origin` along `direction`.
    #[verifier::when_used_as_spec(new_spec)]
    pub fn new(origin: Vec3, direction: Vec3) -> (r: Ray)
        ensures
            r == Ray::new(origin, direction),
            r.origin() == origin,
            r.direction() == direction,
    {
        Ray { orig: origin, dir: direction }
    }

    /// The starting point.
    #[verifier::when_used_as_spec(origin_spec)]
    pub fn origin(&self) -> (p: Point3)
        ensures
            p == self.origin(),
    {
        self.orig
    }

    /// The direction.
    #[verifier::when_used_as_spec(direction_spec)]
    pub fn direction(&self) -> (d: Vec3)
        ensures
            d == self.direction(),
    {
        self.dir
    }

    /// The point at parameter `t`.
    pub fn at(&self, t: Scalar) -> (p: Vec3)
        ensures
            p == self.at_spec(t),
    {
        self.orig + self.dir * t
    }
}

} // verus!
