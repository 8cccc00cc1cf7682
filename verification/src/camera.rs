//! The camera: an eye at the origin that looks down the negative z axis
//! through a viewport two units high at distance one.

use crate::ray::Ray;
use crate::scalar::{Scalar, SCALE};
use crate::vec::{Point3, Vec3};
use vstd::prelude::*;

verus! {

/// Maps image-plane coordinates to rays.
#[derive(Clone, Copy, Debug, PartialEq, Eq, Structural)]
pub struct Camera {
    origin: Point3,
    horizontal: Vec3,
    vertical: Vec3,
    lower_left_corner: Point3,
}

impl Camera {
    /// The eye point, for contracts.
    pub closed spec fn origin(self) -> Point3 {
        self.origin
    }

    /// The vector that spans the viewport from left to right, for contracts.
    pub closed spec fn horizontal(self) -> Vec3 {
        self.horizontal
    }

    /// The vector that spans the viewport from bottom to top, for contracts.
    pub closed spec fn vertical(self) -> Vec3 {
        self.vertical
    }

    /// The lower left corner of the viewport, for contracts.
    pub closed spec fn lower_left_corner(self) -> Point3 {
        self.lower_left_corner
    }

    /// The span of a viewport two units high whose width is to its height as
    /// `aspect_ratio` is to one.
    pub open spec fn horizontal_spec(aspect_ratio: Scalar) -> Vec3 {
        Vec3 {
            x: (Scalar { raw: 2_000_000 }).times(aspect_ratio),
            y: Scalar { raw: 0 },
            z: Scalar { raw: 0 },
        }
    }

    /// The vertical span of the viewport: two units upward.
    pub open spec fn vertical_spec() -> Vec3 {
        Vec3 { x: Scalar { raw: 0 }, y: Scalar { raw: 2_000_000 }, z: Scalar { raw: 0 } }
    }

    /// The lower left corner of the viewport: from the eye, half the width
    /// to the left, half the height down and one unit forward.
    pub open spec fn corner_spec(aspect_ratio: Scalar) -> Point3 {
        let two = Scalar { raw: 2_000_000 };
        let forward = Vec3 { x: Scalar { raw: 0 }, y: Scalar { raw: 0 }, z: Scalar { raw: SCALE } };
        Vec3::zero_spec().minus(Camera::horizontal_spec(aspect_ratio).over(two)).minus(
            Camera::vertical_spec().over(two),
        ).minus(forward)
    }

    /// The camera for an image whose width is to its height as
    /// `aspect_ratio` is to one.
    pub fn new(aspect_ratio: Scalar) -> (c: Camera)
        ensures
            c.origin() == Vec3::zero_spec(),
            c.horizontal() == Camera::horizontal_spec(aspect_ratio),
            c.vertical() == Camera::vertical_spec(),
            c.lower_left_corner() == Camera::corner_spec(aspect_ratio),
    {
        let two = Scalar::new(2_000_000);
        let viewport_width = two * aspect_ratio;
        let orig = Vec3::zero();
        let h = Vec3::new(viewport_width, Scalar::zero(), Scalar::zero());
        let v = Vec3::new(Scalar::zero(), two, Scalar::zero());
        let llc = orig - h / two - v / two - Vec3::new(Scalar::zero(), Scalar::zero(), Scalar::one());
        Camera { origin: orig, horizontal: h, vertical: v, lower_left_corner: llc }
    }

    /// The ray from the eye through the point of the viewport at the
    /// fractions `u` of its width and `v` of its height, counted from the
    /// lower left corner.
    pub open spec fn get_ray_spec(self, u: Scalar, v: Scalar) -> Ray {
        Ray::new(
            self.origin(),
            self.lower_left_corner().plus(self.horizontal().scaled(u)).plus(
                self.vertical().scaled(v),
            ).minus(self.origin()),
        )
    }

    /// The ray from the eye through the viewport at the fractions `u` and
    /// `v`.
    pub fn get_ray(&self, u: Scalar, v: Scalar) -> (r: Ray)
        ensures
            r == self.get_ray_spec(u, v),
    {
        Ray::new(
            self.origin,
            self.lower_left_corner + self.horizontal * u + self.vertical * v - self.origin,
        )
    }
}

} // verus!
