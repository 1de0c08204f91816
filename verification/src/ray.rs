use vstd::prelude::*;
use crate::vec3::{Vec3, Point3, in_bounds, CMAX};
use crate::rat::{Rat, lemma_mul_bound};
use crate::hittable::PointR;

verus! {

/// A parametric line `origin + t * direction` with a time stamp for motion
/// blur. Immutable once constructed.
#[derive(Clone, Copy, Debug)]
pub struct Ray {
    pub origin: Point3,
    pub direction: Vec3,
    pub time: i64,
}

impl Ray {
    /// A ray is valid when its origin, direction and time lie on the scene
    /// grid; every intersection routine requires this of its ray.
    pub open spec fn wf(self) -> bool {
        &&& in_bounds(self.origin, CMAX as int)
        &&& in_bounds(self.direction, CMAX as int)
        &&& -CMAX <= self.time <= CMAX
    }

    pub fn new(origin: Point3, direction: Vec3, time: i64) -> (r: Ray)
        ensures
            r == (Ray { origin, direction, time }),
    {
        Ray { origin, direction, time }
    }

    /// The exact point `origin + t * direction`, as numerators over the
    /// common denominator `t.den`.
    pub open spec fn spec_at(self, t: Rat) -> (int, int, int) {
        (
            (self.origin.x as int) * (t.den as int) + (t.num as int) * (self.direction.x as int),
            (self.origin.y as int) * (t.den as int) + (t.num as int) * (self.direction.y as int),
            (self.origin.z as int) * (t.den as int) + (t.num as int) * (self.direction.z as int),
        )
    }

    /// Evaluate the point along the ray at parametric distance `t`,
    /// exactly.
    pub fn at(&self, t: Rat) -> (p: PointR)
        requires
            self.wf(),
            t.wf(),
            -0x1000_0000_0000 <= t.num <= 0x1000_0000_0000,
            t.den <= 0x1000_0000_0000,
        ensures
            p.nums() == self.spec_at(t),
            p.den == t.den,
            p.wf(),
    {
        proof {
            lemma_mul_bound(self.origin.x as int, t.den as int, 4096, 0x1000_0000_0000);
            lemma_mul_bound(self.origin.y as int, t.den as int, 4096, 0x1000_0000_0000);
            lemma_mul_bound(self.origin.z as int, t.den as int, 4096, 0x1000_0000_0000);
            lemma_mul_bound(t.num as int, self.direction.x as int, 0x1000_0000_0000, 4096);
            lemma_mul_bound(t.num as int, self.direction.y as int, 0x1000_0000_0000, 4096);
            lemma_mul_bound(t.num as int, self.direction.z as int, 0x1000_0000_0000, 4096);
        }
        PointR {
            xn: self.origin.x * t.den + t.num * self.direction.x,
            yn: self.origin.y * t.den + t.num * self.direction.y,
            zn: self.origin.z * t.den + t.num * self.direction.z,
            den: t.den,
        }
    }
}

} // verus!
