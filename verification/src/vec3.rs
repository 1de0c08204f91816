use vstd::prelude::*;
use crate::rat::lemma_mul_bound;

verus! {

/// Largest magnitude allowed for a scene coordinate (box corners, sphere
/// centers and radii, triangle vertices, ray origins and directions, times).
/// Keeping raw geometry within this grid lets every derived quantity in the
/// intersection algorithms fit `i64`, with comparisons done in `i128`.
pub const CMAX: i64 = 4096;

/// A vector or point on the integer scene grid.
#[derive(Clone, Copy, Debug, PartialEq, Eq, Structural)]
pub struct Vec3 {
    pub x: i64,
    pub y: i64,
    pub z: i64,
}

pub type Point3 = Vec3;

/// Every component within `[-b, b]`.
pub open spec fn in_bounds(v: Vec3, b: int) -> bool {
    &&& -b <= v.x <= b
    &&& -b <= v.y <= b
    &&& -b <= v.z <= b
}

/// The components of `v` as mathematical integers.
pub open spec fn tup3(v: Vec3) -> (int, int, int) {
    (v.x as int, v.y as int, v.z as int)
}

pub open spec fn dot3(a: (int, int, int), b: (int, int, int)) -> int {
    a.0 * b.0 + a.1 * b.1 + a.2 * b.2
}

pub open spec fn neg3(a: (int, int, int)) -> (int, int, int) {
    (-a.0, -a.1, -a.2)
}

pub open spec fn sub3(a: (int, int, int), b: (int, int, int)) -> (int, int, int) {
    (a.0 - b.0, a.1 - b.1, a.2 - b.2)
}

pub open spec fn cross3(a: (int, int, int), b: (int, int, int)) -> (int, int, int) {
    (a.1 * b.2 - a.2 * b.1, a.2 * b.0 - a.0 * b.2, a.0 * b.1 - a.1 * b.0)
}

pub open spec fn spec_dot(a: Vec3, b: Vec3) -> int {
    (a.x as int) * (b.x as int) + (a.y as int) * (b.y as int) + (a.z as int) * (b.z as int)
}

pub open spec fn spec_cross(a: Vec3, b: Vec3) -> (int, int, int) {
    (
        (a.y as int) * (b.z as int) - (a.z as int) * (b.y as int),
        (a.z as int) * (b.x as int) - (a.x as int) * (b.z as int),
        (a.x as int) * (b.y as int) - (a.y as int) * (b.x as int),
    )
}

impl Vec3 {
    pub fn new(x: i64, y: i64, z: i64) -> (r: Vec3)
        ensures
            r == (Vec3 { x, y, z }),
    {
        Vec3 { x, y, z }
    }

    /// Component index 0, 1 or 2, as the slab tests walk the axes.
    pub open spec fn spec_axis(self, a: int) -> int {
        if a == 0 {
            self.x as int
        } else if a == 1 {
            self.y as int
        } else {
            self.z as int
        }
    }

    pub fn axis(self, a: u8) -> (r: i64)
        requires
            a < 3,
        ensures
            r == self.spec_axis(a as int),
    {
        if a == 0 {
            self.x
        } else if a == 1 {
            self.y
        } else {
            self.z
        }
    }

    pub fn add(self, o: Vec3) -> (r: Vec3)
        requires
            in_bounds(self, 0x2000_0000_0000_0000),
            in_bounds(o, 0x2000_0000_0000_0000),
        ensures
            r.x == self.x + o.x,
            r.y == self.y + o.y,
            r.z == self.z + o.z,
    {
        Vec3 { x: self.x + o.x, y: self.y + o.y, z: self.z + o.z }
    }

    pub fn sub(self, o: Vec3) -> (r: Vec3)
        requires
            in_bounds(self, 0x2000_0000_0000_0000),
            in_bounds(o, 0x2000_0000_0000_0000),
        ensures
            r.x == self.x - o.x,
            r.y == self.y - o.y,
            r.z == self.z - o.z,
    {
        Vec3 { x: self.x - o.x, y: self.y - o.y, z: self.z - o.z }
    }

    pub fn neg(self) -> (r: Vec3)
        requires
            in_bounds(self, 0x4000_0000_0000_0000),
        ensures
            r.x == -self.x,
            r.y == -self.y,
            r.z == -self.z,
    {
        Vec3 { x: -self.x, y: -self.y, z: -self.z }
    }

    /// Scale by an integer factor.
    pub fn scale(self, k: i64) -> (r: Vec3)
        requires
            in_bounds(self, 0x4000_0000),
            -0x4000_0000 <= k <= 0x4000_0000,
        ensures
            r.x == k * self.x,
            r.y == k * self.y,
            r.z == k * self.z,
    {
        proof {
            lemma_mul_bound(k as int, self.x as int, 0x4000_0000, 0x4000_0000);
            lemma_mul_bound(k as int, self.y as int, 0x4000_0000, 0x4000_0000);
            lemma_mul_bound(k as int, self.z as int, 0x4000_0000, 0x4000_0000);
        }
        Vec3 { x: k * self.x, y: k * self.y, z: k * self.z }
    }

    /// Exact dot product of two moderately sized vectors.
    pub fn dot_product(self, o: Vec3) -> (r: i64)
        requires
            in_bounds(self, 0x4000_0000),
            in_bounds(o, 0x4000_0000),
        ensures
            r == spec_dot(self, o),
    {
        proof {
            lemma_mul_bound(self.x as int, o.x as int, 0x4000_0000, 0x4000_0000);
            lemma_mul_bound(self.y as int, o.y as int, 0x4000_0000, 0x4000_0000);
            lemma_mul_bound(self.z as int, o.z as int, 0x4000_0000, 0x4000_0000);
        }
        self.x * o.x + self.y * o.y + self.z * o.z
    }

    /// Exact dot product computed in `i128`, for the large intermediate
    /// vectors (unnormalized normals) the materials handle.
    pub fn dot_wide(self, o: Vec3) -> (r: i128)
        requires
            in_bounds(self, 0x4000_0000_0000_0000),
            in_bounds(o, 0x4000_0000_0000_0000),
        ensures
            r == spec_dot(self, o),
    {
        proof {
            lemma_mul_bound(self.x as int, o.x as int, 0x4000_0000_0000_0000, 0x4000_0000_0000_0000);
            lemma_mul_bound(self.y as int, o.y as int, 0x4000_0000_0000_0000, 0x4000_0000_0000_0000);
            lemma_mul_bound(self.z as int, o.z as int, 0x4000_0000_0000_0000, 0x4000_0000_0000_0000);
        }
        (self.x as i128) * (o.x as i128) + (self.y as i128) * (o.y as i128) + (self.z as i128) * (o.z as i128)
    }

    pub fn cross_product(self, o: Vec3) -> (r: Vec3)
        requires
            in_bounds(self, 0x4000_0000),
            in_bounds(o, 0x4000_0000),
        ensures
            r.x as int == spec_cross(self, o).0,
            r.y as int == spec_cross(self, o).1,
            r.z as int == spec_cross(self, o).2,
    {
        proof {
            lemma_mul_bound(self.y as int, o.z as int, 0x4000_0000, 0x4000_0000);
            lemma_mul_bound(self.z as int, o.y as int, 0x4000_0000, 0x4000_0000);
            lemma_mul_bound(self.z as int, o.x as int, 0x4000_0000, 0x4000_0000);
            lemma_mul_bound(self.x as int, o.z as int, 0x4000_0000, 0x4000_0000);
            lemma_mul_bound(self.x as int, o.y as int, 0x4000_0000, 0x4000_0000);
            lemma_mul_bound(self.y as int, o.x as int, 0x4000_0000, 0x4000_0000);
        }
        Vec3 {
            x: self.y * o.z - self.z * o.y,
            y: self.z * o.x - self.x * o.z,
            z: self.x * o.y - self.y * o.x,
        }
    }

    pub fn length_squared(self) -> (r: i64)
        requires
            in_bounds(self, 0x4000_0000),
        ensures
            r == spec_dot(self, self),
            r >= 0,
    {
        proof {
            lemma_mul_bound(self.x as int, self.x as int, 0x4000_0000, 0x4000_0000);
            lemma_mul_bound(self.y as int, self.y as int, 0x4000_0000, 0x4000_0000);
            lemma_mul_bound(self.z as int, self.z as int, 0x4000_0000, 0x4000_0000);
            lemma_square_nonneg(self.x as int);
            lemma_square_nonneg(self.y as int);
            lemma_square_nonneg(self.z as int);
        }
        self.x * self.x + self.y * self.y + self.z * self.z
    }

    pub fn from_slice(slice: [i64; 3]) -> (r: Vec3)
        ensures
            r == (Vec3 { x: slice[0], y: slice[1], z: slice[2] }),
    {
        Vec3 { x: slice[0], y: slice[1], z: slice[2] }
    }

    /// The floor of the Euclidean length: the integer square root of the
    /// squared length.
    pub fn length(self) -> (r: i64)
        requires
            in_bounds(self, 0x4000_0000),
        ensures
            crate::rat::is_isqrt(spec_dot(self, self), r as int),
    {
        let l2 = self.length_squared();
        let lu = crate::rat::isqrt(l2 as u128);
        proof {
            assert(lu as int <= 0x8000_0000_0000) by (nonlinear_arith)
                requires
                    crate::rat::is_isqrt(l2 as int, lu as int),
                    0 <= l2 as int <= 0x4000_0000_0000_0000_0000,
            ;
        }
        lu as i64
    }

    /// The exact analogue of a near-zero test on the integer grid.
    pub fn near_zero(self) -> (r: bool)
        ensures
            r == (self.x == 0 && self.y == 0 && self.z == 0),
    {
        self.x == 0 && self.y == 0 && self.z == 0
    }
}

pub proof fn lemma_square_nonneg(a: int)
    by (nonlinear_arith)
    ensures
        a * a >= 0,
{
}

pub fn dot_product(a: &Vec3, b: &Vec3) -> (r: i64)
    requires
        in_bounds(*a, 0x4000_0000),
        in_bounds(*b, 0x4000_0000),
    ensures
        r == spec_dot(*a, *b),
{
    a.dot_product(*b)
}

pub fn cross_product(a: &Vec3, b: &Vec3) -> (r: Vec3)
    requires
        in_bounds(*a, 0x4000_0000),
        in_bounds(*b, 0x4000_0000),
    ensures
        r.x as int == spec_cross(*a, *b).0,
        r.y as int == spec_cross(*a, *b).1,
        r.z as int == spec_cross(*a, *b).2,
{
    a.cross_product(*b)
}

} // verus!
