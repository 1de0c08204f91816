use vstd::prelude::*;
use crate::vec3::{Vec3, in_bounds, dot3, tup3, neg3, sub3, cross3, CMAX};
use crate::ray::Ray;
use crate::rat::{Rat, lemma_mul_bound, in_itv, root_in_interval};
use crate::hittable::{HitRecord, PointR};
use crate::aabb::AABB;

verus! {

/// A triangle with three grid vertices and a flat shading normal; the
/// normal is either the cross product of its edges or one supplied with the
/// mesh (no interpolation across vertex normals).
#[derive(Clone, Copy, Debug)]
pub struct Triangle {
    pub v0: Vec3,
    pub v1: Vec3,
    pub v2: Vec3,
    pub normal: Vec3,
    pub material: usize,
}

// Moeller-Trumbore, cleared of the determinant denominator: with edges
// e1 = v1 - v0 and e2 = v2 - v0,
//   det = dir . (e1 x e2-ordered cross), u = tvec . pvec / det,
//   v = dir . qvec / det, t = e2 . qvec / det,
// where pvec = dir x e2, tvec = origin - v0, qvec = tvec x e1. The checks
// run on the numerators, with signs normalized so the denominator |det| is
// positive.

pub open spec fn tri_e1(t: Triangle) -> (int, int, int) {
    sub3(tup3(t.v1), tup3(t.v0))
}

pub open spec fn tri_e2(t: Triangle) -> (int, int, int) {
    sub3(tup3(t.v2), tup3(t.v0))
}

pub open spec fn tri_pvec(t: Triangle, dir: Vec3) -> (int, int, int) {
    cross3(tup3(dir), tri_e2(t))
}

pub open spec fn tri_det(t: Triangle, dir: Vec3) -> int {
    dot3(tri_e1(t), tri_pvec(t, dir))
}

pub open spec fn tri_tvec(t: Triangle, origin: Vec3) -> (int, int, int) {
    sub3(tup3(origin), tup3(t.v0))
}

pub open spec fn tri_qvec(t: Triangle, origin: Vec3) -> (int, int, int) {
    cross3(tri_tvec(t, origin), tri_e1(t))
}

/// Numerator of the barycentric `u`, before sign normalization.
pub open spec fn tri_nu(t: Triangle, r: Ray) -> int {
    dot3(tri_tvec(t, r.origin), tri_pvec(t, r.direction))
}

/// Numerator of the barycentric `v`, before sign normalization.
pub open spec fn tri_nv(t: Triangle, r: Ray) -> int {
    dot3(tup3(r.direction), tri_qvec(t, r.origin))
}

/// Numerator of the distance `t`, before sign normalization.
pub open spec fn tri_nt(t: Triangle, r: Ray) -> int {
    dot3(tri_e2(t), tri_qvec(t, r.origin))
}

/// Flip by the sign of the determinant, so every quantity is a numerator
/// over the positive denominator `|det|`.
pub open spec fn sgn_by_det(t: Triangle, dir: Vec3, x: int) -> int {
    if tri_det(t, dir) < 0 {
        -x
    } else {
        x
    }
}

/// What a triangle intersection reports: a miss exactly when the ray is
/// parallel to the plane (zero determinant), a barycentric coordinate falls
/// outside the triangle, or the distance leaves `[t_min, t_max]`; otherwise
/// a record with the exact barycentrics, distance, hit point, and the flat
/// normal oriented against the ray.
pub open spec fn triangle_hit_post(
    res: Option<HitRecord>,
    t: Triangle,
    r: Ray,
    t_min: Rat,
    t_max: Rat,
) -> bool {
    let det = tri_det(t, r.direction);
    let dd = if det < 0 { -det } else { det };
    let nu = sgn_by_det(t, r.direction, tri_nu(t, r));
    let nv = sgn_by_det(t, r.direction, tri_nv(t, r));
    let nt = sgn_by_det(t, r.direction, tri_nt(t, r));
    match res {
        None => {
            ||| det == 0
            ||| nu < 0
            ||| nu > dd
            ||| nv < 0
            ||| nu + nv > dd
            ||| !in_itv(nt, dd, t_min, t_max)
        },
        Some(rec) => {
            &&& det != 0
            &&& 0 <= nu <= dd
            &&& 0 <= nv
            &&& nu + nv <= dd
            &&& in_itv(nt, dd, t_min, t_max)
            &&& rec.t.num as int == nt
            &&& rec.t.den as int == dd
            &&& rec.u.num as int == nu && rec.u.den as int == dd
            &&& rec.v.num as int == nv && rec.v.den as int == dd
            &&& rec.p.den == rec.t.den
            &&& rec.p.nums() == r.spec_at(rec.t)
            &&& rec.front_face == (dot3(tup3(r.direction), tup3(t.normal)) < 0)
            &&& tup3(rec.normal) == if rec.front_face {
                tup3(t.normal)
            } else {
                neg3(tup3(t.normal))
            }
            &&& rec.mat == t.material
            &&& rec.wf()
        },
    }
}

/// The candidate distance of a triangle for a near clip `t_min`: the single
/// plane crossing, provided it lies inside the triangle and not behind the
/// clip. A hit on `[t_min, t_max]` is reported exactly when this candidate
/// exists and does not exceed `t_max`.
pub open spec fn tri_candidate(t: Triangle, r: Ray, t_min: Rat) -> Option<(int, int)> {
    let det = tri_det(t, r.direction);
    let dd = if det < 0 { -det } else { det };
    let nu = sgn_by_det(t, r.direction, tri_nu(t, r));
    let nv = sgn_by_det(t, r.direction, tri_nv(t, r));
    let nt = sgn_by_det(t, r.direction, tri_nt(t, r));
    if det != 0 && 0 <= nu <= dd && 0 <= nv && nu + nv <= dd && (t_min.num as int) * dd <= nt * (
    t_min.den as int) {
        Some((nt, dd))
    } else {
        None
    }
}

/// A triangle intersection is the monotone filter of its candidate, and a
/// reported record also satisfies the contract with its own distance as the
/// far limit.
pub proof fn lemma_triangle_characterize(
    res: Option<HitRecord>,
    t: Triangle,
    r: Ray,
    t_min: Rat,
    t_max: Rat,
)
    requires
        triangle_hit_post(res, t, r, t_min, t_max),
        t_min.wf(),
        t_max.wf(),
    ensures
        match tri_candidate(t, r, t_min) {
            None => res is None,
            Some((tn, td)) => {
                &&& td >= 1
                &&& if tn * (t_max.den as int) <= (t_max.num as int) * td {
                    &&& res matches Some(rec)
                    &&& res->Some_0.t.num as int == tn
                    &&& res->Some_0.t.den as int == td
                    &&& triangle_hit_post(res, t, r, t_min, res->Some_0.t)
                } else {
                    res is None
                }
            },
        },
{
    let det = tri_det(t, r.direction);
    let dd = if det < 0 { -det } else { det };
    let nt = sgn_by_det(t, r.direction, tri_nt(t, r));
    if det != 0 {
        match tri_candidate(t, r, t_min) {
            None => {
                assert(res is None);
            },
            Some((tn, td)) => {
                if tn * (t_max.den as int) <= (t_max.num as int) * td {
                    assert(in_itv(nt, dd, t_min, t_max));
                    assert(res is Some);
                    let rec = res->Some_0;
                    assert(in_itv(nt, dd, t_min, rec.t)) by (nonlinear_arith)
                        requires
                            rec.t.num as int == nt,
                            rec.t.den as int == dd,
                            dd >= 1,
                            (t_min.num as int) * dd <= nt * (t_min.den as int),
                    ;
                } else {
                    assert(!in_itv(nt, dd, t_min, t_max));
                    assert(res is None);
                }
            },
        }
    }
}

impl Triangle {
    pub open spec fn wf(self) -> bool {
        &&& in_bounds(self.v0, CMAX as int)
        &&& in_bounds(self.v1, CMAX as int)
        &&& in_bounds(self.v2, CMAX as int)
        &&& in_bounds(self.normal, 0x800_0000)
    }

    /// A triangle shaded by the geometric normal of its edges.
    pub fn new(v0: Vec3, v1: Vec3, v2: Vec3, material: usize) -> (t: Triangle)
        requires
            in_bounds(v0, CMAX as int),
            in_bounds(v1, CMAX as int),
            in_bounds(v2, CMAX as int),
        ensures
            t.v0 == v0 && t.v1 == v1 && t.v2 == v2 && t.material == material,
            tup3(t.normal) == cross3(sub3(tup3(v1), tup3(v0)), sub3(tup3(v2), tup3(v0))),
            t.wf(),
    {
        let e1 = v1.sub(v0);
        let e2 = v2.sub(v0);
        let normal = e1.cross_product(e2);
        proof {
            lemma_mul_bound(e1.y as int, e2.z as int, 8192, 8192);
            lemma_mul_bound(e1.z as int, e2.y as int, 8192, 8192);
            lemma_mul_bound(e1.z as int, e2.x as int, 8192, 8192);
            lemma_mul_bound(e1.x as int, e2.z as int, 8192, 8192);
            lemma_mul_bound(e1.x as int, e2.y as int, 8192, 8192);
            lemma_mul_bound(e1.y as int, e2.x as int, 8192, 8192);
        }
        Triangle { v0, v1, v2, normal, material }
    }

    /// A triangle with a supplied shading normal.
    pub fn new_with_normal(v0: Vec3, v1: Vec3, v2: Vec3, normal: Vec3, material: usize) -> (t: Triangle)
        ensures
            t == (Triangle { v0, v1, v2, normal, material }),
    {
        Triangle { v0, v1, v2, normal, material }
    }

    /// The componentwise min and max of the three vertices.
    pub fn bounding_box(&self, _time0: i64, _time1: i64) -> (res: Option<AABB>)
        requires
            self.wf(),
        ensures
            res matches Some(b) && b.wf() && b.spec_ordered()
                && b.minimum.x == vstd::math::min(self.v0.x as int, vstd::math::min(self.v1.x as int, self.v2.x as int))
                && b.minimum.y == vstd::math::min(self.v0.y as int, vstd::math::min(self.v1.y as int, self.v2.y as int))
                && b.minimum.z == vstd::math::min(self.v0.z as int, vstd::math::min(self.v1.z as int, self.v2.z as int))
                && b.maximum.x == vstd::math::max(self.v0.x as int, vstd::math::max(self.v1.x as int, self.v2.x as int))
                && b.maximum.y == vstd::math::max(self.v0.y as int, vstd::math::max(self.v1.y as int, self.v2.y as int))
                && b.maximum.z == vstd::math::max(self.v0.z as int, vstd::math::max(self.v1.z as int, self.v2.z as int)),
    {
        let minimum = Vec3 {
            x: min3(self.v0.x, self.v1.x, self.v2.x),
            y: min3(self.v0.y, self.v1.y, self.v2.y),
            z: min3(self.v0.z, self.v1.z, self.v2.z),
        };
        let maximum = Vec3 {
            x: max3(self.v0.x, self.v1.x, self.v2.x),
            y: max3(self.v0.y, self.v1.y, self.v2.y),
            z: max3(self.v0.z, self.v1.z, self.v2.z),
        };
        Some(AABB { minimum, maximum })
    }

    /// Exact Moeller-Trumbore intersection. With integer vertices the
    /// parallel test is exact — the determinant is zero — so no epsilon
    /// guard is needed; every comparison runs on cleared numerators.
    pub fn hit(&self, r: &Ray, t_min: Rat, t_max: Rat) -> (res: Option<HitRecord>)
        requires
            self.wf(),
            r.wf(),
            t_min.wf(),
            t_max.wf(),
        ensures
            triangle_hit_post(res, *self, *r, t_min, t_max),
    {
        let v0v1 = self.v1.sub(self.v0);
        let v0v2 = self.v2.sub(self.v0);
        let pvec = r.direction.cross_product(v0v2);
        proof {
            lemma_mul_bound(r.direction.y as int, v0v2.z as int, 4096, 8192);
            lemma_mul_bound(r.direction.z as int, v0v2.y as int, 4096, 8192);
            lemma_mul_bound(r.direction.z as int, v0v2.x as int, 4096, 8192);
            lemma_mul_bound(r.direction.x as int, v0v2.z as int, 4096, 8192);
            lemma_mul_bound(r.direction.x as int, v0v2.y as int, 4096, 8192);
            lemma_mul_bound(r.direction.y as int, v0v2.x as int, 4096, 8192);
            assert(in_bounds(pvec, 0x400_0000));
            lemma_mul_bound(v0v1.x as int, pvec.x as int, 8192, 0x400_0000);
            lemma_mul_bound(v0v1.y as int, pvec.y as int, 8192, 0x400_0000);
            lemma_mul_bound(v0v1.z as int, pvec.z as int, 8192, 0x400_0000);
        }
        let det = v0v1.dot_product(pvec);
        if det == 0 {
            return None;
        }
        let tvec = r.origin.sub(self.v0);
        proof {
            lemma_mul_bound(tvec.x as int, pvec.x as int, 8192, 0x400_0000);
            lemma_mul_bound(tvec.y as int, pvec.y as int, 8192, 0x400_0000);
            lemma_mul_bound(tvec.z as int, pvec.z as int, 8192, 0x400_0000);
        }
        let tu = tvec.dot_product(pvec);
        let qvec = tvec.cross_product(v0v1);
        proof {
            lemma_mul_bound(tvec.y as int, v0v1.z as int, 8192, 8192);
            lemma_mul_bound(tvec.z as int, v0v1.y as int, 8192, 8192);
            lemma_mul_bound(tvec.z as int, v0v1.x as int, 8192, 8192);
            lemma_mul_bound(tvec.x as int, v0v1.z as int, 8192, 8192);
            lemma_mul_bound(tvec.x as int, v0v1.y as int, 8192, 8192);
            lemma_mul_bound(tvec.y as int, v0v1.x as int, 8192, 8192);
            assert(in_bounds(qvec, 0x1000_0000));
            lemma_mul_bound(r.direction.x as int, qvec.x as int, 4096, 0x1000_0000);
            lemma_mul_bound(r.direction.y as int, qvec.y as int, 4096, 0x1000_0000);
            lemma_mul_bound(r.direction.z as int, qvec.z as int, 4096, 0x1000_0000);
            lemma_mul_bound(v0v2.x as int, qvec.x as int, 8192, 0x1000_0000);
            lemma_mul_bound(v0v2.y as int, qvec.y as int, 8192, 0x1000_0000);
            lemma_mul_bound(v0v2.z as int, qvec.z as int, 8192, 0x1000_0000);
        }
        let tv = r.direction.dot_product(qvec);
        let tt = v0v2.dot_product(qvec);
        let (dd, nu, nv, nt) = if det < 0 {
            (-det, -tu, -tv, -tt)
        } else {
            (det, tu, tv, tt)
        };
        if nu < 0 || nu > dd {
            return None;
        }
        if nv < 0 || nu + nv > dd {
            return None;
        }
        if !root_in_interval(nt, dd, t_min, t_max) {
            return None;
        }
        proof {
            lemma_mul_bound(r.origin.x as int, dd as int, 4096, 0x200_0000_0000);
            lemma_mul_bound(r.origin.y as int, dd as int, 4096, 0x200_0000_0000);
            lemma_mul_bound(r.origin.z as int, dd as int, 4096, 0x200_0000_0000);
            lemma_mul_bound(nt as int, r.direction.x as int, 0x800_0000_0000, 4096);
            lemma_mul_bound(nt as int, r.direction.y as int, 0x800_0000_0000, 4096);
            lemma_mul_bound(nt as int, r.direction.z as int, 0x800_0000_0000, 4096);
        }
        let p = PointR {
            xn: r.origin.x * dd + nt * r.direction.x,
            yn: r.origin.y * dd + nt * r.direction.y,
            zn: r.origin.z * dd + nt * r.direction.z,
            den: dd,
        };
        let mut rec = HitRecord {
            t: Rat { num: nt, den: dd },
            p,
            mat: self.material,
            u: Rat { num: nu, den: dd },
            v: Rat { num: nv, den: dd },
            normal: Vec3 { x: 0, y: 0, z: 0 },
            front_face: false,
        };
        rec.set_face_normal(r, &self.normal);
        Some(rec)
    }
}

fn min3(a: i64, b: i64, c: i64) -> (r: i64)
    ensures
        r as int == vstd::math::min(a as int, vstd::math::min(b as int, c as int)),
{
    let bc = if b < c { b } else { c };
    if a < bc { a } else { bc }
}

fn max3(a: i64, b: i64, c: i64) -> (r: i64)
    ensures
        r as int == vstd::math::max(a as int, vstd::math::max(b as int, c as int)),
{
    let bc = if b > c { b } else { c };
    if a > bc { a } else { bc }
}

/// The barycentric coordinates of a reported triangle hit each lie in
/// `[0, 1]`, and together with the third coordinate `1 - u - v` they sum to
/// exactly 1: all three share the denominator `|det|` and the numerators
/// `nu`, `nv`, `dd - nu - nv` are nonnegative and sum to `dd`.
pub proof fn lemma_barycentric_in_range(res: Option<HitRecord>, t: Triangle, r: Ray, t_min: Rat, t_max: Rat)
    requires
        triangle_hit_post(res, t, r, t_min, t_max),
        res is Some,
    ensures
        0 <= res->Some_0.u.num <= res->Some_0.u.den,
        0 <= res->Some_0.v.num <= res->Some_0.v.den,
        res->Some_0.u.den == res->Some_0.v.den,
        0 <= res->Some_0.u.den - res->Some_0.u.num - res->Some_0.v.num <= res->Some_0.u.den,
        res->Some_0.u.num + res->Some_0.v.num + (res->Some_0.u.den - res->Some_0.u.num
            - res->Some_0.v.num) == res->Some_0.u.den,
{
}

} // verus!
