use vstd::prelude::*;
use crate::vec3::{Vec3, Point3, in_bounds, dot3, tup3, neg3, CMAX};
use crate::ray::Ray;
use crate::rat::{Rat, lemma_mul_bound, lemma_mul_le_mono, spec_isqrt, isqrt, is_isqrt, lemma_isqrt_exists, lemma_isqrt_unique, in_itv, root_in_interval};
use crate::hittable::{HitRecord, PointR};
use crate::aabb::AABB;

verus! {

/// A sphere at a fixed center, with an integer radius and a material index
/// into the scene's material arena.
#[derive(Clone, Copy, Debug)]
pub struct Sphere {
    pub center: Point3,
    pub radius: i64,
    pub mat: usize,
}

/// A sphere whose center moves linearly from `center0` at `time0` to
/// `center1` at `time1` (and extrapolates outside that interval).
#[derive(Clone, Copy, Debug)]
pub struct MovingSphere {
    pub center0: Point3,
    pub center1: Point3,
    pub time0: i64,
    pub time1: i64,
    pub radius: i64,
    pub mat: usize,
}

// The ray/sphere quadratic, in the half-b form, cleared of denominators.
// The center is the rational point `cn / cden`; multiplying the equation
// `|O + t D - C|^2 = radius^2` through by `cden^2` gives integer
// coefficients with `oc = O * cden - cn`:
//   a' t^2 + 2 hb t + c' = 0,  a' = cden^2 |D|^2, hb = cden (oc . D), ...
// whose roots are `(-(oc . D) -+ sqrt(disc)) / (|D|^2 cden)`.

pub open spec fn q_oc(origin: Point3, cn: (int, int, int), cden: int) -> (int, int, int) {
    (
        (origin.x as int) * cden - cn.0,
        (origin.y as int) * cden - cn.1,
        (origin.z as int) * cden - cn.2,
    )
}

pub open spec fn q_a(dir: Vec3) -> int {
    dot3(tup3(dir), tup3(dir))
}

pub open spec fn q_hb(origin: Point3, cn: (int, int, int), cden: int, dir: Vec3) -> int {
    dot3(q_oc(origin, cn, cden), tup3(dir))
}

pub open spec fn q_c(origin: Point3, cn: (int, int, int), cden: int, radius: int) -> int {
    dot3(q_oc(origin, cn, cden), q_oc(origin, cn, cden)) - cden * cden * radius * radius
}

/// The discriminant of the cleared quadratic: negative exactly when the ray
/// misses the sphere.
pub open spec fn q_disc(origin: Point3, cn: (int, int, int), cden: int, dir: Vec3, radius: int) -> int {
    q_hb(origin, cn, cden, dir) * q_hb(origin, cn, cden, dir)
        - q_a(dir) * q_c(origin, cn, cden, radius)
}

/// The shared denominator of both roots.
pub open spec fn q_den(dir: Vec3, cden: int) -> int {
    q_a(dir) * cden
}

/// Numerator of the nearer root (smaller `t`).
pub open spec fn q_root1(origin: Point3, cn: (int, int, int), cden: int, dir: Vec3, radius: int) -> int {
    -q_hb(origin, cn, cden, dir) - spec_isqrt(q_disc(origin, cn, cden, dir, radius))
}

/// Numerator of the farther root.
pub open spec fn q_root2(origin: Point3, cn: (int, int, int), cden: int, dir: Vec3, radius: int) -> int {
    -q_hb(origin, cn, cden, dir) + spec_isqrt(q_disc(origin, cn, cden, dir, radius))
}

/// The exact hit point numerators over the denominator `q_den * 1` for a
/// root numerator `tn`: `origin * den + tn * dir`.
pub open spec fn q_point(origin: Point3, dir: Vec3, den: int, tn: int) -> (int, int, int) {
    (
        (origin.x as int) * den + tn * (dir.x as int),
        (origin.y as int) * den + tn * (dir.y as int),
        (origin.z as int) * den + tn * (dir.z as int),
    )
}

/// The un-normalized outward normal at the hit point: `p - C`, scaled by
/// the positive factor `q_a * cden` (numerators only).
pub open spec fn q_normal(origin: Point3, cn: (int, int, int), cden: int, dir: Vec3, tn: int) -> (int, int, int) {
    (
        q_point(origin, dir, q_den(dir, cden), tn).0 - cn.0 * q_a(dir),
        q_point(origin, dir, q_den(dir, cden), tn).1 - cn.1 * q_a(dir),
        q_point(origin, dir, q_den(dir, cden), tn).2 - cn.2 * q_a(dir),
    )
}

/// What a correct record of a sphere hit holds, for center `cn / cden`:
/// the chosen root, the exact hit point, and the oriented normal.
///
/// Known limitation: the spherical texture coordinates of the classical
/// model (`u` from the azimuth, `v` from the polar angle of the outward
/// normal) are transcendental and have no exact form on this integer
/// grid; the record pins `u = v = 0` instead, and the textures of this
/// crate sample the exact hit point rather than the sphere's `(u, v)`.
pub open spec fn sphere_hit_post(
    res: Option<HitRecord>,
    origin: Point3,
    dir: Vec3,
    cn: (int, int, int),
    cden: int,
    radius: int,
    mat: usize,
    t_min: Rat,
    t_max: Rat,
) -> bool {
    let disc = q_disc(origin, cn, cden, dir, radius);
    let dn = q_den(dir, cden);
    let r1 = q_root1(origin, cn, cden, dir, radius);
    let r2 = q_root2(origin, cn, cden, dir, radius);
    match res {
        None => disc < 0 || (!in_itv(r1, dn, t_min, t_max) && !in_itv(r2, dn, t_min, t_max)),
        Some(rec) => {
            &&& disc >= 0
            &&& rec.t.den as int == dn
            &&& if in_itv(r1, dn, t_min, t_max) {
                rec.t.num as int == r1
            } else {
                in_itv(r2, dn, t_min, t_max) && rec.t.num as int == r2
            }
            &&& rec.wf()
            &&& rec.p.den == rec.t.den
            &&& rec.p.nums() == q_point(origin, dir, dn, rec.t.num as int)
            &&& rec.front_face == (dot3(
                tup3(dir),
                q_normal(origin, cn, cden, dir, rec.t.num as int),
            ) < 0)
            &&& tup3(rec.normal) == if rec.front_face {
                q_normal(origin, cn, cden, dir, rec.t.num as int)
            } else {
                neg3(q_normal(origin, cn, cden, dir, rec.t.num as int))
            }
            &&& rec.mat == mat
            &&& rec.u.num == 0
            &&& rec.v.num == 0
        },
    }
}

/// Solve the cleared quadratic and build the record. Shared by the fixed and
/// the moving sphere; the center is the rational point `cn / cden`.
fn hit_core(
    origin: Point3,
    dir: Vec3,
    cn: Vec3,
    cden: i64,
    radius: i64,
    mat: usize,
    t_min: Rat,
    t_max: Rat,
) -> (res: Option<HitRecord>)
    requires
        in_bounds(origin, CMAX as int),
        in_bounds(dir, CMAX as int),
        !(dir.x == 0 && dir.y == 0 && dir.z == 0),
        in_bounds(cn, 0x800_0000),
        1 <= cden <= 8192,
        1 <= radius <= CMAX,
        t_min.wf(),
        t_max.wf(),
    ensures
        sphere_hit_post(res, origin, dir, tup3(cn), cden as int, radius as int, mat, t_min, t_max),
{
    proof {
        lemma_mul_bound(origin.x as int, cden as int, 4096, 8192);
        lemma_mul_bound(origin.y as int, cden as int, 4096, 8192);
        lemma_mul_bound(origin.z as int, cden as int, 4096, 8192);
    }
    let oc = Vec3 {
        x: origin.x * cden - cn.x,
        y: origin.y * cden - cn.y,
        z: origin.z * cden - cn.z,
    };
    proof {
        assert(in_bounds(oc, 0x1000_0000));
        lemma_mul_bound(dir.x as int, dir.x as int, 4096, 4096);
        lemma_mul_bound(dir.y as int, dir.y as int, 4096, 4096);
        lemma_mul_bound(dir.z as int, dir.z as int, 4096, 4096);
    }
    let a = dir.length_squared();
    proof {
        assert(a <= 0x300_0000);
        assert(a >= 1) by (nonlinear_arith)
            requires
                a == (dir.x as int) * (dir.x as int) + (dir.y as int) * (dir.y as int) + (dir.z
                    as int) * (dir.z as int),
                !(dir.x == 0 && dir.y == 0 && dir.z == 0),
        ;
        lemma_mul_bound(oc.x as int, dir.x as int, 0x1000_0000, 4096);
        lemma_mul_bound(oc.y as int, dir.y as int, 0x1000_0000, 4096);
        lemma_mul_bound(oc.z as int, dir.z as int, 0x1000_0000, 4096);
    }
    let hb = oc.dot_product(dir);
    proof {
        assert(-0x400_0000_0000 <= hb as int <= 0x400_0000_0000);
        lemma_mul_bound(oc.x as int, oc.x as int, 0x1000_0000, 0x1000_0000);
        lemma_mul_bound(oc.y as int, oc.y as int, 0x1000_0000, 0x1000_0000);
        lemma_mul_bound(oc.z as int, oc.z as int, 0x1000_0000, 0x1000_0000);
    }
    let oc2 = oc.length_squared();
    proof {
        assert(oc2 <= 0x300_0000_0000_0000);
        lemma_mul_bound(cden as int, radius as int, 8192, 4096);
        lemma_mul_bound(cden as int * radius as int, cden as int * radius as int, 0x200_0000, 0x200_0000);
    }
    let cr2 = (cden * radius) * (cden * radius);
    let c_s = oc2 - cr2;
    proof {
        assert(cr2 as int == (cden as int) * (cden as int) * (radius as int) * (radius as int))
            by (nonlinear_arith)
            requires
                cr2 as int == ((cden as int) * (radius as int)) * ((cden as int) * (radius as int)),
        ;
        assert(-0x400_0000_0000_0000 <= c_s as int <= 0x400_0000_0000_0000);
        lemma_mul_bound(hb as int, hb as int, 0x400_0000_0000, 0x400_0000_0000);
        lemma_mul_bound(a as int, c_s as int, 0x400_0000, 0x400_0000_0000_0000);
    }
    let disc = (hb as i128) * (hb as i128) - (a as i128) * (c_s as i128);
    proof {
        assert(-0x40_0000_0000_0000_0000_0000 <= disc as int <= 0x40_0000_0000_0000_0000_0000);
    }
    if disc < 0 {
        return None;
    }
    let sqrtd_u = isqrt(disc as u128);
    proof {
        assert(sqrtd_u as int <= 0x800_0000_0000) by (nonlinear_arith)
            requires
                is_isqrt(disc as int, sqrtd_u as int),
                0 <= disc as int <= 0x40_0000_0000_0000_0000_0000,
        ;
    }
    let sqrtd = sqrtd_u as i64;
    proof {
        lemma_mul_bound(a as int, cden as int, 0x400_0000, 8192);
        assert(a as int * cden as int >= 1) by (nonlinear_arith)
            requires
                a >= 1,
                cden >= 1,
        ;
    }
    let den = a * cden;
    let root1 = Rat { num: -hb - sqrtd, den };
    let root2 = Rat { num: -hb + sqrtd, den };
    let root = if root_in_interval(root1.num, den, t_min, t_max) {
        root1
    } else if root_in_interval(root2.num, den, t_min, t_max) {
        root2
    } else {
        return None;
    };
    proof {
        assert(-0x1000_0000_0000 <= root.num as int <= 0x1000_0000_0000);
        assert(1 <= den as int <= 0x80_0000_0000);
        lemma_mul_bound(origin.x as int, den as int, 4096, 0x80_0000_0000);
        lemma_mul_bound(origin.y as int, den as int, 4096, 0x80_0000_0000);
        lemma_mul_bound(origin.z as int, den as int, 4096, 0x80_0000_0000);
        lemma_mul_bound(root.num as int, dir.x as int, 0x1000_0000_0000, 4096);
        lemma_mul_bound(root.num as int, dir.y as int, 0x1000_0000_0000, 4096);
        lemma_mul_bound(root.num as int, dir.z as int, 0x1000_0000_0000, 4096);
    }
    let p = PointR {
        xn: origin.x * den + root.num * dir.x,
        yn: origin.y * den + root.num * dir.y,
        zn: origin.z * den + root.num * dir.z,
        den,
    };
    proof {
        lemma_mul_bound(cn.x as int, a as int, 0x800_0000, 0x400_0000);
        lemma_mul_bound(cn.y as int, a as int, 0x800_0000, 0x400_0000);
        lemma_mul_bound(cn.z as int, a as int, 0x800_0000, 0x400_0000);
    }
    let outward = Vec3 { x: p.xn - cn.x * a, y: p.yn - cn.y * a, z: p.zn - cn.z * a };
    let mut rec = HitRecord {
        t: root,
        p,
        mat,
        u: Rat::from_int(0),
        v: Rat::from_int(0),
        normal: Vec3 { x: 0, y: 0, z: 0 },
        front_face: false,
    };
    let r = Ray { origin, direction: dir, time: 0 };
    rec.set_face_normal(&r, &outward);
    Some(rec)
}

/// The candidate distance of a sphere for a near clip `t_min`: the first of
/// the two roots not behind the clip, regardless of any far limit. A hit on
/// `[t_min, t_max]` is reported exactly when this candidate exists and does
/// not exceed `t_max`.
pub open spec fn q_candidate(
    origin: Point3,
    cn: (int, int, int),
    cden: int,
    dir: Vec3,
    radius: int,
    t_min: Rat,
) -> Option<(int, int)> {
    let disc = q_disc(origin, cn, cden, dir, radius);
    let dn = q_den(dir, cden);
    let r1 = q_root1(origin, cn, cden, dir, radius);
    let r2 = q_root2(origin, cn, cden, dir, radius);
    if disc < 0 {
        None
    } else if (t_min.num as int) * dn <= r1 * (t_min.den as int) {
        Some((r1, dn))
    } else if (t_min.num as int) * dn <= r2 * (t_min.den as int) {
        Some((r2, dn))
    } else {
        None
    }
}

/// A sphere intersection is the monotone filter of its candidate: the
/// result is the candidate when that lies within `t_max`, and a miss
/// otherwise; and a reported record also satisfies the contract with its
/// own distance as the far limit.
pub proof fn lemma_sphere_characterize(
    res: Option<HitRecord>,
    origin: Point3,
    dir: Vec3,
    cn: (int, int, int),
    cden: int,
    radius: int,
    mat: usize,
    t_min: Rat,
    t_max: Rat,
)
    requires
        sphere_hit_post(res, origin, dir, cn, cden, radius, mat, t_min, t_max),
        cden >= 1,
        q_a(dir) >= 1,
        t_min.wf(),
        t_max.wf(),
    ensures
        match q_candidate(origin, cn, cden, dir, radius, t_min) {
            None => res is None,
            Some((tn, td)) => {
                &&& td >= 1
                &&& if tn * (t_max.den as int) <= (t_max.num as int) * td {
                    &&& res matches Some(rec)
                    &&& res->Some_0.t.num as int == tn
                    &&& res->Some_0.t.den as int == td
                    &&& sphere_hit_post(
                        res,
                        origin,
                        dir,
                        cn,
                        cden,
                        radius,
                        mat,
                        t_min,
                        res->Some_0.t,
                    )
                } else {
                    res is None
                }
            },
        },
{
    let disc = q_disc(origin, cn, cden, dir, radius);
    let dn = q_den(dir, cden);
    let r1 = q_root1(origin, cn, cden, dir, radius);
    let r2 = q_root2(origin, cn, cden, dir, radius);
    assert(dn >= 1) by (nonlinear_arith)
        requires
            dn == q_a(dir) * cden,
            q_a(dir) >= 1,
            cden >= 1,
    ;
    if disc >= 0 {
        lemma_isqrt_exists(disc);
        assert(r1 <= r2);
        // A root beyond the far limit pushes the larger root beyond it too.
        if r1 * (t_max.den as int) > (t_max.num as int) * dn {
            lemma_mul_le_mono(r1, r2, t_max.den as int);
        }
        if (t_min.num as int) * dn <= r1 * (t_min.den as int) {
            // candidate is the nearer root
            if r1 * (t_max.den as int) <= (t_max.num as int) * dn {
                assert(in_itv(r1, dn, t_min, t_max));
                assert(res is Some);
                let rec = res->Some_0;
                assert(in_itv(r1, dn, t_min, rec.t)) by (nonlinear_arith)
                    requires
                        rec.t.num as int == r1,
                        rec.t.den as int == dn,
                        dn >= 1,
                        (t_min.num as int) * dn <= r1 * (t_min.den as int),
                ;
            } else {
                assert(!in_itv(r1, dn, t_min, t_max));
                assert(!in_itv(r2, dn, t_min, t_max));
                assert(res is None);
            }
        } else if (t_min.num as int) * dn <= r2 * (t_min.den as int) {
            // nearer root is behind the clip; candidate is the farther root
            assert(!in_itv(r1, dn, t_min, t_max));
            if r2 * (t_max.den as int) <= (t_max.num as int) * dn {
                assert(in_itv(r2, dn, t_min, t_max));
                assert(res is Some);
                let rec = res->Some_0;
                assert(rec.t.num as int == r2);
                assert(in_itv(r2, dn, t_min, rec.t)) by (nonlinear_arith)
                    requires
                        rec.t.num as int == r2,
                        rec.t.den as int == dn,
                        dn >= 1,
                        (t_min.num as int) * dn <= r2 * (t_min.den as int),
                ;
                assert(!in_itv(r1, dn, t_min, rec.t));
            } else {
                assert(!in_itv(r2, dn, t_min, t_max));
                assert(res is None);
            }
        } else {
            // both roots behind the clip
            assert(!in_itv(r1, dn, t_min, t_max));
            assert(!in_itv(r2, dn, t_min, t_max));
            assert(res is None);
        }
    }
}

/// A ray fired from strictly outside a sphere, straight through its center
/// (`center - origin == k * direction` for some positive `k`), meets it in
/// two distinct real roots — the discriminant is strictly positive — and
/// any intersection query over `[0, t_max]` with `t_max` past the center
/// reports the nearer of the two.
pub proof fn lemma_ray_through_center(s: Sphere, r: Ray, k: int, t_min: Rat, t_max: Rat)
    requires
        s.wf(),
        r.wf(),
        !(r.direction.x == 0 && r.direction.y == 0 && r.direction.z == 0),
        k >= 1,
        s.center.x - r.origin.x == k * r.direction.x,
        s.center.y - r.origin.y == k * r.direction.y,
        s.center.z - r.origin.z == k * r.direction.z,
        dot3(q_oc(r.origin, tup3(s.center), 1), q_oc(r.origin, tup3(s.center), 1)) > s.radius
            * s.radius,
        t_min.wf(),
        t_min.num == 0,
        t_max.wf(),
        t_max.num >= k * t_max.den,
    ensures
        q_disc(r.origin, tup3(s.center), 1, r.direction, s.radius as int) > 0,
        q_root1(r.origin, tup3(s.center), 1, r.direction, s.radius as int) < q_root2(
            r.origin,
            tup3(s.center),
            1,
            r.direction,
            s.radius as int,
        ),
        forall|res: Option<HitRecord>|
            #[trigger] sphere_hit_post(
                res,
                r.origin,
                r.direction,
                tup3(s.center),
                1,
                s.radius as int,
                s.mat,
                t_min,
                t_max,
            ) ==> (res matches Some(rec) && rec.t.num as int == q_root1(
                r.origin,
                tup3(s.center),
                1,
                r.direction,
                s.radius as int,
            )),
{
    let cn = tup3(s.center);
    let oc = q_oc(r.origin, cn, 1);
    let a = q_a(r.direction);
    let hb = q_hb(r.origin, cn, 1, r.direction);
    let c = q_c(r.origin, cn, 1, s.radius as int);
    let disc = q_disc(r.origin, cn, 1, r.direction, s.radius as int);
    let rad = s.radius as int;
    let dx = r.direction.x as int;
    let dy = r.direction.y as int;
    let dz = r.direction.z as int;
    let px = dx * dx;
    let py = dy * dy;
    let pz = dz * dz;
    assert(oc.0 == -(k * dx));
    assert(oc.1 == -(k * dy));
    assert(oc.2 == -(k * dz));
    assert(a >= 1) by (nonlinear_arith)
        requires
            a == dx * dx + dy * dy + dz * dz,
            !(dx == 0 && dy == 0 && dz == 0),
    ;
    assert(hb == -(k * px) - (k * py) - (k * pz)) by (nonlinear_arith)
        requires
            hb == (-(k * dx)) * dx + (-(k * dy)) * dy + (-(k * dz)) * dz,
            px == dx * dx,
            py == dy * dy,
            pz == dz * dz,
    ;
    assert(k * px + k * py + k * pz == k * (px + py + pz)) by (nonlinear_arith);
    assert(a == px + py + pz);
    assert(hb == -(k * a));
    assert((-(k * dx)) * (-(k * dx)) == (k * k) * px) by (nonlinear_arith)
        requires
            px == dx * dx,
    ;
    assert((-(k * dy)) * (-(k * dy)) == (k * k) * py) by (nonlinear_arith)
        requires
            py == dy * dy,
    ;
    assert((-(k * dz)) * (-(k * dz)) == (k * k) * pz) by (nonlinear_arith)
        requires
            pz == dz * dz,
    ;
    assert((k * k) * px + (k * k) * py + (k * k) * pz == (k * k) * (px + py + pz))
        by (nonlinear_arith);
    assert(oc.0 * oc.0 + oc.1 * oc.1 + oc.2 * oc.2 == (k * k) * a);
    assert(c == (k * k) * a - rad * rad) by (nonlinear_arith)
        requires
            c == (oc.0 * oc.0 + oc.1 * oc.1 + oc.2 * oc.2) - 1 * 1 * rad * rad,
            oc.0 * oc.0 + oc.1 * oc.1 + oc.2 * oc.2 == (k * k) * a,
    ;
    assert(hb * hb == (k * a) * (k * a)) by (nonlinear_arith)
        requires
            hb == -(k * a),
    ;
    assert(a * c == a * ((k * k) * a) - a * (rad * rad)) by (nonlinear_arith)
        requires
            c == (k * k) * a - rad * rad,
    ;
    assert((k * a) * (k * a) == a * ((k * k) * a)) by (nonlinear_arith);
    assert(disc == a * (rad * rad));
    assert(disc >= 1) by (nonlinear_arith)
        requires
            disc == a * (rad * rad),
            a >= 1,
            rad >= 1,
    ;
    lemma_isqrt_exists(disc);
    let sd = spec_isqrt(disc);
    assert(sd >= 1) by (nonlinear_arith)
        requires
            is_isqrt(disc, sd),
            disc >= 1,
    ;
    // strictly outside: the squared center distance exceeds the squared radius
    assert((k * k) * a > rad * rad);
    assert(a * (rad * rad) < a * ((k * k) * a)) by (nonlinear_arith)
        requires
            rad * rad < (k * k) * a,
            a >= 1,
    ;
    assert(sd * sd < (k * a) * (k * a));
    assert(k * a > sd) by (nonlinear_arith)
        requires
            sd * sd < (k * a) * (k * a),
            sd >= 0,
            k >= 1,
            a >= 1,
    ;
    let r1 = q_root1(r.origin, cn, 1, r.direction, rad);
    let r2 = q_root2(r.origin, cn, 1, r.direction, rad);
    assert(r1 == k * a - sd);
    assert(r2 == k * a + sd);
    let dn = q_den(r.direction, 1);
    assert(dn == a * 1);
    assert(dn == a);
    // the near root lies in [0, t_max]
    assert(r1 * (t_min.den as int) > 0) by (nonlinear_arith)
        requires
            r1 > 0,
            t_min.den >= 1,
    ;
    lemma_mul_le_mono(r1, k * a, t_max.den as int);
    assert((k * a) * (t_max.den as int) == (k * (t_max.den as int)) * a) by (nonlinear_arith);
    lemma_mul_le_mono(k * (t_max.den as int), t_max.num as int, a);
    assert(in_itv(r1, dn, t_min, t_max));
}

/// A tangent ray sits exactly at the discriminant-zero boundary: the two
/// root numerators coincide, a single repeated root.
pub proof fn lemma_tangent_repeated_root(s: Sphere, r: Ray)
    requires
        q_disc(r.origin, tup3(s.center), 1, r.direction, s.radius as int) == 0,
    ensures
        q_root1(r.origin, tup3(s.center), 1, r.direction, s.radius as int) == q_root2(
            r.origin,
            tup3(s.center),
            1,
            r.direction,
            s.radius as int,
        ),
{
    lemma_isqrt_exists(0);
    lemma_isqrt_unique(0, 0);
}

impl Sphere {
    pub open spec fn wf(self) -> bool {
        &&& in_bounds(self.center, CMAX as int)
        &&& 1 <= self.radius <= CMAX
    }

    pub fn new(center: Point3, radius: i64, material: usize) -> (s: Sphere)
        ensures
            s == (Sphere { center, radius, mat: material }),
    {
        Sphere { center, radius, mat: material }
    }

    /// Exact ray intersection: solve the half-b quadratic, discard a
    /// negative discriminant, try the nearer root first, then the farther;
    /// the record carries the exact rational hit point and oriented normal.
    /// Spherical texture coordinates are not computed (see
    /// `sphere_hit_post`): the record holds `u = v = 0`.
    pub fn hit(&self, r: &Ray, t_min: Rat, t_max: Rat) -> (res: Option<HitRecord>)
        requires
            self.wf(),
            r.wf(),
            !(r.direction.x == 0 && r.direction.y == 0 && r.direction.z == 0),
            t_min.wf(),
            t_max.wf(),
        ensures
            sphere_hit_post(
                res,
                r.origin,
                r.direction,
                tup3(self.center),
                1,
                self.radius as int,
                self.mat,
                t_min,
                t_max,
            ),
    {
        hit_core(r.origin, r.direction, self.center, 1, self.radius, self.mat, t_min, t_max)
    }

    /// The box from `center - radius` to `center + radius` on each axis.
    pub fn bounding_box(&self, _time0: i64, _time1: i64) -> (res: Option<AABB>)
        requires
            self.wf(),
        ensures
            res matches Some(b) && b.wf() && b.spec_ordered() && b.minimum.x == self.center.x
                - self.radius && b.minimum.y == self.center.y - self.radius && b.minimum.z
                == self.center.z - self.radius && b.maximum.x == self.center.x + self.radius
                && b.maximum.y == self.center.y + self.radius && b.maximum.z == self.center.z
                + self.radius,
    {
        Some(
            AABB {
                minimum: Vec3 {
                    x: self.center.x - self.radius,
                    y: self.center.y - self.radius,
                    z: self.center.z - self.radius,
                },
                maximum: Vec3 {
                    x: self.center.x + self.radius,
                    y: self.center.y + self.radius,
                    z: self.center.z + self.radius,
                },
            },
        )
    }
}

impl MovingSphere {
    pub open spec fn wf(self) -> bool {
        &&& in_bounds(self.center0, CMAX as int)
        &&& in_bounds(self.center1, CMAX as int)
        &&& -CMAX <= self.time0 < self.time1 <= CMAX
        &&& 1 <= self.radius <= CMAX
    }

    pub fn new(center0: Point3, center1: Point3, radius: i64, material: usize, time0: i64, time1: i64) -> (s: MovingSphere)
        ensures
            s == (MovingSphere { center0, center1, radius, mat: material, time0, time1 }),
    {
        MovingSphere { center0, center1, radius, mat: material, time0, time1 }
    }

    /// Numerators of the interpolated center at `time`, over the denominator
    /// `time1 - time0`:
    /// `center0 * (time1 - time0) + (time - time0) * (center1 - center0)`.
    pub open spec fn spec_center_num(self, time: int) -> (int, int, int) {
        let dt = self.time1 - self.time0;
        (
            (self.center0.x as int) * dt + (time - self.time0) * (self.center1.x - self.center0.x),
            (self.center0.y as int) * dt + (time - self.time0) * (self.center1.y - self.center0.y),
            (self.center0.z as int) * dt + (time - self.time0) * (self.center1.z - self.center0.z),
        )
    }

    /// The interpolated center at `time`, as exact numerators over
    /// `time1 - time0`.
    pub fn center(&self, time: i64) -> (c: (Vec3, i64))
        requires
            self.wf(),
            -CMAX <= time <= CMAX,
        ensures
            tup3(c.0) == self.spec_center_num(time as int),
            c.1 == self.time1 - self.time0,
            1 <= c.1 <= 8192,
            in_bounds(c.0, 0x800_0000),
    {
        let dt = self.time1 - self.time0;
        proof {
            lemma_mul_bound(self.center0.x as int, dt as int, 4096, 8192);
            lemma_mul_bound(self.center0.y as int, dt as int, 4096, 8192);
            lemma_mul_bound(self.center0.z as int, dt as int, 4096, 8192);
            lemma_mul_bound((time - self.time0) as int, (self.center1.x - self.center0.x) as int, 8192, 8192);
            lemma_mul_bound((time - self.time0) as int, (self.center1.y - self.center0.y) as int, 8192, 8192);
            lemma_mul_bound((time - self.time0) as int, (self.center1.z - self.center0.z) as int, 8192, 8192);
        }
        let c = Vec3 {
            x: self.center0.x * dt + (time - self.time0) * (self.center1.x - self.center0.x),
            y: self.center0.y * dt + (time - self.time0) * (self.center1.y - self.center0.y),
            z: self.center0.z * dt + (time - self.time0) * (self.center1.z - self.center0.z),
        };
        (c, dt)
    }

    /// Same algebra as the fixed sphere, with the center taken at the ray's
    /// time stamp; the quadratic is cleared of the time denominator.
    pub fn hit(&self, r: &Ray, t_min: Rat, t_max: Rat) -> (res: Option<HitRecord>)
        requires
            self.wf(),
            r.wf(),
            !(r.direction.x == 0 && r.direction.y == 0 && r.direction.z == 0),
            t_min.wf(),
            t_max.wf(),
        ensures
            sphere_hit_post(
                res,
                r.origin,
                r.direction,
                self.spec_center_num(r.time as int),
                (self.time1 - self.time0) as int,
                self.radius as int,
                self.mat,
                t_min,
                t_max,
            ),
    {
        let (cn, cden) = self.center(r.time);
        hit_core(r.origin, r.direction, cn, cden, self.radius, self.mat, t_min, t_max)
    }

    /// A box that spans the whole motion: the union of the boxes around
    /// `center0` and `center1`. By linearity of the motion it contains the
    /// sphere at every time between `time0` and `time1`, so it is a
    /// conservative answer for any query interval within the sphere's span.
    pub fn bounding_box(&self, _time0: i64, _time1: i64) -> (res: Option<AABB>)
        requires
            self.wf(),
        ensures
            res matches Some(b) && b.wf() && b.spec_ordered() && b
                == crate::aabb::spec_surround(
                AABB {
                    minimum: Vec3 {
                        x: (self.center0.x - self.radius) as i64,
                        y: (self.center0.y - self.radius) as i64,
                        z: (self.center0.z - self.radius) as i64,
                    },
                    maximum: Vec3 {
                        x: (self.center0.x + self.radius) as i64,
                        y: (self.center0.y + self.radius) as i64,
                        z: (self.center0.z + self.radius) as i64,
                    },
                },
                AABB {
                    minimum: Vec3 {
                        x: (self.center1.x - self.radius) as i64,
                        y: (self.center1.y - self.radius) as i64,
                        z: (self.center1.z - self.radius) as i64,
                    },
                    maximum: Vec3 {
                        x: (self.center1.x + self.radius) as i64,
                        y: (self.center1.y + self.radius) as i64,
                        z: (self.center1.z + self.radius) as i64,
                    },
                },
            ),
    {
        let box0 = AABB {
            minimum: Vec3 {
                x: self.center0.x - self.radius,
                y: self.center0.y - self.radius,
                z: self.center0.z - self.radius,
            },
            maximum: Vec3 {
                x: self.center0.x + self.radius,
                y: self.center0.y + self.radius,
                z: self.center0.z + self.radius,
            },
        };
        let box1 = AABB {
            minimum: Vec3 {
                x: self.center1.x - self.radius,
                y: self.center1.y - self.radius,
                z: self.center1.z - self.radius,
            },
            maximum: Vec3 {
                x: self.center1.x + self.radius,
                y: self.center1.y + self.radius,
                z: self.center1.z + self.radius,
            },
        };
        Some(AABB::surrounding_box(&box0, &box1))
    }
}

} // verus!
