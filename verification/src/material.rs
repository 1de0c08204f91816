use vstd::prelude::*;
use crate::vec3::{Vec3, in_bounds, dot3, tup3, neg3, spec_dot, CMAX};
use crate::ray::Ray;
use crate::rat::{
    Rat, lemma_mul_bound, spec_isqrt, isqrt, is_isqrt, lemma_isqrt_exists, spec_tdiv, tdiv_wide,
    lemma_tdiv_bounds, lemma_tdiv_at_least_one, spec_fdiv, fdiv,
};
use crate::hittable::{HitRecord, PointR};
use crate::texture::{Texture, COLOR_SCALE, color_wf};

verus! {

/// One unit of direction length: scatter directions are held near this
/// scale, which stands for 1.0 and keeps every scattered ray on the grid.
pub const UNIT_LEN: i64 = 2048;

/// Relies on rand::Rng::gen_range on the thread-local generator: a sample
/// within the inclusive range (nothing more is promised of it).
#[verifier::external_body]
fn rand_in_range(lo: i64, hi: i64) -> (r: i64)
    requires
        lo <= hi,
    ensures
        lo <= r <= hi,
{
    rand::Rng::gen_range(&mut rand::thread_rng(), lo..=hi)
}

/// A nonzero lattice vector strictly inside the sphere of radius
/// `UNIT_LEN`, by rejection sampling; after many rejections an axis vector
/// stands in (any nonzero in-ball vector meets the contract).
pub fn random_in_unit_sphere() -> (v: Vec3)
    ensures
        in_bounds(v, UNIT_LEN - 1),
        spec_dot(v, v) < UNIT_LEN * UNIT_LEN,
        !(v.x == 0 && v.y == 0 && v.z == 0),
{
    let mut tries: u8 = 0;
    while tries < 64
        invariant
            true,
        decreases 64 - tries,
    {
        let x = rand_in_range(-(UNIT_LEN - 1), UNIT_LEN - 1);
        let y = rand_in_range(-(UNIT_LEN - 1), UNIT_LEN - 1);
        let z = rand_in_range(-(UNIT_LEN - 1), UNIT_LEN - 1);
        proof {
            lemma_mul_bound(x as int, x as int, 2048, 2048);
            lemma_mul_bound(y as int, y as int, 2048, 2048);
            lemma_mul_bound(z as int, z as int, 2048, 2048);
        }
        let l2 = x * x + y * y + z * z;
        if l2 < UNIT_LEN * UNIT_LEN && !(x == 0 && y == 0 && z == 0) {
            return Vec3 { x, y, z };
        }
        tries = tries + 1;
    }
    proof {
        assert(spec_dot(
            Vec3 { x: 0, y: 0, z: (UNIT_LEN - 1) as i64 },
            Vec3 { x: 0, y: 0, z: (UNIT_LEN - 1) as i64 },
        ) < UNIT_LEN * UNIT_LEN) by (nonlinear_arith);
    }
    Vec3 { x: 0, y: 0, z: UNIT_LEN - 1 }
}

/// `v`, rescaled to length about `UNIT_LEN`: each component is
/// `v_i * UNIT_LEN / |v|` with the floor square root as the length and
/// division truncated toward zero.
pub open spec fn spec_unit_den(t: (int, int, int)) -> int {
    let l0 = spec_isqrt(dot3(t, t));
    if l0 < 1 {
        1
    } else {
        l0
    }
}

pub open spec fn spec_unit_scaled(t: (int, int, int)) -> (int, int, int) {
    let l = spec_unit_den(t);
    (spec_tdiv(t.0 * 2048, l), spec_tdiv(t.1 * 2048, l), spec_tdiv(t.2 * 2048, l))
}

/// Rescale a nonzero vector to the unit length scale. The result is
/// bounded by `UNIT_LEN` and never the zero vector.
pub fn unit_scaled(v: Vec3) -> (u: Vec3)
    requires
        in_bounds(v, 0x400_0000_0000_0000),
        !(v.x == 0 && v.y == 0 && v.z == 0),
    ensures
        tup3(u) == spec_unit_scaled(tup3(v)),
        in_bounds(u, UNIT_LEN as int),
        !(u.x == 0 && u.y == 0 && u.z == 0),
{
    let l2 = v.dot_wide(v);
    proof {
        assert(l2 >= 1) by (nonlinear_arith)
            requires
                l2 == (v.x as int) * (v.x as int) + (v.y as int) * (v.y as int) + (v.z as int) * (
                v.z as int),
                !(v.x == 0 && v.y == 0 && v.z == 0),
        ;
        lemma_mul_bound(v.x as int, v.x as int, 0x400_0000_0000_0000, 0x400_0000_0000_0000);
        lemma_mul_bound(v.y as int, v.y as int, 0x400_0000_0000_0000, 0x400_0000_0000_0000);
        lemma_mul_bound(v.z as int, v.z as int, 0x400_0000_0000_0000, 0x400_0000_0000_0000);
    }
    let lu = isqrt(l2 as u128);
    proof {
        assert(lu >= 1) by (nonlinear_arith)
            requires
                is_isqrt(l2 as int, lu as int),
                l2 >= 1,
        ;
        assert(lu as int <= 0x800_0000_0000_0000) by (nonlinear_arith)
            requires
                is_isqrt(l2 as int, lu as int),
                0 <= l2 as int <= 0x30_0000_0000_0000_0000_0000_0000_0000,
        ;
    }
    let l = lu as i64;
    proof {
        // each component is bounded by the length
        assert((v.x as int) * (v.x as int) <= l2 as int) by (nonlinear_arith)
            requires
                l2 == (v.x as int) * (v.x as int) + (v.y as int) * (v.y as int) + (v.z as int) * (
                v.z as int),
        ;
        assert((v.y as int) * (v.y as int) <= l2 as int) by (nonlinear_arith)
            requires
                l2 == (v.x as int) * (v.x as int) + (v.y as int) * (v.y as int) + (v.z as int) * (
                v.z as int),
        ;
        assert((v.z as int) * (v.z as int) <= l2 as int) by (nonlinear_arith)
            requires
                l2 == (v.x as int) * (v.x as int) + (v.y as int) * (v.y as int) + (v.z as int) * (
                v.z as int),
        ;
        lemma_abs_le_isqrt(v.x as int, l2 as int, l as int);
        lemma_abs_le_isqrt(v.y as int, l2 as int, l as int);
        lemma_abs_le_isqrt(v.z as int, l2 as int, l as int);
        lemma_mul_bound(v.x as int, 2048, l as int, 2048);
        lemma_mul_bound(v.y as int, 2048, l as int, 2048);
        lemma_mul_bound(v.z as int, 2048, l as int, 2048);
    }
    let ux = tdiv_wide((v.x as i128) * 2048, l as i128);
    let uy = tdiv_wide((v.y as i128) * 2048, l as i128);
    let uz = tdiv_wide((v.z as i128) * 2048, l as i128);
    proof {
        lemma_tdiv_bounds((v.x as int) * 2048, l as int, 2048);
        lemma_tdiv_bounds((v.y as int) * 2048, l as int, 2048);
        lemma_tdiv_bounds((v.z as int) * 2048, l as int, 2048);
        assert(2048 * (l as int) == (l as int) * 2048) by (nonlinear_arith);
        // the component of greatest magnitude keeps a nonzero image
        if v.x >= v.y && v.x >= v.z && v.x >= -v.y && v.x >= -v.z || -v.x >= v.y && -v.x >= v.z
            && -v.x >= -v.y && -v.x >= -v.z {
            lemma_unit_comp_survives(v.x as int, v.y as int, v.z as int, l as int, l2 as int);
        } else if v.y >= v.z && v.y >= -v.z || -v.y >= v.z && -v.y >= -v.z {
            lemma_unit_comp_survives(v.y as int, v.x as int, v.z as int, l as int, l2 as int);
            assert(dot3(tup3(v), tup3(v)) == (v.y as int) * (v.y as int) + (v.x as int) * (v.x
                as int) + (v.z as int) * (v.z as int)) by (nonlinear_arith);
        } else {
            lemma_unit_comp_survives(v.z as int, v.x as int, v.y as int, l as int, l2 as int);
            assert(dot3(tup3(v), tup3(v)) == (v.z as int) * (v.z as int) + (v.x as int) * (v.x
                as int) + (v.y as int) * (v.y as int)) by (nonlinear_arith);
        }
    }
    Vec3 { x: ux as i64, y: uy as i64, z: uz as i64 }
}

/// A squared component below the squared length stays within the length.
pub proof fn lemma_abs_le_isqrt(c: int, l2: int, l: int)
    by (nonlinear_arith)
    requires
        c * c <= l2,
        is_isqrt(l2, l),
    ensures
        -l <= c <= l,
{
}

/// One component's contribution to a dot product, after rescaling: it
/// loses at most one divisor-sized step against the exact contribution.
proof fn lemma_scaled_comp_dot(vi: int, ni: int, l: int, ui: int)
    by (nonlinear_arith)
    requires
        l >= 1,
        -2048 <= ni <= 2048,
        l * ui > 2048 * vi - l,
        l * ui < 2048 * vi + l,
    ensures
        l * (ui * ni) >= 2048 * (vi * ni) - 2048 * l,
{
}

/// Rescaling to the unit length keeps a dot product strictly positive
/// whenever it clears a margin of three divisor units (about three parts
/// in two thousand at the unit scale): each component's truncation loses
/// less than one grid step.
pub proof fn lemma_unit_scaled_keeps_dot(v: (int, int, int), n: (int, int, int))
    requires
        -2048 <= n.0 <= 2048,
        -2048 <= n.1 <= 2048,
        -2048 <= n.2 <= 2048,
        dot3(v, n) > 3 * spec_unit_den(v),
    ensures
        dot3(spec_unit_scaled(v), n) > 0,
{
    let l = spec_unit_den(v);
    let u = spec_unit_scaled(v);
    crate::rat::lemma_tdiv_mul_err(v.0 * 2048, l);
    crate::rat::lemma_tdiv_mul_err(v.1 * 2048, l);
    crate::rat::lemma_tdiv_mul_err(v.2 * 2048, l);
    assert(v.0 * 2048 == 2048 * v.0) by (nonlinear_arith);
    assert(v.1 * 2048 == 2048 * v.1) by (nonlinear_arith);
    assert(v.2 * 2048 == 2048 * v.2) by (nonlinear_arith);
    lemma_scaled_comp_dot(v.0, n.0, l, u.0);
    lemma_scaled_comp_dot(v.1, n.1, l, u.1);
    lemma_scaled_comp_dot(v.2, n.2, l, u.2);
    assert(l * (u.0 * n.0) + l * (u.1 * n.1) + l * (u.2 * n.2) == l * (u.0 * n.0 + u.1 * n.1 + u.2
        * n.2)) by (nonlinear_arith);
    assert(2048 * (v.0 * n.0) + 2048 * (v.1 * n.1) + 2048 * (v.2 * n.2) == 2048 * (v.0 * n.0 + v.1
        * n.1 + v.2 * n.2)) by (nonlinear_arith);
    assert(2048 * dot3(v, n) >= 2048 * (3 * l + 1)) by (nonlinear_arith)
        requires
            dot3(v, n) > 3 * l,
    ;
    assert(l * dot3(u, n) > 0);
    assert(dot3(u, n) > 0) by (nonlinear_arith)
        requires
            l >= 1,
            l * dot3(u, n) > 0,
    ;
}

/// The component of greatest magnitude, rescaled, is at least one: its
/// magnitude is at least half the length, and the scale is far above two.
proof fn lemma_unit_comp_survives(a: int, b: int, c: int, l: int, l2: int)
    requires
        l2 == a * a + b * b + c * c,
        is_isqrt(l2, l),
        l >= 1,
        a >= b && a >= c && a >= -b && a >= -c || -a >= b && -a >= c && -a >= -b && -a >= -c,
        !(a == 0 && b == 0 && c == 0),
    ensures
        spec_tdiv(a * 2048, l) >= 1 || spec_tdiv(a * 2048, l) <= -1,
{
    assert(a != 0) by (nonlinear_arith)
        requires
            l2 == a * a + b * b + c * c,
            a >= b && a >= c && a >= -b && a >= -c || -a >= b && -a >= c && -a >= -b && -a >= -c,
            !(a == 0 && b == 0 && c == 0),
    ;
    assert(l2 <= 4 * (a * a)) by (nonlinear_arith)
        requires
            l2 == a * a + b * b + c * c,
            a >= b && a >= c && a >= -b && a >= -c || -a >= b && -a >= c && -a >= -b && -a >= -c,
    ;
    let m = if a >= 0 { a } else { -a };
    assert(l <= 2 * m) by (nonlinear_arith)
        requires
            is_isqrt(l2, l),
            l2 <= 4 * (a * a),
            m == if a >= 0 { a } else { -a },
            a != 0,
    ;
    assert(m * 2048 >= l);
    if a >= 0 {
        lemma_tdiv_at_least_one(a * 2048, l);
    } else {
        assert(a * 2048 == -(m * 2048)) by (nonlinear_arith)
            requires
                m == -a,
        ;
        lemma_tdiv_at_least_one(a * 2048, l);
    }
}

/// The mirror reflection of `v` about `n`, scaled by the positive factor
/// `|n|^2`: `v * (n . n) - 2 (v . n) n`.
pub open spec fn spec_reflect(v: (int, int, int), n: (int, int, int)) -> (int, int, int) {
    (
        v.0 * dot3(n, n) - 2 * dot3(v, n) * n.0,
        v.1 * dot3(n, n) - 2 * dot3(v, n) * n.1,
        v.2 * dot3(n, n) - 2 * dot3(v, n) * n.2,
    )
}

pub fn reflect(v: &Vec3, n: &Vec3) -> (r: Vec3)
    requires
        in_bounds(*v, 8192),
        in_bounds(*n, 8192),
    ensures
        tup3(r) == spec_reflect(tup3(*v), tup3(*n)),
        in_bounds(r, 0x80_0000_0000_0000),
{
    let nn = n.dot_product(*n);
    let vn = v.dot_product(*n);
    proof {
        lemma_mul_bound(n.x as int, n.x as int, 8192, 8192);
        lemma_mul_bound(n.y as int, n.y as int, 8192, 8192);
        lemma_mul_bound(n.z as int, n.z as int, 8192, 8192);
        lemma_mul_bound(v.x as int, n.x as int, 8192, 8192);
        lemma_mul_bound(v.y as int, n.y as int, 8192, 8192);
        lemma_mul_bound(v.z as int, n.z as int, 8192, 8192);
        lemma_mul_bound(v.x as int, nn as int, 8192, 0xC000_0000);
        lemma_mul_bound(v.y as int, nn as int, 8192, 0xC000_0000);
        lemma_mul_bound(v.z as int, nn as int, 8192, 0xC000_0000);
        lemma_mul_bound(2 * vn as int, n.x as int, 0x1_8000_0000, 8192);
        lemma_mul_bound(2 * vn as int, n.y as int, 0x1_8000_0000, 8192);
        lemma_mul_bound(2 * vn as int, n.z as int, 0x1_8000_0000, 8192);
    }
    Vec3 {
        x: v.x * nn - 2 * vn * n.x,
        y: v.y * nn - 2 * vn * n.y,
        z: v.z * nn - 2 * vn * n.z,
    }
}

/// The mirror reflection's component along the normal is exactly the
/// incoming component, flipped and scaled: a ray striking the front side
/// always reflects off it (before any rescaling).
pub proof fn lemma_reflect_against_normal(v: (int, int, int), n: (int, int, int))
    ensures
        dot3(spec_reflect(v, n), n) == -(dot3(v, n) * dot3(n, n)),
{
    let nn = dot3(n, n);
    let vn = dot3(v, n);
    let r = spec_reflect(v, n);
    assert(r.0 * n.0 == (v.0 * n.0) * nn - 2 * vn * (n.0 * n.0)) by (nonlinear_arith)
        requires
            r.0 == v.0 * nn - 2 * vn * n.0,
    ;
    assert(r.1 * n.1 == (v.1 * n.1) * nn - 2 * vn * (n.1 * n.1)) by (nonlinear_arith)
        requires
            r.1 == v.1 * nn - 2 * vn * n.1,
    ;
    assert(r.2 * n.2 == (v.2 * n.2) * nn - 2 * vn * (n.2 * n.2)) by (nonlinear_arith)
        requires
            r.2 == v.2 * nn - 2 * vn * n.2,
    ;
    assert((v.0 * n.0) * nn + (v.1 * n.1) * nn + (v.2 * n.2) * nn == (v.0 * n.0 + v.1 * n.1 + v.2
        * n.2) * nn) by (nonlinear_arith);
    assert(2 * vn * (n.0 * n.0) + 2 * vn * (n.1 * n.1) + 2 * vn * (n.2 * n.2) == 2 * vn * (n.0
        * n.0 + n.1 * n.1 + n.2 * n.2)) by (nonlinear_arith);
    assert(vn * nn - 2 * vn * nn == -(vn * nn)) by (nonlinear_arith);
}

/// Reflection preserves length exactly, up to the scale factor:
/// `|reflect(v, n)|^2 == |v|^2 * |n|^4`. In particular the reflection of a
/// nonzero vector about a nonzero normal is never the zero vector.
pub proof fn lemma_reflect_length(v: (int, int, int), n: (int, int, int))
    ensures
        dot3(spec_reflect(v, n), spec_reflect(v, n)) == dot3(v, v) * (dot3(n, n) * dot3(n, n)),
{
    let nn = dot3(n, n);
    let vn = dot3(v, n);
    let r = spec_reflect(v, n);
    lemma_reflect_comp_square(v.0, n.0, nn, vn, r.0);
    lemma_reflect_comp_square(v.1, n.1, nn, vn, r.1);
    lemma_reflect_comp_square(v.2, n.2, nn, vn, r.2);
    assert((v.0 * v.0) * (nn * nn) + (v.1 * v.1) * (nn * nn) + (v.2 * v.2) * (nn * nn) == (v.0
        * v.0 + v.1 * v.1 + v.2 * v.2) * (nn * nn)) by (nonlinear_arith);
    assert(4 * (v.0 * n.0) * (vn * nn) + 4 * (v.1 * n.1) * (vn * nn) + 4 * (v.2 * n.2) * (vn * nn)
        == 4 * (v.0 * n.0 + v.1 * n.1 + v.2 * n.2) * (vn * nn)) by (nonlinear_arith);
    assert(4 * (vn * vn) * (n.0 * n.0) + 4 * (vn * vn) * (n.1 * n.1) + 4 * (vn * vn) * (n.2 * n.2)
        == 4 * (vn * vn) * (n.0 * n.0 + n.1 * n.1 + n.2 * n.2)) by (nonlinear_arith);
    assert(4 * vn * (vn * nn) == 4 * (vn * vn) * nn) by (nonlinear_arith);
}

/// One squared component of a reflection, expanded.
proof fn lemma_reflect_comp_square(a: int, b: int, nn: int, vn: int, r: int)
    requires
        r == a * nn - 2 * vn * b,
    ensures
        r * r == (a * a) * (nn * nn) - 4 * (a * b) * (vn * nn) + 4 * (vn * vn) * (b * b),
{
    assert(r * r == (a * nn) * (a * nn) - 2 * ((a * nn) * (2 * vn * b)) + (2 * vn * b) * (2 * vn
        * b)) by (nonlinear_arith)
        requires
            r == a * nn - 2 * vn * b,
    ;
    assert((a * nn) * (a * nn) == (a * a) * (nn * nn)) by (nonlinear_arith);
    assert(2 * ((a * nn) * (2 * vn * b)) == 4 * (a * b) * (vn * nn)) by (nonlinear_arith);
    assert((2 * vn * b) * (2 * vn * b) == 4 * (vn * vn) * (b * b)) by (nonlinear_arith);
}

/// The reflection about the rescaled vectors of two nonzero vectors is
/// itself nonzero.
proof fn lemma_reflect_of_units_nonzero(du: Vec3, nu: Vec3)
    requires
        !(du.x == 0 && du.y == 0 && du.z == 0),
        !(nu.x == 0 && nu.y == 0 && nu.z == 0),
    ensures
        dot3(spec_reflect(tup3(du), tup3(nu)), spec_reflect(tup3(du), tup3(nu))) >= 1,
        spec_reflect(tup3(du), tup3(nu)) != (0int, 0int, 0int),
{
    lemma_reflect_length(tup3(du), tup3(nu));
    assert(dot3(tup3(du), tup3(du)) >= 1) by (nonlinear_arith)
        requires
            dot3(tup3(du), tup3(du)) == (du.x as int) * (du.x as int) + (du.y as int) * (du.y
                as int) + (du.z as int) * (du.z as int),
            !(du.x == 0 && du.y == 0 && du.z == 0),
    ;
    assert(dot3(tup3(nu), tup3(nu)) >= 1) by (nonlinear_arith)
        requires
            dot3(tup3(nu), tup3(nu)) == (nu.x as int) * (nu.x as int) + (nu.y as int) * (nu.y
                as int) + (nu.z as int) * (nu.z as int),
            !(nu.x == 0 && nu.y == 0 && nu.z == 0),
    ;
    assert(dot3(tup3(du), tup3(du)) * (dot3(tup3(nu), tup3(nu)) * dot3(tup3(nu), tup3(nu))) >= 1)
        by (nonlinear_arith)
        requires
            dot3(tup3(du), tup3(du)) >= 1,
            dot3(tup3(nu), tup3(nu)) >= 1,
    ;
}

/// Componentwise sum.
pub open spec fn add3(a: (int, int, int), b: (int, int, int)) -> (int, int, int) {
    (a.0 + b.0, a.1 + b.1, a.2 + b.2)
}

/// Where a scattered ray starts: the hit point, taken to the grid by floor
/// division and clamped to the scene's coordinate limit.
pub open spec fn spec_scatter_origin(p: PointR) -> (int, int, int) {
    (
        spec_clamp_c(spec_fdiv(p.xn as int, p.den as int)),
        spec_clamp_c(spec_fdiv(p.yn as int, p.den as int)),
        spec_clamp_c(spec_fdiv(p.zn as int, p.den as int)),
    )
}

pub open spec fn spec_clamp_c(x: int) -> int {
    if x < -4096 {
        -4096
    } else if x > 4096 {
        4096
    } else {
        x
    }
}

fn scatter_origin(p: &PointR) -> (o: Vec3)
    requires
        p.wf(),
        -0x400_0000_0000_0000 <= p.xn <= 0x400_0000_0000_0000,
        -0x400_0000_0000_0000 <= p.yn <= 0x400_0000_0000_0000,
        -0x400_0000_0000_0000 <= p.zn <= 0x400_0000_0000_0000,
    ensures
        tup3(o) == spec_scatter_origin(*p),
        in_bounds(o, CMAX as int),
{
    let x = fdiv(p.xn, p.den);
    let y = fdiv(p.yn, p.den);
    let z = fdiv(p.zn, p.den);
    let cx = if x < -CMAX { -CMAX } else if x > CMAX { CMAX } else { x };
    let cy = if y < -CMAX { -CMAX } else if y > CMAX { CMAX } else { y };
    let cz = if z < -CMAX { -CMAX } else if z > CMAX { CMAX } else { z };
    Vec3 { x: cx, y: cy, z: cz }
}

/// A diffuse material: albedo from its texture, scatter direction the unit
/// normal plus a random unit vector.
#[derive(Clone, Copy, Debug)]
pub struct Lambertian {
    pub albedo: Texture,
}

impl Lambertian {
    pub fn new(albedo: Texture) -> (m: Lambertian)
        ensures
            m.albedo == albedo,
    {
        Lambertian { albedo }
    }
}

/// A mirror with a fuzz radius on the unit scale (`UNIT_LEN` stands for 1).
#[derive(Clone, Copy, Debug)]
pub struct Metal {
    pub albedo: Vec3,
    pub fuzz: i64,
}

impl Metal {
    pub fn new(albedo: Vec3, fuzz: i64) -> (m: Metal)
        ensures
            m.albedo == albedo,
            m.fuzz == fuzz,
    {
        Metal { albedo, fuzz }
    }
}

/// A clear material with an index of refraction `ir_num / ir_den`.
#[derive(Clone, Copy, Debug)]
pub struct Dielectric {
    pub ir_num: i64,
    pub ir_den: i64,
}

impl Dielectric {
    pub fn new(ir_num: i64, ir_den: i64) -> (m: Dielectric)
        ensures
            m.ir_num == ir_num,
            m.ir_den == ir_den,
    {
        Dielectric { ir_num, ir_den }
    }

    /// Schlick's reflectance for a refraction ratio `rn / rd` at the
    /// clamped cosine `cos`, as the exact fraction numerator/denominator.
    pub fn reflectance(cos: i64, rn: i64, rd: i64) -> (r: (i128, i128))
        requires
            -0x40_0000 <= cos <= 0x40_0000,
            1 <= rn <= 1024,
            1 <= rd <= 1024,
        ensures
            r.0 == spec_reflectance_num(cos as int, rn as int, rd as int),
            r.1 == spec_reflectance_den(rn as int, rd as int),
            r.1 >= 1,
    {
        proof {
            lemma_mul_bound((rn - rd) as int, (rn - rd) as int, 1024, 1024);
            lemma_mul_bound((rn + rd) as int, (rn + rd) as int, 2048, 2048);
        }
        let r0n = (rn - rd) * (rn - rd);
        let r0d = (rn + rd) * (rn + rd);
        let lim = UNIT_LEN * UNIT_LEN;
        let fcw = (((lim - cos) as u64) * 65536) / (lim as u64);
        proof {
            vstd::arithmetic::div_mod::lemma_div_pos_is_pos(
                ((lim - cos) as int) * 65536,
                lim as int,
            );
            vstd::arithmetic::div_mod::lemma_div_is_ordered(
                ((lim - cos) as int) * 65536,
                0x80_0000_0000,
                lim as int,
            );
            vstd::arithmetic::div_mod::lemma_div_multiples_vanish(131072, 0x40_0000);
            assert(0x40_0000int * 131072 == 0x80_0000_0000int);
        }
        let fc = fcw as i64;
        proof {
            lemma_reflectance_powers(fc as int);
        }
        let p5 = (fc as i128) * (fc as i128) * (fc as i128) * (fc as i128) * (fc as i128);
        proof {
            lemma_mul_bound(
                (r0d - r0n) as int,
                p5 as int,
                0x400_0000,
                0x20_0000_0000_0000_0000_0000,
            );
            assert(r0d >= 1) by (nonlinear_arith)
                requires
                    r0d as int == ((rn + rd) as int) * ((rn + rd) as int),
                    rn + rd >= 2,
            ;
        }
        let num = (r0n as i128) * 65536 * 65536 * 65536 * 65536 * 65536 + ((r0d - r0n) as i128)
            * p5;
        let den = (r0d as i128) * 65536 * 65536 * 65536 * 65536 * 65536;
        (num, den)
    }
}

/// The closed set of materials, dispatched by exhaustive match. Many
/// primitives may carry the same material index; the arena of materials is
/// shared read-only across the render.
#[derive(Clone, Copy, Debug)]
pub enum Material {
    Lambertian(Lambertian),
    Metal(Metal),
    Dielectric(Dielectric),
}

/// The direction a diffuse scatter takes for the drawn in-sphere vector
/// `w`: unit normal plus unit `w`, falling back to the bare unit normal
/// when the sum vanishes.
pub open spec fn spec_lambertian_dir(n: (int, int, int), w: (int, int, int)) -> (int, int, int) {
    let base = spec_unit_scaled(n);
    let d = add3(base, spec_unit_scaled(w));
    if d == (0int, 0int, 0int) {
        base
    } else {
        d
    }
}

/// The drawn vector is a nonzero lattice point strictly inside the unit
/// sphere.
pub open spec fn spec_in_sphere(w: (int, int, int)) -> bool {
    &&& dot3(w, w) < 2048 * 2048
    &&& w != (0int, 0int, 0int)
    &&& -2048 <= w.0 <= 2048
    &&& -2048 <= w.1 <= 2048
    &&& -2048 <= w.2 <= 2048
}

/// The raw metal scatter direction for the drawn vector `w`: the unit
/// mirror reflection perturbed by `fuzz * w`.
pub open spec fn spec_metal_raw(fuzz: int, n: (int, int, int), d: (int, int, int), w: (int, int, int)) -> (int, int, int) {
    let ru = spec_unit_scaled(spec_reflect(spec_unit_scaled(d), spec_unit_scaled(n)));
    add3(
        ru,
        (spec_tdiv(fuzz * w.0, 2048), spec_tdiv(fuzz * w.1, 2048), spec_tdiv(fuzz * w.2, 2048)),
    )
}

/// The final metal scatter direction: the perturbed reflection, normalized
/// back to the unit scale.
pub open spec fn spec_metal_dir(fuzz: int, n: (int, int, int), d: (int, int, int), w: (int, int, int)) -> (int, int, int) {
    spec_unit_scaled(spec_metal_raw(fuzz, n, d, w))
}

/// What a scattered ray shares in every material: it continues from the
/// hit point at the incoming ray's time, within the grid, with a nonzero
/// direction.
pub open spec fn scattered_ray_ok(r: Ray, rec: HitRecord, sray: Ray) -> bool {
    &&& sray.time == r.time
    &&& tup3(sray.origin) == spec_scatter_origin(rec.p)
    &&& sray.wf()
    &&& !(sray.direction.x == 0 && sray.direction.y == 0 && sray.direction.z == 0)
}

pub open spec fn lambertian_post(m: Lambertian, r: Ray, rec: HitRecord, res: Option<(Vec3, Ray)>) -> bool {
    if rec.normal.x == 0 && rec.normal.y == 0 && rec.normal.z == 0 {
        res is None
    } else {
        &&& res matches Some((att, sray))
        &&& res matches Some((att, sray)) ==> {
            &&& att == m.albedo.spec_value(rec.u, rec.v, rec.p)
            &&& color_wf(att)
            &&& scattered_ray_ok(r, rec, sray)
            &&& exists|w: (int, int, int)|
                spec_in_sphere(w) && tup3(sray.direction) == #[trigger] spec_lambertian_dir(
                    tup3(rec.normal),
                    w,
                )
        }
    }
}

/// At fuzz zero the metal scatter is determined, and it succeeds whenever
/// the rescaled mirror reflection clears the grazing margin of
/// `lemma_unit_scaled_keeps_dot` against the unit normal.
pub open spec fn metal_reflects_cleanly(m: Metal, r: Ray, rec: HitRecord) -> bool {
    let nu = spec_unit_scaled(tup3(rec.normal));
    let du = spec_unit_scaled(tup3(r.direction));
    let runit = spec_unit_scaled(spec_reflect(du, nu));
    &&& m.fuzz == 0
    &&& !(rec.normal.x == 0 && rec.normal.y == 0 && rec.normal.z == 0)
    &&& dot3(runit, nu) > 3 * spec_unit_den(runit)
}

pub open spec fn metal_post(m: Metal, r: Ray, rec: HitRecord, res: Option<(Vec3, Ray)>) -> bool {
    &&& (metal_reflects_cleanly(m, r, rec) ==> res is Some)
    &&& match res {
        Some((att, sray)) => {
            &&& !(rec.normal.x == 0 && rec.normal.y == 0 && rec.normal.z == 0)
            &&& att == m.albedo
            &&& scattered_ray_ok(r, rec, sray)
            &&& dot3(tup3(sray.direction), spec_unit_scaled(tup3(rec.normal))) > 0
            &&& exists|w: (int, int, int)|
                spec_in_sphere(w) && tup3(sray.direction) == #[trigger] spec_metal_dir(
                    m.fuzz as int,
                    tup3(rec.normal),
                    tup3(r.direction),
                    w,
                )
        },
        None => {
            ||| (rec.normal.x == 0 && rec.normal.y == 0 && rec.normal.z == 0)
            ||| exists|w: (int, int, int)|
                spec_in_sphere(w) && ((#[trigger] spec_metal_raw(
                    m.fuzz as int,
                    tup3(rec.normal),
                    tup3(r.direction),
                    w,
                )) == (0int, 0int, 0int) || dot3(
                    spec_metal_dir(m.fuzz as int, tup3(rec.normal), tup3(r.direction), w),
                    spec_unit_scaled(tup3(rec.normal)),
                ) <= 0)
        },
    }
}


/// The contract of a scatter, per material kind.
pub open spec fn scatter_post(m: Material, r: Ray, rec: HitRecord, res: Option<(Vec3, Ray)>) -> bool {
    match m {
        Material::Lambertian(l) => lambertian_post(l, r, rec, res),
        Material::Metal(mt) => metal_post(mt, r, rec, res),
        Material::Dielectric(d) => dielectric_post(d, r, rec, res),
    }
}

// Dielectric scattering, on the unit scale: with the unit incoming
// direction, the unit normal and the clamped cosine, either the mirror
// reflection or the Snell refraction leaves the surface; total internal
// reflection and Schlick's approximation against a uniform draw pick
// between them.

/// The cosine between the reversed unit direction and the unit normal, on
/// the squared unit scale, clamped into its meaningful range.
pub open spec fn spec_diel_cos(du: (int, int, int), nu: (int, int, int)) -> int {
    let c = dot3(neg3(du), nu);
    if c > 2048int * 2048 {
        2048int * 2048
    } else if c < -(2048int * 2048) {
        -(2048int * 2048)
    } else {
        c
    }
}

/// Total internal reflection: `ratio^2 * sin^2(theta) > 1` with
/// `sin^2 = 1 - cos^2` on the unit scale.
pub open spec fn spec_cannot_refract(cos: int, rn: int, rd: int) -> bool {
    rn * rn * (2048 * 2048 * (2048 * 2048) - cos * cos) > rd * rd * (2048 * 2048 * (2048 * 2048))
}

/// Schlick's reflectance, as a fraction: the numerator over the
/// denominator below, with the `(1 - cos)` factor first taken to the color
/// scale by floor division.
pub open spec fn spec_reflectance_num(cos: int, rn: int, rd: int) -> int {
    let r0n = (rn - rd) * (rn - rd);
    let r0d = (rn + rd) * (rn + rd);
    let fc = ((2048int * 2048 - cos) * 65536) / (2048int * 2048);
    r0n * 65536 * 65536 * 65536 * 65536 * 65536 + (r0d - r0n) * (fc * fc * fc * fc * fc)
}

pub open spec fn spec_reflectance_den(rn: int, rd: int) -> int {
    (rn + rd) * (rn + rd) * 65536 * 65536 * 65536 * 65536 * 65536
}

pub open spec fn spec_clamp_u(x: int) -> int {
    if x < -2048 {
        -2048
    } else if x > 2048 {
        2048
    } else {
        x
    }
}

/// The refraction direction for the clamped cosine, on the unit scale:
/// the perpendicular part `ratio * (u + cos * n)` (clamped to the unit
/// box), completed by the parallel part `-sqrt(1 - |perp|^2) * n`.
pub open spec fn spec_refract_dir(du: (int, int, int), nu: (int, int, int), cos: int, rn: int, rd: int) -> (int, int, int) {
    let px = spec_clamp_u(spec_tdiv(rn * (du.0 * (2048 * 2048) + cos * nu.0), rd * (2048 * 2048)));
    let py = spec_clamp_u(spec_tdiv(rn * (du.1 * (2048 * 2048) + cos * nu.1), rd * (2048 * 2048)));
    let pz = spec_clamp_u(spec_tdiv(rn * (du.2 * (2048 * 2048) + cos * nu.2), rd * (2048 * 2048)));
    let l2p = px * px + py * py + pz * pz;
    let d2 = if 2048 * 2048 - l2p >= 0 {
        2048 * 2048 - l2p
    } else {
        0
    };
    let pl = spec_isqrt(d2);
    (
        px - spec_tdiv(pl * nu.0, 2048),
        py - spec_tdiv(pl * nu.1, 2048),
        pz - spec_tdiv(pl * nu.2, 2048),
    )
}

/// The unit mirror reflection.
pub open spec fn spec_reflect_dir(du: (int, int, int), nu: (int, int, int)) -> (int, int, int) {
    spec_unit_scaled(spec_reflect(du, nu))
}

pub open spec fn dielectric_post(m: Dielectric, r: Ray, rec: HitRecord, res: Option<(Vec3, Ray)>) -> bool {
    if rec.normal.x == 0 && rec.normal.y == 0 && rec.normal.z == 0 {
        res is None
    } else {
        let nu = spec_unit_scaled(tup3(rec.normal));
        let du = spec_unit_scaled(tup3(r.direction));
        let cos = spec_diel_cos(du, nu);
        let rn = if rec.front_face {
            m.ir_den as int
        } else {
            m.ir_num as int
        };
        let rd = if rec.front_face {
            m.ir_num as int
        } else {
            m.ir_den as int
        };
        // glass absorbs nothing: with a usable shading normal a dielectric
        // always scatters, reflecting wherever the quantized refraction
        // would collapse
        &&& res matches Some((att, sray))
        &&& res matches Some((att, sray)) ==> {
            &&& att == (Vec3 { x: COLOR_SCALE, y: COLOR_SCALE, z: COLOR_SCALE })
            &&& scattered_ray_ok(r, rec, sray)
            &&& (tup3(sray.direction) == spec_reflect_dir(du, nu) || (!spec_cannot_refract(
                cos,
                rn,
                rd,
            ) && tup3(sray.direction) == spec_refract_dir(du, nu, cos, rn, rd)))
        }
    }
}

impl Material {
    pub open spec fn wf(self) -> bool {
        match self {
            Material::Lambertian(m) => m.albedo.wf(),
            Material::Metal(m) => color_wf(m.albedo) && 0 <= m.fuzz <= UNIT_LEN,
            Material::Dielectric(m) => 1 <= m.ir_num <= 1024 && 1 <= m.ir_den <= 1024,
        }
    }

    /// Given an incoming ray and a hit, produce an attenuation color and an
    /// outgoing scattered ray, or signal absorption.
    pub fn scatter(&self, r: &Ray, rec: &HitRecord) -> (res: Option<(Vec3, Ray)>)
        requires
            self.wf(),
            r.wf(),
            !(r.direction.x == 0 && r.direction.y == 0 && r.direction.z == 0),
            rec.wf(),
        ensures
            scatter_post(*self, *r, *rec, res),
    {
        match self {
            Material::Lambertian(m) => scatter_lambertian(m, r, rec),
            Material::Metal(m) => scatter_metal(m, r, rec),
            Material::Dielectric(m) => scatter_dielectric(m, r, rec),
        }
    }
}

fn scatter_lambertian(m: &Lambertian, r: &Ray, rec: &HitRecord) -> (res: Option<(Vec3, Ray)>)
    requires
        m.albedo.wf(),
        r.wf(),
        rec.wf(),
    ensures
        lambertian_post(*m, *r, *rec, res),
{
    if rec.normal.near_zero() {
        return None;
    }
    let base = unit_scaled(rec.normal);
    let rv = random_in_unit_sphere();
    let ru = unit_scaled(rv);
    let d0 = Vec3 { x: base.x + ru.x, y: base.y + ru.y, z: base.z + ru.z };
    let dir = if d0.near_zero() {
        base
    } else {
        d0
    };
    let origin = scatter_origin(&rec.p);
    let att = m.albedo.value(rec.u, rec.v, &rec.p);
    let sray = Ray { origin, direction: dir, time: r.time };
    proof {
        assert(spec_in_sphere(tup3(rv)));
        assert(tup3(sray.direction) == spec_lambertian_dir(tup3(rec.normal), tup3(rv)));
    }
    Some((att, sray))
}

fn scatter_metal(m: &Metal, r: &Ray, rec: &HitRecord) -> (res: Option<(Vec3, Ray)>)
    requires
        color_wf(m.albedo),
        0 <= m.fuzz <= UNIT_LEN,
        r.wf(),
        !(r.direction.x == 0 && r.direction.y == 0 && r.direction.z == 0),
        rec.wf(),
    ensures
        metal_post(*m, *r, *rec, res),
{
    if rec.normal.near_zero() {
        return None;
    }
    let nu = unit_scaled(rec.normal);
    let du = unit_scaled(r.direction);
    let refl = reflect(&du, &nu);
    proof {
        lemma_reflect_of_units_nonzero(du, nu);
        lemma_zero_dot_of_zero(tup3(refl));
    }
    let runit = unit_scaled(refl);
    let rv = random_in_unit_sphere();
    proof {
        lemma_mul_bound(m.fuzz as int, rv.x as int, 2048, 2048);
        lemma_mul_bound(m.fuzz as int, rv.y as int, 2048, 2048);
        lemma_mul_bound(m.fuzz as int, rv.z as int, 2048, 2048);
        lemma_tdiv_bounds(m.fuzz as int * rv.x as int, 2048, 2048);
        lemma_tdiv_bounds(m.fuzz as int * rv.y as int, 2048, 2048);
        lemma_tdiv_bounds(m.fuzz as int * rv.z as int, 2048, 2048);
    }
    let px = tdiv_wide((m.fuzz as i128) * (rv.x as i128), 2048) as i64;
    let py = tdiv_wide((m.fuzz as i128) * (rv.y as i128), 2048) as i64;
    let pz = tdiv_wide((m.fuzz as i128) * (rv.z as i128), 2048) as i64;
    let raw = Vec3 { x: runit.x + px, y: runit.y + py, z: runit.z + pz };
    proof {
        if metal_reflects_cleanly(*m, *r, *rec) {
            // at fuzz zero the perturbation vanishes and the raw direction
            // is exactly the rescaled mirror reflection
            lemma_mul_bound(m.fuzz as int, rv.x as int, 0, 2048);
            lemma_mul_bound(m.fuzz as int, rv.y as int, 0, 2048);
            lemma_mul_bound(m.fuzz as int, rv.z as int, 0, 2048);
            assert(tup3(raw) == spec_unit_scaled(
                spec_reflect(
                    spec_unit_scaled(tup3(r.direction)),
                    spec_unit_scaled(tup3(rec.normal)),
                ),
            ));
        }
    }
    if raw.near_zero() {
        proof {
            assert(!metal_reflects_cleanly(*m, *r, *rec));
            assert(spec_in_sphere(tup3(rv)));
            assert(spec_metal_raw(m.fuzz as int, tup3(rec.normal), tup3(r.direction), tup3(rv))
                == (0int, 0int, 0int));
        }
        return None;
    }
    let dir = unit_scaled(raw);
    proof {
        if metal_reflects_cleanly(*m, *r, *rec) {
            lemma_unit_scaled_keeps_dot(tup3(raw), tup3(nu));
            assert(spec_dot(dir, nu) == dot3(tup3(dir), tup3(nu)));
        }
    }
    if dir.dot_product(nu) > 0 {
        let origin = scatter_origin(&rec.p);
        let sray = Ray { origin, direction: dir, time: r.time };
        proof {
            assert(spec_in_sphere(tup3(rv)));
            assert(tup3(sray.direction) == spec_metal_dir(
                m.fuzz as int,
                tup3(rec.normal),
                tup3(r.direction),
                tup3(rv),
            ));
            assert(!(dir.x == 0 && dir.y == 0 && dir.z == 0)) by {
                if dir.x == 0 && dir.y == 0 && dir.z == 0 {
                    assert((dir.x as int) * (nu.x as int) == 0) by (nonlinear_arith)
                        requires
                            dir.x == 0,
                    ;
                    assert((dir.y as int) * (nu.y as int) == 0) by (nonlinear_arith)
                        requires
                            dir.y == 0,
                    ;
                    assert((dir.z as int) * (nu.z as int) == 0) by (nonlinear_arith)
                        requires
                            dir.z == 0,
                    ;
                    assert(spec_dot(dir, nu) == 0);
                }
            }
        }
        Some((m.albedo, sray))
    } else {
        proof {
            assert(!metal_reflects_cleanly(*m, *r, *rec));
            assert(spec_in_sphere(tup3(rv)));
            assert(spec_metal_raw(m.fuzz as int, tup3(rec.normal), tup3(r.direction), tup3(rv))
                == tup3(raw));
            assert(dot3(
                spec_metal_dir(m.fuzz as int, tup3(rec.normal), tup3(r.direction), tup3(rv)),
                spec_unit_scaled(tup3(rec.normal)),
            ) <= 0);
        }
        None
    }
}

fn scatter_dielectric(m: &Dielectric, r: &Ray, rec: &HitRecord) -> (res: Option<(Vec3, Ray)>)
    requires
        1 <= m.ir_num <= 1024,
        1 <= m.ir_den <= 1024,
        r.wf(),
        !(r.direction.x == 0 && r.direction.y == 0 && r.direction.z == 0),
        rec.wf(),
    ensures
        dielectric_post(*m, *r, *rec, res),
{
    if rec.normal.near_zero() {
        return None;
    }
    let nu = unit_scaled(rec.normal);
    let du = unit_scaled(r.direction);
    let mdu = du.neg();
    let c0 = mdu.dot_product(nu);
    let lim = UNIT_LEN * UNIT_LEN;
    let cos = if c0 > lim {
        lim
    } else if c0 < -lim {
        -lim
    } else {
        c0
    };
    let (rn, rd) = if rec.front_face {
        (m.ir_den, m.ir_num)
    } else {
        (m.ir_num, m.ir_den)
    };
    proof {
        lemma_mul_bound(cos as int, cos as int, 0x40_0000, 0x40_0000);
        lemma_mul_bound(rn as int, rn as int, 1024, 1024);
        lemma_mul_bound(rd as int, rd as int, 1024, 1024);
        lemma_mul_bound(
            (rn as int) * (rn as int),
            0x1000_0000_0000 - (cos as int) * (cos as int),
            0x10_0000,
            0x2000_0000_0000,
        );
        lemma_mul_bound((rd as int) * (rd as int), 0x1000_0000_0000, 0x10_0000, 0x1000_0000_0000);
    }
    let cannot = (rn as i128) * (rn as i128) * ((lim as i128) * (lim as i128) - (cos as i128) * (
    cos as i128)) > (rd as i128) * (rd as i128) * ((lim as i128) * (lim as i128));
    let reflected = if cannot {
        true
    } else {
        let rho = rand_in_range(0, COLOR_SCALE - 1);
        reflectance_exceeds(cos, rn, rd, rho)
    };
    let mut use_reflection = reflected;
    let mut refracted = Vec3 { x: 0, y: 0, z: 0 };
    if !use_reflection {
        refracted = refract_dir(du, nu, cos, rn, rd);
        if refracted.near_zero() {
            // quantization collapsed the refraction; glass absorbs nothing,
            // so reflect instead
            use_reflection = true;
        }
    }
    let dir = if use_reflection {
        let refl = reflect(&du, &nu);
        proof {
            lemma_reflect_of_units_nonzero(du, nu);
            lemma_zero_dot_of_zero(tup3(refl));
        }
        unit_scaled(refl)
    } else {
        refracted
    };
    let origin = scatter_origin(&rec.p);
    let sray = Ray { origin, direction: dir, time: r.time };
    let white = Vec3 { x: COLOR_SCALE, y: COLOR_SCALE, z: COLOR_SCALE };
    Some((white, sray))
}

/// A vanishing vector has a vanishing squared length, so a vector of
/// positive squared length is not the zero vector.
proof fn lemma_zero_dot_of_zero(t: (int, int, int))
    ensures
        t == (0int, 0int, 0int) ==> dot3(t, t) == 0,
{
}

/// Whether Schlick's reflectance exceeds the uniform draw `rho` (on the
/// color scale): the comparison is carried out on cleared numerators.
fn reflectance_exceeds(cos: i64, rn: i64, rd: i64, rho: i64) -> (r: bool)
    requires
        -0x40_0000 <= cos <= 0x40_0000,
        1 <= rn <= 1024,
        1 <= rd <= 1024,
        0 <= rho < 65536,
    ensures
        r == (spec_reflectance_num(cos as int, rn as int, rd as int) * 65536 > (rho as int)
            * spec_reflectance_den(rn as int, rd as int)),
{
    let (num, den) = Dielectric::reflectance(cos, rn, rd);
    proof {
        lemma_reflectance_size(cos as int, rn as int, rd as int);
        lemma_mul_bound(num as int, 65536, 0x2000_0000_0000_0000_0000_0000_0000, 65536);
        lemma_mul_bound(rho as int, den as int, 65536, 0x2000_0000_0000_0000_0000_0000_0000);
    }
    num * 65536 > (rho as i128) * den
}

/// The reflectance fraction stays within wide-integer range.
proof fn lemma_reflectance_size(cos: int, rn: int, rd: int)
    requires
        -0x40_0000 <= cos <= 0x40_0000,
        1 <= rn <= 1024,
        1 <= rd <= 1024,
    ensures
        -0x2000_0000_0000_0000_0000_0000_0000 <= spec_reflectance_num(cos, rn, rd)
            <= 0x2000_0000_0000_0000_0000_0000_0000,
        1 <= spec_reflectance_den(rn, rd) <= 0x2000_0000_0000_0000_0000_0000_0000,
{
    let r0n = (rn - rd) * (rn - rd);
    let r0d = (rn + rd) * (rn + rd);
    let fc = ((2048int * 2048 - cos) * 65536) / (2048int * 2048);
    lemma_mul_bound(rn - rd, rn - rd, 1024, 1024);
    lemma_mul_bound(rn + rd, rn + rd, 2048, 2048);
    assert(r0d >= 1) by (nonlinear_arith)
        requires
            r0d == (rn + rd) * (rn + rd),
            rn + rd >= 2,
    ;
    vstd::arithmetic::div_mod::lemma_div_pos_is_pos((2048int * 2048 - cos) * 65536, 2048int * 2048);
    vstd::arithmetic::div_mod::lemma_div_is_ordered(
        (2048int * 2048 - cos) * 65536,
        0x80_0000_0000,
        2048int * 2048,
    );
    vstd::arithmetic::div_mod::lemma_div_multiples_vanish(131072, 0x40_0000);
    assert(0x40_0000int * 131072 == 0x80_0000_0000int);
    lemma_reflectance_powers(fc);
    lemma_mul_bound(r0d - r0n, fc * fc * fc * fc * fc, 0x80_0000, 0x20_0000_0000_0000_0000_0000);
}

/// Bounds for each partial power of the fifth-power factor.
proof fn lemma_reflectance_powers(fc: int)
    by (nonlinear_arith)
    requires
        0 <= fc <= 131072,
    ensures
        0 <= fc * fc <= 0x4_0000_0000,
        0 <= fc * fc * fc <= 0x8_0000_0000_0000,
        0 <= fc * fc * fc * fc <= 0x10_0000_0000_0000_0000,
        0 <= fc * fc * fc * fc * fc <= 0x20_0000_0000_0000_0000_0000,
{
}

/// The Snell refraction direction, on the unit scale: the perpendicular
/// part `ratio * (u + cos * n)`, clamped to the unit box, completed by the
/// parallel part `-sqrt(1 - |perp|^2) * n`. Each division truncates toward
/// zero, so by `lemma_tdiv_mul_err` every component sits within one
/// denominator step of the exact real-valued decomposition; a toleranced
/// unit-length or tangential-ratio clause over the whole vector would need
/// a bound on the cross terms of those per-component errors and is not
/// stated here.
pub fn refract_dir(du: Vec3, nu: Vec3, cos: i64, rn: i64, rd: i64) -> (d: Vec3)
    requires
        in_bounds(du, 2048),
        in_bounds(nu, 2048),
        -0x40_0000 <= cos <= 0x40_0000,
        1 <= rn <= 1024,
        1 <= rd <= 1024,
    ensures
        tup3(d) == spec_refract_dir(tup3(du), tup3(nu), cos as int, rn as int, rd as int),
        in_bounds(d, 4096),
{
    let lim = UNIT_LEN * UNIT_LEN;
    proof {
        lemma_mul_bound(du.x as int, lim as int, 2048, 0x40_0000);
        lemma_mul_bound(du.y as int, lim as int, 2048, 0x40_0000);
        lemma_mul_bound(du.z as int, lim as int, 2048, 0x40_0000);
        lemma_mul_bound(cos as int, nu.x as int, 0x40_0000, 2048);
        lemma_mul_bound(cos as int, nu.y as int, 0x40_0000, 2048);
        lemma_mul_bound(cos as int, nu.z as int, 0x40_0000, 2048);
        lemma_mul_bound(rn as int, (du.x as int) * (lim as int) + (cos as int) * (nu.x as int), 1024, 0x10_0000_0000);
        lemma_mul_bound(rn as int, (du.y as int) * (lim as int) + (cos as int) * (nu.y as int), 1024, 0x10_0000_0000);
        lemma_mul_bound(rn as int, (du.z as int) * (lim as int) + (cos as int) * (nu.z as int), 1024, 0x10_0000_0000);
        lemma_mul_bound(rd as int, lim as int, 1024, 0x40_0000);
        assert((rd as int) * (lim as int) >= 1) by (nonlinear_arith)
            requires
                rd >= 1,
                lim == 0x40_0000,
        ;
    }
    let den = (rd as i128) * (lim as i128);
    let px = clamp_u(tdiv_wide((rn as i128) * ((du.x as i128) * (lim as i128) + (cos as i128) * (nu.x as i128)), den));
    let py = clamp_u(tdiv_wide((rn as i128) * ((du.y as i128) * (lim as i128) + (cos as i128) * (nu.y as i128)), den));
    let pz = clamp_u(tdiv_wide((rn as i128) * ((du.z as i128) * (lim as i128) + (cos as i128) * (nu.z as i128)), den));
    proof {
        lemma_mul_bound(px as int, px as int, 2048, 2048);
        lemma_mul_bound(py as int, py as int, 2048, 2048);
        lemma_mul_bound(pz as int, pz as int, 2048, 2048);
        crate::vec3::lemma_square_nonneg(px as int);
        crate::vec3::lemma_square_nonneg(py as int);
        crate::vec3::lemma_square_nonneg(pz as int);
    }
    let l2p = px * px + py * py + pz * pz;
    let d2 = if lim - l2p >= 0 {
        lim - l2p
    } else {
        0
    };
    let plu = isqrt(d2 as u128);
    proof {
        assert(plu <= 2048) by (nonlinear_arith)
            requires
                is_isqrt(d2 as int, plu as int),
                0 <= d2 <= 0x40_0000,
        ;
    }
    let pl = plu as i64;
    proof {
        lemma_mul_bound(pl as int, nu.x as int, 2048, 2048);
        lemma_mul_bound(pl as int, nu.y as int, 2048, 2048);
        lemma_mul_bound(pl as int, nu.z as int, 2048, 2048);
        lemma_tdiv_bounds((pl as int) * (nu.x as int), 2048, 2048);
        lemma_tdiv_bounds((pl as int) * (nu.y as int), 2048, 2048);
        lemma_tdiv_bounds((pl as int) * (nu.z as int), 2048, 2048);
    }
    let qx = tdiv_wide((pl as i128) * (nu.x as i128), 2048) as i64;
    let qy = tdiv_wide((pl as i128) * (nu.y as i128), 2048) as i64;
    let qz = tdiv_wide((pl as i128) * (nu.z as i128), 2048) as i64;
    Vec3 { x: px - qx, y: py - qy, z: pz - qz }
}

/// Clamp a wide value into the unit box.
fn clamp_u(x: i128) -> (r: i64)
    ensures
        r as int == spec_clamp_u(x as int),
        -2048 <= r <= 2048,
{
    if x < -2048 {
        -2048
    } else if x > 2048 {
        2048
    } else {
        x as i64
    }
}

/// At a head-on incidence (the cosine exactly 1 on its scale) Schlick's
/// reflectance is exactly the base reflectance `r0 = ((1-ir)/(1+ir))^2`:
/// the fifth-power term vanishes, so the fraction reduces to
/// `(rn - rd)^2 / (rn + rd)^2`.
pub proof fn lemma_reflectance_head_on(rn: int, rd: int)
    requires
        1 <= rn <= 1024,
        1 <= rd <= 1024,
    ensures
        spec_reflectance_num(2048int * 2048, rn, rd) == (rn - rd) * (rn - rd) * 65536 * 65536 * 65536
            * 65536 * 65536,
        spec_reflectance_den(rn, rd) == (rn + rd) * (rn + rd) * 65536 * 65536 * 65536 * 65536
            * 65536,
        !spec_cannot_refract(2048int * 2048, rn, rd),
{
    assert((2048int * 2048 - 2048int * 2048) * 65536 / (2048int * 2048) == 0);
    assert(((rn + rd) * (rn + rd) - (rn - rd) * (rn - rd)) * (0 * 0 * 0 * 0 * 0) == 0)
        by (nonlinear_arith);
    assert(rn * rn * (2048 * 2048 * (2048 * 2048) - (2048int * 2048) * (2048int * 2048)) == 0)
        by (nonlinear_arith);
    assert(rd * rd * (2048 * 2048 * (2048 * 2048)) >= 0) by (nonlinear_arith)
        requires
            rd >= 1,
    ;
}

} // verus!
