use vstd::prelude::*;
use crate::vec3::{Vec3, Point3, in_bounds};
use crate::ray::Ray;
use crate::rat::{Rat, lemma_frac_le_trans, lemma_frac_le_lt_trans, lemma_frac_lt_le_trans, lemma_mul_le_mono};

verus! {

/// Largest magnitude of a bounding-box corner coordinate. Boxes are built
/// around grid geometry (for a sphere, center plus or minus its radius), so
/// corners stay within twice the coordinate limit.
pub const BMAX: i64 = 8192;

/// An axis-aligned bounding box between two corner points.
#[derive(Clone, Copy, Debug)]
pub struct AABB {
    pub minimum: Point3,
    pub maximum: Point3,
}

impl AABB {
    pub open spec fn wf(self) -> bool {
        &&& in_bounds(self.minimum, BMAX as int)
        &&& in_bounds(self.maximum, BMAX as int)
    }

    /// Proper boxes: no inverted axis.
    pub open spec fn spec_ordered(self) -> bool {
        &&& self.minimum.x <= self.maximum.x
        &&& self.minimum.y <= self.maximum.y
        &&& self.minimum.z <= self.maximum.z
    }

    pub open spec fn spec_mn(self, a: int) -> int {
        self.minimum.spec_axis(a)
    }

    pub open spec fn spec_mx(self, a: int) -> int {
        self.maximum.spec_axis(a)
    }

    pub fn new(minimum: &Point3, maximum: &Point3) -> (r: AABB)
        ensures
            r.minimum == *minimum,
            r.maximum == *maximum,
    {
        AABB { minimum: *minimum, maximum: *maximum }
    }

    /// Slab test against the running interval `[t_min, t_max]`: each axis
    /// narrows the interval to where the ray is between the two slab planes,
    /// and the box is missed as soon as the narrowed interval loses its
    /// interior. A zero direction component means the ray is parallel to the
    /// slab: it passes only when the origin lies strictly between the planes
    /// (a zero-width intersection never counts as a hit).
    pub fn hit(&self, r: &Ray, t_min: Rat, t_max: Rat) -> (res: bool)
        requires
            self.wf(),
            r.wf(),
            t_min.wf(),
            t_max.wf(),
        ensures
            res == spec_slab_hit(*self, *r, t_min, t_max),
    {
        let mut lo = t_min;
        let mut hi = t_max;
        for a in 0..3u8
            invariant
                self.wf(),
                r.wf(),
                lo.wf(),
                hi.wf(),
                spec_slab_hit(*self, *r, t_min, t_max) == spec_slab_hit_from(
                    *self,
                    *r,
                    a as int,
                    lo.num as int,
                    lo.den as int,
                    hi.num as int,
                    hi.den as int,
                ),
        {
            let d = r.direction.axis(a);
            let o = r.origin.axis(a);
            let mn = self.minimum.axis(a);
            let mx = self.maximum.axis(a);
            if d == 0 {
                if !(mn < o && o < mx) {
                    return false;
                }
                if !lo.lt(hi) {
                    return false;
                }
            } else {
                let t0 = if d > 0 {
                    Rat { num: mn - o, den: d }
                } else {
                    Rat { num: o - mx, den: -d }
                };
                let t1 = if d > 0 {
                    Rat { num: mx - o, den: d }
                } else {
                    Rat { num: o - mn, den: -d }
                };
                let nlo = if lo.lt(t0) { t0 } else { lo };
                let nhi = if t1.lt(hi) { t1 } else { hi };
                if !nlo.lt(nhi) {
                    return false;
                }
                lo = nlo;
                hi = nhi;
            }
        }
        true
    }

    /// The componentwise union: min of minimums, max of maximums.
    pub fn surrounding_box(box0: &AABB, box1: &AABB) -> (r: AABB)
        ensures
            r == spec_surround(*box0, *box1),
            spec_contains_box(r, *box0),
            spec_contains_box(r, *box1),
    {
        let small = Vec3 {
            x: if box0.minimum.x < box1.minimum.x { box0.minimum.x } else { box1.minimum.x },
            y: if box0.minimum.y < box1.minimum.y { box0.minimum.y } else { box1.minimum.y },
            z: if box0.minimum.z < box1.minimum.z { box0.minimum.z } else { box1.minimum.z },
        };
        let big = Vec3 {
            x: if box0.maximum.x > box1.maximum.x { box0.maximum.x } else { box1.maximum.x },
            y: if box0.maximum.y > box1.maximum.y { box0.maximum.y } else { box1.maximum.y },
            z: if box0.maximum.z > box1.maximum.z { box0.maximum.z } else { box1.maximum.z },
        };
        AABB { minimum: small, maximum: big }
    }
}

/// The slab test from axis `a` onward, carried out on the exact rational
/// interval `[lo_n/lo_d, hi_n/hi_d]` (denominators positive). Mirrors the
/// executable narrowing loop step for step.
pub open spec fn spec_slab_hit_from(
    b: AABB,
    r: Ray,
    a: int,
    lo_n: int,
    lo_d: int,
    hi_n: int,
    hi_d: int,
) -> bool
    decreases 3 - a,
{
    if a >= 3 {
        true
    } else {
        let d = r.direction.spec_axis(a);
        let o = r.origin.spec_axis(a);
        let mn = b.spec_mn(a);
        let mx = b.spec_mx(a);
        if d == 0 {
            &&& mn < o < mx
            &&& lo_n * hi_d < hi_n * lo_d
            &&& spec_slab_hit_from(b, r, a + 1, lo_n, lo_d, hi_n, hi_d)
        } else {
            let en = if d > 0 { mn - o } else { o - mx };
            let xn = if d > 0 { mx - o } else { o - mn };
            let dd = if d > 0 { d } else { -d };
            let nlo_n = if lo_n * dd < en * lo_d { en } else { lo_n };
            let nlo_d = if lo_n * dd < en * lo_d { dd } else { lo_d };
            let nhi_n = if xn * hi_d < hi_n * dd { xn } else { hi_n };
            let nhi_d = if xn * hi_d < hi_n * dd { dd } else { hi_d };
            &&& nlo_n * nhi_d < nhi_n * nlo_d
            &&& spec_slab_hit_from(b, r, a + 1, nlo_n, nlo_d, nhi_n, nhi_d)
        }
    }
}

/// The whole slab test over the interval `[t_min, t_max]`.
pub open spec fn spec_slab_hit(b: AABB, r: Ray, t_min: Rat, t_max: Rat) -> bool {
    spec_slab_hit_from(
        b,
        r,
        0,
        t_min.num as int,
        t_min.den as int,
        t_max.num as int,
        t_max.den as int,
    )
}

pub open spec fn spec_surround(b0: AABB, b1: AABB) -> AABB {
    AABB {
        minimum: Vec3 {
            x: if b0.minimum.x < b1.minimum.x { b0.minimum.x } else { b1.minimum.x },
            y: if b0.minimum.y < b1.minimum.y { b0.minimum.y } else { b1.minimum.y },
            z: if b0.minimum.z < b1.minimum.z { b0.minimum.z } else { b1.minimum.z },
        },
        maximum: Vec3 {
            x: if b0.maximum.x > b1.maximum.x { b0.maximum.x } else { b1.maximum.x },
            y: if b0.maximum.y > b1.maximum.y { b0.maximum.y } else { b1.maximum.y },
            z: if b0.maximum.z > b1.maximum.z { b0.maximum.z } else { b1.maximum.z },
        },
    }
}

/// `outer` contains `inner`: every axis interval of `inner` lies within the
/// one of `outer`.
pub open spec fn spec_contains_box(outer: AABB, inner: AABB) -> bool {
    &&& outer.minimum.x <= inner.minimum.x && inner.maximum.x <= outer.maximum.x
    &&& outer.minimum.y <= inner.minimum.y && inner.maximum.y <= outer.maximum.y
    &&& outer.minimum.z <= inner.minimum.z && inner.maximum.z <= outer.maximum.z
}

/// The point `p` lies strictly inside the box on every axis.
pub open spec fn spec_strictly_inside(b: AABB, p: Point3) -> bool {
    &&& b.minimum.x < p.x < b.maximum.x
    &&& b.minimum.y < p.y < b.maximum.y
    &&& b.minimum.z < p.z < b.maximum.z
}

/// The box union takes each input in either order to the same box.
pub proof fn lemma_surrounding_box_comm(a: AABB, b: AABB)
    ensures
        spec_surround(a, b) == spec_surround(b, a),
{
}

/// The box union groups either way around three boxes.
pub proof fn lemma_surrounding_box_assoc(a: AABB, b: AABB, c: AABB)
    ensures
        spec_surround(spec_surround(a, b), c) == spec_surround(a, spec_surround(b, c)),
{
}

/// The box union contains both of its inputs.
pub proof fn lemma_surrounding_box_contains(a: AABB, b: AABB)
    ensures
        spec_contains_box(spec_surround(a, b), a),
        spec_contains_box(spec_surround(a, b), b),
{
}

/// Containment of boxes is transitive.
pub proof fn lemma_contains_trans(a: AABB, b: AABB, c: AABB)
    requires
        spec_contains_box(a, b),
        spec_contains_box(b, c),
    ensures
        spec_contains_box(a, c),
{
}

/// The slab test is monotone under box containment and interval widening:
/// whatever interval survives the smaller box inside the narrower bounds
/// also survives the larger box inside the wider bounds. This is why a
/// node's cached union box never prunes a query its children would pass.
pub proof fn lemma_slab_monotone(
    ba: AABB,
    bb: AABB,
    r: Ray,
    a: int,
    la_n: int,
    la_d: int,
    ha_n: int,
    ha_d: int,
    lb_n: int,
    lb_d: int,
    hb_n: int,
    hb_d: int,
)
    requires
        spec_contains_box(ba, bb),
        la_d >= 1,
        ha_d >= 1,
        lb_d >= 1,
        hb_d >= 1,
        la_n * lb_d <= lb_n * la_d,
        hb_n * ha_d <= ha_n * hb_d,
        spec_slab_hit_from(bb, r, a, lb_n, lb_d, hb_n, hb_d),
    ensures
        spec_slab_hit_from(ba, r, a, la_n, la_d, ha_n, ha_d),
    decreases 3 - a,
{
    if a >= 3 {
    } else {
        let d = r.direction.spec_axis(a);
        let o = r.origin.spec_axis(a);
        assert(ba.spec_mn(a) <= bb.spec_mn(a));
        assert(bb.spec_mx(a) <= ba.spec_mx(a));
        if d == 0 {
            // the wider interval keeps its interior
            lemma_frac_le_lt_trans(la_n, la_d, lb_n, lb_d, hb_n, hb_d);
            lemma_frac_lt_le_trans(la_n, la_d, hb_n, hb_d, ha_n, ha_d);
            lemma_slab_monotone(ba, bb, r, a + 1, la_n, la_d, ha_n, ha_d, lb_n, lb_d, hb_n, hb_d);
        } else {
            let ena = if d > 0 { ba.spec_mn(a) - o } else { o - ba.spec_mx(a) };
            let xna = if d > 0 { ba.spec_mx(a) - o } else { o - ba.spec_mn(a) };
            let enb = if d > 0 { bb.spec_mn(a) - o } else { o - bb.spec_mx(a) };
            let xnb = if d > 0 { bb.spec_mx(a) - o } else { o - bb.spec_mn(a) };
            let dd = if d > 0 { d } else { -d };
            assert(ena <= enb);
            assert(xnb <= xna);
            let nla_n = if la_n * dd < ena * la_d { ena } else { la_n };
            let nla_d = if la_n * dd < ena * la_d { dd } else { la_d };
            let nha_n = if xna * ha_d < ha_n * dd { xna } else { ha_n };
            let nha_d = if xna * ha_d < ha_n * dd { dd } else { ha_d };
            let nlb_n = if lb_n * dd < enb * lb_d { enb } else { lb_n };
            let nlb_d = if lb_n * dd < enb * lb_d { dd } else { lb_d };
            let nhb_n = if xnb * hb_d < hb_n * dd { xnb } else { hb_n };
            let nhb_d = if xnb * hb_d < hb_n * dd { dd } else { hb_d };
            // the narrowed lower bound of the wide run stays at or below the
            // narrow run's: both of its candidates do
            assert(nla_n * nlb_d <= nlb_n * nla_d) by {
                if lb_n * dd < enb * lb_d {
                    // narrow run lower bound is its entry
                    lemma_mul_le_mono(ena, enb, la_d);
                    if la_n * dd < ena * la_d {
                        lemma_mul_le_mono(ena, enb, dd);
                    } else {
                        lemma_frac_le_lt_trans(la_n, la_d, lb_n, lb_d, enb, dd);
                    }
                } else {
                    // narrow run keeps its old lower bound
                    if la_n * dd < ena * la_d {
                        lemma_mul_le_mono(ena, enb, lb_d);
                    }
                }
            }
            // and the narrowed upper bound stays at or above
            assert(nhb_n * nha_d <= nha_n * nhb_d) by {
                if xnb * hb_d < hb_n * dd {
                    lemma_mul_le_mono(xnb, xna, hb_d);
                    if xna * ha_d < ha_n * dd {
                        lemma_mul_le_mono(xnb, xna, dd);
                    } else {
                        lemma_frac_lt_le_trans(xnb, dd, hb_n, hb_d, ha_n, ha_d);
                    }
                } else {
                    if xna * ha_d < ha_n * dd {
                        lemma_mul_le_mono(xnb, xna, hb_d);
                    }
                }
            }
            // nonempty by chaining through the narrow run's interior
            lemma_frac_le_lt_trans(nla_n, nla_d, nlb_n, nlb_d, nhb_n, nhb_d);
            lemma_frac_lt_le_trans(nla_n, nla_d, nhb_n, nhb_d, nha_n, nha_d);
            lemma_slab_monotone(
                ba,
                bb,
                r,
                a + 1,
                nla_n,
                nla_d,
                nha_n,
                nha_d,
                nlb_n,
                nlb_d,
                nhb_n,
                nhb_d,
            );
        }
    }
}

/// A ray whose origin lies strictly inside a box passes the slab test for
/// any interval whose interior contains 0.
pub proof fn lemma_hit_from_inside(b: AABB, r: Ray, t_min: Rat, t_max: Rat)
    requires
        b.wf(),
        r.wf(),
        t_min.wf(),
        t_max.wf(),
        spec_strictly_inside(b, r.origin),
        t_min.num < 0,
        t_max.num > 0,
    ensures
        spec_slab_hit(b, r, t_min, t_max),
{
    lemma_hit_from_inside_rec(
        b,
        r,
        0,
        t_min.num as int,
        t_min.den as int,
        t_max.num as int,
        t_max.den as int,
    );
}

proof fn lemma_hit_from_inside_rec(b: AABB, r: Ray, a: int, lo_n: int, lo_d: int, hi_n: int, hi_d: int)
    requires
        spec_strictly_inside(b, r.origin),
        lo_d >= 1,
        hi_d >= 1,
        lo_n < 0,
        hi_n > 0,
    ensures
        spec_slab_hit_from(b, r, a, lo_n, lo_d, hi_n, hi_d),
    decreases 3 - a,
{
    if a >= 3 {
    } else {
        let d = r.direction.spec_axis(a);
        let o = r.origin.spec_axis(a);
        let mn = b.spec_mn(a);
        let mx = b.spec_mx(a);
        assert(mn < o < mx);
        if d == 0 {
            assert(lo_n * hi_d < 0) by (nonlinear_arith)
                requires
                    lo_n < 0,
                    hi_d >= 1,
            ;
            assert(hi_n * lo_d > 0) by (nonlinear_arith)
                requires
                    hi_n > 0,
                    lo_d >= 1,
            ;
            lemma_hit_from_inside_rec(b, r, a + 1, lo_n, lo_d, hi_n, hi_d);
        } else {
            let en = if d > 0 { mn - o } else { o - mx };
            let xn = if d > 0 { mx - o } else { o - mn };
            let dd = if d > 0 { d } else { -d };
            assert(en < 0);
            assert(xn > 0);
            assert(dd >= 1);
            let nlo_n = if lo_n * dd < en * lo_d { en } else { lo_n };
            let nlo_d = if lo_n * dd < en * lo_d { dd } else { lo_d };
            let nhi_n = if xn * hi_d < hi_n * dd { xn } else { hi_n };
            let nhi_d = if xn * hi_d < hi_n * dd { dd } else { hi_d };
            assert(nlo_n < 0 && nlo_d >= 1);
            assert(nhi_n > 0 && nhi_d >= 1);
            assert(nlo_n * nhi_d < 0) by (nonlinear_arith)
                requires
                    nlo_n < 0,
                    nhi_d >= 1,
            ;
            assert(nhi_n * nlo_d > 0) by (nonlinear_arith)
                requires
                    nhi_n > 0,
                    nlo_d >= 1,
            ;
            lemma_hit_from_inside_rec(b, r, a + 1, nlo_n, nlo_d, nhi_n, nhi_d);
        }
    }
}

} // verus!
