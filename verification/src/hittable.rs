use vstd::prelude::*;
use crate::vec3::{Vec3, in_bounds, dot3, tup3, neg3};
use crate::ray::Ray;
use crate::rat::{Rat, lemma_frac_le_trans};
use crate::sphere::{Sphere, MovingSphere, sphere_hit_post, q_candidate, q_a, lemma_sphere_characterize};
use crate::triangle::{Triangle, triangle_hit_post, tri_candidate, lemma_triangle_characterize};
use crate::aabb::{AABB, spec_surround, spec_contains_box, lemma_contains_trans};

verus! {

/// An exact point with rational coordinates: the three numerators over one
/// shared positive denominator.
#[derive(Clone, Copy, Debug)]
pub struct PointR {
    pub xn: i64,
    pub yn: i64,
    pub zn: i64,
    pub den: i64,
}

impl PointR {
    pub open spec fn wf(self) -> bool {
        self.den >= 1
    }

    /// The numerators as integers.
    pub open spec fn nums(self) -> (int, int, int) {
        (self.xn as int, self.yn as int, self.zn as int)
    }
}

/// The result of a successful intersection. The hit point is exact; the
/// normal is an integer vector pointing against the incoming ray (any
/// positive multiple of the unit normal — its length carries no meaning).
#[derive(Clone, Copy, Debug)]
pub struct HitRecord {
    pub p: PointR,
    pub normal: Vec3,
    pub mat: usize,
    pub t: Rat,
    pub u: Rat,
    pub v: Rat,
    pub front_face: bool,
}

impl HitRecord {
    pub open spec fn wf(self) -> bool {
        &&& self.t.wf()
        &&& self.p.wf()
        &&& self.u.wf()
        &&& self.v.wf()
        &&& in_bounds(self.normal, 0x400_0000_0000_0000)
        &&& -0x400_0000_0000_0000 <= self.p.xn <= 0x400_0000_0000_0000
        &&& -0x400_0000_0000_0000 <= self.p.yn <= 0x400_0000_0000_0000
        &&& -0x400_0000_0000_0000 <= self.p.zn <= 0x400_0000_0000_0000
    }

    /// Orient `outward_normal` against the ray: `front_face` records whether
    /// the ray struck the side the outward normal points toward, and the
    /// stored normal is flipped when it did not.
    pub fn set_face_normal(&mut self, r: &Ray, outward_normal: &Vec3)
        requires
            in_bounds(*outward_normal, 0x4000_0000_0000_0000),
            in_bounds(r.direction, 0x4000_0000_0000_0000),
        ensures
            final(self).front_face == (dot3(tup3(r.direction), tup3(*outward_normal)) < 0),
            tup3(final(self).normal) == if final(self).front_face {
                tup3(*outward_normal)
            } else {
                neg3(tup3(*outward_normal))
            },
            final(self).p == old(self).p,
            final(self).mat == old(self).mat,
            final(self).t == old(self).t,
            final(self).u == old(self).u,
            final(self).v == old(self).v,
    {
        self.front_face = r.direction.dot_wide(*outward_normal) < 0;
        if self.front_face {
            self.normal = *outward_normal;
        } else {
            self.normal = outward_normal.neg();
        }
    }
}

/// The closed set of renderable primitives, dispatched by exhaustive match.
#[derive(Clone, Copy, Debug)]
pub enum Primitive {
    Sphere(Sphere),
    MovingSphere(MovingSphere),
    Triangle(Triangle),
}

/// `a/b <= c/d` on fractions with positive denominators.
pub open spec fn frac_le(an: int, ad: int, bn: int, bd: int) -> bool {
    an * bd <= bn * ad
}

impl Primitive {
    pub open spec fn wf(self) -> bool {
        match self {
            Primitive::Sphere(s) => s.wf(),
            Primitive::MovingSphere(m) => m.wf(),
            Primitive::Triangle(t) => t.wf(),
        }
    }

    /// The contract of this primitive's intersection, per kind.
    pub open spec fn spec_hit_post(self, res: Option<HitRecord>, r: Ray, t_min: Rat, t_max: Rat) -> bool {
        match self {
            Primitive::Sphere(s) => sphere_hit_post(
                res,
                r.origin,
                r.direction,
                tup3(s.center),
                1,
                s.radius as int,
                s.mat,
                t_min,
                t_max,
            ),
            Primitive::MovingSphere(m) => sphere_hit_post(
                res,
                r.origin,
                r.direction,
                m.spec_center_num(r.time as int),
                m.time1 - m.time0,
                m.radius as int,
                m.mat,
                t_min,
                t_max,
            ),
            Primitive::Triangle(t) => triangle_hit_post(res, t, r, t_min, t_max),
        }
    }

    /// The candidate distance of this primitive past the near clip: what a
    /// hit query reports whenever its far limit admits it.
    pub open spec fn candidate(self, r: Ray, t_min: Rat) -> Option<(int, int)> {
        match self {
            Primitive::Sphere(s) => q_candidate(
                r.origin,
                tup3(s.center),
                1,
                r.direction,
                s.radius as int,
                t_min,
            ),
            Primitive::MovingSphere(m) => q_candidate(
                r.origin,
                m.spec_center_num(r.time as int),
                m.time1 - m.time0,
                r.direction,
                m.radius as int,
                t_min,
            ),
            Primitive::Triangle(t) => tri_candidate(t, r, t_min),
        }
    }

    /// `rec` is a hit this primitive reports when queried with its own
    /// distance as the far limit.
    pub open spec fn owns(self, r: Ray, t_min: Rat, rec: HitRecord) -> bool {
        self.spec_hit_post(Some(rec), r, t_min, rec.t)
    }

    pub fn hit(&self, r: &Ray, t_min: Rat, t_max: Rat) -> (res: Option<HitRecord>)
        requires
            self.wf(),
            r.wf(),
            !(r.direction.x == 0 && r.direction.y == 0 && r.direction.z == 0),
            t_min.wf(),
            t_max.wf(),
        ensures
            self.spec_hit_post(res, *r, t_min, t_max),
    {
        match self {
            Primitive::Sphere(s) => s.hit(r, t_min, t_max),
            Primitive::MovingSphere(m) => m.hit(r, t_min, t_max),
            Primitive::Triangle(t) => t.hit(r, t_min, t_max),
        }
    }

    /// Every primitive's hit is the monotone filter of its candidate.
    pub proof fn lemma_characterize(self, res: Option<HitRecord>, r: Ray, t_min: Rat, t_max: Rat)
        requires
            self.wf(),
            r.wf(),
            !(r.direction.x == 0 && r.direction.y == 0 && r.direction.z == 0),
            self.spec_hit_post(res, r, t_min, t_max),
            t_min.wf(),
            t_max.wf(),
        ensures
            match self.candidate(r, t_min) {
                None => res is None,
                Some((tn, td)) => {
                    &&& td >= 1
                    &&& if frac_le(tn, td, t_max.num as int, t_max.den as int) {
                        &&& res matches Some(rec)
                        &&& res->Some_0.t.num as int == tn
                        &&& res->Some_0.t.den as int == td
                        &&& self.owns(r, t_min, res->Some_0)
                    } else {
                        res is None
                    }
                },
            },
    {
        assert(q_a(r.direction) >= 1) by (nonlinear_arith)
            requires
                q_a(r.direction) == (r.direction.x as int) * (r.direction.x as int) + (
                r.direction.y as int) * (r.direction.y as int) + (r.direction.z as int) * (
                r.direction.z as int),
                !(r.direction.x == 0 && r.direction.y == 0 && r.direction.z == 0),
        ;
        match self {
            Primitive::Sphere(s) => {
                lemma_sphere_characterize(
                    res,
                    r.origin,
                    r.direction,
                    tup3(s.center),
                    1,
                    s.radius as int,
                    s.mat,
                    t_min,
                    t_max,
                );
            },
            Primitive::MovingSphere(m) => {
                lemma_sphere_characterize(
                    res,
                    r.origin,
                    r.direction,
                    m.spec_center_num(r.time as int),
                    m.time1 - m.time0,
                    m.radius as int,
                    m.mat,
                    t_min,
                    t_max,
                );
            },
            Primitive::Triangle(t) => {
                lemma_triangle_characterize(res, t, r, t_min, t_max);
            },
        }
    }

    /// A record some primitive owns sits exactly at that primitive's
    /// candidate distance.
    pub proof fn lemma_owns_candidate(self, r: Ray, t_min: Rat, rec: HitRecord)
        requires
            self.wf(),
            r.wf(),
            !(r.direction.x == 0 && r.direction.y == 0 && r.direction.z == 0),
            self.owns(r, t_min, rec),
            t_min.wf(),
            rec.wf(),
        ensures
            self.candidate(r, t_min) == Some((rec.t.num as int, rec.t.den as int)),
    {
        self.lemma_characterize(Some(rec), r, t_min, rec.t);
        match self.candidate(r, t_min) {
            None => {
                assert(false);
            },
            Some((tn, td)) => {
                if !frac_le(tn, td, rec.t.num as int, rec.t.den as int) {
                    assert(false);
                }
            },
        }
    }

    /// Whenever a candidate exists its denominator is positive.
    pub proof fn lemma_candidate_den(self, r: Ray, t_min: Rat)
        requires
            self.wf(),
            !(r.direction.x == 0 && r.direction.y == 0 && r.direction.z == 0),
        ensures
            self.candidate(r, t_min) matches Some(c) ==> c.1 >= 1,
    {
        assert(q_a(r.direction) >= 1) by (nonlinear_arith)
            requires
                q_a(r.direction) == (r.direction.x as int) * (r.direction.x as int) + (
                r.direction.y as int) * (r.direction.y as int) + (r.direction.z as int) * (
                r.direction.z as int),
                !(r.direction.x == 0 && r.direction.y == 0 && r.direction.z == 0),
        ;
        match self {
            Primitive::Sphere(s) => {
                assert(crate::sphere::q_den(r.direction, 1) >= 1) by (nonlinear_arith)
                    requires
                        crate::sphere::q_den(r.direction, 1) == q_a(r.direction) * 1,
                        q_a(r.direction) >= 1,
                ;
            },
            Primitive::MovingSphere(m) => {
                assert(crate::sphere::q_den(r.direction, m.time1 - m.time0) >= 1)
                    by (nonlinear_arith)
                    requires
                        crate::sphere::q_den(r.direction, m.time1 - m.time0) == q_a(r.direction)
                            * (m.time1 - m.time0),
                        q_a(r.direction) >= 1,
                        m.time1 - m.time0 >= 1,
                ;
            },
            Primitive::Triangle(t) => {},
        }
    }

    /// The exact bounding box of this primitive, per kind.
    pub open spec fn spec_box(self) -> AABB {
        match self {
            Primitive::Sphere(s) => AABB {
                minimum: Vec3 {
                    x: (s.center.x - s.radius) as i64,
                    y: (s.center.y - s.radius) as i64,
                    z: (s.center.z - s.radius) as i64,
                },
                maximum: Vec3 {
                    x: (s.center.x + s.radius) as i64,
                    y: (s.center.y + s.radius) as i64,
                    z: (s.center.z + s.radius) as i64,
                },
            },
            Primitive::MovingSphere(m) => spec_surround(
                AABB {
                    minimum: Vec3 {
                        x: (m.center0.x - m.radius) as i64,
                        y: (m.center0.y - m.radius) as i64,
                        z: (m.center0.z - m.radius) as i64,
                    },
                    maximum: Vec3 {
                        x: (m.center0.x + m.radius) as i64,
                        y: (m.center0.y + m.radius) as i64,
                        z: (m.center0.z + m.radius) as i64,
                    },
                },
                AABB {
                    minimum: Vec3 {
                        x: (m.center1.x - m.radius) as i64,
                        y: (m.center1.y - m.radius) as i64,
                        z: (m.center1.z - m.radius) as i64,
                    },
                    maximum: Vec3 {
                        x: (m.center1.x + m.radius) as i64,
                        y: (m.center1.y + m.radius) as i64,
                        z: (m.center1.z + m.radius) as i64,
                    },
                },
            ),
            Primitive::Triangle(t) => AABB {
                minimum: Vec3 {
                    x: vstd::math::min(t.v0.x as int, vstd::math::min(t.v1.x as int, t.v2.x as int)) as i64,
                    y: vstd::math::min(t.v0.y as int, vstd::math::min(t.v1.y as int, t.v2.y as int)) as i64,
                    z: vstd::math::min(t.v0.z as int, vstd::math::min(t.v1.z as int, t.v2.z as int)) as i64,
                },
                maximum: Vec3 {
                    x: vstd::math::max(t.v0.x as int, vstd::math::max(t.v1.x as int, t.v2.x as int)) as i64,
                    y: vstd::math::max(t.v0.y as int, vstd::math::max(t.v1.y as int, t.v2.y as int)) as i64,
                    z: vstd::math::max(t.v0.z as int, vstd::math::max(t.v1.z as int, t.v2.z as int)) as i64,
                },
            },
        }
    }

    /// The bounding box, returned directly; every primitive of this crate
    /// reports one, so the `Option` of the per-kind interface never fails
    /// (the fallback arms below are provably dead).
    pub fn box_exact(&self, time0: i64, time1: i64) -> (b: AABB)
        requires
            self.wf(),
        ensures
            b == self.spec_box(),
            b.wf(),
            b.spec_ordered(),
    {
        match self {
            Primitive::Sphere(s) => {
                let r = s.bounding_box(time0, time1);
                match r {
                    Some(b) => b,
                    None => AABB { minimum: Vec3 { x: 0, y: 0, z: 0 }, maximum: Vec3 { x: 0, y: 0, z: 0 } },
                }
            },
            Primitive::MovingSphere(m) => {
                let r = m.bounding_box(time0, time1);
                match r {
                    Some(b) => b,
                    None => AABB { minimum: Vec3 { x: 0, y: 0, z: 0 }, maximum: Vec3 { x: 0, y: 0, z: 0 } },
                }
            },
            Primitive::Triangle(t) => {
                let r = t.bounding_box(time0, time1);
                match r {
                    Some(b) => b,
                    None => AABB { minimum: Vec3 { x: 0, y: 0, z: 0 }, maximum: Vec3 { x: 0, y: 0, z: 0 } },
                }
            },
        }
    }

    /// The `Option` interface every hittable offers: here always a box.
    pub fn bounding_box(&self, time0: i64, time1: i64) -> (res: Option<AABB>)
        requires
            self.wf(),
        ensures
            res matches Some(b) && b == self.spec_box() && b.wf() && b.spec_ordered(),
    {
        Some(self.box_exact(time0, time1))
    }
}

/// The flat, unordered collection of primitives a scene starts from.
pub type World = Vec<Primitive>;

pub open spec fn world_wf(w: Seq<Primitive>) -> bool {
    forall|i: int| 0 <= i < w.len() ==> (#[trigger] w[i]).wf()
}

/// What a closest-hit query over a collection reports: a record that some
/// member owns, at the least candidate distance of any member, and within
/// the far limit; or a miss when no member's candidate lies within it.
pub open spec fn world_hit_post(
    w: Seq<Primitive>,
    res: Option<HitRecord>,
    r: Ray,
    t_min: Rat,
    t_max: Rat,
) -> bool {
    match res {
        None => forall|i: int|
            0 <= i < w.len() ==> ((#[trigger] w[i].candidate(r, t_min)) matches Some(c)
                ==> !frac_le(c.0, c.1, t_max.num as int, t_max.den as int)),
        Some(rec) => {
            &&& rec.wf()
            &&& frac_le(rec.t.num as int, rec.t.den as int, t_max.num as int, t_max.den as int)
            &&& exists|i: int| 0 <= i < w.len() && (#[trigger] w[i].owns(r, t_min, rec))
            &&& forall|i: int|
                0 <= i < w.len() ==> ((#[trigger] w[i].candidate(r, t_min)) matches Some(c)
                    ==> frac_le(rec.t.num as int, rec.t.den as int, c.0, c.1))
        },
    }
}

/// The left fold of the members' boxes under the union (meaningful for a
/// non-empty collection).
pub open spec fn spec_world_box(w: Seq<Primitive>) -> AABB
    decreases w.len(),
{
    if w.len() <= 1 {
        w[0].spec_box()
    } else {
        spec_surround(spec_world_box(w.drop_last()), w.last().spec_box())
    }
}

/// The box over a whole collection: the union of every member's box, or
/// nothing for an empty collection.
pub fn world_bounding_box(w: &World, time0: i64, time1: i64) -> (res: Option<AABB>)
    requires
        world_wf(w@),
    ensures
        match res {
            None => w@.len() == 0,
            Some(b) => w@.len() > 0 && b == spec_world_box(w@) && b.wf(),
        },
{
    let n = w.len();
    if n == 0 {
        return None;
    }
    let mut acc = (&w[0]).box_exact(time0, time1);
    proof {
        assert(w@.take(1).len() == 1);
        assert(w@.take(1)[0] == w@[0]);
    }
    for k in 1..n
        invariant
            n == w@.len(),
            world_wf(w@),
            1 <= k <= n,
            acc == spec_world_box(w@.take(k as int)),
            acc.wf(),
    {
        let pb = (&w[k]).box_exact(time0, time1);
        acc = AABB::surrounding_box(&acc, &pb);
        proof {
            let pre = w@.take(k as int);
            let cur = w@.take(k as int + 1);
            assert(cur.drop_last() =~= pre);
            assert(cur.last() == w@[k as int]);
        }
    }
    proof {
        assert(w@.take(n as int) =~= w@);
    }
    Some(acc)
}

/// The collection's box contains every member's box.
pub proof fn lemma_world_box_contains(w: Seq<Primitive>, i: int)
    requires
        0 <= i < w.len(),
    ensures
        spec_contains_box(spec_world_box(w), w[i].spec_box()),
    decreases w.len(),
{
    if w.len() <= 1 {
    } else {
        crate::aabb::lemma_surrounding_box_contains(
            spec_world_box(w.drop_last()),
            w.last().spec_box(),
        );
        if i == w.len() - 1 {
        } else {
            lemma_world_box_contains(w.drop_last(), i);
            lemma_contains_trans(
                spec_world_box(w),
                spec_world_box(w.drop_last()),
                w[i].spec_box(),
            );
        }
    }
}

/// Scan every member, tightening the far limit to the best hit so far, so
/// the record that survives is at the least candidate distance.
pub fn hit_world(w: &World, r: &Ray, t_min: Rat, t_max: Rat) -> (res: Option<HitRecord>)
    requires
        world_wf(w@),
        r.wf(),
        !(r.direction.x == 0 && r.direction.y == 0 && r.direction.z == 0),
        t_min.wf(),
        t_max.wf(),
    ensures
        world_hit_post(w@, res, *r, t_min, t_max),
{
    let mut best: Option<HitRecord> = None;
    let mut closest = t_max;
    let n = w.len();
    for k in 0..n
        invariant
            n == w@.len(),
            world_wf(w@),
            r.wf(),
            !(r.direction.x == 0 && r.direction.y == 0 && r.direction.z == 0),
            t_min.wf(),
            t_max.wf(),
            closest.wf(),
            match best {
                None => {
                    &&& closest == t_max
                    &&& forall|j: int|
                        0 <= j < k ==> ((#[trigger] w@[j].candidate(*r, t_min)) matches Some(c)
                            ==> !frac_le(c.0, c.1, t_max.num as int, t_max.den as int))
                },
                Some(rec) => {
                    &&& rec.wf()
                    &&& closest == rec.t
                    &&& frac_le(rec.t.num as int, rec.t.den as int, t_max.num as int, t_max.den as int)
                    &&& exists|j: int| 0 <= j < k && (#[trigger] w@[j].owns(*r, t_min, rec))
                    &&& forall|j: int|
                        0 <= j < k ==> ((#[trigger] w@[j].candidate(*r, t_min)) matches Some(c)
                            ==> frac_le(rec.t.num as int, rec.t.den as int, c.0, c.1))
                },
            },
    {
        let p = w[k];
        let resk = p.hit(r, t_min, closest);
        proof {
            p.lemma_characterize(resk, *r, t_min, closest);
        }
        let ghost old_best = best;
        let ghost old_closest = closest;
        if let Some(rec) = resk {
            best = Some(rec);
            closest = rec.t;
        }
        proof {
            let c = w@[k as int].candidate(*r, t_min);
            match old_best {
                None => {
                    match resk {
                        None => {
                            assert(c matches Some(cc) ==> !frac_le(
                                cc.0,
                                cc.1,
                                t_max.num as int,
                                t_max.den as int,
                            ));
                        },
                        Some(rec) => {
                            assert(w@[k as int].owns(*r, t_min, rec));
                            assert forall|j: int|
                                0 <= j < k + 1 implies ((#[trigger] w@[j].candidate(*r, t_min))
                                matches Some(cc) ==> frac_le(
                                rec.t.num as int,
                                rec.t.den as int,
                                cc.0,
                                cc.1,
                            )) by {
                                if j < k {
                                    if let Some(cc) = w@[j].candidate(*r, t_min) {
                                        // earlier candidates exceed t_max, and the
                                        // new record lies within it
                                        w@[j].lemma_candidate_den(*r, t_min);
                                        lemma_frac_le_trans(
                                            rec.t.num as int,
                                            rec.t.den as int,
                                            t_max.num as int,
                                            t_max.den as int,
                                            cc.0,
                                            cc.1,
                                        );
                                    }
                                }
                            }
                        },
                    }
                },
                Some(orec) => {
                    match resk {
                        None => {
                            assert(c matches Some(cc) ==> frac_le(
                                orec.t.num as int,
                                orec.t.den as int,
                                cc.0,
                                cc.1,
                            ));
                        },
                        Some(rec) => {
                            assert(w@[k as int].owns(*r, t_min, rec));
                            assert forall|j: int|
                                0 <= j < k + 1 implies ((#[trigger] w@[j].candidate(*r, t_min))
                                matches Some(cc) ==> frac_le(
                                rec.t.num as int,
                                rec.t.den as int,
                                cc.0,
                                cc.1,
                            )) by {
                                if j < k {
                                    if let Some(cc) = w@[j].candidate(*r, t_min) {
                                        w@[j].lemma_candidate_den(*r, t_min);
                                        lemma_frac_le_trans(
                                            rec.t.num as int,
                                            rec.t.den as int,
                                            orec.t.num as int,
                                            orec.t.den as int,
                                            cc.0,
                                            cc.1,
                                        );
                                    }
                                }
                            }
                            lemma_frac_le_trans(
                                rec.t.num as int,
                                rec.t.den as int,
                                orec.t.num as int,
                                orec.t.den as int,
                                t_max.num as int,
                                t_max.den as int,
                            );
                        },
                    }
                },
            }
        }
    }
    best
}

} // verus!
