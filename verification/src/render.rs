use vstd::prelude::*;
use crate::vec3::{Vec3, tup3, dot3};
use crate::ray::Ray;
use crate::rat::{Rat, lemma_mul_bound, spec_isqrt, isqrt, is_isqrt, spec_tdiv, tdiv};
use crate::hittable::{Primitive, HitRecord, World, world_wf, world_hit_post, frac_le};
use crate::bvh::BVH;
use crate::material::Material;
use crate::texture::{COLOR_SCALE, color_wf};

verus! {

/// The root a render traverses: either the flat primitive list, scanned
/// linearly, or a built tree.
pub enum Scene {
    List(World),
    Tree(BVH),
}

impl Scene {
    pub open spec fn wf(self) -> bool {
        match self {
            Scene::List(w) => world_wf(w@),
            Scene::Tree(b) => b.wf(),
        }
    }

    /// The primitives reachable from this root.
    pub open spec fn prims(self) -> Seq<Primitive> {
        match self {
            Scene::List(w) => w@,
            Scene::Tree(b) => b.leaves(),
        }
    }

    pub proof fn lemma_prims_wf(self)
        requires
            self.wf(),
        ensures
            world_wf(self.prims()),
    {
        match self {
            Scene::List(w) => {},
            Scene::Tree(b) => {
                b.lemma_leaves_wf();
            },
        }
    }

    /// Intersect: a scan of the list or a traversal of the tree. A reported
    /// record is always a hit of some primitive within the limit; a list
    /// answers the full closest-hit contract, and a tree does wherever its
    /// boxes cover their subtrees.
    pub fn hit(&self, r: &Ray, t_min: Rat, t_max: Rat) -> (res: Option<HitRecord>)
        requires
            self.wf(),
            r.wf(),
            !(r.direction.x == 0 && r.direction.y == 0 && r.direction.z == 0),
            t_min.wf(),
            t_max.wf(),
        ensures
            res matches Some(rec) ==> rec.wf() && frac_le(
                rec.t.num as int,
                rec.t.den as int,
                t_max.num as int,
                t_max.den as int,
            ) && exists|i: int|
                0 <= i < self.prims().len() && (#[trigger] self.prims()[i].owns(*r, t_min, rec)),
            match self {
                Scene::List(w) => world_hit_post(w@, res, *r, t_min, t_max),
                Scene::Tree(b) => b.covers(*r, t_min) ==> world_hit_post(
                    b.leaves(),
                    res,
                    *r,
                    t_min,
                    t_max,
                ),
            },
    {
        match self {
            Scene::List(w) => {
                let res = crate::hittable::hit_world(w, r, t_min, t_max);
                proof {
                    if let Some(rec) = res {
                        let i = choose|i: int|
                            0 <= i < w@.len() && #[trigger] w@[i].owns(*r, t_min, rec);
                        assert(self.prims()[i].owns(*r, t_min, rec));
                    }
                }
                res
            },
            Scene::Tree(b) => {
                let res = b.hit(r, t_min, t_max);
                proof {
                    if let Some(rec) = res {
                        let i = choose|i: int|
                            0 <= i < b.leaves().len() && #[trigger] b.leaves()[i].owns(
                                *r,
                                t_min,
                                rec,
                            );
                        assert(self.prims()[i].owns(*r, t_min, rec));
                    }
                }
                res
            },
        }
    }
}

/// Componentwise product of two colors on the fixed scale: this is where
/// color bleeds and darkens across bounces.
pub open spec fn spec_mul_color(a: Vec3, b: Vec3) -> Vec3 {
    Vec3 {
        x: (((a.x as int) * (b.x as int)) / (COLOR_SCALE as int)) as i64,
        y: (((a.y as int) * (b.y as int)) / (COLOR_SCALE as int)) as i64,
        z: (((a.z as int) * (b.z as int)) / (COLOR_SCALE as int)) as i64,
    }
}

pub fn mul_color(a: Vec3, b: Vec3) -> (c: Vec3)
    requires
        color_wf(a),
        color_wf(b),
    ensures
        c == spec_mul_color(a, b),
        color_wf(c),
{
    proof {
        lemma_color_mul_comp(a.x as int, b.x as int);
        lemma_color_mul_comp(a.y as int, b.y as int);
        lemma_color_mul_comp(a.z as int, b.z as int);
    }
    Vec3 {
        x: (((a.x as u64) * (b.x as u64)) / 65536) as i64,
        y: (((a.y as u64) * (b.y as u64)) / 65536) as i64,
        z: (((a.z as u64) * (b.z as u64)) / 65536) as i64,
    }
}

proof fn lemma_color_mul_comp(x: int, y: int)
    requires
        0 <= x <= 65536,
        0 <= y <= 65536,
    ensures
        0 <= (x * y) / 65536 <= 65536,
{
    lemma_mul_bound(x, y, 65536, 65536);
    vstd::arithmetic::div_mod::lemma_div_pos_is_pos(x * y, 65536);
    vstd::arithmetic::div_mod::lemma_div_is_ordered(x * y, 65536int * 65536, 65536);
    vstd::arithmetic::div_mod::lemma_div_multiples_vanish(65536, 65536);
}

/// The sky: a vertical blend from white underfoot to blue overhead,
/// steered by the ray direction's unit vertical component on the color
/// scale.
pub open spec fn spec_background(r: Ray) -> Vec3 {
    let l = spec_isqrt(dot3(tup3(r.direction), tup3(r.direction)));
    let uy = spec_tdiv((r.direction.y as int) * 65536, l);
    let t = (uy + 65536) / 2;
    Vec3 {
        x: (((65536 - t) * 65536 + t * 32768) / 65536) as i64,
        y: (((65536 - t) * 65536 + t * 45875) / 65536) as i64,
        z: (((65536 - t) * 65536 + t * 65536) / 65536) as i64,
    }
}

pub fn background(r: &Ray) -> (c: Vec3)
    requires
        r.wf(),
        !(r.direction.x == 0 && r.direction.y == 0 && r.direction.z == 0),
    ensures
        c == spec_background(*r),
        color_wf(c),
{
    let d = r.direction;
    proof {
        lemma_mul_bound(d.x as int, d.x as int, 4096, 4096);
        lemma_mul_bound(d.y as int, d.y as int, 4096, 4096);
        lemma_mul_bound(d.z as int, d.z as int, 4096, 4096);
        assert(dot3(tup3(d), tup3(d)) >= 1) by (nonlinear_arith)
            requires
                dot3(tup3(d), tup3(d)) == (d.x as int) * (d.x as int) + (d.y as int) * (d.y as int)
                    + (d.z as int) * (d.z as int),
                !(d.x == 0 && d.y == 0 && d.z == 0),
        ;
    }
    let l2 = d.length_squared();
    let lu = isqrt(l2 as u128);
    proof {
        assert(1 <= lu as int <= 8192) by (nonlinear_arith)
            requires
                is_isqrt(l2 as int, lu as int),
                1 <= l2 <= 0x300_0000,
        ;
        assert((d.y as int) * (d.y as int) <= l2 as int) by (nonlinear_arith)
            requires
                l2 == (d.x as int) * (d.x as int) + (d.y as int) * (d.y as int) + (d.z as int) * (
                d.z as int),
        ;
        crate::material::lemma_abs_le_isqrt(d.y as int, l2 as int, lu as int);
        crate::rat::lemma_tdiv_bounds((d.y as int) * 65536, lu as int, 65536);
        assert((lu as int) * 65536 == 65536 * (lu as int)) by (nonlinear_arith);
        lemma_mul_bound(d.y as int, 65536, lu as int, 65536);
    }
    let l = lu as i64;
    let uy = tdiv(d.y * 65536, l);
    let t = (uy + 65536) / 2;
    proof {
        assert(0 <= t <= 65536);
        lemma_blend_comp(t as int, 32768);
        lemma_blend_comp(t as int, 45875);
        lemma_blend_comp(t as int, 65536);
    }
    Vec3 {
        x: ((((65536 - t) as u64) * 65536 + (t as u64) * 32768) / 65536) as i64,
        y: ((((65536 - t) as u64) * 65536 + (t as u64) * 45875) / 65536) as i64,
        z: ((((65536 - t) as u64) * 65536 + (t as u64) * 65536) / 65536) as i64,
    }
}

proof fn lemma_blend_comp(t: int, s: int)
    requires
        0 <= t <= 65536,
        0 <= s <= 65536,
    ensures
        0 <= ((65536 - t) * 65536 + t * s) / 65536 <= 65536,
{
    lemma_mul_bound(t, s, 65536, 65536);
    lemma_mul_bound(65536 - t, 65536, 65536, 65536);
    assert((65536 - t) * 65536 + t * s >= 0) by (nonlinear_arith)
        requires
            0 <= t <= 65536,
            0 <= s <= 65536,
    ;
    assert((65536 - t) * 65536 + t * s <= 65536 * 65536) by (nonlinear_arith)
        requires
            0 <= t <= 65536,
            0 <= s <= 65536,
    ;
    vstd::arithmetic::div_mod::lemma_div_pos_is_pos((65536 - t) * 65536 + t * s, 65536);
    vstd::arithmetic::div_mod::lemma_div_is_ordered(
        (65536 - t) * 65536 + t * s,
        65536int * 65536,
        65536,
    );
    vstd::arithmetic::div_mod::lemma_div_multiples_vanish(65536, 65536);
}

pub open spec fn mats_wf(ms: Seq<Material>) -> bool {
    forall|i: int| 0 <= i < ms.len() ==> (#[trigger] ms[i]).wf()
}

/// The near clip every radiance query uses: a small positive epsilon that
/// keeps a scattered ray from re-striking its own surface ("shadow acne").
pub open spec fn spec_near_clip() -> Rat {
    Rat { num: 1, den: 1000 }
}

/// The far limit of a radiance query: effectively infinity on the grid.
pub open spec fn spec_far_limit() -> Rat {
    Rat { num: 0x7FFF_FFFF_FFFF_FFFF, den: 1 }
}

/// No primitive of `ps` has a candidate distance within the radiance
/// query's range: the ray misses the whole collection.
pub open spec fn scene_misses(ps: Seq<Primitive>, r: Ray) -> bool {
    forall|i: int|
        0 <= i < ps.len() ==> ((#[trigger] ps[i].candidate(r, spec_near_clip())) matches Some(c)
            ==> !frac_le(c.0, c.1, spec_far_limit().num as int, spec_far_limit().den as int))
}

/// What a miss reported by the scene query means, per root kind: a list
/// reports a miss exactly when the ray misses every member; a tree does so
/// wherever its boxes cover their subtrees (an uncovered, degenerate box
/// can prune a hit away).
pub open spec fn scene_reports_miss(scene: Scene, r: Ray) -> bool {
    match scene {
        Scene::List(w) => scene_misses(w@, r),
        Scene::Tree(b) => b.covers(r, spec_near_clip()) ==> scene_misses(b.leaves(), r),
    }
}

/// What a hit record reported by the scene query means: a well-formed
/// record within the query range that some primitive owns; over a list (or
/// a covered tree) it is moreover the closest-hit answer.
pub open spec fn scene_reports_hit(scene: Scene, r: Ray, rec: HitRecord) -> bool {
    &&& rec.wf()
    &&& frac_le(
        rec.t.num as int,
        rec.t.den as int,
        spec_far_limit().num as int,
        spec_far_limit().den as int,
    )
    &&& exists|i: int|
        0 <= i < scene.prims().len() && (#[trigger] scene.prims()[i].owns(
            r,
            spec_near_clip(),
            rec,
        ))
    &&& match scene {
        Scene::List(w) => world_hit_post(w@, Some(rec), r, spec_near_clip(), spec_far_limit()),
        Scene::Tree(b) => b.covers(r, spec_near_clip()) ==> world_hit_post(
            b.leaves(),
            Some(rec),
            r,
            spec_near_clip(),
            spec_far_limit(),
        ),
    }
}

/// The step relation of one radiance estimate: exhausted depth is exact
/// black; otherwise either the scene reported a miss and the estimate is
/// the background gradient, or it reported a hit record, whose material —
/// absorbed treated as black, a record naming no material likewise — was
/// consulted, and the estimate is the attenuation times some estimate of
/// the scattered ray one level shallower. Every body of the integrator
/// must exhibit this derivation; only the random draws inside a scatter
/// keep the value itself from being a function of the inputs.
pub open spec fn ray_color_post(
    scene: Scene,
    mats: Seq<Material>,
    r: Ray,
    depth: u32,
    c: Vec3,
) -> bool
    decreases depth,
{
    if depth == 0 {
        c == (Vec3 { x: 0, y: 0, z: 0 })
    } else {
        ||| (scene_reports_miss(scene, r) && c == spec_background(r))
        ||| (exists|rec: HitRecord|
            (#[trigger] scene_reports_hit(scene, r, rec)) && (if rec.mat >= mats.len() {
                c == (Vec3 { x: 0, y: 0, z: 0 })
            } else {
                exists|res: Option<(Vec3, Ray)>|
                    (#[trigger] crate::material::scatter_post(mats[rec.mat as int], r, rec, res))
                        && (match res {
                        None => c == (Vec3 { x: 0, y: 0, z: 0 }),
                        Some((att, sray)) => exists|c2: Vec3|
                            ray_color_post(scene, mats, sray, (depth - 1) as u32, c2) && c == (
                            #[trigger] spec_mul_color(att, c2)),
                    })
            }))
    }
}

/// Estimate the radiance a ray carries: walk the scene, consult the hit
/// material, recurse on the scattered ray and attenuate; bottom out at the
/// background gradient, at absorption, or at the depth limit.
///
/// Exhausted depth yields exact black whatever the scene holds. A ray
/// none of whose candidates lies within the query range — in particular
/// every ray over a scene with no primitives — yields exactly the
/// background gradient. Every estimate satisfies the step relation
/// `ray_color_post`: it was derived by querying the scene and consulting
/// the hit material, with only the random draws inside a scatter left
/// open. The estimate never leaves the color range.
pub fn ray_color(scene: &Scene, materials: &Vec<Material>, ray: &Ray, depth: u32) -> (c: Vec3)
    requires
        scene.wf(),
        mats_wf(materials@),
        ray.wf(),
        !(ray.direction.x == 0 && ray.direction.y == 0 && ray.direction.z == 0),
    ensures
        color_wf(c),
        ray_color_post(*scene, materials@, *ray, depth, c),
        depth == 0 ==> c == (Vec3 { x: 0, y: 0, z: 0 }),
        depth > 0 && scene_misses(scene.prims(), *ray) ==> c == spec_background(*ray),
        depth > 0 && (scene matches Scene::List(w) && w@.len() == 0) ==> c == spec_background(
            *ray,
        ),
    decreases depth,
{
    if depth == 0 {
        return Vec3 { x: 0, y: 0, z: 0 };
    }
    let t_min = Rat { num: 1, den: 1000 };
    let t_max = Rat { num: 0x7FFF_FFFF_FFFF_FFFF, den: 1 };
    proof {
        assert(t_min == spec_near_clip());
        assert(t_max == spec_far_limit());
    }
    match scene.hit(ray, t_min, t_max) {
        None => {
            proof {
                lemma_none_reports_miss(*scene, *ray, None);
            }
            background(ray)
        },
        Some(rec) => {
            proof {
                // a reported record refutes a whole-scene miss: it is owned
                // by some member, whose candidate is its distance
                scene.lemma_prims_wf();
                assert(scene_reports_hit(*scene, *ray, rec));
                if scene_misses(scene.prims(), *ray) {
                    let i = choose|i: int|
                        0 <= i < scene.prims().len() && #[trigger] scene.prims()[i].owns(
                            *ray,
                            spec_near_clip(),
                            rec,
                        );
                    scene.prims()[i].lemma_owns_candidate(*ray, spec_near_clip(), rec);
                    assert(false);
                }
            }
            if rec.mat < materials.len() {
                let m = materials[rec.mat];
                let sres = m.scatter(ray, &rec);
                match sres {
                    Some((attenuation, scattered)) => {
                        proof {
                            lemma_scatter_color(m, *ray, rec, attenuation, scattered);
                        }
                        let bounced = ray_color(scene, materials, &scattered, depth - 1);
                        let c = mul_color(attenuation, bounced);
                        proof {
                            assert(ray_color_post(
                                *scene,
                                materials@,
                                scattered,
                                (depth - 1) as u32,
                                bounced,
                            ));
                            assert(exists|c2: Vec3|
                                ray_color_post(
                                    *scene,
                                    materials@,
                                    scattered,
                                    (depth - 1) as u32,
                                    c2,
                                ) && c == (#[trigger] spec_mul_color(attenuation, c2)));
                            assert(crate::material::scatter_post(
                                materials@[rec.mat as int],
                                *ray,
                                rec,
                                sres,
                            ));
                            lemma_hit_step(*scene, materials@, *ray, rec, sres, depth, c);
                        }
                        c
                    },
                    None => {
                        proof {
                            assert(crate::material::scatter_post(
                                materials@[rec.mat as int],
                                *ray,
                                rec,
                                sres,
                            ));
                            lemma_hit_step(
                                *scene,
                                materials@,
                                *ray,
                                rec,
                                sres,
                                depth,
                                Vec3 { x: 0, y: 0, z: 0 },
                            );
                        }
                        Vec3 { x: 0, y: 0, z: 0 }
                    },
                }
            } else {
                // a record naming no material is treated as absorbed
                proof {
                    assert(exists|rr: HitRecord|
                        (#[trigger] scene_reports_hit(*scene, *ray, rr)) && rr.mat
                            >= materials@.len() && (Vec3 { x: 0, y: 0, z: 0 }) == (Vec3 {
                            x: 0,
                            y: 0,
                            z: 0,
                        }));
                }
                Vec3 { x: 0, y: 0, z: 0 }
            }
        },
    }
}

/// A scene query that reports nothing reports a miss in the sense above.
proof fn lemma_none_reports_miss(scene: Scene, r: Ray, res: Option<HitRecord>)
    requires
        res is None,
        match scene {
            Scene::List(w) => world_hit_post(w@, res, r, spec_near_clip(), spec_far_limit()),
            Scene::Tree(b) => b.covers(r, spec_near_clip()) ==> world_hit_post(
                b.leaves(),
                res,
                r,
                spec_near_clip(),
                spec_far_limit(),
            ),
        },
    ensures
        scene_reports_miss(scene, r),
{
}

/// The hit arm of the step relation, assembled from its witnesses.
proof fn lemma_hit_step(
    scene: Scene,
    mats: Seq<Material>,
    r: Ray,
    rec: HitRecord,
    sres: Option<(Vec3, Ray)>,
    depth: u32,
    c: Vec3,
)
    requires
        depth > 0,
        scene_reports_hit(scene, r, rec),
        rec.mat < mats.len(),
        crate::material::scatter_post(mats[rec.mat as int], r, rec, sres),
        match sres {
            None => c == (Vec3 { x: 0, y: 0, z: 0 }),
            Some((att, sray)) => exists|c2: Vec3|
                ray_color_post(scene, mats, sray, (depth - 1) as u32, c2) && c == (
                #[trigger] spec_mul_color(att, c2)),
        },
    ensures
        ray_color_post(scene, mats, r, depth, c),
{
    assert(exists|res: Option<(Vec3, Ray)>|
        (#[trigger] crate::material::scatter_post(mats[rec.mat as int], r, rec, res)) && (
        match res {
            None => c == (Vec3 { x: 0, y: 0, z: 0 }),
            Some((att, sray)) => exists|c2: Vec3|
                ray_color_post(scene, mats, sray, (depth - 1) as u32, c2) && c == (
                #[trigger] spec_mul_color(att, c2)),
        }));
}

/// What every successful scatter hands back: a color in range and a valid
/// nonzero ray.
proof fn lemma_scatter_color(m: Material, r: Ray, rec: HitRecord, att: Vec3, sray: Ray)
    requires
        crate::material::scatter_post(m, r, rec, Some((att, sray))),
        m.wf(),
    ensures
        color_wf(att),
        sray.wf(),
        !(sray.direction.x == 0 && sray.direction.y == 0 && sray.direction.z == 0),
{
}

} // verus!
