use vstd::prelude::*;
use vstd::seq_lib::lemma_multiset_commutative;
use crate::ray::Ray;
use crate::rat::{Rat, lemma_frac_le_trans};
use crate::hittable::{Primitive, HitRecord, World, world_wf, world_hit_post, frac_le};
use crate::aabb::{AABB, spec_surround, spec_slab_hit, lemma_slab_monotone};

verus! {

/// Why a tree could not be built: the scene had no primitives. (Every
/// primitive of this crate reports a bounding box, so the other classical
/// build failure cannot arise.)
#[derive(Clone, Copy, Debug, PartialEq, Eq, Structural)]
pub enum BuildError {
    EmptyScene,
}

/// A node owns either one primitive or exactly two subtrees.
pub enum BVHNode {
    Branch { left: Box<BVH>, right: Box<BVH> },
    Leaf(Primitive),
}

/// A bounding-volume hierarchy: a binary tree over primitives, with a
/// cached box at every node that bounds both children. Built once,
/// read-only thereafter.
pub struct BVH {
    pub tree: BVHNode,
    pub bbox: AABB,
}

impl BVH {
    /// Structural soundness: every cached box is the exact box of its leaf
    /// or the exact union of its children's boxes.
    pub open spec fn wf(self) -> bool
        decreases self,
    {
        &&& self.bbox.wf()
        &&& match self.tree {
            BVHNode::Leaf(p) => p.wf() && self.bbox == p.spec_box(),
            BVHNode::Branch { left, right } => left.wf() && right.wf() && self.bbox
                == spec_surround(left.bbox, right.bbox),
        }
    }

    /// The primitives at the leaves, left to right.
    pub open spec fn leaves(self) -> Seq<Primitive>
        decreases self,
    {
        match self.tree {
            BVHNode::Leaf(p) => seq![p],
            BVHNode::Branch { left, right } => left.leaves() + right.leaves(),
        }
    }

    pub proof fn lemma_leaves_wf(self)
        requires
            self.wf(),
        ensures
            world_wf(self.leaves()),
            self.leaves().len() >= 1,
        decreases self,
    {
        match self.tree {
            BVHNode::Leaf(p) => {},
            BVHNode::Branch { left, right } => {
                left.lemma_leaves_wf();
                right.lemma_leaves_wf();
            },
        }
    }

    /// Build by recursive median split: pick the axis on which the
    /// primitives' boxes spread widest, order the list by box midpoint on
    /// that axis, split at the middle and recurse; one element makes a
    /// leaf. An empty scene cannot make a tree and is reported as an error.
    pub fn new(hitable: Vec<Primitive>, time0: i64, time1: i64) -> (res: Result<BVH, BuildError>)
        requires
            world_wf(hitable@),
        ensures
            match res {
                Result::Err(e) => hitable@.len() == 0 && e == BuildError::EmptyScene,
                Result::Ok(b) => {
                    &&& hitable@.len() >= 1
                    &&& b.wf()
                    &&& b.leaves().to_multiset() == hitable@.to_multiset()
                },
            },
        decreases hitable@.len(),
    {
        let ghost orig = hitable@;
        let n = hitable.len();
        if n == 0 {
            return Err(BuildError::EmptyScene);
        }
        let axis = largest_axis(&hitable, time0, time1);
        let mut sorted = sort_by_axis(hitable, axis, time0, time1);
        if n == 1 {
            let p = sorted[0];
            proof {
                assert(sorted@ =~= seq![p]);
            }
            let bbox = p.box_exact(time0, time1);
            Ok(BVH { tree: BVHNode::Leaf(p), bbox })
        } else {
            let ghost sorted_seq = sorted@;
            let right_v = sorted.split_off(n / 2);
            let ghost left_seq = sorted@;
            let ghost right_seq = right_v@;
            proof {
                assert(left_seq + right_seq =~= sorted_seq);
                assert(world_wf(left_seq));
                assert(world_wf(right_seq));
            }
            // both halves are non-empty, so neither recursive build can fail
            let left = match BVH::new(sorted, time0, time1) {
                Ok(l) => l,
                Err(e) => {
                    proof {
                        assert(false);
                    }
                    return Err(e);
                },
            };
            let right = match BVH::new(right_v, time0, time1) {
                Ok(r) => r,
                Err(e) => {
                    proof {
                        assert(false);
                    }
                    return Err(e);
                },
            };
            let bbox = AABB::surrounding_box(&left.bbox, &right.bbox);
            let ghost lleaves = left.leaves();
            let ghost rleaves = right.leaves();
            let node = BVH {
                tree: BVHNode::Branch { left: Box::new(left), right: Box::new(right) },
                bbox,
            };
            proof {
                assert(node.leaves() =~= lleaves + rleaves);
                lemma_multiset_commutative(lleaves, rleaves);
                lemma_multiset_commutative(left_seq, right_seq);
            }
            Ok(node)
        }
    }

    /// The geometric premise of pruning: whenever some leaf beneath a node
    /// has a candidate within a far limit, the node's cached box passes the
    /// slab test for that limit — recursively at every node. This is what a
    /// bounding box is for; it can fail for degenerate boxes (a zero-width
    /// box never passes the slab test), so it is a stated hypothesis of the
    /// traversal/scan equivalence rather than a structural invariant. By
    /// `lemma_covers_from_leaves` it already follows when each primitive's
    /// own box admits that primitive's candidate.
    pub open spec fn covers(self, r: Ray, t_min: Rat) -> bool
        decreases self,
    {
        &&& (forall|hi: Rat|
            #![trigger spec_slab_hit(self.bbox, r, t_min, hi)]
            hi.wf() && (exists|i: int|
                0 <= i < self.leaves().len() && ((#[trigger] self.leaves()[i].candidate(r, t_min))
                    matches Some(c) && frac_le(c.0, c.1, hi.num as int, hi.den as int)))
                ==> spec_slab_hit(self.bbox, r, t_min, hi))
        &&& match self.tree {
            BVHNode::Branch { left, right } => left.covers(r, t_min) && right.covers(r, t_min),
            BVHNode::Leaf(_) => true,
        }
    }

    /// Traverse: reject on the node's box, delegate at a leaf; at a branch
    /// query the left child, tighten the far limit to its hit, query the
    /// right child with the tightened limit, and prefer the right result.
    /// Unconditionally, a reported record is a hit of some leaf within the
    /// limit; and wherever the boxes cover their subtrees' candidates, the
    /// traversal reports exactly what the linear scan over the leaves does.
    pub fn hit(&self, ray: &Ray, t_min: Rat, t_max: Rat) -> (res: Option<HitRecord>)
        requires
            self.wf(),
            ray.wf(),
            !(ray.direction.x == 0 && ray.direction.y == 0 && ray.direction.z == 0),
            t_min.wf(),
            t_max.wf(),
        ensures
            res matches Some(rec) ==> rec.wf() && frac_le(
                rec.t.num as int,
                rec.t.den as int,
                t_max.num as int,
                t_max.den as int,
            ) && exists|i: int|
                0 <= i < self.leaves().len() && (#[trigger] self.leaves()[i].owns(
                    *ray,
                    t_min,
                    rec,
                )),
            self.covers(*ray, t_min) ==> world_hit_post(self.leaves(), res, *ray, t_min, t_max),
        decreases *self,
    {
        if !self.bbox.hit(ray, t_min, t_max) {
            proof {
                if self.covers(*ray, t_min) {
                    assert forall|i: int| 0 <= i < self.leaves().len() implies ((
                    #[trigger] self.leaves()[i].candidate(*ray, t_min)) matches Some(c)
                        ==> !frac_le(c.0, c.1, t_max.num as int, t_max.den as int)) by {
                        if let Some(c) = self.leaves()[i].candidate(*ray, t_min) {
                            if frac_le(c.0, c.1, t_max.num as int, t_max.den as int) {
                                assert(spec_slab_hit(self.bbox, *ray, t_min, t_max));
                            }
                        }
                    }
                }
            }
            return None;
        }
        match &self.tree {
            BVHNode::Leaf(p) => {
                let res = p.hit(ray, t_min, t_max);
                proof {
                    p.lemma_characterize(res, *ray, t_min, t_max);
                    assert(self.leaves() =~= seq![*p]);
                    if let Some(rec) = res {
                        assert(self.leaves()[0].owns(*ray, t_min, rec));
                    }
                }
                res
            },
            BVHNode::Branch { left, right } => {
                let lres = left.hit(ray, t_min, t_max);
                let new_tmax = if let Some(l) = &lres {
                    l.t
                } else {
                    t_max
                };
                let rres = right.hit(ray, t_min, new_tmax);
                let res = if rres.is_some() {
                    rres
                } else {
                    lres
                };
                proof {
                    left.lemma_leaves_wf();
                    right.lemma_leaves_wf();
                    let ll = left.leaves();
                    let rl = right.leaves();
                    let lw = ll.len() as int;
                    assert(self.leaves() =~= ll + rl);
                    // A reported record is within the outer limit.
                    if let Some(rr) = rres {
                        if let Some(lr) = lres {
                            lemma_frac_le_trans(
                                rr.t.num as int,
                                rr.t.den as int,
                                lr.t.num as int,
                                lr.t.den as int,
                                t_max.num as int,
                                t_max.den as int,
                            );
                        }
                    }
                    // A reported record is owned by some leaf of the join.
                    match res {
                        Some(rec) => {
                            if rres is Some {
                                let i = choose|i: int|
                                    0 <= i < rl.len() && #[trigger] rl[i].owns(*ray, t_min, rec);
                                assert(self.leaves()[lw + i] == rl[i]);
                                assert(self.leaves()[lw + i].owns(*ray, t_min, rec));
                            } else {
                                let i = choose|i: int|
                                    0 <= i < ll.len() && #[trigger] ll[i].owns(*ray, t_min, rec);
                                assert(self.leaves()[i] == ll[i]);
                                assert(self.leaves()[i].owns(*ray, t_min, rec));
                            }
                        },
                        None => {},
                    }
                    // Under covered boxes, the join reports the least candidate.
                    if self.covers(*ray, t_min) {
                        assert(world_hit_post(ll, lres, *ray, t_min, t_max));
                        assert(world_hit_post(rl, rres, *ray, t_min, new_tmax));
                        match res {
                            Some(rec) => {
                                assert forall|i: int|
                                    0 <= i < self.leaves().len() implies ((
                                #[trigger] self.leaves()[i].candidate(*ray, t_min)) matches Some(
                                    c,
                                ) ==> frac_le(rec.t.num as int, rec.t.den as int, c.0, c.1)) by {
                                    if let Some(c) = self.leaves()[i].candidate(*ray, t_min) {
                                        if i < lw {
                                            assert(self.leaves()[i] == ll[i]);
                                            assert(ll[i].candidate(*ray, t_min) == Some(c));
                                            ll[i].lemma_candidate_den(*ray, t_min);
                                            if rres is Some {
                                                let rr = rres->Some_0;
                                                match lres {
                                                    Some(lr) => {
                                                        // left candidates sit at or
                                                        // past the left hit, which the
                                                        // right hit does not exceed
                                                        lemma_frac_le_trans(
                                                            rr.t.num as int,
                                                            rr.t.den as int,
                                                            lr.t.num as int,
                                                            lr.t.den as int,
                                                            c.0,
                                                            c.1,
                                                        );
                                                    },
                                                    None => {
                                                        lemma_frac_le_trans(
                                                            rr.t.num as int,
                                                            rr.t.den as int,
                                                            t_max.num as int,
                                                            t_max.den as int,
                                                            c.0,
                                                            c.1,
                                                        );
                                                    },
                                                }
                                            }
                                        } else {
                                            assert(self.leaves()[i] == rl[i - lw]);
                                            assert(rl[i - lw].candidate(*ray, t_min) == Some(c));
                                            rl[i - lw].lemma_candidate_den(*ray, t_min);
                                        }
                                    }
                                }
                            },
                            None => {
                                assert forall|i: int|
                                    0 <= i < self.leaves().len() implies ((
                                #[trigger] self.leaves()[i].candidate(*ray, t_min)) matches Some(
                                    c,
                                ) ==> !frac_le(c.0, c.1, t_max.num as int, t_max.den as int)) by {
                                    if let Some(c) = self.leaves()[i].candidate(*ray, t_min) {
                                        if i < lw {
                                            assert(self.leaves()[i] == ll[i]);
                                            assert(ll[i].candidate(*ray, t_min) == Some(c));
                                        } else {
                                            assert(self.leaves()[i] == rl[i - lw]);
                                            assert(rl[i - lw].candidate(*ray, t_min) == Some(c));
                                        }
                                    }
                                }
                            },
                        }
                    }
                }
                res
            },
        }
    }

    /// The cached box; never recomputed.
    pub fn bounding_box(&self, _t0: i64, _t1: i64) -> (res: Option<AABB>)
        ensures
            res == Some(self.bbox),
    {
        Some(self.bbox)
    }
}

/// A primitive's own box admits its candidate: whenever the candidate lies
/// within a far limit, the box passes the slab test for that limit.
pub open spec fn leaf_covers(p: Primitive, r: Ray, t_min: Rat) -> bool {
    forall|hi: Rat|
        #![trigger spec_slab_hit(p.spec_box(), r, t_min, hi)]
        hi.wf() && ((p.candidate(r, t_min)) matches Some(c) && frac_le(
            c.0,
            c.1,
            hi.num as int,
            hi.den as int,
        )) ==> spec_slab_hit(p.spec_box(), r, t_min, hi)
}

/// Covering reduces to the leaves: a union box at an internal node can
/// never prune a query its children pass, because the slab test is
/// monotone under box containment. So the traversal/scan equivalence needs
/// only each primitive's own box to admit its own candidate.
pub proof fn lemma_covers_from_leaves(b: BVH, r: Ray, t_min: Rat)
    requires
        b.wf(),
        t_min.wf(),
        forall|i: int|
            0 <= i < b.leaves().len() ==> leaf_covers(#[trigger] b.leaves()[i], r, t_min),
    ensures
        b.covers(r, t_min),
    decreases b,
{
    match b.tree {
        BVHNode::Leaf(p) => {
            assert(b.leaves() =~= seq![p]);
            assert(leaf_covers(b.leaves()[0], r, t_min));
            assert forall|hi: Rat|
                #![trigger spec_slab_hit(b.bbox, r, t_min, hi)]
                hi.wf() && (exists|i: int|
                    0 <= i < b.leaves().len() && ((#[trigger] b.leaves()[i].candidate(r, t_min))
                        matches Some(c) && frac_le(
                        c.0,
                        c.1,
                        hi.num as int,
                        hi.den as int,
                    ))) implies spec_slab_hit(b.bbox, r, t_min, hi) by {
                assert(spec_slab_hit(p.spec_box(), r, t_min, hi));
            }
        },
        BVHNode::Branch { left, right } => {
            let ll = left.leaves();
            let rl = right.leaves();
            let lw = ll.len() as int;
            assert(b.leaves() =~= ll + rl);
            assert forall|i: int| 0 <= i < ll.len() implies leaf_covers(
                #[trigger] ll[i],
                r,
                t_min,
            ) by {
                assert(b.leaves()[i] == ll[i]);
            }
            assert forall|i: int| 0 <= i < rl.len() implies leaf_covers(
                #[trigger] rl[i],
                r,
                t_min,
            ) by {
                assert(b.leaves()[lw + i] == rl[i]);
            }
            lemma_covers_from_leaves(*left, r, t_min);
            lemma_covers_from_leaves(*right, r, t_min);
            assert forall|hi: Rat|
                #![trigger spec_slab_hit(b.bbox, r, t_min, hi)]
                hi.wf() && (exists|i: int|
                    0 <= i < b.leaves().len() && ((#[trigger] b.leaves()[i].candidate(r, t_min))
                        matches Some(c) && frac_le(
                        c.0,
                        c.1,
                        hi.num as int,
                        hi.den as int,
                    ))) implies spec_slab_hit(b.bbox, r, t_min, hi) by {
                let i = choose|i: int|
                    0 <= i < b.leaves().len() && ((#[trigger] b.leaves()[i].candidate(r, t_min))
                        matches Some(c) && frac_le(c.0, c.1, hi.num as int, hi.den as int));
                if i < lw {
                    assert(b.leaves()[i] == ll[i]);
                    assert(spec_slab_hit(left.bbox, r, t_min, hi));
                    lemma_slab_monotone(
                        b.bbox,
                        left.bbox,
                        r,
                        0,
                        t_min.num as int,
                        t_min.den as int,
                        hi.num as int,
                        hi.den as int,
                        t_min.num as int,
                        t_min.den as int,
                        hi.num as int,
                        hi.den as int,
                    );
                } else {
                    assert(b.leaves()[i] == rl[i - lw]);
                    assert(spec_slab_hit(right.bbox, r, t_min, hi));
                    lemma_slab_monotone(
                        b.bbox,
                        right.bbox,
                        r,
                        0,
                        t_min.num as int,
                        t_min.den as int,
                        hi.num as int,
                        hi.den as int,
                        t_min.num as int,
                        t_min.den as int,
                        hi.num as int,
                        hi.den as int,
                    );
                }
            }
        },
    }
}

/// A closest-hit report is about the collection's members with their
/// multiplicities, never about their order, so it carries over to any
/// reordering of the same primitives.
pub proof fn lemma_world_hit_post_permuted(
    w1: Seq<Primitive>,
    w2: Seq<Primitive>,
    res: Option<HitRecord>,
    r: Ray,
    t_min: Rat,
    t_max: Rat,
)
    requires
        w1.to_multiset() == w2.to_multiset(),
        world_hit_post(w1, res, r, t_min, t_max),
    ensures
        world_hit_post(w2, res, r, t_min, t_max),
{
    w1.to_multiset_ensures();
    w2.to_multiset_ensures();
    match res {
        None => {
            assert forall|i: int| 0 <= i < w2.len() implies ((#[trigger] w2[i].candidate(r, t_min))
                matches Some(c) ==> !frac_le(c.0, c.1, t_max.num as int, t_max.den as int)) by {
                let x = w2[i];
                assert(w2.contains(x));
                assert(w2.to_multiset().count(x) > 0);
                assert(w1.to_multiset().count(x) > 0);
                assert(w1.contains(x));
                let j = choose|j: int| 0 <= j < w1.len() && w1[j] == x;
                assert(w1[j].candidate(r, t_min) == x.candidate(r, t_min));
            }
        },
        Some(rec) => {
            let i1 = choose|i: int| 0 <= i < w1.len() && #[trigger] w1[i].owns(r, t_min, rec);
            let x = w1[i1];
            assert(w1.contains(x));
            assert(w1.to_multiset().count(x) > 0);
            assert(w2.to_multiset().count(x) > 0);
            assert(w2.contains(x));
            let j = choose|j: int| 0 <= j < w2.len() && w2[j] == x;
            assert(w2[j].owns(r, t_min, rec));
            assert forall|i: int| 0 <= i < w2.len() implies ((#[trigger] w2[i].candidate(r, t_min))
                matches Some(c) ==> frac_le(rec.t.num as int, rec.t.den as int, c.0, c.1)) by {
                let y = w2[i];
                assert(w2.contains(y));
                assert(w2.to_multiset().count(y) > 0);
                assert(w1.to_multiset().count(y) > 0);
                assert(w1.contains(y));
                let k = choose|k: int| 0 <= k < w1.len() && w1[k] == y;
                assert(w1[k].candidate(r, t_min) == y.candidate(r, t_min));
            }
        },
    }
}

/// For a fixed scene and ray, the tree traversal and the brute-force linear
/// scan over the unsorted primitive list agree: they report a hit on
/// exactly the same queries, and at exactly the same parametric distance.
/// The premise is `covers`: the boxes do bound their subtrees' candidates
/// (pruning by a degenerate, zero-width box can hide a hit, so that premise
/// names precisely the inputs on which pruning is conservative). When two
/// distinct primitives sit at exactly the same least distance, either one's
/// record may be reported; the distance itself is still equal.
pub proof fn lemma_bvh_matches_scan(
    b: BVH,
    w: Seq<Primitive>,
    r: Ray,
    t_min: Rat,
    t_max: Rat,
    scan_res: Option<HitRecord>,
    bvh_res: Option<HitRecord>,
)
    requires
        b.wf(),
        b.covers(r, t_min),
        b.leaves().to_multiset() == w.to_multiset(),
        world_wf(w),
        r.wf(),
        !(r.direction.x == 0 && r.direction.y == 0 && r.direction.z == 0),
        t_min.wf(),
        t_max.wf(),
        world_hit_post(w, scan_res, r, t_min, t_max),
        world_hit_post(b.leaves(), bvh_res, r, t_min, t_max),
    ensures
        scan_res is Some <==> bvh_res is Some,
        scan_res matches Some(s) ==> bvh_res matches Some(v) && s.t.spec_eq(v.t),
{
    lemma_world_hit_post_permuted(b.leaves(), w, bvh_res, r, t_min, t_max);
    match (scan_res, bvh_res) {
        (Some(s), Some(v)) => {
            let i = choose|i: int| 0 <= i < w.len() && #[trigger] w[i].owns(r, t_min, s);
            w[i].lemma_owns_candidate(r, t_min, s);
            assert(frac_le(v.t.num as int, v.t.den as int, s.t.num as int, s.t.den as int));
            let j = choose|j: int| 0 <= j < w.len() && #[trigger] w[j].owns(r, t_min, v);
            w[j].lemma_owns_candidate(r, t_min, v);
            assert(frac_le(s.t.num as int, s.t.den as int, v.t.num as int, v.t.den as int));
        },
        (Some(s), None) => {
            let i = choose|i: int| 0 <= i < w.len() && #[trigger] w[i].owns(r, t_min, s);
            w[i].lemma_owns_candidate(r, t_min, s);
            assert(false);
        },
        (None, Some(v)) => {
            let j = choose|j: int| 0 <= j < w.len() && #[trigger] w[j].owns(r, t_min, v);
            w[j].lemma_owns_candidate(r, t_min, v);
            assert(false);
        },
        (None, None) => {},
    }
}

/// The midpoint key of a primitive's box on `axis` (twice the midpoint,
/// which orders the same way).
fn box_key(p: &Primitive, axis: u8, time0: i64, time1: i64) -> (k: i64)
    requires
        p.wf(),
        axis < 3,
    ensures
        -0x8000 <= k <= 0x8000,
{
    let b = p.box_exact(time0, time1);
    b.minimum.axis(axis) + b.maximum.axis(axis)
}

/// The axis on which the union of the boxes spreads widest.
fn largest_axis(w: &World, time0: i64, time1: i64) -> (axis: u8)
    requires
        world_wf(w@),
        w@.len() >= 1,
    ensures
        axis < 3,
{
    let mut best_axis: u8 = 0;
    let mut best_range: i64 = -1;
    for a in 0..3u8
        invariant
            world_wf(w@),
            w@.len() >= 1,
            best_axis < 3,
    {
        let mut mn: i64 = 0x4000;
        let mut mx: i64 = -0x4000;
        let n = w.len();
        for k in 0..n
            invariant
                world_wf(w@),
                n == w@.len(),
                a < 3,
                -0x4000 <= mn <= 0x4000,
                -0x4000 <= mx <= 0x4000,
        {
            let b = (&w[k]).box_exact(time0, time1);
            let lo = b.minimum.axis(a);
            let hi = b.maximum.axis(a);
            if lo < mn {
                mn = lo;
            }
            if hi > mx {
                mx = hi;
            }
        }
        let range = mx - mn;
        if range > best_range {
            best_range = range;
            best_axis = a;
        }
    }
    best_axis
}

/// Order the primitives by box midpoint along `axis`: repeatedly move the
/// least remaining key to the output. Keeps exactly the same primitives.
fn sort_by_axis(hitable: Vec<Primitive>, axis: u8, time0: i64, time1: i64) -> (out: Vec<Primitive>)
    requires
        world_wf(hitable@),
        axis < 3,
    ensures
        out@.to_multiset() == hitable@.to_multiset(),
        out@.len() == hitable@.len(),
        world_wf(out@),
    decreases hitable@.len(),
{
    broadcast use vstd::seq_lib::group_to_multiset_ensures;
    broadcast use vstd::multiset::group_multiset_axioms;

    let mut src = hitable;
    let mut out: Vec<Primitive> = Vec::new();
    let ghost orig = src@;
    proof {
        assert(orig.to_multiset() =~= out@.to_multiset().add(src@.to_multiset()));
    }
    while src.len() > 0
        invariant
            world_wf(src@),
            world_wf(out@),
            axis < 3,
            orig.to_multiset() =~= out@.to_multiset().add(src@.to_multiset()),
            orig.len() == out@.len() + src@.len(),
        decreases src@.len(),
    {
        let mut min_i: usize = 0;
        let mut min_k: i64 = box_key(&src[0], axis, time0, time1);
        let n = src.len();
        for k in 1..n
            invariant
                world_wf(src@),
                n == src@.len(),
                n >= 1,
                axis < 3,
                min_i < n,
        {
            let key = box_key(&src[k], axis, time0, time1);
            if key < min_k {
                min_k = key;
                min_i = k;
            }
        }
        let ghost old_src = src@;
        let ghost old_out = out@;
        let item = src.remove(min_i);
        out.push(item);
        proof {
            old_src.to_multiset_ensures();
            old_out.to_multiset_ensures();
            assert(src@ == old_src.remove(min_i as int));
            assert(out@ == old_out.push(item));
            assert(old_src.remove(min_i as int).to_multiset() =~= old_src.to_multiset().remove(
                old_src[min_i as int],
            ));
            assert(old_out.push(item).to_multiset() =~= old_out.to_multiset().insert(item));
            assert(old_src.to_multiset().count(item) >= 1);
            assert(orig.to_multiset() =~= out@.to_multiset().add(src@.to_multiset()));
        }
    }
    proof {
        src@.to_multiset_ensures();
        assert(src@.to_multiset().len() == 0);
        assert(out@.to_multiset() =~= orig.to_multiset());
    }
    out
}

} // verus!
