use raytracer::aabb::AABB;
use raytracer::bvh::{BVH, BuildError};
use raytracer::hittable::{hit_world, HitRecord, Primitive};
use raytracer::rat::Rat;
use raytracer::ray::Ray;
use raytracer::sphere::{MovingSphere, Sphere};
use raytracer::triangle::Triangle;
use raytracer::util::clamp;
use raytracer::vec3::Vec3;

fn v(x: i64, y: i64, z: i64) -> Vec3 {
    Vec3 { x, y, z }
}

fn rat(num: i64, den: i64) -> Rat {
    Rat { num, den }
}

fn boxes_equal(a: &AABB, b: &AABB) -> bool {
    a.minimum == b.minimum && a.maximum == b.maximum
}

#[test]
fn surrounding_box_is_commutative() {
    let a = AABB { minimum: v(-1, -2, -3), maximum: v(4, 5, 6) };
    let b = AABB { minimum: v(0, -7, 2), maximum: v(2, 3, 9) };
    let ab = AABB::surrounding_box(&a, &b);
    let ba = AABB::surrounding_box(&b, &a);
    assert!(boxes_equal(&ab, &ba));
    assert_eq!(ab.minimum, v(-1, -7, -3));
    assert_eq!(ab.maximum, v(4, 5, 9));
}

#[test]
fn surrounding_box_is_associative() {
    let a = AABB { minimum: v(-1, 0, 0), maximum: v(1, 1, 1) };
    let b = AABB { minimum: v(2, -5, 0), maximum: v(3, 0, 4) };
    let c = AABB { minimum: v(0, 0, -9), maximum: v(0, 7, 0) };
    let left = AABB::surrounding_box(&AABB::surrounding_box(&a, &b), &c);
    let right = AABB::surrounding_box(&a, &AABB::surrounding_box(&b, &c));
    assert!(boxes_equal(&left, &right));
}

#[test]
fn surrounding_box_contains_both_inputs() {
    let a = AABB { minimum: v(-1, -2, -3), maximum: v(4, 5, 6) };
    let b = AABB { minimum: v(0, -7, 2), maximum: v(2, 3, 9) };
    let u = AABB::surrounding_box(&a, &b);
    for (inner, outer) in [(&a, &u), (&b, &u)] {
        assert!(outer.minimum.x <= inner.minimum.x && inner.maximum.x <= outer.maximum.x);
        assert!(outer.minimum.y <= inner.minimum.y && inner.maximum.y <= outer.maximum.y);
        assert!(outer.minimum.z <= inner.minimum.z && inner.maximum.z <= outer.maximum.z);
    }
}

#[test]
fn aabb_hit_from_inside_origin() {
    let b = AABB { minimum: v(-5, -5, -5), maximum: v(5, 5, 5) };
    let r = Ray { origin: v(1, -2, 3), direction: v(1, 2, -1), time: 0 };
    assert!(b.hit(&r, rat(-1, 1), rat(1, 1)));
    // an axis-parallel ray from inside still hits
    let r2 = Ray { origin: v(0, 0, 0), direction: v(0, 0, 1), time: 0 };
    assert!(b.hit(&r2, rat(-1, 1), rat(1, 1)));
}

#[test]
fn aabb_degenerate_slab_never_hits() {
    // a zero-width box admits no interval with an interior
    let b = AABB { minimum: v(0, -5, -5), maximum: v(0, 5, 5) };
    let r = Ray { origin: v(-3, 0, 0), direction: v(1, 0, 0), time: 0 };
    assert!(!b.hit(&r, rat(0, 1), rat(100, 1)));
}

#[test]
fn aabb_parallel_outside_misses() {
    let b = AABB { minimum: v(-5, -5, -5), maximum: v(5, 5, 5) };
    let r = Ray { origin: v(7, 0, 0), direction: v(0, 1, 0), time: 0 };
    assert!(!b.hit(&r, rat(0, 1), rat(100, 1)));
}

#[test]
fn sphere_ray_through_center_reports_near_root() {
    let s = Sphere::new(v(0, 0, -10), 2, 0);
    let r = Ray { origin: v(0, 0, 0), direction: v(0, 0, -1), time: 0 };
    let rec = s.hit(&r, rat(0, 1), rat(100, 1)).expect("must hit");
    // roots 8 and 12; the nearer one is reported
    assert_eq!(rec.t.num, 8);
    assert_eq!(rec.t.den, 1);
    assert_eq!((rec.p.xn, rec.p.yn, rec.p.zn, rec.p.den), (0, 0, -8, 1));
    assert!(rec.front_face);
    assert_eq!(rec.normal, v(0, 0, 2));
    assert_eq!(rec.mat, 0);
}

#[test]
fn sphere_tangent_ray_repeated_root() {
    // closest approach exactly at the radius: the discriminant vanishes
    let s = Sphere::new(v(0, 2, 0), 2, 0);
    let r = Ray { origin: v(-10, 0, 0), direction: v(1, 0, 0), time: 0 };
    let rec = s.hit(&r, rat(0, 1), rat(100, 1)).expect("tangent ray touches");
    assert_eq!(rec.t.num, 10);
    assert_eq!(rec.t.den, 1);
}

#[test]
fn sphere_miss_reports_none() {
    let s = Sphere::new(v(0, 0, -10), 2, 0);
    let r = Ray { origin: v(0, 0, 0), direction: v(0, 1, 0), time: 0 };
    assert!(s.hit(&r, rat(0, 1), rat(100, 1)).is_none());
}

#[test]
fn sphere_inside_reports_far_root() {
    let s = Sphere::new(v(0, 0, 0), 4, 0);
    let r = Ray { origin: v(0, 0, 0), direction: v(0, 0, -1), time: 0 };
    let rec = s.hit(&r, rat(0, 1), rat(100, 1)).expect("must hit from inside");
    assert_eq!(rec.t.num, 4);
    assert!(!rec.front_face);
}

#[test]
fn moving_sphere_interpolates_center() {
    let m = MovingSphere::new(v(0, 0, -10), v(0, 0, -20), 1, 0, 0, 10);
    let r = Ray { origin: v(0, 0, 0), direction: v(0, 0, -1), time: 5 };
    let rec = m.hit(&r, rat(0, 1), rat(1000, 1)).expect("must hit");
    // center sits at z = -15 when the ray samples time 5
    assert_eq!(rec.t.num * 1, 14 * rec.t.den);
}

#[test]
fn moving_sphere_box_spans_motion() {
    let m = MovingSphere::new(v(0, 0, -10), v(0, 0, -20), 1, 0, 0, 10);
    let b = m.bounding_box(0, 10).unwrap();
    assert_eq!(b.minimum, v(-1, -1, -21));
    assert_eq!(b.maximum, v(1, 1, -9));
}

#[test]
fn triangle_barycentrics_exact() {
    let t = Triangle::new(v(0, 0, -5), v(4, 0, -5), v(0, 4, -5), 0);
    let r = Ray { origin: v(1, 1, 0), direction: v(0, 0, -1), time: 0 };
    let rec = t.hit(&r, rat(0, 1), rat(100, 1)).expect("must hit");
    // exact barycentrics u = v = 1/4, and the third coordinate 1 - u - v
    assert_eq!(rec.u.num * 4, rec.u.den);
    assert_eq!(rec.v.num * 4, rec.v.den);
    assert_eq!(rec.u.den, rec.v.den);
    // in range and summing to one exactly
    assert!(rec.u.num >= 0 && rec.u.num <= rec.u.den);
    assert!(rec.v.num >= 0 && rec.v.num <= rec.v.den);
    let w = rec.u.den - rec.u.num - rec.v.num;
    assert!(w >= 0 && w <= rec.u.den);
    assert_eq!(rec.u.num + rec.v.num + w, rec.u.den);
    // the hit point lies on the plane z = -5
    assert_eq!(rec.t.num, 5 * rec.t.den);
    assert_eq!(rec.p.zn, -5 * rec.p.den);
}

#[test]
fn triangle_parallel_ray_misses() {
    let t = Triangle::new(v(0, 0, -5), v(4, 0, -5), v(0, 4, -5), 0);
    let r = Ray { origin: v(1, 1, 0), direction: v(1, 1, 0), time: 0 };
    assert!(t.hit(&r, rat(0, 1), rat(100, 1)).is_none());
}

#[test]
fn triangle_outside_misses() {
    let t = Triangle::new(v(0, 0, -5), v(4, 0, -5), v(0, 4, -5), 0);
    let r = Ray { origin: v(3, 3, 0), direction: v(0, 0, -1), time: 0 };
    assert!(t.hit(&r, rat(0, 1), rat(100, 1)).is_none());
}

#[test]
fn bvh_empty_scene_is_an_error() {
    match BVH::new(Vec::new(), 0, 1) {
        Err(BuildError::EmptyScene) => {},
        Ok(_) => panic!("an empty scene must not build"),
    }
}

fn demo_world() -> Vec<Primitive> {
    vec![
        Primitive::Sphere(Sphere::new(v(0, 0, -10), 2, 0)),
        Primitive::Sphere(Sphere::new(v(5, 1, -14), 3, 1)),
        Primitive::Sphere(Sphere::new(v(-6, -2, -8), 2, 2)),
        Primitive::Triangle(Triangle::new(v(-3, -3, -6), v(3, -3, -7), v(0, 4, -5), 3)),
        Primitive::MovingSphere(MovingSphere::new(v(0, 6, -9), v(0, 8, -9), 1, 4, 0, 8)),
        Primitive::Sphere(Sphere::new(v(2, -2, -20), 4, 5)),
    ]
}

fn same_hit(a: &Option<HitRecord>, b: &Option<HitRecord>) -> bool {
    match (a, b) {
        (None, None) => true,
        (Some(x), Some(y)) => {
            // equal exact distances (the records may come from different
            // representations of the same rational)
            (x.t.num as i128) * (y.t.den as i128) == (y.t.num as i128) * (x.t.den as i128)
        },
        _ => false,
    }
}

#[test]
fn bvh_matches_linear_scan() {
    let world = demo_world();
    let tree = BVH::new(world.clone(), 0, 8).expect("non-empty scene builds");
    let dirs = [
        v(0, 0, -1),
        v(1, 0, -2),
        v(-1, -1, -3),
        v(0, 1, -1),
        v(2, 1, -5),
        v(0, 3, -4),
        v(-3, -1, -4),
        v(1, 1, 0),
        v(0, -1, -9),
    ];
    for (i, d) in dirs.iter().enumerate() {
        let r = Ray { origin: v(0, 0, 3), direction: *d, time: (i as i64) % 8 };
        let by_scan = hit_world(&world, &r, rat(1, 1000), rat(1 << 40, 1));
        let by_tree = tree.hit(&r, rat(1, 1000), rat(1 << 40, 1));
        assert!(same_hit(&by_scan, &by_tree), "scan and traversal disagree on ray {i}");
    }
}

#[test]
fn bvh_bounding_box_is_cached_union() {
    let world = demo_world();
    let tree = BVH::new(world.clone(), 0, 8).expect("builds");
    let b = tree.bounding_box(0, 8).unwrap();
    // the union of all member boxes, by direct fold
    let mut acc: Option<AABB> = None;
    for p in &world {
        let pb = p.bounding_box(0, 8).unwrap();
        acc = Some(match acc {
            None => pb,
            Some(a) => AABB::surrounding_box(&a, &pb),
        });
    }
    let expect = acc.unwrap();
    assert!(boxes_equal(&b, &expect));
}

#[test]
fn degenerate_box_prunes_planar_triangle() {
    // a triangle lying in an axis plane has a zero-width box, which the
    // slab test never passes: pruning hides the hit the scan still finds.
    // This is exactly the input on which traversal and scan part ways.
    let world = vec![Primitive::Triangle(Triangle::new(
        v(-3, -3, -6),
        v(3, -3, -6),
        v(0, 4, -6),
        0,
    ))];
    let tree = BVH::new(world.clone(), 0, 1).expect("builds");
    let r = Ray { origin: v(0, 0, 0), direction: v(0, 0, -1), time: 0 };
    let by_scan = hit_world(&world, &r, rat(1, 1000), rat(1 << 40, 1));
    let by_tree = tree.hit(&r, rat(1, 1000), rat(1 << 40, 1));
    assert!(by_scan.is_some());
    assert!(by_tree.is_none());
}

#[test]
fn world_box_folds_member_boxes() {
    let world = demo_world();
    let b = raytracer::hittable::world_bounding_box(&world, 0, 8).unwrap();
    for p in &world {
        let pb = p.bounding_box(0, 8).unwrap();
        assert!(b.minimum.x <= pb.minimum.x && pb.maximum.x <= b.maximum.x);
        assert!(b.minimum.y <= pb.minimum.y && pb.maximum.y <= b.maximum.y);
        assert!(b.minimum.z <= pb.minimum.z && pb.maximum.z <= b.maximum.z);
    }
    assert!(raytracer::hittable::world_bounding_box(&Vec::new(), 0, 8).is_none());
}

#[test]
fn ray_at_evaluates_exactly() {
    let r = Ray { origin: v(1, 2, 3), direction: v(2, 0, -1), time: 0 };
    let p = r.at(rat(5, 2));
    assert_eq!((p.xn, p.yn, p.zn, p.den), (1 * 2 + 5 * 2, 2 * 2, 3 * 2 - 5, 2));
}

#[test]
fn vector_length_is_floor_root() {
    assert_eq!(v(3, 4, 0).length(), 5);
    assert_eq!(v(1, 1, 1).length(), 1);
    assert_eq!(v(0, 0, 0).length(), 0);
}

#[test]
fn clamp_orders_bounds() {
    assert_eq!(clamp(5, 1, 3), 3);
    assert_eq!(clamp(0, 1, 3), 1);
    assert_eq!(clamp(2, 1, 3), 2);
    assert_eq!(clamp(7, 9, 4), 4);
}
