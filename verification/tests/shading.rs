use raytracer::bvh::BVH;
use raytracer::color::apply_samples;
use raytracer::hittable::Primitive;
use raytracer::material::{random_in_unit_sphere, Dielectric, Lambertian, Material, Metal};
use raytracer::rat::Rat;
use raytracer::ray::Ray;
use raytracer::render::{background, mul_color, ray_color, Scene};
use raytracer::sphere::Sphere;
use raytracer::texture::{CheckerTexture, ConstantTexture, Texture, COLOR_SCALE};
use raytracer::vec3::Vec3;
use raytracer::camera::CameraType;

fn v(x: i64, y: i64, z: i64) -> Vec3 {
    Vec3 { x, y, z }
}

fn rat(num: i64, den: i64) -> Rat {
    Rat { num, den }
}

#[test]
fn depth_zero_is_exact_black() {
    let scene = Scene::List(vec![Primitive::Sphere(Sphere::new(v(0, 0, -5), 2, 0))]);
    let mats = vec![Material::Lambertian(Lambertian::new(Texture::Constant(
        ConstantTexture::new(v(32768, 32768, 32768)),
    )))];
    let r = Ray { origin: v(0, 0, 0), direction: v(0, 0, -1), time: 0 };
    let c = ray_color(&scene, &mats, &r, 0);
    assert_eq!(c, v(0, 0, 0));
}

#[test]
fn empty_scene_yields_background_gradient() {
    let scene = Scene::List(Vec::new());
    let mats: Vec<Material> = Vec::new();
    let r = Ray { origin: v(0, 0, 0), direction: v(0, 0, -1), time: 0 };
    let c = ray_color(&scene, &mats, &r, 5);
    assert_eq!(c, background(&r));
    // horizontal gaze: the midpoint of the blend, computed by hand
    assert_eq!(c, v(49152, 55705, 65536));
    // looking straight up: pure sky blue
    let up = Ray { origin: v(0, 0, 0), direction: v(0, 1, 0), time: 0 };
    assert_eq!(ray_color(&scene, &mats, &up, 3), v(32768, 45875, 65536));
}

#[test]
fn lambertian_sphere_never_brightens_past_albedo() {
    // a unit sphere at the origin seen from z = 3, diffuse gray albedo
    let albedo = v(32768, 40000, 20000);
    let scene = Scene::List(vec![Primitive::Sphere(Sphere::new(v(0, 0, 0), 1, 0))]);
    let mats = vec![Material::Lambertian(Lambertian::new(Texture::Constant(
        ConstantTexture::new(albedo),
    )))];
    let r = Ray { origin: v(0, 0, 3), direction: v(0, 0, -1), time: 0 };
    let bg = background(&r);
    // one bounce: the chain bottoms out at the depth limit, exact black
    let c1 = ray_color(&scene, &mats, &r, 1);
    assert_eq!(c1, v(0, 0, 0));
    assert_ne!(c1, bg);
    // deeper: whatever the random bounce, the estimate never exceeds the
    // albedo componentwise and never reproduces the background
    for _ in 0..32 {
        let c = ray_color(&scene, &mats, &r, 3);
        assert!(c.x <= albedo.x && c.y <= albedo.y && c.z <= albedo.z);
        assert!(c.x >= 0 && c.y >= 0 && c.z >= 0);
        assert_ne!(c, bg);
    }
}

#[test]
fn metal_mirror_reflects_head_on() {
    let m = Material::Metal(Metal::new(v(45875, 39321, 32768), 0));
    let s = Sphere::new(v(0, 0, 0), 1, 0);
    let r = Ray { origin: v(0, 0, 3), direction: v(0, 0, -1), time: 0 };
    let rec = s.hit(&r, rat(1, 1000), rat(100, 1)).expect("must hit");
    let (att, scattered) = m.scatter(&r, &rec).expect("a head-on mirror reflects");
    assert_eq!(att, v(45875, 39321, 32768));
    // straight back out along +z, at the unit scale
    assert_eq!(scattered.direction, v(0, 0, 2048));
    assert_eq!(scattered.origin, v(0, 0, 1));
    assert_eq!(scattered.time, 0);
}

#[test]
fn dielectric_head_on_transmission_dominates() {
    // glass with index 3/2, ray along the optical axis: the reflectance is
    // Schlick's base value, about four percent, so transmitted rays far
    // outnumber reflected ones
    let m = Material::Dielectric(Dielectric::new(3, 2));
    let s = Sphere::new(v(0, 0, 0), 1, 0);
    let r = Ray { origin: v(0, 0, 3), direction: v(0, 0, -1), time: 0 };
    let rec = s.hit(&r, rat(1, 1000), rat(100, 1)).expect("must hit");
    let mut transmitted = 0;
    let mut reflected = 0;
    for _ in 0..400 {
        let (att, scattered) = m.scatter(&r, &rec).expect("glass absorbs nothing");
        assert_eq!(att, v(COLOR_SCALE, COLOR_SCALE, COLOR_SCALE));
        if scattered.direction.z < 0 {
            transmitted += 1;
        } else {
            reflected += 1;
        }
    }
    assert_eq!(transmitted + reflected, 400);
    assert!(
        transmitted > reflected,
        "transmission must dominate: {transmitted} vs {reflected}"
    );
}

#[test]
fn random_unit_sphere_samples_stay_inside() {
    let mut seen_distinct = false;
    let first = random_in_unit_sphere();
    for _ in 0..200 {
        let w = random_in_unit_sphere();
        let l2 = w.x * w.x + w.y * w.y + w.z * w.z;
        assert!(l2 > 0 && l2 < 2048 * 2048);
        if w != first {
            seen_distinct = true;
        }
    }
    assert!(seen_distinct, "two hundred draws should not all coincide");
}

#[test]
fn checker_texture_alternates_cells() {
    let t = Texture::Checker(CheckerTexture::new(v(0, 0, 0), v(65536, 65536, 65536)));
    let inside = |xn: i64, yn: i64, zn: i64, den: i64| {
        t.value(
            rat(0, 1),
            rat(0, 1),
            &raytracer::hittable::PointR { xn, yn, zn, den },
        )
    };
    // cell (0,0,0) is even, its x-neighbors are odd
    assert_eq!(inside(1, 1, 1, 2), v(65536, 65536, 65536));
    assert_eq!(inside(3, 1, 1, 2), v(0, 0, 0));
    assert_eq!(inside(-1, 1, 1, 2), v(0, 0, 0));
}

#[test]
fn apply_samples_averages_and_clamps() {
    let mut list: Vec<i64> = vec![65536 * 4, 0, 32768 * 4, -500, 65536 * 8, 16384 * 4];
    let out = apply_samples(&mut list, 4);
    assert_eq!(out, vec![255u8, 0, 128, 0, 255, 64]);
    assert_eq!(list.len(), 6);
}

#[test]
fn integrator_walks_the_tree() {
    let world = vec![Primitive::Sphere(Sphere::new(v(0, 0, -10), 2, 0))];
    let tree = BVH::new(world, 0, 1).expect("builds");
    let scene = Scene::Tree(tree);
    let mats = vec![Material::Lambertian(Lambertian::new(Texture::Constant(
        ConstantTexture::new(v(32768, 32768, 32768)),
    )))];
    // a ray into the sphere bottoms out at the depth limit: exact black
    let hit_ray = Ray { origin: v(0, 0, 0), direction: v(0, 0, -1), time: 0 };
    assert_eq!(ray_color(&scene, &mats, &hit_ray, 1), v(0, 0, 0));
    // a ray past the sphere sees the background
    let miss_ray = Ray { origin: v(0, 0, 0), direction: v(0, 1, 0), time: 0 };
    assert_eq!(ray_color(&scene, &mats, &miss_ray, 4), background(&miss_ray));
}

#[test]
fn integrator_follows_a_mirror_bounce() {
    // a fuzz-free metal sphere struck head-on: the single bounce is the
    // exact mirror reflection, which then escapes to the background, so
    // two levels of depth give exactly albedo * background(reflected ray)
    let albedo = v(45875, 39321, 32768);
    let scene = Scene::List(vec![Primitive::Sphere(Sphere::new(v(0, 0, 0), 1, 0))]);
    let mats = vec![Material::Metal(Metal::new(albedo, 0))];
    let r = Ray { origin: v(0, 0, 3), direction: v(0, 0, -1), time: 0 };
    let reflected = Ray { origin: v(0, 0, 1), direction: v(0, 0, 2048), time: 0 };
    let expected = mul_color(albedo, background(&reflected));
    for _ in 0..8 {
        assert_eq!(ray_color(&scene, &mats, &r, 2), expected);
    }
}

#[test]
fn camera_type_names_both_projections() {
    let a = CameraType::Perspective;
    let b = CameraType::Orthographic;
    assert_ne!(a, b);
    assert_eq!(a, CameraType::Perspective);
}
