//! Intersection, scattering, camera and estimator behaviour on concrete
//! scenes (one == 65536).
use raytracer::vec::Vec3;
use raytracer::ray::Ray;
use raytracer::sphere::Sphere;
use raytracer::hittable::Primitive;
use raytracer::hittable_list::HittableList;
use raytracer::material::{Material, Lambertian, Metal, lambertian_scatter_from,
    metal_scatter_from};
use raytracer::camera::Camera;
use raytracer::tracer::{ray_color, background, ray_ok, T_EPSILON, T_INFINITY};

const ONE: i64 = 65536;

fn gray() -> Material {
    Material::Lambertian(Lambertian::new(Vec3::new(32768, 32768, 32768)))
}

fn axis_ray() -> Ray {
    Ray::new(Vec3::new(0, 0, 0), Vec3::new(0, 0, -ONE))
}

#[test]
fn ray_at_parameter() {
    let r = Ray::new(Vec3::new(ONE, 2 * ONE, 3 * ONE), Vec3::new(0, 0, -ONE));
    let p = r.at(2 * ONE);
    assert_eq!((p.x(), p.y(), p.z()), (ONE, 2 * ONE, ONE));
}

#[test]
fn sphere_through_center_near_root() {
    let s = Sphere::new(Vec3::new(0, 0, -5 * ONE), ONE, gray());
    let rec = s.hit(&axis_ray(), T_EPSILON, T_INFINITY).unwrap();
    // distance 5, radius 1: the near hit lies at t = 4
    assert_eq!(rec.t, 4 * ONE);
    assert!(rec.front_face);
    assert_eq!((rec.normal.x(), rec.normal.y(), rec.normal.z()), (0, 0, ONE));
    assert_eq!((rec.p.x(), rec.p.y(), rec.p.z()), (0, 0, -4 * ONE));
}

#[test]
fn sphere_through_center_far_root() {
    let s = Sphere::new(Vec3::new(0, 0, -5 * ONE), ONE, gray());
    // block the near root with the window: the far hit lies at t = 6
    let rec = s.hit(&axis_ray(), 4 * ONE + 1, T_INFINITY).unwrap();
    assert_eq!(rec.t, 6 * ONE);
    assert!(!rec.front_face);
}

#[test]
fn sphere_missed_entirely() {
    let s = Sphere::new(Vec3::new(5 * ONE, 0, -5 * ONE), ONE, gray());
    assert!(s.hit(&axis_ray(), T_EPSILON, T_INFINITY).is_none());
    // a ray pointed away from the sphere also misses
    let away = Ray::new(Vec3::new(0, 0, 0), Vec3::new(0, 0, ONE));
    let behind = Sphere::new(Vec3::new(0, 0, -5 * ONE), ONE, gray());
    assert!(behind.hit(&away, T_EPSILON, T_INFINITY).is_none());
}

#[test]
fn list_reports_nearest_of_two_overlapping() {
    let far = Primitive::Sphere(Sphere::new(Vec3::new(0, 0, -5 * ONE), ONE, gray()));
    let near = Primitive::Sphere(Sphere::new(Vec3::new(0, 0, -4 * ONE), ONE, gray()));
    let mut world_a = HittableList::new();
    world_a.add(far);
    world_a.add(near);
    let mut world_b = HittableList::new();
    world_b.add(near);
    world_b.add(far);
    let ra = world_a.hit(&axis_ray(), T_EPSILON, T_INFINITY).unwrap();
    let rb = world_b.hit(&axis_ray(), T_EPSILON, T_INFINITY).unwrap();
    assert_eq!(ra.t, 3 * ONE);
    assert_eq!(rb.t, 3 * ONE);
}

#[test]
fn empty_list_misses() {
    let world = HittableList::new();
    assert!(world.hit(&axis_ray(), T_EPSILON, T_INFINITY).is_none());
}

#[test]
fn lambertian_always_scatters() {
    let s = Sphere::new(Vec3::new(0, 0, -5 * ONE), ONE, gray());
    let rec = s.hit(&axis_ray(), T_EPSILON, T_INFINITY).unwrap();
    for _ in 0..16 {
        let out = rec.material.scatter(&axis_ray(), &rec);
        let (attenuation, scattered) = out.unwrap();
        assert_eq!(attenuation.x(), 32768);
        assert_eq!((scattered.origin().x(), scattered.origin().z()), (0, -4 * ONE));
        assert!(!scattered.direction().near_zero());
    }
}

#[test]
fn lambertian_substitutes_normal_on_degenerate_sum() {
    let s = Sphere::new(Vec3::new(0, 0, -5 * ONE), ONE, gray());
    let rec = s.hit(&axis_ray(), T_EPSILON, T_INFINITY).unwrap();
    // a sample that cancels the normal leaves a near-zero sum
    let cancel = Vec3::new(0, 0, -ONE + 100);
    let (_, scattered) = lambertian_scatter_from(Vec3::new(32768, 32768, 32768), cancel, &rec);
    assert_eq!(
        (scattered.direction().x(), scattered.direction().y(), scattered.direction().z()),
        (0, 0, ONE)
    );
}

#[test]
fn metal_scatter_absorbs_iff_reflection_enters_surface() {
    let s = Sphere::new(Vec3::new(0, -5 * ONE, 0), ONE, gray());
    let down = Ray::new(Vec3::new(0, 0, 0), Vec3::new(0, -ONE, 0));
    let rec = s.hit(&down, T_EPSILON, T_INFINITY).unwrap();
    let albedo = Vec3::new(52428, 52428, 52428);
    // head-on reflection leaves the surface: accepted
    let up = metal_scatter_from(albedo, 0, Vec3::new(0, -ONE, 0), Vec3::new(0, 0, 0), &rec);
    let (att, sc) = up.unwrap();
    assert_eq!(att.x(), 52428);
    assert_eq!((sc.direction().x(), sc.direction().y(), sc.direction().z()), (0, ONE, 0));
    // a grazing direction reflects parallel to the surface: absorbed
    let graze = metal_scatter_from(albedo, 0, Vec3::new(ONE, 0, 0), Vec3::new(0, 0, 0), &rec);
    assert!(graze.is_none());
}

#[test]
fn metal_material_mirror_without_fuzz() {
    let albedo = Vec3::new(52428, 52428, 52428);
    let s = Sphere::new(Vec3::new(0, -5 * ONE, 0), ONE, Material::Metal(Metal::new(albedo, 0)));
    let down = Ray::new(Vec3::new(0, 0, 0), Vec3::new(0, -ONE, 0));
    let rec = s.hit(&down, T_EPSILON, T_INFINITY).unwrap();
    let (att, sc) = rec.material.scatter(&down, &rec).unwrap();
    assert_eq!((att.x(), att.y(), att.z()), (52428, 52428, 52428));
    assert_eq!((sc.direction().x(), sc.direction().y(), sc.direction().z()), (0, ONE, 0));
}

#[test]
fn camera_center_ray_points_forward() {
    let cam = Camera::new();
    let r = cam.get_ray(32768, 32768);
    assert_eq!((r.origin().x(), r.origin().y(), r.origin().z()), (0, 0, 0));
    assert_eq!((r.direction().x(), r.direction().y(), r.direction().z()), (0, 0, -ONE));
}

#[test]
fn camera_corner_rays_span_viewport() {
    let cam = Camera::new();
    let ll = cam.get_ray(0, 0);
    assert_eq!((ll.direction().x(), ll.direction().y()), (-116508, -ONE));
    let ur = cam.get_ray(ONE, ONE);
    assert_eq!((ur.direction().x(), ur.direction().y()), (116508, ONE));
}

#[test]
fn color_at_depth_zero_is_black() {
    let mut world = HittableList::new();
    world.add(Primitive::Sphere(Sphere::new(Vec3::new(0, 0, -5 * ONE), ONE, gray())));
    let c = ray_color(&axis_ray(), &world, 0);
    assert_eq!((c.x(), c.y(), c.z()), (0, 0, 0));
}

#[test]
fn miss_returns_background_gradient() {
    let mut world = HittableList::new();
    // a large sphere far below the camera
    world.add(Primitive::Sphere(Sphere::new(
        Vec3::new(0, -6586368, -ONE),
        100 * ONE,
        gray(),
    )));
    let cam = Camera::new();
    // a ray toward the top of the frame passes above the sphere
    let r = cam.get_ray(32768, ONE);
    assert!(ray_ok(&r));
    let c = ray_color(&r, &world, 50);
    let b = background(&r);
    assert_eq!((c.x(), c.y(), c.z()), (b.x(), b.y(), b.z()));
    // white at gradient coordinate zero, blended toward sky blue above
    assert!(c.z() >= c.x() && c.y() >= c.x());
}

#[test]
fn hit_returns_shaded_non_background_color() {
    let mut world = HittableList::new();
    world.add(Primitive::Sphere(Sphere::new(
        Vec3::new(0, -6586368, -ONE),
        100 * ONE,
        Material::Lambertian(Lambertian::new(Vec3::new(58982, 58982, 58982))),
    )));
    let cam = Camera::new();
    // a ray toward the bottom of the frame strikes the sphere
    let r = cam.get_ray(32768, 0);
    assert!(ray_ok(&r));
    let c = ray_color(&r, &world, 50);
    let b = background(&r);
    assert!((c.x(), c.y(), c.z()) != (0, 0, 0));
    assert!((c.x(), c.y(), c.z()) != (b.x(), b.y(), b.z()));
}
