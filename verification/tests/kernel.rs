//! Vector-kernel behaviour on concrete grid values (one == 65536).
use raytracer::vec::Vec3;
use raytracer::vec::{dot, cross, unit_vector};

const ONE: i64 = 65536;

#[test]
fn new_and_accessors() {
    let v = Vec3::new(1, -2, 3);
    assert_eq!(v.x(), 1);
    assert_eq!(v.y(), -2);
    assert_eq!(v.z(), 3);
}

#[test]
fn add_sub_neg() {
    let a = Vec3::new(ONE, 2 * ONE, -ONE);
    let b = Vec3::new(ONE, -ONE, 4 * ONE);
    let s = a.add(b);
    assert_eq!((s.x(), s.y(), s.z()), (2 * ONE, ONE, 3 * ONE));
    let d = a.sub(b);
    assert_eq!((d.x(), d.y(), d.z()), (0, 3 * ONE, -5 * ONE));
    let n = a.neg();
    assert_eq!((n.x(), n.y(), n.z()), (-ONE, -2 * ONE, ONE));
}

#[test]
fn assign_ops() {
    let mut a = Vec3::new(ONE, 0, 0);
    a.add_assign(Vec3::new(ONE, ONE, 0));
    assert_eq!((a.x(), a.y(), a.z()), (2 * ONE, ONE, 0));
    a.sub_assign(Vec3::new(ONE, 0, 0));
    assert_eq!((a.x(), a.y(), a.z()), (ONE, ONE, 0));
    a.mul_assign(2 * ONE);
    assert_eq!((a.x(), a.y(), a.z()), (2 * ONE, 2 * ONE, 0));
    a.div_assign(2 * ONE);
    assert_eq!((a.x(), a.y(), a.z()), (ONE, ONE, 0));
}

#[test]
fn dot_product_exact() {
    let u = Vec3::new(ONE, 2 * ONE, 3 * ONE);
    let v = Vec3::new(4 * ONE, -5 * ONE, 6 * ONE);
    // 4 - 10 + 18 = 12
    assert_eq!(dot(u, v), 12 * ONE);
}

#[test]
fn cross_product_axes() {
    let x = Vec3::new(ONE, 0, 0);
    let y = Vec3::new(0, ONE, 0);
    let c = cross(&x, &y);
    assert_eq!((c.x(), c.y(), c.z()), (0, 0, ONE));
}

#[test]
fn length_of_three_four_zero() {
    let v = Vec3::new(3 * ONE, 4 * ONE, 0);
    assert_eq!(v.length_squared(), 25 * ONE);
    assert_eq!(v.length(), 5 * ONE);
}

#[test]
fn normalize_axis_vector() {
    let v = Vec3::new(0, 0, -2 * ONE);
    let u = unit_vector(v);
    assert_eq!((u.x(), u.y(), u.z()), (0, 0, -ONE));
    // normalizing a vector of length one leaves it unchanged
    assert_eq!(u.length(), ONE);
    let w = unit_vector(u);
    assert_eq!((w.x(), w.y(), w.z()), (0, 0, -ONE));
}

#[test]
fn near_zero_threshold() {
    assert!(Vec3::new(255, -255, 0).near_zero());
    assert!(!Vec3::new(256, 0, 0).near_zero());
}

#[test]
fn reflect_about_vertical_normal() {
    let v = Vec3::new(ONE, -ONE, 0);
    let n = Vec3::new(0, ONE, 0);
    let r = Vec3::reflect(v, n);
    assert_eq!((r.x(), r.y(), r.z()), (ONE, ONE, 0));
}

#[test]
fn reflect_law_near_unit_normal() {
    // a normalized diagonal normal: not one of the exact axis cases
    let n = unit_vector(Vec3::new(ONE, ONE, 0));
    let v = Vec3::new(0, -ONE, 0);
    let d = dot(v, n);
    let r = Vec3::reflect(v, n);
    // the component along the normal negates, within the grid's error band
    assert!((dot(r, n) + d).abs() <= 131);
}

#[test]
fn refract_straight_through() {
    let v = Vec3::new(0, 0, -ONE);
    let n = Vec3::new(0, 0, ONE);
    let r = v.refract(n, ONE);
    assert_eq!((r.x(), r.y(), r.z()), (0, 0, -ONE));
}

#[test]
fn color_mul_commutative_and_identity() {
    let a = Vec3::new(52428, 13107, ONE);
    let b = Vec3::new(19660, 45875, 32768);
    let ab = a.mul(b);
    let ba = b.mul(a);
    assert_eq!((ab.x(), ab.y(), ab.z()), (ba.x(), ba.y(), ba.z()));
    let white = Vec3::new(ONE, ONE, ONE);
    let aw = a.mul(white);
    assert_eq!((aw.x(), aw.y(), aw.z()), (a.x(), a.y(), a.z()));
    let wa = white.mul(a);
    assert_eq!((wa.x(), wa.y(), wa.z()), (a.x(), a.y(), a.z()));
}

#[test]
fn scalar_scale_and_div() {
    let v = Vec3::new(ONE, -2 * ONE, 4 * ONE);
    let h = v.scale(ONE / 2);
    assert_eq!((h.x(), h.y(), h.z()), (ONE / 2, -ONE, 2 * ONE));
    let d = v.div(2 * ONE);
    assert_eq!((d.x(), d.y(), d.z()), (ONE / 2, -ONE, 2 * ONE));
}

#[test]
fn random_components_in_range() {
    let v = Vec3::random(-3, 7);
    assert!(-3 <= v.x() && v.x() < 7);
    assert!(-3 <= v.y() && v.y() < 7);
    assert!(-3 <= v.z() && v.z() < 7);
    // a single-value range pins the draw completely
    let w = Vec3::random(5, 6);
    assert_eq!((w.x(), w.y(), w.z()), (5, 5, 5));
}

#[test]
fn random_in_unit_sphere_registers() {
    for _ in 0..32 {
        let p = Vec3::random_in_unit_sphere();
        let ls = p.length_squared();
        // at least half a unit long, strictly inside the unit ball
        assert!(ONE / 4 <= ls && ls < ONE);
    }
}

#[test]
fn random_in_hemisphere_faces_normal() {
    let n = Vec3::new(0, ONE, 0);
    for _ in 0..32 {
        let p = Vec3::random_in_hemisphere(n);
        assert!(dot(p, n) >= 0);
    }
}

#[test]
fn random_unit_vector_is_near_unit() {
    for _ in 0..16 {
        let u = Vec3::random_unit_vector();
        assert!(u.x().abs() <= 0x30000);
        assert!(u.y().abs() <= 0x30000);
        assert!(u.z().abs() <= 0x30000);
        // grid length within a dozen units of one
        assert!(65531 <= u.length() && u.length() <= 65548);
    }
}

#[test]
fn normalize_accuracy_off_axis() {
    let v = Vec3::new(40000, 30000, 0);
    let u = unit_vector(v);
    assert!(65531 <= u.length() && u.length() <= 65548);
    // normalizing again moves each component only within the same error band
    let w = unit_vector(u);
    assert!(65531 <= w.length() && w.length() <= 65548);
    assert!((w.x() - u.x()).abs() <= 64);
    assert!((w.y() - u.y()).abs() <= 64);
    assert!((w.z() - u.z()).abs() <= 64);
}

#[test]
fn write_color_formats_bytes() {
    let c = Vec3::new(ONE, 16384, 0);
    assert_eq!(c.write_color(1), "255 128 0");
    let accumulated = Vec3::new(4 * 16384, 0, 4 * ONE);
    assert_eq!(accumulated.write_color(4), "128 0 255");
}
