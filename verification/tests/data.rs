use tracer::data::{nearest_root, Color, Finish, Point, Ray, Sphere, Vector};
use tracer::number::scalar::Scalar;

fn num(v: f64) -> Scalar {
    Scalar::from_bits(v.to_bits())
}

fn point(x: f64, y: f64, z: f64) -> Point {
    Point { x: num(x), y: num(y), z: num(z) }
}

fn vector(x: f64, y: f64, z: f64) -> Vector {
    Vector { x: num(x), y: num(y), z: num(z) }
}

fn unit_sphere() -> Sphere {
    Sphere {
        center: point(0.0, 0.0, 0.0),
        radius: num(1.0),
        c: Color { r: num(0.0), g: num(0.0), b: num(0.0) },
        f: Finish { ambient: num(0.0), diffuse: num(0.0), specular: num(0.0), roughness: num(0.0) },
    }
}

// Point method tests

#[test]
fn test_vector_to_point() {
    let origin = point(0.0, 0.0, 0.0);
    let corner = point(1.0, 1.0, 1.0);
    assert_eq!(origin.vector_to(&corner), vector(1.0, 1.0, 1.0));
    assert_eq!(corner.vector_to(&origin), vector(-1.0, -1.0, -1.0));
}

#[test]
fn test_vector_from_point() {
    let origin = point(0.0, 0.0, 0.0);
    let corner = point(1.0, 1.0, 1.0);
    assert_eq!(corner.vector_from(&origin), vector(1.0, 1.0, 1.0));
    assert_eq!(origin.vector_from(&corner), vector(-1.0, -1.0, -1.0));
}

#[test]
fn test_translate_point() {
    let origin = point(0.0, 0.0, 0.0);
    let v1 = vector(1.0, 1.0, 1.0);
    let corner = point(1.0, 1.0, 1.0);
    assert_eq!(origin.translate(&v1), corner);
}

// Vector method tests

#[test]
fn test_scale_vector() {
    let v = vector(1.0, 2.0, 3.0);
    assert_ne!(v, vector(2.0, 4.0, 6.0));
    assert_eq!(v.scale(num(2.0)), vector(2.0, 4.0, 6.0));
}

#[test]
fn test_dot_vector() {
    let v1 = vector(1.0, 0.0, 0.0);
    let v2 = vector(0.0, 1.0, 0.0);
    let v3 = vector(3.0, 0.0, 0.0);
    assert_eq!(v1.dot(&v1), num(1.0));
    assert_eq!(v1.dot(&v2), num(0.0));
    assert_eq!(v1.dot(&v3), num(3.0));
    assert_eq!(v3.dot(&v1), num(3.0));
}

#[test]
fn test_len_vector() {
    let v1 = vector(1.0, 0.0, 0.0);
    let v2 = vector(3.0, 4.0, 0.0);
    assert_eq!(v1.len(), num(1.0));
    assert_eq!(v2.len(), num(5.0));
}

#[test]
fn test_normalize_vector() {
    let v1 = vector(1.0, 0.0, 0.0);
    let v2 = vector(3.0, 0.0, 0.0);
    assert_eq!(v1.normalize(), v1);
    assert_eq!(v2.normalize(), v1);
}

#[test]
fn test_subtract_vector() {
    let v1 = vector(1.0, 0.0, 0.0);
    let v2 = vector(1.0, 1.0, 0.0);
    let v3 = vector(0.0, 1.0, 0.0);
    assert_eq!(v2 - v3, v1);
}

#[test]
fn test_intersection_sphere() {
    let s = unit_sphere();
    let r1 = Ray { p: point(3.0, 0.0, 0.0), dir: vector(-1.0, 0.0, 0.0) };
    let r2 = Ray { p: point(3.0, 0.0, 0.0), dir: vector(1.0, 0.0, 0.0) };
    assert_eq!(s.intersection(&r1), Some(point(1.0, 0.0, 0.0)));
    assert_eq!(s.intersection(&r2), None);
}

#[test]
fn test_normal_at_sphere() {
    let s = unit_sphere();
    let p = point(1.0, 0.0, 0.0);
    assert_eq!(s.normal_at(&p), vector(1.0, 0.0, 0.0));
}

// Laws on chosen values

#[test]
fn vector_to_is_reversed_by_swapping_the_points() {
    let a = point(1.5, -2.0, 0.25);
    let b = point(-4.0, 8.0, 3.0);
    let forth = a.vector_to(&b);
    let back = b.vector_to(&a);
    assert_eq!(forth, vector(-5.5, 10.0, 2.75));
    assert_eq!(back, vector(5.5, -10.0, -2.75));
    assert_eq!(forth, back.scale(num(-1.0)));
    assert_eq!(a.vector_from(&b), back);
    assert_eq!(b.vector_from(&a), forth);
}

#[test]
fn normalized_vector_has_norm_one_within_tolerance() {
    for v in [vector(3.0, 4.0, 0.0), vector(1.0, 1.0, 1.0), vector(-0.1, 7.5, 1e-3), vector(1e10, -2e9, 3.0)] {
        let n = v.normalize().len();
        let norm = f64::from_bits(n.to_bits());
        assert!((norm - 1.0).abs() < 1e-12);
    }
}

#[test]
fn norm_is_the_root_of_the_self_product() {
    let v = vector(1.0, 1.0, 0.0);
    assert_eq!(v.dot(&v), num(2.0));
    assert_eq!(v.len(), num(2.0f64.sqrt()));
    assert_eq!(v.len(), v.dot(&v).sqrt());
    let w = vector(2.0, 3.0, 6.0);
    assert_eq!(w.dot(&w), num(49.0));
    assert_eq!(w.len(), num(7.0));
    assert_eq!(w.len().mul(w.len()), w.dot(&w));
}

#[test]
fn scale_by_zero_and_by_a_negative_number() {
    let v = vector(1.0, -2.0, 3.0);
    assert_eq!(v.scale(num(0.0)), vector(0.0, 0.0, 0.0));
    assert_eq!(v.scale(num(0.0)).y.to_bits(), (-0.0f64).to_bits());
    assert_eq!(v.scale(num(-0.5)), vector(-0.5, 1.0, -1.5));
}

#[test]
fn try_normalize_refuses_the_zero_vector_only() {
    assert_eq!(vector(0.0, 0.0, 0.0).try_normalize(), None);
    assert_eq!(vector(0.0, -0.0, 0.0).try_normalize(), None);
    assert_eq!(vector(0.0, 0.0, -2.0).try_normalize(), Some(vector(0.0, 0.0, -1.0)));
    assert_eq!(vector(3.0, 4.0, 0.0).try_normalize(), Some(vector(3.0 * (1.0 / 5.0), 4.0 * (1.0 / 5.0), 0.0)));
}

#[test]
fn nearest_root_follows_the_signs() {
    assert_eq!(nearest_root(num(2.0), num(4.0)), Some(num(2.0)));
    assert_eq!(nearest_root(num(4.0), num(2.0)), Some(num(2.0)));
    assert_eq!(nearest_root(num(3.0), num(-1.0)), Some(num(3.0)));
    assert_eq!(nearest_root(num(-1.0), num(3.0)), Some(num(3.0)));
    assert_eq!(nearest_root(num(-1.0), num(-3.0)), None);
    assert_eq!(nearest_root(num(0.0), num(0.0)), Some(num(0.0)));
    assert_eq!(nearest_root(num(-0.0), num(5.0)), Some(num(0.0)));
    assert_eq!(nearest_root(num(f64::NAN), num(1.0)), None);
    assert_eq!(nearest_root(num(1.0), num(f64::NAN)), None);
    assert_eq!(nearest_root(num(f64::INFINITY), num(1.0)), Some(num(1.0)));
}

#[test]
fn intersection_without_real_roots_is_none() {
    let s = unit_sphere();
    let wide = Ray { p: point(3.0, 2.0, 0.0), dir: vector(-1.0, 0.0, 0.0) };
    assert_eq!(s.intersection(&wide), None);
    let grazing = Ray { p: point(3.0, 1.0, 0.0), dir: vector(-1.0, 0.0, 0.0) };
    assert_eq!(s.intersection(&grazing), Some(point(0.0, 1.0, 0.0)));
}

#[test]
fn intersection_from_inside_takes_the_root_ahead() {
    let s = unit_sphere();
    let r = Ray { p: point(0.0, 0.0, 0.0), dir: vector(0.0, 0.0, 2.0) };
    assert_eq!(s.intersection(&r), Some(point(0.0, 0.0, 1.0)));
}

#[test]
fn intersection_does_not_need_a_unit_direction() {
    let s = Sphere { radius: num(2.0), ..unit_sphere() };
    let r = Ray { p: point(0.0, -8.0, 0.0), dir: vector(0.0, 4.0, 0.0) };
    assert_eq!(s.intersection(&r), Some(point(0.0, -2.0, 0.0)));
}

#[test]
fn try_normal_at_refuses_the_centre_only() {
    let s = Sphere { center: point(1.0, 2.0, 3.0), ..unit_sphere() };
    assert_eq!(s.try_normal_at(&point(1.0, 2.0, 3.0)), None);
    assert_eq!(s.try_normal_at(&point(1.0, 2.0, 5.0)), Some(vector(0.0, 0.0, 1.0)));
    assert_eq!(s.normal_at(&point(1.0, 0.0, 3.0)), vector(0.0, -1.0, 0.0));
}
