use tracer::cast::{
    cast_pixel, cast_vector, cast_viewport, first_hit, in_shadow, shade, CastError, Scene, Viewport,
};
use tracer::data::{Color, Finish, Light, Point, Ray, Sphere, Vector};
use tracer::number::scalar::Scalar;

fn num(v: f64) -> Scalar {
    Scalar::from_bits(v.to_bits())
}

fn point(x: f64, y: f64, z: f64) -> Point {
    Point { x: num(x), y: num(y), z: num(z) }
}

fn vector(x: f64, y: f64, z: f64) -> Vector {
    Vector { x: num(x), y: num(y), z: num(z) }
}

fn color(r: f64, g: f64, b: f64) -> Color {
    Color { r: num(r), g: num(g), b: num(b) }
}

fn pattern(r: u64, g: u64, b: u64) -> Color {
    Color { r: Scalar::from_bits(r), g: Scalar::from_bits(g), b: Scalar::from_bits(b) }
}

fn sphere(center: Point, radius: f64, c: Color) -> Sphere {
    Sphere {
        center,
        radius: num(radius),
        c,
        f: Finish { ambient: num(0.0), diffuse: num(0.0), specular: num(0.0), roughness: num(0.0) },
    }
}

fn scene(spheres: Vec<Sphere>, light: Point) -> Scene {
    Scene {
        spheres,
        light_source: Light { p: light, c: color(0.0, 0.0, 0.0) },
        light_color: color(0.0, 0.0, 0.0),
    }
}

fn white() -> Color {
    color(1.0, 1.0, 1.0)
}

fn black() -> Color {
    color(0.0, 0.0, 0.0)
}

fn paint() -> Color {
    color(0.25, 0.5, 0.75)
}

#[test]
fn ray_that_misses_every_surface_sees_white() {
    let s = scene(
        vec![sphere(point(0.0, 0.0, 0.0), 1.0, paint()), sphere(point(0.0, 5.0, 0.0), 1.0, paint())],
        point(10.0, 0.0, 0.0),
    );
    let away = Ray { p: point(3.0, 0.0, 0.0), dir: vector(1.0, 0.0, 0.0) };
    assert_eq!(cast_vector(&away, &s), Ok(white()));
    let past = Ray { p: point(3.0, 2.5, 0.0), dir: vector(-1.0, 0.0, 0.0) };
    assert_eq!(cast_vector(&past, &s), Ok(white()));
    assert_eq!(first_hit(&past, &s), None);
    assert!(!in_shadow(&past, &s));
}

#[test]
fn ray_into_an_empty_scene_sees_white() {
    let s = scene(vec![], point(10.0, 0.0, 0.0));
    let r = Ray { p: point(3.0, 0.0, 0.0), dir: vector(-1.0, 0.0, 0.0) };
    assert_eq!(cast_vector(&r, &s), Ok(white()));
    assert_eq!(cast_vector(&r, &s).unwrap().r.to_bits(), 0x3FF0_0000_0000_0000);
}

#[test]
fn hit_with_the_sphere_between_it_and_the_light_is_black() {
    let s = scene(vec![sphere(point(0.0, 0.0, 0.0), 0.7, paint())], point(-10.0, 0.0, 0.0));
    let r = Ray { p: point(3.0, 0.0, 0.0), dir: vector(-1.0, 0.0, 0.0) };
    assert_eq!(cast_vector(&r, &s), Ok(black()));
    assert_eq!(cast_vector(&r, &s).unwrap().g.to_bits(), 0);
}

#[test]
fn hit_that_faces_the_light_keeps_the_colour_of_the_surface() {
    let s = scene(vec![sphere(point(0.0, 0.0, 0.0), 0.7, paint())], point(10.0, 0.0, 0.0));
    let r = Ray { p: point(3.0, 0.0, 0.0), dir: vector(-1.0, 0.0, 0.0) };
    assert_eq!(s.spheres[0].intersection(&r), Some(point(0.7000000000000002, 0.0, 0.0)));
    assert_eq!(cast_vector(&r, &s), Ok(paint()));
}

#[test]
fn hit_exactly_on_the_surface_shadows_itself() {
    let s = scene(vec![sphere(point(0.0, 0.0, 0.0), 1.0, paint())], point(5.0, 0.0, 0.0));
    let r = Ray { p: point(3.0, 0.0, 0.0), dir: vector(-1.0, 0.0, 0.0) };
    assert_eq!(s.spheres[0].intersection(&r), Some(point(1.0, 0.0, 0.0)));
    let towards_light = Ray { p: point(1.0, 0.0, 0.0), dir: vector(1.0, 0.0, 0.0) };
    assert_eq!(s.spheres[0].intersection(&towards_light), Some(point(1.0, 0.0, 0.0)));
    assert!(in_shadow(&towards_light, &s));
    assert_eq!(cast_vector(&r, &s), Ok(black()));
}

#[test]
fn brightness_scales_the_colour() {
    let s = scene(vec![sphere(point(0.0, 0.0, 0.0), 0.3, paint())], point(1.0, -42.0, -30.0));
    let r = Ray {
        p: point(0.0, 2.0, -10.0),
        dir: Vector {
            x: Scalar::from_bits(0),
            y: Scalar::from_bits(0xBFC9_1A55_6151_761C),
            z: Scalar::from_bits(0x3FEF_60EA_B9A5_D3A3),
        },
    };
    assert_eq!(
        cast_vector(&r, &s),
        Ok(pattern(0x3FC6_7CAB_E3EE_4C02, 0x3FD6_7CAB_E3EE_4C02, 0x3FE0_DD80_EAF2_B902))
    );
    assert_eq!(
        cast_vector(&r, &s),
        Ok(color(0.17567967061458495, 0.3513593412291699, 0.5270390118437549))
    );
}

#[test]
fn first_surface_in_stored_order_wins_over_the_nearer_one() {
    let near = sphere(point(0.0, 0.0, 0.0), 0.3, paint());
    let far = sphere(point(1.0, -2.0, 7.0), 3.0, color(0.5, 0.25, 1.0));
    let r = Ray { p: point(0.0, 2.0, -10.0), dir: vector(0.0, -1.0, 5.0).normalize() };
    let light = point(1.0, -42.0, -30.0);
    let near_first = scene(
        vec![sphere(point(0.0, 0.0, 0.0), 0.3, paint()), sphere(point(1.0, -2.0, 7.0), 3.0, color(0.5, 0.25, 1.0))],
        light,
    );
    let far_first = scene(vec![far, near], light);
    assert_eq!(first_hit(&r, &near_first).map(|(i, _)| i), Some(0));
    assert_eq!(
        first_hit(&r, &far_first),
        Some((0, point(0.0, -0.8805101546282339, 4.40255077314117)))
    );
    assert_eq!(
        far_first.spheres[1].intersection(&r),
        Some(point(0.0, 0.05883484054145649, -0.294174202707282))
    );
    assert_eq!(
        cast_vector(&r, &near_first),
        Ok(color(0.17567967061458495, 0.3513593412291699, 0.5270390118437549))
    );
    assert_eq!(
        cast_vector(&r, &far_first),
        Ok(color(0.3157780601338838, 0.1578890300669419, 0.6315561202677676))
    );
}

#[test]
fn shadow_may_come_from_another_surface() {
    let lit = scene(vec![sphere(point(0.0, 0.0, 0.0), 0.7, paint())], point(10.0, 0.0, 0.0));
    let blocked = scene(
        vec![sphere(point(0.0, 0.0, 0.0), 0.7, paint()), sphere(point(5.0, 0.0, 0.0), 1.0, paint())],
        point(10.0, 0.0, 0.0),
    );
    let r = Ray { p: point(3.0, 0.0, 0.0), dir: vector(-1.0, 0.0, 0.0) };
    assert_eq!(cast_vector(&r, &lit), Ok(paint()));
    assert_eq!(cast_vector(&r, &blocked), Ok(black()));
}

#[test]
fn shade_of_a_given_point() {
    let s = scene(vec![sphere(point(0.0, 0.0, 0.0), 0.7, paint())], point(10.0, 0.0, 0.0));
    assert_eq!(shade(&s, 0, &point(0.7000000000000002, 0.0, 0.0)), Ok(paint()));
    assert_eq!(shade(&s, 0, &point(0.0, 0.0, 0.0)), Err(CastError::NoNormal));
    assert_eq!(shade(&s, 0, &point(10.0, 0.0, 0.0)), Err(CastError::LightAtHit));
}

#[test]
fn hit_at_the_centre_has_no_normal() {
    let s = scene(vec![sphere(point(0.0, 0.0, 0.0), 0.0, paint())], point(10.0, 0.0, 0.0));
    let r = Ray { p: point(3.0, 0.0, 0.0), dir: vector(-1.0, 0.0, 0.0) };
    assert_eq!(s.spheres[0].intersection(&r), Some(point(0.0, 0.0, 0.0)));
    assert_eq!(cast_vector(&r, &s), Err(CastError::NoNormal));
}

#[test]
fn light_at_the_hit_point_is_an_error() {
    let s = scene(vec![sphere(point(0.0, 0.0, 0.0), 1.0, paint())], point(1.0, 0.0, 0.0));
    let r = Ray { p: point(3.0, 0.0, 0.0), dir: vector(-1.0, 0.0, 0.0) };
    assert_eq!(cast_vector(&r, &s), Err(CastError::LightAtHit));
}

fn camera(width: u32, height: u32) -> Viewport {
    Viewport {
        eye: point(0.0, 0.0, -10.0),
        eye_width: num(10.0),
        eye_height: num(10.0),
        img_width: width,
        img_height: height,
    }
}

#[test]
fn screen_points_follow_the_formula() {
    let v = camera(8, 6);
    assert_eq!(v.screen_point(0, 0), point(-5.0, -5.0, 0.0));
    assert_eq!(v.screen_point(3, 1), point(-1.25, -3.333333333333333, 0.0));
    assert_eq!(v.screen_point(4, 3), point(0.0, 0.0, 0.0));
    assert_eq!(v.screen_point(3, 1).y.to_bits(), (1.0f64 * 10.0 / 6.0 - 10.0 / 2.0).to_bits());
    let r = v.pixel_ray(4, 3).unwrap();
    assert_eq!(r.p, point(0.0, 0.0, -10.0));
    assert_eq!(r.dir, vector(0.0, 0.0, 1.0));
}

#[test]
fn image_has_one_colour_for_each_pixel() {
    let s = scene(vec![sphere(point(0.0, 0.0, 0.0), 2.0, paint())], point(100.0, 100.0, -100.0));
    let v = camera(8, 6);
    let image = cast_viewport(&v, &s).unwrap();
    assert_eq!(image.len(), 6);
    for row in &image {
        assert_eq!(row.len(), 8);
    }
    let lit_left = pattern(0x3FC2_EFDF_CC54_3E94, 0x3FD2_EFDF_CC54_3E94, 0x3FDC_67CF_B27E_5DDE);
    let lit_right = pattern(0x3FCC_9E15_3EEE_AE6D, 0x3FDC_9E15_3EEE_AE6D, 0x3FE5_768F_EF33_02D2);
    let lit_below = pattern(0x3FCD_0007_1A74_5DA7, 0x3FDD_0007_1A74_5DA7, 0x3FE5_C005_53D7_463D);
    for y in 0..6 {
        for x in 0..8 {
            let expected = match (x, y) {
                (4, 2) | (4, 3) => black(),
                (3, 3) => lit_left,
                (5, 3) => lit_right,
                (4, 4) => lit_below,
                _ => white(),
            };
            assert_eq!(image[y][x], expected, "pixel ({}, {})", x, y);
            assert_eq!(cast_pixel(&v, &s, x as u32, y as u32), Ok(expected));
        }
    }
}

#[test]
fn image_is_the_same_on_every_run() {
    let s = scene(
        vec![sphere(point(0.0, 0.0, 0.0), 2.0, paint()), sphere(point(1.0, 1.0, 3.0), 2.5, color(0.5, 0.25, 1.0))],
        point(100.0, 100.0, -100.0),
    );
    let v = camera(7, 5);
    let first = cast_viewport(&v, &s).unwrap();
    let second = cast_viewport(&v, &s).unwrap();
    assert_eq!(first.len(), 5);
    for y in 0..5 {
        assert_eq!(first[y].len(), 7);
        for x in 0..7 {
            assert_eq!(first[y][x].r.to_bits(), second[y][x].r.to_bits());
            assert_eq!(first[y][x].g.to_bits(), second[y][x].g.to_bits());
            assert_eq!(first[y][x].b.to_bits(), second[y][x].b.to_bits());
        }
    }
}

#[test]
fn eye_on_the_image_plane_is_an_error() {
    let s = scene(vec![sphere(point(0.0, 0.0, 0.0), 1.0, paint())], point(10.0, 0.0, 0.0));
    let v = Viewport {
        eye: point(0.0, 0.0, 0.0),
        eye_width: num(4.0),
        eye_height: num(4.0),
        img_width: 2,
        img_height: 2,
    };
    assert_eq!(cast_pixel(&v, &s, 0, 0), Ok(black()));
    assert_eq!(cast_pixel(&v, &s, 1, 1), Err(CastError::EyeOnImagePlane));
    assert!(v.pixel_ray(1, 1).is_err());
    assert_eq!(cast_viewport(&v, &s), Err(CastError::EyeOnImagePlane));
    let back = Viewport { eye: point(0.0, 0.0, -10.0), ..v };
    assert_eq!(
        cast_viewport(&back, &s),
        Ok(vec![vec![white(), white()], vec![white(), black()]])
    );
}

#[test]
fn first_failing_pixel_gives_the_error() {
    let s = scene(vec![sphere(point(0.0, 0.0, 0.0), 0.0, paint())], point(10.0, 0.0, 0.0));
    let v = Viewport {
        eye: point(0.0, 0.0, -10.0),
        eye_width: num(4.0),
        eye_height: num(4.0),
        img_width: 2,
        img_height: 2,
    };
    assert_eq!(cast_pixel(&v, &s, 0, 0), Ok(white()));
    assert_eq!(cast_pixel(&v, &s, 1, 1), Err(CastError::NoNormal));
    assert_eq!(cast_viewport(&v, &s), Err(CastError::NoNormal));
}
