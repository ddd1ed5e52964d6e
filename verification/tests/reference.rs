use tracer::cast::{cast_vector, cast_viewport, CastError, Scene, Viewport};
use tracer::data::{Color, Finish, Light, Point, Ray, Sphere, Vector};
use tracer::number::scalar::Scalar;

// The same pipeline on hardware doubles, to hold the library against.

type V3 = (f64, f64, f64);

fn to(a: V3, b: V3) -> V3 {
    (b.0 - a.0, b.1 - a.1, b.2 - a.2)
}

fn scaled(v: V3, k: f64) -> V3 {
    (v.0 * k, v.1 * k, v.2 * k)
}

fn dot(a: V3, b: V3) -> f64 {
    a.0 * b.0 + a.1 * b.1 + a.2 * b.2
}

fn unit(v: V3) -> Option<V3> {
    let l = (v.0 * v.0 + v.1 * v.1 + v.2 * v.2).sqrt();
    if l == 0.0 {
        None
    } else {
        Some(scaled(v, 1.0 / l))
    }
}

fn meet(center: V3, radius: f64, p: V3, d: V3) -> Option<V3> {
    let oc = to(center, p);
    let a = dot(d, d);
    let b = 2.0 * dot(oc, d);
    let c = dot(oc, oc) - radius * radius;
    let delta = b * b - 4.0 * a * c;
    if !(delta >= 0.0) {
        return None;
    }
    let root = delta.sqrt();
    let t1 = (-b - root) / (2.0 * a);
    let t2 = (-b + root) / (2.0 * a);
    let t = if t1 >= 0.0 && t2 >= 0.0 {
        if t2 < t1 { t2 } else { t1 }
    } else if t1 >= 0.0 && t2 < 0.0 {
        t1
    } else if t1 < 0.0 && t2 >= 0.0 {
        t2
    } else {
        return None;
    };
    let step = scaled(d, t);
    Some((p.0 + step.0, p.1 + step.1, p.2 + step.2))
}

fn see(spheres: &[(V3, f64, V3)], light: V3, p: V3, d: V3) -> Result<V3, CastError> {
    for &(center, radius, paint) in spheres {
        if let Some(hit) = meet(center, radius, p, d) {
            let normal = unit(to(center, hit)).ok_or(CastError::NoNormal)?;
            let to_light = unit(to(hit, light)).ok_or(CastError::LightAtHit)?;
            let brightness = (dot(normal, to_light) + 1.0) / 2.0;
            if spheres.iter().any(|&(c, r, _)| meet(c, r, hit, to_light).is_some()) {
                return Ok((0.0, 0.0, 0.0));
            }
            return Ok(scaled(paint, brightness));
        }
    }
    Ok((1.0, 1.0, 1.0))
}

fn num(v: f64) -> Scalar {
    Scalar::from_bits(v.to_bits())
}

fn point(v: V3) -> Point {
    Point { x: num(v.0), y: num(v.1), z: num(v.2) }
}

fn scene(spheres: &[(V3, f64, V3)], light: V3) -> Scene {
    Scene {
        spheres: spheres
            .iter()
            .map(|&(center, radius, paint)| Sphere {
                center: point(center),
                radius: num(radius),
                c: Color { r: num(paint.0), g: num(paint.1), b: num(paint.2) },
                f: Finish { ambient: num(0.1), diffuse: num(0.2), specular: num(0.3), roughness: num(0.4) },
            })
            .collect(),
        light_source: Light { p: point(light), c: Color { r: num(1.0), g: num(1.0), b: num(1.0) } },
        light_color: Color { r: num(1.0), g: num(1.0), b: num(1.0) },
    }
}

fn same_bits(got: Result<Color, CastError>, want: Result<V3, CastError>) -> bool {
    match (got, want) {
        (Ok(c), Ok(w)) => {
            let same = |a: Scalar, b: f64| a.to_bits() == b.to_bits() || (a.is_nan() && b.is_nan());
            same(c.r, w.0) && same(c.g, w.1) && same(c.b, w.2)
        }
        (Err(e), Err(w)) => e == w,
        _ => false,
    }
}

fn three_spheres() -> Vec<(V3, f64, V3)> {
    vec![
        ((0.0, 0.0, 0.0), 2.0, (0.25, 0.5, 0.75)),
        ((2.5, 1.0, 3.0), 1.5, (0.9, 0.1, 0.3)),
        ((-3.0, -2.0, 1.0), 0.0, (0.2, 0.8, 0.4)),
        ((-1.0, 3.5, -2.0), 1.25, (1.0, 1.0, 0.0)),
    ]
}

#[test]
fn image_agrees_with_hardware_doubles_bit_for_bit() {
    let spheres = three_spheres();
    let light = (100.0, 100.0, -100.0);
    let eye = (0.5, -0.25, -10.0);
    let (width, height) = (64u32, 48u32);
    let (eye_width, eye_height) = (12.0f64, 9.0f64);
    let v = Viewport {
        eye: point(eye),
        eye_width: num(eye_width),
        eye_height: num(eye_height),
        img_width: width,
        img_height: height,
    };
    let s = scene(&spheres, light);
    let image = cast_viewport(&v, &s).unwrap();
    assert_eq!(image.len(), 48);
    let mut shaded = 0;
    for y in 0..height {
        assert_eq!(image[y as usize].len(), 64);
        for x in 0..width {
            let on_screen = (
                f64::from(x) * eye_width / f64::from(width) - eye_width / 2.0,
                f64::from(y) * eye_height / f64::from(height) - eye_height / 2.0,
                0.0,
            );
            let d = unit(to(eye, on_screen)).unwrap();
            let want = see(&spheres, light, eye, d);
            let got = image[y as usize][x as usize];
            assert!(same_bits(Ok(got), want), "pixel ({}, {}): {:?} and {:?}", x, y, got, want);
            if want != Ok((1.0, 1.0, 1.0)) && want != Ok((0.0, 0.0, 0.0)) {
                shaded += 1;
            }
        }
    }
    assert!(shaded > 100);
}

#[test]
fn rays_agree_with_hardware_doubles_bit_for_bit() {
    let spheres = three_spheres();
    let s_near = scene(&spheres, (3.0, 8.0, -6.0));
    let mut state: u64 = 0x9E37_79B9_7F4A_7C15;
    let mut next = move || {
        state = state.wrapping_mul(6364136223846793005).wrapping_add(1442695040888963407);
        ((state >> 11) as f64 / (1u64 << 53) as f64) * 2.0 - 1.0
    };
    let mut hits = 0;
    for _ in 0..4000 {
        let p = (next() * 6.0, next() * 6.0, next() * 6.0 - 4.0);
        let d = (next(), next(), next() + 0.5);
        let r = Ray { p: point(p), dir: Vector { x: num(d.0), y: num(d.1), z: num(d.2) } };
        let want = see(&spheres, (3.0, 8.0, -6.0), p, d);
        let got = cast_vector(&r, &s_near);
        assert!(same_bits(got, want), "ray {:?} {:?}: {:?} and {:?}", p, d, got, want);
        if want != Ok((1.0, 1.0, 1.0)) {
            hits += 1;
        }
    }
    assert!(hits > 400);
}

#[test]
fn degenerate_rays_agree_with_hardware_doubles() {
    let spheres = three_spheres();
    let light = (0.0, 0.0, 5.0);
    let s = scene(&spheres, light);
    let specials = [0.0, -0.0, 1.0, -1.0, 1e-320, 1e300, f64::INFINITY, f64::NAN];
    for &px in &specials {
        for &dx in &specials {
            for &dz in &specials {
                let p = (px, 0.0, -5.0);
                let d = (dx, 0.0, dz);
                let r = Ray { p: point(p), dir: Vector { x: num(d.0), y: num(d.1), z: num(d.2) } };
                let want = see(&spheres, light, p, d);
                let got = cast_vector(&r, &s);
                assert!(same_bits(got, want), "ray {:?} {:?}: {:?} and {:?}", p, d, got, want);
            }
        }
    }
}
