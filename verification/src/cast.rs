//! The shading engine, which finds one colour for one ray, and the viewport
//! projector, which sends one ray through each pixel.
use vstd::prelude::*;
use crate::number::scalar::Scalar;
use crate::data::{Color, Light, Point, Ray, Sphere, Vector};

verus! {

/// The camera: an eye point and, in the plane `z = 0`, a window of the given
/// extent, centred on the origin and divided into the given number of pixels.
pub struct Viewport {
    pub eye: Point,
    pub eye_width: Scalar,
    pub eye_height: Scalar,
    pub img_width: u32,
    pub img_height: u32,
}

/// The renderable world: surfaces in a fixed order, and one light.
pub struct Scene {
    pub spheres: Vec<Sphere>,
    pub light_source: Light,
    pub light_color: Color,
}

/// Why a ray has no colour: a direction was asked of a vector of norm zero.
#[derive(PartialEq, Eq, Structural, Debug, Clone, Copy)]
pub enum CastError {
    /// The hit point is at distance zero from the centre of its sphere, so
    /// the surface has no normal there.
    NoNormal,
    /// The hit point is at distance zero from the light.
    LightAtHit,
    /// The eye is at distance zero from the image-plane point of the pixel.
    EyeOnImagePlane,
}

impl Color {
    /// The colour of a ray that meets no surface.
    pub open spec fn white() -> Color {
        Color { r: Scalar::one_spec(), g: Scalar::one_spec(), b: Scalar::one_spec() }
    }

    /// The colour of a point in shadow.
    pub open spec fn black() -> Color {
        Color { r: Scalar::zero_spec(), g: Scalar::zero_spec(), b: Scalar::zero_spec() }
    }

    /// Every part multiplied by `k`.
    pub open spec fn scale_spec(self, k: Scalar) -> Color {
        Color { r: self.r.mul_spec(k), g: self.g.mul_spec(k), b: self.b.mul_spec(k) }
    }

    /// The colour with every part multiplied by `k`.
    pub fn scale(&self, k: Scalar) -> (c: Color)
        ensures
            c == self.scale_spec(k),
    {
        Color { r: self.r.mul(k), g: self.g.mul(k), b: self.b.mul(k) }
    }
}

/// Whether the ray meets none of the surfaces.
pub open spec fn misses_all(surfaces: Seq<Sphere>, r: Ray) -> bool {
    forall|j: int| 0 <= j < surfaces.len() ==> (#[trigger] surfaces[j].intersection_spec(r)) is None
}

/// Whether surface `i` is the first in stored order that the ray meets.
/// Depth plays no part: a later surface may be nearer.
pub open spec fn is_first_hit(surfaces: Seq<Sphere>, r: Ray, i: int) -> bool {
    &&& 0 <= i < surfaces.len()
    &&& surfaces[i].intersection_spec(r) is Some
    &&& forall|j: int| 0 <= j < i ==> (#[trigger] surfaces[j].intersection_spec(r)) is None
}

/// The index of the first surface at or after `from` that the ray meets.
pub open spec fn first_hit_from(surfaces: Seq<Sphere>, r: Ray, from: int) -> Option<int>
    decreases surfaces.len() - from,
{
    if from < 0 || from >= surfaces.len() {
        None
    } else if surfaces[from].intersection_spec(r) is Some {
        Some(from)
    } else {
        first_hit_from(surfaces, r, from + 1)
    }
}

/// The cosine of the angle between the two unit vectors, carried from
/// `[-1, 1]` to `[0, 1]`: `(dot + 1) / 2`.
pub open spec fn brightness_spec(normal: Vector, to_light: Vector) -> Scalar {
    normal.dot_spec(to_light).add_spec(Scalar::one_spec()).div_spec(Scalar::two_spec())
}

impl Scene {
    /// No sphere has a radius below zero.
    pub open spec fn well_formed(self) -> bool {
        forall|i: int|
            0 <= i < self.spheres@.len() ==> !(#[trigger] self.spheres@[i]).radius.lt_spec(
                Scalar::zero_spec(),
            )
    }

    /// The ray from `p` towards the light, with a direction of norm one.
    pub open spec fn shadow_ray(self, p: Point) -> Ray {
        Ray { p, dir: p.vector_to_spec(self.light_source.p).normalize_spec() }
    }

    /// The colour of the point `p` on surface `i`: black when any surface
    /// stands between `p` and the light, else the surface's colour scaled by
    /// the brightness at `p`.
    pub open spec fn shade_spec(self, i: int, p: Point) -> Result<Color, CastError> {
        let sphere = self.spheres@[i];
        if sphere.center.vector_to_spec(p).len_spec().is_zero_spec() {
            Err(CastError::NoNormal)
        } else if p.vector_to_spec(self.light_source.p).len_spec().is_zero_spec() {
            Err(CastError::LightAtHit)
        } else if misses_all(self.spheres@, self.shadow_ray(p)) {
            Ok(
                sphere.c.scale_spec(
                    brightness_spec(sphere.normal_at_spec(p), self.shadow_ray(p).dir),
                ),
            )
        } else {
            Ok(Color::black())
        }
    }

    /// The colour that the ray sees.
    pub open spec fn cast_spec(self, r: Ray) -> Result<Color, CastError> {
        match first_hit_from(self.spheres@, r, 0) {
            Some(i) => self.shade_spec(i, self.spheres@[i].intersection_spec(r).unwrap()),
            None => Ok(Color::white()),
        }
    }
}

impl Viewport {
    /// The image has at least one pixel in each direction.
    pub open spec fn well_formed(self) -> bool {
        self.img_width > 0 && self.img_height > 0
    }

    /// Where pixel `index` of `count` lies on an axis of the window:
    /// `index * extent / count - extent / 2`.
    pub open spec fn axis_spec(index: u32, extent: Scalar, count: u32) -> Scalar {
        Scalar::from_u32_spec(index).mul_spec(extent).div_spec(
            Scalar::from_u32_spec(count),
        ).sub_spec(extent.div_spec(Scalar::two_spec()))
    }

    /// The point of the image plane that pixel `(x, y)` looks through.
    pub open spec fn screen_point_spec(self, x: u32, y: u32) -> Point {
        Point {
            x: Self::axis_spec(x, self.eye_width, self.img_width),
            y: Self::axis_spec(y, self.eye_height, self.img_height),
            z: Scalar::zero_spec(),
        }
    }

    /// The ray from the eye through pixel `(x, y)`, with a direction of norm
    /// one. There is none when the eye is at distance zero from that pixel's
    /// point.
    pub open spec fn pixel_ray_spec(self, x: u32, y: u32) -> Result<Ray, CastError> {
        let towards = self.eye.vector_to_spec(self.screen_point_spec(x, y));
        if towards.len_spec().is_zero_spec() {
            Err(CastError::EyeOnImagePlane)
        } else {
            Ok(Ray { p: self.eye, dir: towards.normalize_spec() })
        }
    }

    /// The colour of pixel `(x, y)`.
    pub open spec fn pixel_spec(self, s: Scene, x: u32, y: u32) -> Result<Color, CastError> {
        match self.pixel_ray_spec(x, y) {
            Ok(r) => s.cast_spec(r),
            Err(e) => Err(e),
        }
    }

    /// Whether `(x1, y1)` comes before `(x2, y2)` when the pixels are taken
    /// row by row.
    pub open spec fn precedes(x1: u32, y1: u32, x2: u32, y2: u32) -> bool {
        y1 < y2 || (y1 == y2 && x1 < x2)
    }

    /// Whether `rows` is the image of the scene: one row for each `y`, one
    /// colour for each `x` in it, each the colour of its pixel.
    pub open spec fn is_image(self, s: Scene, rows: Seq<Vec<Color>>) -> bool {
        &&& rows.len() == self.img_height
        &&& forall|y: int| 0 <= y < rows.len() ==> (#[trigger] rows[y])@.len() == self.img_width
        &&& forall|x: u32, y: u32|
            x < self.img_width && y < self.img_height ==> #[trigger] self.pixel_spec(s, x, y)
                == Ok::<Color, CastError>(rows[y as int]@[x as int])
    }

    /// Whether `(x, y)` is the first pixel, row by row, that has no colour,
    /// and `e` the reason.
    pub open spec fn is_first_failure(self, s: Scene, x: u32, y: u32, e: CastError) -> bool {
        &&& x < self.img_width
        &&& y < self.img_height
        &&& self.pixel_spec(s, x, y) == Err::<Color, CastError>(e)
        &&& forall|u: u32, v: u32|
            u < self.img_width && v < self.img_height && Self::precedes(u, v, x, y) ==> (
            #[trigger] self.pixel_spec(s, u, v)) is Ok
    }

    /// The point of the image plane that pixel `(x, y)` looks through.
    pub fn screen_point(&self, x: u32, y: u32) -> (p: Point)
        ensures
            p == self.screen_point_spec(x, y),
    {
        let two = Scalar::two();
        Point {
            x: Scalar::from_u32(x).mul(self.eye_width).div(Scalar::from_u32(self.img_width)).sub(
                self.eye_width.div(two),
            ),
            y: Scalar::from_u32(y).mul(self.eye_height).div(
                Scalar::from_u32(self.img_height),
            ).sub(self.eye_height.div(two)),
            z: Scalar::zero(),
        }
    }

    /// The ray from the eye through pixel `(x, y)`.
    pub fn pixel_ray(&self, x: u32, y: u32) -> (res: Result<Ray, CastError>)
        ensures
            res == self.pixel_ray_spec(x, y),
    {
        match self.eye.vector_to(&self.screen_point(x, y)).try_normalize() {
            Some(dir) => Ok(Ray { p: self.eye, dir }),
            None => Err(CastError::EyeOnImagePlane),
        }
    }
}

/// The visibility policy: the scan finds surface `i` exactly when `i` is
/// the first surface in stored order that the ray meets, and finds none
/// exactly when the ray meets no surface.
pub proof fn lemma_first_hit_is_first_in_order(surfaces: Seq<Sphere>, r: Ray)
    ensures
        first_hit_from(surfaces, r, 0) is None <==> misses_all(surfaces, r),
        forall|i: int|
            first_hit_from(surfaces, r, 0) == Some(i) <==> is_first_hit(surfaces, r, i),
{
    lemma_scan_from(surfaces, r, 0);
}

/// What a scan finds from `from` on, when the ray misses every surface
/// before it, is what a scan from the start finds; and that is the first
/// surface that the ray meets.
proof fn lemma_scan_from(surfaces: Seq<Sphere>, r: Ray, from: int)
    requires
        0 <= from <= surfaces.len(),
        forall|j: int| 0 <= j < from ==> (#[trigger] surfaces[j].intersection_spec(r)) is None,
    ensures
        first_hit_from(surfaces, r, from) == first_hit_from(surfaces, r, 0),
        first_hit_from(surfaces, r, 0) is None <==> misses_all(surfaces, r),
        forall|i: int|
            first_hit_from(surfaces, r, 0) == Some(i) <==> is_first_hit(surfaces, r, i),
    decreases surfaces.len() - from,
{
    if from < surfaces.len() && surfaces[from].intersection_spec(r) is None {
        lemma_scan_from(surfaces, r, from + 1);
    }
    if from > 0 {
        lemma_scan_restarts(surfaces, r, from);
    }
    if from == surfaces.len() || surfaces[from].intersection_spec(r) is Some {
        let found = first_hit_from(surfaces, r, from);
        assert forall|i: int| found == Some(i) <==> is_first_hit(surfaces, r, i) by {
            if is_first_hit(surfaces, r, i) && from < surfaces.len() {
                assert(!(i < from));
                assert(!(from < i));
            }
        }
    }
}

/// A scan from the start passes over every leading surface that the ray
/// misses.
proof fn lemma_scan_restarts(surfaces: Seq<Sphere>, r: Ray, from: int)
    requires
        0 <= from <= surfaces.len(),
        forall|j: int| 0 <= j < from ==> (#[trigger] surfaces[j].intersection_spec(r)) is None,
    ensures
        first_hit_from(surfaces, r, 0) == first_hit_from(surfaces, r, from),
    decreases from,
{
    if from > 0 {
        lemma_scan_restarts(surfaces, r, from - 1);
        assert(surfaces[from - 1].intersection_spec(r) is None);
    }
}

/// The first surface in stored order that the ray meets, with the point
/// where it meets it. This is the whole of the visibility policy: surfaces
/// are not compared by depth, so a later surface is never chosen over an
/// earlier one, however near it is.
pub fn first_hit(r: &Ray, s: &Scene) -> (found: Option<(usize, Point)>)
    ensures
        found is None <==> misses_all(s.spheres@, *r),
        found matches Some((i, p)) ==> is_first_hit(s.spheres@, *r, i as int)
            && s.spheres@[i as int].intersection_spec(*r) == Some(p),
        match found {
            Some((i, p)) => first_hit_from(s.spheres@, *r, 0) == Some(i as int),
            None => first_hit_from(s.spheres@, *r, 0) is None,
        },
{
    let mut i: usize = 0;
    while i < s.spheres.len()
        invariant
            i <= s.spheres.len(),
            forall|j: int| 0 <= j < i ==> (#[trigger] s.spheres@[j].intersection_spec(*r)) is None,
        decreases s.spheres.len() - i,
    {
        match s.spheres[i].intersection(r) {
            Some(p) => {
                proof {
                    lemma_scan_from(s.spheres@, *r, i as int);
                }
                return Some((i, p));
            },
            None => {},
        }
        i += 1;
    }
    proof {
        lemma_scan_from(s.spheres@, *r, i as int);
    }
    None
}

/// Whether any surface of the scene stands in the way of the ray.
pub fn in_shadow(r: &Ray, s: &Scene) -> (dark: bool)
    ensures
        dark == !misses_all(s.spheres@, *r),
{
    first_hit(r, s).is_some()
}

/// The colour of the point `p` on surface `i` of the scene.
pub fn shade(s: &Scene, i: usize, p: &Point) -> (res: Result<Color, CastError>)
    requires
        i < s.spheres.len(),
    ensures
        res == s.shade_spec(i as int, *p),
{
    let sphere = &s.spheres[i];
    let normal = match sphere.try_normal_at(p) {
        Some(n) => n,
        None => { return Err(CastError::NoNormal); },
    };
    let to_light = match p.vector_to(&s.light_source.p).try_normalize() {
        Some(v) => v,
        None => { return Err(CastError::LightAtHit); },
    };
    let brightness = normal.dot(&to_light).add(Scalar::one()).div(Scalar::two());
    if in_shadow(&Ray { p: *p, dir: to_light }, s) {
        Ok(Color { r: Scalar::zero(), g: Scalar::zero(), b: Scalar::zero() })
    } else {
        Ok(sphere.c.scale(brightness))
    }
}

/// The colour that the ray sees in the scene: the shade of the first
/// surface in stored order that the ray meets, at the point where it meets
/// it, and white when it meets none.
pub fn cast_vector(r: &Ray, s: &Scene) -> (res: Result<Color, CastError>)
    ensures
        res == s.cast_spec(*r),
        misses_all(s.spheres@, *r) ==> res == Ok::<Color, CastError>(Color::white()),
        forall|i: int|
            is_first_hit(s.spheres@, *r, i) ==> res == s.shade_spec(
                i,
                s.spheres@[i].intersection_spec(*r).unwrap(),
            ),
{
    proof {
        lemma_first_hit_is_first_in_order(s.spheres@, *r);
    }
    match first_hit(r, s) {
        Some((i, p)) => shade(s, i, &p),
        None => Ok(Color { r: Scalar::one(), g: Scalar::one(), b: Scalar::one() }),
    }
}

/// The colour of pixel `(x, y)` of the view.
pub fn cast_pixel(view: &Viewport, s: &Scene, x: u32, y: u32) -> (res: Result<Color, CastError>)
    ensures
        res == view.pixel_spec(*s, x, y),
{
    match view.pixel_ray(x, y) {
        Ok(r) => cast_vector(&r, s),
        Err(e) => Err(e),
    }
}

/// The image of the scene: `img_height` rows of `img_width` colours, the
/// colour at row `y` and column `x` being that of pixel `(x, y)`. When some
/// pixel has no colour, the first such pixel, taken row by row, gives the
/// error.
pub fn cast_viewport(view: &Viewport, s: &Scene) -> (res: Result<Vec<Vec<Color>>, CastError>)
    requires
        view.well_formed(),
        s.well_formed(),
    ensures
        match res {
            Ok(bitmap) => view.is_image(*s, bitmap@),
            Err(e) => exists|x: u32, y: u32| view.is_first_failure(*s, x, y, e),
        },
{
    let mut bitmap: Vec<Vec<Color>> = Vec::new();
    let mut y: u32 = 0;
    while y < view.img_height
        invariant
            y <= view.img_height,
            bitmap@.len() == y,
            forall|v: int| 0 <= v < y ==> (#[trigger] bitmap@[v])@.len() == view.img_width,
            forall|u: u32, v: u32|
                u < view.img_width && v < y ==> #[trigger] view.pixel_spec(*s, u, v) == Ok::<
                    Color,
                    CastError,
                >(bitmap@[v as int]@[u as int]),
        decreases view.img_height - y,
    {
        let mut line: Vec<Color> = Vec::new();
        let mut x: u32 = 0;
        while x < view.img_width
            invariant
                x <= view.img_width,
                y < view.img_height,
                line@.len() == x,
                forall|u: u32|
                    u < x ==> #[trigger] view.pixel_spec(*s, u, y) == Ok::<Color, CastError>(
                        line@[u as int],
                    ),
                forall|u: u32, v: u32|
                    u < view.img_width && v < y ==> (#[trigger] view.pixel_spec(*s, u, v)) is Ok,
            decreases view.img_width - x,
        {
            match cast_pixel(view, s, x, y) {
                Ok(c) => {
                    line.push(c);
                },
                Err(e) => {
                    assert(view.is_first_failure(*s, x, y, e));
                    return Err(e);
                },
            }
            x += 1;
        }
        bitmap.push(line);
        y += 1;
    }
    Ok(bitmap)
}

/// A view of a scene has one image: two grids that are each the image agree
/// in every row and every pixel.
pub proof fn lemma_image_is_unique(
    view: Viewport,
    s: Scene,
    first: Seq<Vec<Color>>,
    second: Seq<Vec<Color>>,
)
    requires
        view.is_image(s, first),
        view.is_image(s, second),
    ensures
        first.len() == second.len(),
        forall|y: int| 0 <= y < first.len() ==> (#[trigger] first[y])@ == second[y]@,
{
    assert forall|y: int| 0 <= y < first.len() implies (#[trigger] first[y])@ == second[y]@ by {
        assert(first[y]@.len() == second[y]@.len());
        assert forall|x: int| 0 <= x < first[y]@.len() implies first[y]@[x] == second[y]@[x] by {
            let u = x as u32;
            let v = y as u32;
            assert(view.pixel_spec(s, u, v) == Ok::<Color, CastError>(first[v as int]@[u as int]));
            assert(view.pixel_spec(s, u, v) == Ok::<Color, CastError>(second[v as int]@[u as int]));
        }
        assert(first[y]@ =~= second[y]@);
    }
}

} // verus!
