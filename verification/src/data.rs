//! Points, vectors and the surfaces built from them.
use vstd::prelude::*;
use vstd::std_specs::ops::SubSpecImpl;
use crate::number::scalar::Scalar;
use crate::number::exact::{
    lemma_exact_product, lemma_exact_root, lemma_exact_sum, lemma_integers_are_one_number,
};
use crate::number::sum::{lemma_double_negation, lemma_sum_commutes, lemma_sum_of_negated};

verus! {

/// A position in scene space.
#[derive(PartialEq, Debug, Clone, Copy)]
pub struct Point {
    pub x: Scalar,
    pub y: Scalar,
    pub z: Scalar,
}

/// A displacement or direction.
#[derive(PartialEq, Debug, Clone, Copy)]
pub struct Vector {
    pub x: Scalar,
    pub y: Scalar,
    pub z: Scalar,
}

impl Point {
    /// The displacement that carries `self` to `other`: `other - self`,
    /// coordinate by coordinate.
    pub open spec fn vector_to_spec(self, other: Point) -> Vector {
        Vector {
            x: other.x.sub_spec(self.x),
            y: other.y.sub_spec(self.y),
            z: other.z.sub_spec(self.z),
        }
    }

    /// The displacement that carries `other` to `self`.
    pub open spec fn vector_from_spec(self, other: Point) -> Vector {
        other.vector_to_spec(self)
    }

    /// The point reached from `self` by the displacement `v`.
    pub open spec fn translate_spec(self, v: Vector) -> Point {
        Point { x: self.x.add_spec(v.x), y: self.y.add_spec(v.y), z: self.z.add_spec(v.z) }
    }

    /// The displacement from `self` to `other`.
    pub fn vector_to(&self, other: &Point) -> (v: Vector)
        ensures
            v == self.vector_to_spec(*other),
    {
        Vector { x: other.x.sub(self.x), y: other.y.sub(self.y), z: other.z.sub(self.z) }
    }

    /// The displacement from `other` to `self`: `vector_to` read backwards.
    pub fn vector_from(&self, other: &Point) -> (v: Vector)
        ensures
            v == self.vector_from_spec(*other),
            v == other.vector_to_spec(*self),
    {
        other.vector_to(self)
    }

    /// The point `self + v`.
    pub fn translate(&self, v: &Vector) -> (p: Point)
        ensures
            p == self.translate_spec(*v),
    {
        Point { x: self.x.add(v.x), y: self.y.add(v.y), z: self.z.add(v.z) }
    }
}

impl Vector {
    /// Every coordinate multiplied by `scalar`.
    pub open spec fn scale_spec(self, scalar: Scalar) -> Vector {
        Vector {
            x: self.x.mul_spec(scalar),
            y: self.y.mul_spec(scalar),
            z: self.z.mul_spec(scalar),
        }
    }

    /// The inner product, summed from the first coordinate to the last.
    pub open spec fn dot_spec(self, other: Vector) -> Scalar {
        self.x.mul_spec(other.x).add_spec(self.y.mul_spec(other.y)).add_spec(
            self.z.mul_spec(other.z),
        )
    }

    /// The Euclidean norm: the root of the sum of the squared coordinates.
    pub open spec fn len_spec(self) -> Scalar {
        self.x.mul_spec(self.x).add_spec(self.y.mul_spec(self.y)).add_spec(
            self.z.mul_spec(self.z),
        ).sqrt_spec()
    }

    /// The vector scaled by the reciprocal of its norm.
    pub open spec fn normalize_spec(self) -> Vector {
        self.scale_spec(Scalar::one_spec().div_spec(self.len_spec()))
    }

    /// The difference, coordinate by coordinate.
    pub open spec fn minus(self, other: Vector) -> Vector {
        Vector {
            x: self.x.sub_spec(other.x),
            y: self.y.sub_spec(other.y),
            z: self.z.sub_spec(other.z),
        }
    }

    /// The vector with every coordinate multiplied by `scalar`, which may be
    /// negative or zero.
    pub fn scale(&self, scalar: Scalar) -> (v: Vector)
        ensures
            v == self.scale_spec(scalar),
    {
        Vector { x: self.x.mul(scalar), y: self.y.mul(scalar), z: self.z.mul(scalar) }
    }

    /// The inner product of the two vectors.
    pub fn dot(&self, other: &Vector) -> (d: Scalar)
        ensures
            d == self.dot_spec(*other),
    {
        self.x.mul(other.x).add(self.y.mul(other.y)).add(self.z.mul(other.z))
    }

    /// The Euclidean norm. It is the root of the vector's inner product with
    /// itself, and never below zero.
    pub fn len(&self) -> (l: Scalar)
        ensures
            l == self.len_spec(),
            l == self.dot_spec(*self).sqrt_spec(),
            !l.lt_spec(Scalar::zero_spec()),
    {
        self.x.mul(self.x).add(self.y.mul(self.y)).add(self.z.mul(self.z)).sqrt()
    }

    /// The vector of the same direction and norm one. A vector of norm zero
    /// has no direction and is not accepted.
    pub fn normalize(&self) -> (v: Vector)
        requires
            !self.len_spec().is_zero_spec(),
        ensures
            v == self.normalize_spec(),
    {
        let length = self.len();
        self.scale(Scalar::one().div(length))
    }

    /// The normalized vector, or `None` exactly when the norm is zero.
    pub fn try_normalize(&self) -> (r: Option<Vector>)
        ensures
            r == (if self.len_spec().is_zero_spec() {
                None
            } else {
                Some(self.normalize_spec())
            }),
    {
        if self.len().is_zero() {
            None
        } else {
            Some(self.normalize())
        }
    }
}

/// The displacement from `b` to `a` is the displacement to `a` from `b`:
/// `vector_from` is `vector_to` with the two points exchanged.
pub proof fn lemma_vector_from_reverses_vector_to(a: Point, b: Point)
    ensures
        a.vector_from_spec(b) == b.vector_to_spec(a),
        b.vector_from_spec(a) == a.vector_to_spec(b),
{
}

/// Whether `x` is the opposite of `y`: both are NaNs, or they are numbers
/// of the same size and opposite sign.
pub open spec fn is_opposite(x: Scalar, y: Scalar) -> bool {
    if y.is_nan_spec() {
        x.is_nan_spec()
    } else {
        x.same_number(y.neg_spec())
    }
}

/// The displacement from `a` to `b` is the opposite of the displacement
/// from `b` to `a`, coordinate by coordinate.
pub proof fn lemma_vector_to_is_opposite_of_reverse(a: Point, b: Point)
    ensures
        is_opposite(a.vector_to_spec(b).x, b.vector_to_spec(a).x),
        is_opposite(a.vector_to_spec(b).y, b.vector_to_spec(a).y),
        is_opposite(a.vector_to_spec(b).z, b.vector_to_spec(a).z),
{
    lemma_difference_is_opposite_of_reverse(b.x, a.x);
    lemma_difference_is_opposite_of_reverse(b.y, a.y);
    lemma_difference_is_opposite_of_reverse(b.z, a.z);
}

/// `p - q` is the opposite of `q - p`.
pub proof fn lemma_difference_is_opposite_of_reverse(p: Scalar, q: Scalar)
    ensures
        is_opposite(p.sub_spec(q), q.sub_spec(p)),
{
    // q - p is q + (-p); its opposite is (-q) + p, which is p + (-q).
    lemma_sum_of_negated(q, p.neg_spec());
    lemma_double_negation(p);
    lemma_sum_commutes(q.neg_spec(), p);
}

/// The norm of a vector is the square root of its inner product with
/// itself.
pub proof fn lemma_len_is_root_of_self_product(v: Vector)
    ensures
        v.len_spec() == v.dot_spec(v).sqrt_spec(),
{
}

/// The inner product of two vectors of whole numbers of at most 25 bits is
/// the inner product of the whole numbers; nothing is rounded.
pub proof fn lemma_dot_of_whole_vectors(
    v: Vector,
    w: Vector,
    a: (int, int, int),
    b: (int, int, int),
)
    requires
        v.x.is_integer(a.0) && v.y.is_integer(a.1) && v.z.is_integer(a.2),
        w.x.is_integer(b.0) && w.y.is_integer(b.1) && w.z.is_integer(b.2),
        -0x200_0000 < a.0 < 0x200_0000 && -0x200_0000 < a.1 < 0x200_0000 && -0x200_0000 < a.2
            < 0x200_0000,
        -0x200_0000 < b.0 < 0x200_0000 && -0x200_0000 < b.1 < 0x200_0000 && -0x200_0000 < b.2
            < 0x200_0000,
    ensures
        v.dot_spec(w).is_integer(a.0 * b.0 + a.1 * b.1 + a.2 * b.2),
{
    let bound = 0x4_0000_0000_0000int;
    assert(-bound < a.0 * b.0 < bound) by (nonlinear_arith)
        requires
            -0x200_0000 < a.0 < 0x200_0000,
            -0x200_0000 < b.0 < 0x200_0000,
            bound == 0x4_0000_0000_0000,
    ;
    assert(-bound < a.1 * b.1 < bound) by (nonlinear_arith)
        requires
            -0x200_0000 < a.1 < 0x200_0000,
            -0x200_0000 < b.1 < 0x200_0000,
            bound == 0x4_0000_0000_0000,
    ;
    assert(-bound < a.2 * b.2 < bound) by (nonlinear_arith)
        requires
            -0x200_0000 < a.2 < 0x200_0000,
            -0x200_0000 < b.2 < 0x200_0000,
            bound == 0x4_0000_0000_0000,
    ;
    lemma_exact_product(v.x, w.x, a.0, b.0);
    lemma_exact_product(v.y, w.y, a.1, b.1);
    lemma_exact_product(v.z, w.z, a.2, b.2);
    lemma_exact_sum(v.x.mul_spec(w.x), v.y.mul_spec(w.y), a.0 * b.0, a.1 * b.1);
    lemma_exact_sum(
        v.x.mul_spec(w.x).add_spec(v.y.mul_spec(w.y)),
        v.z.mul_spec(w.z),
        a.0 * b.0 + a.1 * b.1,
        a.2 * b.2,
    );
}

/// Where the inner product of a vector with itself is the square of a whole
/// number, the norm is that whole number, and the square of the norm is the
/// inner product.
pub proof fn lemma_norm_of_whole_square(v: Vector, k: nat)
    requires
        v.dot_spec(v).is_integer((k * k) as int),
        k * k < 0x20_0000_0000_0000,
    ensures
        v.len_spec().is_integer(k as int),
        v.len_spec().mul_spec(v.len_spec()).is_integer((k * k) as int),
        v.len_spec().mul_spec(v.len_spec()).same_number(v.dot_spec(v)),
{
    let d = v.dot_spec(v);
    assert(k < 0x20_0000_0000_0000) by (nonlinear_arith)
        requires
            k * k < 0x20_0000_0000_0000,
    ;
    if k != 0 {
        vstd::arithmetic::power2::lemma_pow2_pos(1074);
        assert((k * k) * vstd::arithmetic::power2::pow2(1074) > 0) by (nonlinear_arith)
            requires
                k > 0,
                vstd::arithmetic::power2::pow2(1074) > 0,
        ;
    }
    lemma_exact_root(d, k);
    lemma_exact_product(v.len_spec(), v.len_spec(), k as int, k as int);
    lemma_integers_are_one_number(v.len_spec().mul_spec(v.len_spec()), d, (k * k) as int);
}

impl core::ops::Sub for Vector {
    type Output = Vector;

    fn sub(self, other: Vector) -> (v: Vector) {
        Vector { x: self.x.sub(other.x), y: self.y.sub(other.y), z: self.z.sub(other.z) }
    }
}

impl SubSpecImpl for Vector {
    open spec fn obeys_sub_spec() -> bool {
        true
    }

    open spec fn sub_req(self, other: Vector) -> bool {
        true
    }

    open spec fn sub_spec(self, other: Vector) -> Vector {
        self.minus(other)
    }
}

/// A half-line: the points `p + t * dir` for `t >= 0`. The direction need
/// not have norm one.
pub struct Ray {
    pub p: Point,
    pub dir: Vector,
}

/// A colour by its red, green and blue parts, nominally between zero and
/// one. Nothing here clamps them.
#[derive(PartialEq, Debug, Clone, Copy)]
pub struct Color {
    pub r: Scalar,
    pub g: Scalar,
    pub b: Scalar,
}

/// Reflectance of a material. Carried with each surface; the shading law
/// does not read it.
pub struct Finish {
    pub ambient: Scalar,
    pub diffuse: Scalar,
    pub specular: Scalar,
    pub roughness: Scalar,
}

/// A sphere with its colour and finish.
pub struct Sphere {
    pub center: Point,
    pub radius: Scalar,
    pub c: Color,
    pub f: Finish,
}

/// The point light of a scene.
pub struct Light {
    pub p: Point,
    pub c: Color,
}

/// Which of the two ray parameters `t1`, `t2` is the visible one: the
/// smaller when neither is below zero, the one that is not below zero when
/// the other is, and none when both are behind the origin. A NaN is neither
/// below zero nor at least zero, so a pair that holds one yields none.
pub open spec fn nearest_root_spec(t1: Scalar, t2: Scalar) -> Option<Scalar> {
    let zero = Scalar::zero_spec();
    if zero.le_spec(t1) && zero.le_spec(t2) {
        Some(if t2.lt_spec(t1) { t2 } else { t1 })
    } else if zero.le_spec(t1) && t2.lt_spec(zero) {
        Some(t1)
    } else if t1.lt_spec(zero) && zero.le_spec(t2) {
        Some(t2)
    } else {
        None
    }
}

/// Chooses the visible one of two ray parameters. One is chosen exactly
/// when neither is a NaN and at least one is not below zero; the chosen one
/// is not below zero.
pub fn nearest_root(t1: Scalar, t2: Scalar) -> (r: Option<Scalar>)
    ensures
        r == nearest_root_spec(t1, t2),
        r matches Some(t) ==> Scalar::zero_spec().le_spec(t) && (t == t1 || t == t2),
        r is Some <==> !t1.is_nan_spec() && !t2.is_nan_spec() && (Scalar::zero_spec().le_spec(t1)
            || Scalar::zero_spec().le_spec(t2)),
{
    let zero = Scalar::zero();
    if t1.ge(zero) && t2.ge(zero) {
        Some(t1.min(t2))
    } else if t1.ge(zero) && t2.lt(zero) {
        Some(t1)
    } else if t1.lt(zero) && t2.ge(zero) {
        Some(t2)
    } else {
        None
    }
}

impl Sphere {
    /// The coefficients `(a, b, c)` of the quadratic `a*t*t + b*t + c` that
    /// vanishes where the point `r.p + t * r.dir` lies on the sphere.
    pub open spec fn quadratic(self, r: Ray) -> (Scalar, Scalar, Scalar) {
        let from_center = self.center.vector_to_spec(r.p);
        (
            r.dir.dot_spec(r.dir),
            Scalar::two_spec().mul_spec(from_center.dot_spec(r.dir)),
            from_center.dot_spec(from_center).sub_spec(self.radius.mul_spec(self.radius)),
        )
    }

    /// The discriminant `b*b - 4*a*c` of that quadratic.
    pub open spec fn discriminant(self, r: Ray) -> Scalar {
        let (a, b, c) = self.quadratic(r);
        b.mul_spec(b).sub_spec(Scalar::four_spec().mul_spec(a).mul_spec(c))
    }

    /// The two roots `(-b - root) / 2a` and `(-b + root) / 2a`, where `root`
    /// is the square root of the discriminant.
    pub open spec fn roots(self, r: Ray) -> (Scalar, Scalar) {
        let (a, b, c) = self.quadratic(r);
        let root = self.discriminant(r).sqrt_spec();
        let twice_a = Scalar::two_spec().mul_spec(a);
        (
            b.neg_spec().sub_spec(root).div_spec(twice_a),
            b.neg_spec().add_spec(root).div_spec(twice_a),
        )
    }

    /// The nearest point in front of the ray's origin where the ray meets
    /// the sphere. There is none when the discriminant is below zero or a
    /// NaN, and none when no root is visible.
    pub open spec fn intersection_spec(self, r: Ray) -> Option<Point> {
        if Scalar::zero_spec().le_spec(self.discriminant(r)) {
            let (t1, t2) = self.roots(r);
            match nearest_root_spec(t1, t2) {
                Some(t) => Some(r.p.translate_spec(r.dir.scale_spec(t))),
                None => None,
            }
        } else {
            None
        }
    }

    /// The unit vector from the centre to `p`.
    pub open spec fn normal_at_spec(self, p: Point) -> Vector {
        self.center.vector_to_spec(p).normalize_spec()
    }

    /// Where the ray first meets the sphere, if it does. The square root is
    /// taken only of a discriminant that is at least zero.
    pub fn intersection(&self, r: &Ray) -> (hit: Option<Point>)
        ensures
            hit == self.intersection_spec(*r),
            !Scalar::zero_spec().le_spec(self.discriminant(*r)) ==> hit is None,
    {
        let from_center = self.center.vector_to(&r.p);
        let a = r.dir.dot(&r.dir);
        let b = Scalar::two().mul(from_center.dot(&r.dir));
        let c = from_center.dot(&from_center).sub(self.radius.mul(self.radius));
        let delta = b.mul(b).sub(Scalar::four().mul(a).mul(c));
        if !delta.ge(Scalar::zero()) {
            return None;
        }
        let root = delta.sqrt();
        let twice_a = Scalar::two().mul(a);
        let t1 = b.neg().sub(root).div(twice_a);
        let t2 = b.neg().add(root).div(twice_a);
        match nearest_root(t1, t2) {
            Some(t) => Some(r.p.translate(&r.dir.scale(t))),
            None => None,
        }
    }

    /// A hit lies on the ray and ahead of its origin: the discriminant is at
    /// least zero, and the hit is `r.p + t * r.dir` for one of the two roots
    /// `t`, which is at least zero.
    pub proof fn lemma_hit_lies_ahead(self, r: Ray)
        requires
            self.intersection_spec(r) is Some,
        ensures
            Scalar::zero_spec().le_spec(self.discriminant(r)),
            exists|t: Scalar|
                Scalar::zero_spec().le_spec(t) && (t == self.roots(r).0 || t == self.roots(r).1)
                    && self.intersection_spec(r) == Some(
                    r.p.translate_spec(#[trigger] r.dir.scale_spec(t)),
                ),
    {
        let (t1, t2) = self.roots(r);
        let t = nearest_root_spec(t1, t2).unwrap();
        assert(self.intersection_spec(r) == Some(r.p.translate_spec(r.dir.scale_spec(t))));
    }

    /// The outward unit normal at `p`, taken to lie on the sphere; this is
    /// not checked. The centre itself has no normal and is not accepted.
    pub fn normal_at(&self, p: &Point) -> (n: Vector)
        requires
            !self.center.vector_to_spec(*p).len_spec().is_zero_spec(),
        ensures
            n == self.normal_at_spec(*p),
    {
        self.center.vector_to(p).normalize()
    }

    /// The outward unit normal at `p`, or `None` exactly when `p` is so
    /// close to the centre that their distance is zero.
    pub fn try_normal_at(&self, p: &Point) -> (r: Option<Vector>)
        ensures
            r == (if self.center.vector_to_spec(*p).len_spec().is_zero_spec() {
                None
            } else {
                Some(self.normal_at_spec(*p))
            }),
    {
        if self.center.vector_to(p).len().is_zero() {
            None
        } else {
            Some(self.normal_at(p))
        }
    }
}

} // verus!
