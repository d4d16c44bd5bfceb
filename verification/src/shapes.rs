//! The shape kinds a scene is made of, and their ray intersection tests.
use vstd::prelude::*;

verus! {

use crate::Ray;
use crate::vec3::{
    BaseVector,
    MUL_BOUND,
    NormalizedVector,
    Point,
    Vector,
    SCALE,
    WORLD,
    sqrt_floor,
    isqrt_i128,
    div_floor,
    lemma_mul_mag,
    lemma_div_shrink,
    lemma_div_mag,
};

/// The smallest distance at which an intersection counts, so that a
/// scattered ray does not immediately hit the surface it left.
pub const MIN_DISTANCE: i64 = 66;

/// Hits farther than this along the ray are discarded.
pub const T_LIMIT: i64 = 0x100_0000_0000;

/// Whether an executable hit result agrees with a specification-level one.
pub open spec fn hit_matches(r: Option<i64>, s: Option<int>) -> bool {
    match r {
        Some(t) => s == Some(t as int),
        None => s is None,
    }
}

/// Something a ray can hit.
pub trait Intersects: Sized {
    /// The shape's internal invariant.
    spec fn wf(self) -> bool;

    /// The distance at which `ray` first hits the shape, if it does.
    spec fn hit_spec(self, ray: Ray) -> Option<int>;

    /// The time at which the ray intersects the object.
    fn intersects(&self, ray: &Ray) -> (r: Option<i64>)
        requires
            self.wf(),
            ray.wf(),
        ensures
            hit_matches(r, self.hit_spec(*ray)),
            r matches Some(t) ==> MIN_DISTANCE < t <= T_LIMIT,
    ;
}

/// A shape the bounding volume hierarchy can organize: it can be hit, it
/// has bounds and a centroid, and it refers to a material.
pub trait Shape: Intersects {
    /// The centroid used to choose partition planes.
    spec fn centroid_spec(self) -> Point;

    /// The lower corner of the shape's bounding box.
    spec fn min_spec(self) -> Point;

    /// The upper corner of the shape's bounding box.
    spec fn max_spec(self) -> Point;

    /// The material this shape is shaded with.
    spec fn material_spec(self) -> usize;

    fn centroid(&self) -> (r: Point)
        requires
            self.wf(),
        ensures
            r == self.centroid_spec(),
            r.in_world(),
    ;

    /// The minimum point of the AABB enclosing the shape.
    fn min(&self) -> (r: Point)
        requires
            self.wf(),
        ensures
            r == self.min_spec(),
            r.in_world(),
    ;

    /// The maximum point of the AABB enclosing the shape.
    fn max(&self) -> (r: Point)
        requires
            self.wf(),
        ensures
            r == self.max_spec(),
            r.in_world(),
    ;

    fn material_index(&self) -> (r: usize)
        ensures
            r == self.material_spec(),
    ;
}

/// A sphere: a center, a radius, and a material.
#[derive(Clone, Copy, PartialEq, Eq, Structural, Debug)]
pub struct Sphere {
    pub center: Point,
    pub radius: i64,
    pub material_index: usize,
}

impl Sphere {
    pub fn new(center: Point, radius: i64, material_index: usize) -> (r: Self)
        ensures
            r == (Sphere { center, radius, material_index }),
    {
        Sphere { center, radius, material_index }
    }

    /// The quadratic coefficients of the hit equation, over the offset from
    /// the sphere's center to the ray origin.
    pub open spec fn quadratic(self, ray: Ray) -> (int, int, int) {
        let delta = BaseVector {
            x: (ray.origin.x - self.center.x) as i64,
            y: (ray.origin.y - self.center.y) as i64,
            z: (ray.origin.z - self.center.z) as i64,
        };
        let a = ray.direction.dot_spec(ray.direction);
        let b = delta.dot_spec(ray.direction);
        let c = delta.dot_spec(delta) - self.radius * self.radius;
        (a, b, c)
    }
}

impl Intersects for Sphere {
    open spec fn wf(self) -> bool {
        0 <= self.radius <= WORLD && -WORLD <= self.center.x - self.radius && self.center.x
            + self.radius <= WORLD && -WORLD <= self.center.y - self.radius && self.center.y
            + self.radius <= WORLD && -WORLD <= self.center.z - self.radius && self.center.z
            + self.radius <= WORLD
    }

    open spec fn hit_spec(self, ray: Ray) -> Option<int> {
        let (a, b, c) = self.quadratic(ray);
        let disc = b * b - a * c;
        if disc < 0 {
            None
        } else {
            let root = sqrt_floor(disc);
            let t1 = (-b - root) * SCALE / a;
            if MIN_DISTANCE < t1 <= T_LIMIT {
                Some(t1)
            } else {
                let t2 = (-b + root) * SCALE / a;
                if MIN_DISTANCE < t2 <= T_LIMIT {
                    Some(t2)
                } else {
                    None
                }
            }
        }
    }

    fn intersects(&self, ray: &Ray) -> (r: Option<i64>) {
        let delta = ray.origin.sub(self.center);
        let a = ray.direction.dot(ray.direction);
        let b = delta.dot(ray.direction);
        proof {
            lemma_mul_mag(delta.x as int, ray.direction.x as int, 0x4000_0000, 0x2_0000);
            lemma_mul_mag(delta.y as int, ray.direction.y as int, 0x4000_0000, 0x2_0000);
            lemma_mul_mag(delta.z as int, ray.direction.z as int, 0x4000_0000, 0x2_0000);
            lemma_mul_mag(delta.x as int, delta.x as int, 0x4000_0000, 0x4000_0000);
            lemma_mul_mag(delta.y as int, delta.y as int, 0x4000_0000, 0x4000_0000);
            lemma_mul_mag(delta.z as int, delta.z as int, 0x4000_0000, 0x4000_0000);
            lemma_mul_mag(ray.direction.x as int, ray.direction.x as int, 0x2_0000, 0x2_0000);
            lemma_mul_mag(ray.direction.y as int, ray.direction.y as int, 0x2_0000, 0x2_0000);
            lemma_mul_mag(ray.direction.z as int, ray.direction.z as int, 0x2_0000, 0x2_0000);
            lemma_mul_mag(self.radius as int, self.radius as int, WORLD as int, WORLD as int);
        }
        let c = delta.dot(delta) - (self.radius as i128) * (self.radius as i128);
        proof {
            lemma_mul_mag(b as int, b as int, 0x8_0000_0000_0000, 0x8_0000_0000_0000);
            lemma_mul_mag(a as int, c as int, 0xC_0000_0000, 0x4_0000_0000_0000_0000);
        }
        let disc = b * b - a * c;
        if disc < 0 {
            return None;
        }
        let root = isqrt_i128(disc);
        proof {
            lemma_sphere_root_bound(b as int, root as int, disc as int);
            lemma_mul_mag(
                -(b as int) - root as int,
                SCALE as int,
                0x20_0000_0000_0000,
                SCALE as int,
            );
            lemma_mul_mag(
                -(b as int) + root as int,
                SCALE as int,
                0x20_0000_0000_0000,
                SCALE as int,
            );
        }
        let num1 = (-b - root) * (SCALE as i128);
        let num2 = (-b + root) * (SCALE as i128);
        proof {
            lemma_t_fits(num1 as int, a as int);
            lemma_t_fits(num2 as int, a as int);
        }
        let t1 = div_floor(num1, a) as i64;
        if MIN_DISTANCE < t1 && t1 <= T_LIMIT {
            return Some(t1);
        }
        let t2 = div_floor(num2, a) as i64;
        if MIN_DISTANCE < t2 && t2 <= T_LIMIT {
            return Some(t2);
        }
        None
    }
}

/// Bounds `-b` plus or minus the root of the discriminant.
proof fn lemma_sphere_root_bound(b: int, root: int, disc: int)
    requires
        -(0x8_0000_0000_0000) <= b <= 0x8_0000_0000_0000,
        0 <= root,
        root * root <= disc,
        disc <= 0x10_0000_0000_0000 * 0x10_0000_0000_0000,
    ensures
        -(0x20_0000_0000_0000) <= -b - root <= 0x20_0000_0000_0000,
        -(0x20_0000_0000_0000) <= -b + root <= 0x20_0000_0000_0000,
{
    assert(root <= 0x10_0000_0000_0000) by (nonlinear_arith)
        requires
            0 <= root,
            root * root <= disc,
            disc <= 0x10_0000_0000_0000 * 0x10_0000_0000_0000,
    ;
}

/// A numerator of a hit distance divided by a near-unit direction length
/// fits in the distance range.
proof fn lemma_t_fits(num: int, a: int)
    requires
        (SCALE as int * SCALE as int) / 4 <= a,
        -(0x20_0000_0000_0000 * SCALE) <= num <= 0x20_0000_0000_0000 * SCALE,
    ensures
        -(0x80_0000_0000) <= num / a <= 0x80_0000_0000,
{
    assert(-(0x80_0000_0000 * a) <= num <= 0x80_0000_0000 * a) by (nonlinear_arith)
        requires
            (SCALE as int * SCALE as int) / 4 <= a,
            -(0x20_0000_0000_0000 * SCALE) <= num <= 0x20_0000_0000_0000 * SCALE,
    ;
    lemma_div_shrink(num, a, 0x80_0000_0000);
}

impl Sphere {
    /// The outward surface normal at `point`, and planar texture
    /// coordinates derived from the normal's first two components. The
    /// classical spherical mapping takes inverse trigonometry, which has
    /// no place in this fixed-point model, so the planar mapping stands in
    /// for it.
    pub fn normal_and_texture_coordinates(&self, point: &Point) -> (r: (NormalizedVector, [i64; 2]))
        requires
            self.wf(),
            point.in_world(),
            ({
                let d = BaseVector {
                    x: (point.x - self.center.x) as i64,
                    y: (point.y - self.center.y) as i64,
                    z: (point.z - self.center.z) as i64,
                };
                d.dot_spec(d) > 0
            }),
        ensures
            ({
                let d = BaseVector {
                    x: (point.x - self.center.x) as i64,
                    y: (point.y - self.center.y) as i64,
                    z: (point.z - self.center.z) as i64,
                };
                r.0 == d.normalize_spec() && r.1[0] == (r.0.x + SCALE) / 2 && r.1[1] == (r.0.y
                    + SCALE) / 2
            }),
    {
        let delta = point.sub(self.center);
        let n = delta.normalize();
        let u = (n.x + SCALE) / 2;
        let v = (n.y + SCALE) / 2;
        (n, [u, v])
    }
}

impl Shape for Sphere {
    open spec fn centroid_spec(self) -> Point {
        self.center
    }

    open spec fn min_spec(self) -> Point {
        BaseVector {
            x: (self.center.x - self.radius) as i64,
            y: (self.center.y - self.radius) as i64,
            z: (self.center.z - self.radius) as i64,
        }
    }

    open spec fn max_spec(self) -> Point {
        BaseVector {
            x: (self.center.x + self.radius) as i64,
            y: (self.center.y + self.radius) as i64,
            z: (self.center.z + self.radius) as i64,
        }
    }

    open spec fn material_spec(self) -> usize {
        self.material_index
    }

    fn centroid(&self) -> (r: Point) {
        self.center
    }

    fn min(&self) -> (r: Point) {
        BaseVector {
            x: self.center.x - self.radius,
            y: self.center.y - self.radius,
            z: self.center.z - self.radius,
        }
    }

    fn max(&self) -> (r: Point) {
        BaseVector {
            x: self.center.x + self.radius,
            y: self.center.y + self.radius,
            z: self.center.z + self.radius,
        }
    }

    fn material_index(&self) -> (r: usize) {
        self.material_index
    }
}

/// Below this magnitude of the denominator a ray counts as parallel to a
/// plane.
pub const PARALLEL_TOLERANCE: i64 = 16;

/// An infinite plane: a point on it, its normal, and a material.
#[derive(Clone, Copy, PartialEq, Eq, Structural, Debug)]
pub struct Plane {
    pub point: Point,
    pub normal: NormalizedVector,
    pub material_index: usize,
}

impl Plane {
    pub fn new(point: Point, normal: NormalizedVector, material_index: usize) -> (r: Self)
        ensures
            r == (Plane { point, normal, material_index }),
    {
        Plane { point, normal, material_index }
    }

    /// The offset from the plane's reference point to the ray origin.
    pub open spec fn delta_spec(self, ray: Ray) -> Vector {
        BaseVector {
            x: (ray.origin.x - self.point.x) as i64,
            y: (ray.origin.y - self.point.y) as i64,
            z: (ray.origin.z - self.point.z) as i64,
        }
    }

    /// The plane's normal, and texture coordinates that tile every five
    /// units along the x and y axes.
    pub fn normal_and_texture_coordinates(&self, point: &Point) -> (r: (NormalizedVector, [i64; 2]))
        requires
            self.wf(),
            point.in_world(),
        ensures
            r.0 == self.normal,
            r.1[0] == (point.x - self.point.x) % (5 * SCALE),
            r.1[1] == (point.y - self.point.y) % (5 * SCALE),
    {
        let u = rem_euclid(point.x - self.point.x, 5 * SCALE);
        let v = rem_euclid(point.y - self.point.y, 5 * SCALE);
        (self.normal, [u, v])
    }
}

/// The remainder of `a` by a positive `m`, always in `0..m`, matching `%`
/// of the specification language.
pub fn rem_euclid(a: i64, m: i64) -> (r: i64)
    requires
        m > 0,
    ensures
        r == a as int % m as int,
{
    proof {
        lemma_div_mag(a as int, m as int, 0x8000_0000_0000_0000);
        vstd::arithmetic::div_mod::lemma_fundamental_div_mod(a as int, m as int);
    }
    let q = div_floor(a as i128, m as i128);
    (a as i128 - q * m as i128) as i64
}

impl Intersects for Plane {
    open spec fn wf(self) -> bool {
        self.point.in_world() && self.normal.bounded_spec(2 * SCALE as int)
    }

    open spec fn hit_spec(self, ray: Ray) -> Option<int> {
        let denom = self.normal.dot_spec(ray.direction);
        if -PARALLEL_TOLERANCE < denom < PARALLEL_TOLERANCE {
            None
        } else {
            let num = self.normal.dot_spec(self.delta_spec(ray));
            let t = if denom > 0 {
                (-num * SCALE) / denom
            } else {
                (num * SCALE) / (-denom)
            };
            if MIN_DISTANCE < t <= T_LIMIT {
                Some(t)
            } else {
                None
            }
        }
    }

    fn intersects(&self, ray: &Ray) -> (r: Option<i64>) {
        let denom = self.normal.dot(ray.direction);
        if -(PARALLEL_TOLERANCE as i128) < denom && denom < PARALLEL_TOLERANCE as i128 {
            return None;
        }
        let delta = ray.origin.sub(self.point);
        let num = self.normal.dot(delta);
        proof {
            lemma_mul_mag(self.normal.x as int, ray.direction.x as int, 0x2_0000, 0x2_0000);
            lemma_mul_mag(self.normal.y as int, ray.direction.y as int, 0x2_0000, 0x2_0000);
            lemma_mul_mag(self.normal.z as int, ray.direction.z as int, 0x2_0000, 0x2_0000);
            lemma_mul_mag(self.normal.x as int, delta.x as int, 0x2_0000, 0x4000_0000);
            lemma_mul_mag(self.normal.y as int, delta.y as int, 0x2_0000, 0x4000_0000);
            lemma_mul_mag(self.normal.z as int, delta.z as int, 0x2_0000, 0x4000_0000);
            lemma_mul_mag(-(num as int), SCALE as int, 0x1_8000_0000_0000, SCALE as int);
            lemma_mul_mag(num as int, SCALE as int, 0x1_8000_0000_0000, SCALE as int);
        }
        let t = if denom > 0 {
            div_floor(-num * SCALE as i128, denom)
        } else {
            div_floor(num * SCALE as i128, -denom)
        };
        if (MIN_DISTANCE as i128) < t && t <= T_LIMIT as i128 {
            Some(t as i64)
        } else {
            None
        }
    }
}

impl Shape for Plane {
    open spec fn centroid_spec(self) -> Point {
        self.point
    }

    open spec fn min_spec(self) -> Point {
        BaseVector { x: (-WORLD) as i64, y: (-WORLD) as i64, z: (-WORLD) as i64 }
    }

    open spec fn max_spec(self) -> Point {
        BaseVector { x: WORLD, y: WORLD, z: WORLD }
    }

    open spec fn material_spec(self) -> usize {
        self.material_index
    }

    fn centroid(&self) -> (r: Point) {
        self.point
    }

    fn min(&self) -> (r: Point) {
        BaseVector { x: -WORLD, y: -WORLD, z: -WORLD }
    }

    fn max(&self) -> (r: Point) {
        BaseVector { x: WORLD, y: WORLD, z: WORLD }
    }

    fn material_index(&self) -> (r: usize) {
        self.material_index
    }
}

/// Below this magnitude of the determinant a ray counts as parallel to a
/// triangle.
pub const TRIANGLE_TOLERANCE: i64 = 536870912;

/// Precomputed dot products of a triangle's edges, for barycentric
/// coordinates: `d00 = e1*e1`, `d01 = e1*e2`, `d11 = e2*e2`, and the
/// denominator `d00*d11 - d01*d01`.
#[derive(Clone, Copy, Debug)]
pub struct Barycentric {
    pub d00: i64,
    pub d01: i64,
    pub d11: i64,
    pub denominator: i128,
}

impl Barycentric {
    /// Bounds under which barycentric interpolation stays exact.
    pub open spec fn wf(self) -> bool {
        -0x4000_0000_0000_0000 <= self.d00 <= 0x4000_0000_0000_0000 && -0x4000_0000_0000_0000
            <= self.d01 <= 0x4000_0000_0000_0000 && -0x4000_0000_0000_0000 <= self.d11
            <= 0x4000_0000_0000_0000 && SCALE <= self.denominator <= MUL_BOUND as i128 * MUL_BOUND as i128
    }
}

/// Which per-vertex data a triangle carries: vertex normals, texture
/// coordinates, both, or neither.
#[derive(Clone, Copy, Debug)]
pub enum NormalsTextureCoordinates {
    Both {
        normals: [NormalizedVector; 3],
        texture_coordinates: [[i64; 2]; 3],
        barycentric: Barycentric,
    },
    Normals { normals: [NormalizedVector; 3], barycentric: Barycentric },
    TextureCoordinates { texture_coordinates: [[i64; 2]; 3], barycentric: Barycentric },
    Neither,
}

impl NormalsTextureCoordinates {
    pub open spec fn wf(self) -> bool {
        match self {
            NormalsTextureCoordinates::Both { normals, texture_coordinates, barycentric } =>
                barycentric.wf() && normals[0].bounded_spec(2 * SCALE as int)
                && normals[1].bounded_spec(2 * SCALE as int) && normals[2].bounded_spec(
                2 * SCALE as int,
            ) && tc_bounded(texture_coordinates),
            NormalsTextureCoordinates::Normals { normals, barycentric } => barycentric.wf()
                && normals[0].bounded_spec(2 * SCALE as int) && normals[1].bounded_spec(
                2 * SCALE as int,
            ) && normals[2].bounded_spec(2 * SCALE as int),
            NormalsTextureCoordinates::TextureCoordinates { texture_coordinates, barycentric } =>
                barycentric.wf() && tc_bounded(texture_coordinates),
            NormalsTextureCoordinates::Neither => true,
        }
    }
}

/// Whether every texture coordinate is a world-sized value.
pub open spec fn tc_bounded(tc: [[i64; 2]; 3]) -> bool {
    forall|k: int, j: int|
        0 <= k < 3 && 0 <= j < 2 ==> -WORLD <= #[trigger] tc[k][j] <= WORLD
}

/// Clamping to an interval, as a specification value.
pub open spec fn clamp_spec(x: int, lo: int, hi: int) -> int {
    if x < lo {
        lo
    } else if x > hi {
        hi
    } else {
        x
    }
}

/// A triangle: a corner, the two edges leaving it, optional per-vertex
/// data, and a material.
#[derive(Clone, Copy, Debug)]
pub struct Triangle {
    pub a: Point,
    /// The edge from a to b
    pub e1: Vector,
    /// The edge from a to c
    pub e2: Vector,
    pub normals_texture_coordinates: NormalsTextureCoordinates,
    pub material_index: usize,
}

impl Triangle {
    pub fn new(
        a: Point,
        b: Point,
        c: Point,
        normals_texture_coordinates: NormalsTextureCoordinates,
        material_index: usize,
    ) -> (r: Self)
        requires
            a.in_world(),
            b.in_world(),
            c.in_world(),
        ensures
            r.a == a,
            r.e1.x == b.x - a.x && r.e1.y == b.y - a.y && r.e1.z == b.z - a.z,
            r.e2.x == c.x - a.x && r.e2.y == c.y - a.y && r.e2.z == c.z - a.z,
            r.normals_texture_coordinates == normals_texture_coordinates,
            r.material_index == material_index,
    {
        Triangle {
            a,
            e1: b.sub(a),
            e2: c.sub(a),
            normals_texture_coordinates,
            material_index,
        }
    }

    /// The barycentric coordinates `[u, v, w]` of `point`, scaled by
    /// `SCALE`; `v` and `w` are clamped to `0..=SCALE`.
    pub open spec fn barycentric_spec(self, p: Point, b: Barycentric) -> (int, int, int) {
        let apx = p.x - self.a.x;
        let apy = p.y - self.a.y;
        let apz = p.z - self.a.z;
        let d20 = apx * self.e1.x + apy * self.e1.y + apz * self.e1.z;
        let d21 = apx * self.e2.x + apy * self.e2.y + apz * self.e2.z;
        let dv = (b.denominator as int) / (SCALE as int);
        let v = clamp_spec((b.d11 * d20 - b.d01 * d21) / dv, 0, SCALE as int);
        let w = clamp_spec((b.d00 * d21 - b.d01 * d20) / dv, 0, SCALE as int);
        (SCALE - v - w, v, w)
    }

    /// Computes the barycentric coordinates of `point` against the
    /// precomputed edge products.
    pub fn barycentric_coordinates(&self, point: &Point, b: Barycentric) -> (r: [i64; 3])
        requires
            self.wf(),
            point.in_world(),
            b.wf(),
        ensures
            ({
                let (u, v, w) = self.barycentric_spec(*point, b);
                r[0] == u && r[1] == v && r[2] == w
            }),
    {
        let ap = point.sub(self.a);
        let d20 = ap.dot(self.e1);
        let d21 = ap.dot(self.e2);
        proof {
            lemma_mul_mag(ap.x as int, self.e1.x as int, 0x4000_0000, 0x4000_0000);
            lemma_mul_mag(ap.y as int, self.e1.y as int, 0x4000_0000, 0x4000_0000);
            lemma_mul_mag(ap.z as int, self.e1.z as int, 0x4000_0000, 0x4000_0000);
            lemma_mul_mag(ap.x as int, self.e2.x as int, 0x4000_0000, 0x4000_0000);
            lemma_mul_mag(ap.y as int, self.e2.y as int, 0x4000_0000, 0x4000_0000);
            lemma_mul_mag(ap.z as int, self.e2.z as int, 0x4000_0000, 0x4000_0000);
            lemma_mul_mag(
                b.d11 as int,
                d20 as int,
                0x4000_0000_0000_0000,
                0x4000_0000_0000_0000,
            );
            lemma_mul_mag(
                b.d01 as int,
                d21 as int,
                0x4000_0000_0000_0000,
                0x4000_0000_0000_0000,
            );
            lemma_mul_mag(
                b.d00 as int,
                d21 as int,
                0x4000_0000_0000_0000,
                0x4000_0000_0000_0000,
            );
            lemma_mul_mag(
                b.d01 as int,
                d20 as int,
                0x4000_0000_0000_0000,
                0x4000_0000_0000_0000,
            );
            vstd::arithmetic::div_mod::lemma_div_is_ordered(
                SCALE as int,
                b.denominator as int,
                SCALE as int,
            );
        }
        let dv = div_floor(b.denominator, SCALE as i128);
        let v = clamp_to_unit(div_floor(b.d11 as i128 * d20 - b.d01 as i128 * d21, dv));
        let w = clamp_to_unit(div_floor(b.d00 as i128 * d21 - b.d01 as i128 * d20, dv));
        [SCALE - v - w, v, w]
    }

    /// The triangle's geometric normal: the normalized cross product of its
    /// edges.
    pub open spec fn default_normal_spec(self) -> NormalizedVector {
        self.e1.cross_spec(self.e2).normalize_spec()
    }

    /// The shading normal at a point: vertex normals blended by barycentric
    /// weight where the triangle carries them and the blend does not vanish,
    /// the geometric normal otherwise.
    pub open spec fn normal_spec(self, p: Point) -> NormalizedVector {
        match self.normals_texture_coordinates {
            NormalsTextureCoordinates::Both { normals, barycentric, .. } => self.blended_normal(
                normals,
                barycentric,
                p,
            ),
            NormalsTextureCoordinates::Normals { normals, barycentric } => self.blended_normal(
                normals,
                barycentric,
                p,
            ),
            _ => self.default_normal_spec(),
        }
    }

    /// One component blend of three values by the barycentric weights.
    pub open spec fn blend(c0: int, c1: int, c2: int, u: int, v: int, w: int) -> int {
        (c0 * u + c1 * v + c2 * w) / (SCALE as int)
    }

    /// The blended vertex normal, or the geometric normal when the blend
    /// vanishes.
    pub open spec fn blended_normal(
        self,
        normals: [NormalizedVector; 3],
        b: Barycentric,
        p: Point,
    ) -> NormalizedVector {
        let (u, v, w) = self.barycentric_spec(p, b);
        let m = BaseVector {
            x: Self::blend(normals[0].x as int, normals[1].x as int, normals[2].x as int, u, v, w)
                as i64,
            y: Self::blend(normals[0].y as int, normals[1].y as int, normals[2].y as int, u, v, w)
                as i64,
            z: Self::blend(normals[0].z as int, normals[1].z as int, normals[2].z as int, u, v, w)
                as i64,
        };
        if m.dot_spec(m) > 0 {
            m.normalize_spec()
        } else {
            self.default_normal_spec()
        }
    }

    /// The texture coordinates at a point: per-vertex coordinates blended
    /// by barycentric weight where present, zero otherwise.
    pub open spec fn texture_spec(self, p: Point) -> (int, int) {
        match self.normals_texture_coordinates {
            NormalsTextureCoordinates::Both { texture_coordinates, barycentric, .. } =>
                self.blended_texture(texture_coordinates, barycentric, p),
            NormalsTextureCoordinates::TextureCoordinates { texture_coordinates, barycentric } =>
                self.blended_texture(texture_coordinates, barycentric, p),
            _ => (0, 0),
        }
    }

    pub open spec fn blended_texture(self, tc: [[i64; 2]; 3], b: Barycentric, p: Point) -> (
        int,
        int,
    ) {
        let (u, v, w) = self.barycentric_spec(p, b);
        (
            Self::blend(tc[0][0] as int, tc[1][0] as int, tc[2][0] as int, u, v, w),
            Self::blend(tc[0][1] as int, tc[1][1] as int, tc[2][1] as int, u, v, w),
        )
    }

    /// The shading normal and texture coordinates at `point`.
    pub fn normal_and_texture_coordinates(&self, point: &Point) -> (r: (NormalizedVector, [i64; 2]))
        requires
            self.wf(),
            point.in_world(),
        ensures
            r.0 == self.normal_spec(*point),
            ({
                let (tu, tv) = self.texture_spec(*point);
                r.1[0] == tu && r.1[1] == tv
            }),
    {
        let (normals, texture_coordinates, barycentric): (
            Option<[NormalizedVector; 3]>,
            Option<[[i64; 2]; 3]>,
            Option<Barycentric>,
        ) = match &self.normals_texture_coordinates {
            NormalsTextureCoordinates::Both { normals, texture_coordinates, barycentric } => (
                Some(*normals),
                Some(*texture_coordinates),
                Some(*barycentric),
            ),
            NormalsTextureCoordinates::Normals { normals, barycentric } => (
                Some(*normals),
                None,
                Some(*barycentric),
            ),
            NormalsTextureCoordinates::TextureCoordinates { texture_coordinates, barycentric } => (
                None,
                Some(*texture_coordinates),
                Some(*barycentric),
            ),
            NormalsTextureCoordinates::Neither => (None, None, None),
        };
        let bary: [i64; 3] = match barycentric {
            Some(b) => self.barycentric_coordinates(point, b),
            None => [SCALE, 0, 0],
        };
        let normal = match normals {
            Some(ns) => {
                let m = Self::blend_exec(ns[0], ns[1], ns[2], bary);
                let nz = m.length_squared();
                if nz > 0 {
                    m.normalize()
                } else {
                    self.default_normal()
                }
            },
            None => self.default_normal(),
        };
        let uv: [i64; 2] = match texture_coordinates {
            Some(tc) => {
                let b = Self::blend_exec(
                    BaseVector { x: tc[0][0], y: tc[0][1], z: 0 },
                    BaseVector { x: tc[1][0], y: tc[1][1], z: 0 },
                    BaseVector { x: tc[2][0], y: tc[2][1], z: 0 },
                    bary,
                );
                [b.x, b.y]
            },
            None => [0, 0],
        };
        (normal, uv)
    }

    /// Blends three vectors by barycentric weights, component-wise.
    fn blend_exec(c0: BaseVector, c1: BaseVector, c2: BaseVector, bary: [i64; 3]) -> (r:
        BaseVector)
        requires
            c0.bounded_spec(WORLD as int),
            c1.bounded_spec(WORLD as int),
            c2.bounded_spec(WORLD as int),
            -2 * SCALE <= bary[0] <= 2 * SCALE,
            0 <= bary[1] <= SCALE,
            0 <= bary[2] <= SCALE,
        ensures
            r.x == Self::blend(
                c0.x as int,
                c1.x as int,
                c2.x as int,
                bary[0] as int,
                bary[1] as int,
                bary[2] as int,
            ),
            r.y == Self::blend(
                c0.y as int,
                c1.y as int,
                c2.y as int,
                bary[0] as int,
                bary[1] as int,
                bary[2] as int,
            ),
            r.z == Self::blend(
                c0.z as int,
                c1.z as int,
                c2.z as int,
                bary[0] as int,
                bary[1] as int,
                bary[2] as int,
            ),
            r.bounded_spec(4 * WORLD as int),
    {
        proof {
            lemma_mul_mag(c0.x as int, bary[0] as int, WORLD as int, 2 * SCALE as int);
            lemma_mul_mag(c1.x as int, bary[1] as int, WORLD as int, 2 * SCALE as int);
            lemma_mul_mag(c2.x as int, bary[2] as int, WORLD as int, 2 * SCALE as int);
            lemma_mul_mag(c0.y as int, bary[0] as int, WORLD as int, 2 * SCALE as int);
            lemma_mul_mag(c1.y as int, bary[1] as int, WORLD as int, 2 * SCALE as int);
            lemma_mul_mag(c2.y as int, bary[2] as int, WORLD as int, 2 * SCALE as int);
            lemma_mul_mag(c0.z as int, bary[0] as int, WORLD as int, 2 * SCALE as int);
            lemma_mul_mag(c1.z as int, bary[1] as int, WORLD as int, 2 * SCALE as int);
            lemma_mul_mag(c2.z as int, bary[2] as int, WORLD as int, 2 * SCALE as int);
            lemma_blend_fits(c0.x as int, c1.x as int, c2.x as int, bary[0] as int, bary[1] as int, bary[2] as int);
            lemma_blend_fits(c0.y as int, c1.y as int, c2.y as int, bary[0] as int, bary[1] as int, bary[2] as int);
            lemma_blend_fits(c0.z as int, c1.z as int, c2.z as int, bary[0] as int, bary[1] as int, bary[2] as int);
        }
        BaseVector {
            x: div_floor(
                c0.x as i128 * bary[0] as i128 + c1.x as i128 * bary[1] as i128 + c2.x as i128
                    * bary[2] as i128,
                SCALE as i128,
            ) as i64,
            y: div_floor(
                c0.y as i128 * bary[0] as i128 + c1.y as i128 * bary[1] as i128 + c2.y as i128
                    * bary[2] as i128,
                SCALE as i128,
            ) as i64,
            z: div_floor(
                c0.z as i128 * bary[0] as i128 + c1.z as i128 * bary[1] as i128 + c2.z as i128
                    * bary[2] as i128,
                SCALE as i128,
            ) as i64,
        }
    }

    /// The normalized cross product of the triangle's edges.
    pub fn default_normal(&self) -> (r: NormalizedVector)
        requires
            self.wf(),
        ensures
            r == self.default_normal_spec(),
    {
        let c = self.e1.cross(self.e2);
        c.normalize()
    }
}

/// A barycentric blend of world-sized components stays in range.
proof fn lemma_blend_fits(c0: int, c1: int, c2: int, u: int, v: int, w: int)
    requires
        -WORLD <= c0 <= WORLD,
        -WORLD <= c1 <= WORLD,
        -WORLD <= c2 <= WORLD,
        -2 * SCALE <= u <= 2 * SCALE,
        0 <= v <= SCALE,
        0 <= w <= SCALE,
    ensures
        -4 * (WORLD as int) * (SCALE as int) <= c0 * u + c1 * v + c2 * w <= 4 * (WORLD as int) * (
        SCALE as int),
        -4 * (WORLD as int) <= (c0 * u + c1 * v + c2 * w) / (SCALE as int) <= 4 * (WORLD as int),
{
    assert(-4 * (WORLD as int) * (SCALE as int) <= c0 * u + c1 * v + c2 * w <= 4 * (WORLD as int)
        * (SCALE as int)) by (nonlinear_arith)
        requires
            -WORLD <= c0 <= WORLD,
            -WORLD <= c1 <= WORLD,
            -WORLD <= c2 <= WORLD,
            -2 * SCALE <= u <= 2 * SCALE,
            0 <= v <= SCALE,
            0 <= w <= SCALE,
    ;
    lemma_div_shrink(c0 * u + c1 * v + c2 * w, SCALE as int, 4 * (WORLD as int));
}

impl Intersects for Triangle {
    open spec fn wf(self) -> bool {
        self.a.in_world() && -WORLD <= self.a.x + self.e1.x <= WORLD && -WORLD <= self.a.y
            + self.e1.y <= WORLD && -WORLD <= self.a.z + self.e1.z <= WORLD && -WORLD <= self.a.x
            + self.e2.x <= WORLD && -WORLD <= self.a.y + self.e2.y <= WORLD && -WORLD <= self.a.z
            + self.e2.z <= WORLD && self.normals_texture_coordinates.wf() && ({
            let c = self.e1.cross_spec(self.e2);
            c.dot_spec(c) > 0
        })
    }

    open spec fn hit_spec(self, ray: Ray) -> Option<int> {
        let rcx = ray.direction.y * self.e2.z - ray.direction.z * self.e2.y;
        let rcy = ray.direction.z * self.e2.x - ray.direction.x * self.e2.z;
        let rcz = ray.direction.x * self.e2.y - ray.direction.y * self.e2.x;
        let det = self.e1.x * rcx + self.e1.y * rcy + self.e1.z * rcz;
        if -TRIANGLE_TOLERANCE < det < TRIANGLE_TOLERANCE {
            None
        } else {
            let sx = ray.origin.x - self.a.x;
            let sy = ray.origin.y - self.a.y;
            let sz = ray.origin.z - self.a.z;
            let nu = sx * rcx + sy * rcy + sz * rcz;
            let svx = sy * self.e1.z - sz * self.e1.y;
            let svy = sz * self.e1.x - sx * self.e1.z;
            let svz = sx * self.e1.y - sy * self.e1.x;
            let nv = ray.direction.x * svx + ray.direction.y * svy + ray.direction.z * svz;
            let nt = self.e2.x * svx + self.e2.y * svy + self.e2.z * svz;
            let d = if det > 0 {
                det
            } else {
                -det
            };
            let u = if det > 0 {
                nu
            } else {
                -nu
            };
            let v = if det > 0 {
                nv
            } else {
                -nv
            };
            let t = if det > 0 {
                nt
            } else {
                -nt
            };
            if u < 0 || u > d || v < 0 || u + v > d {
                None
            } else {
                let tq = t * SCALE / d;
                if MIN_DISTANCE < tq <= T_LIMIT {
                    Some(tq)
                } else {
                    None
                }
            }
        }
    }

    fn intersects(&self, ray: &Ray) -> (r: Option<i64>) {
        proof {
            lemma_mul_mag(ray.direction.y as int, self.e2.z as int, 0x2_0000, 0x4000_0000);
            lemma_mul_mag(ray.direction.z as int, self.e2.y as int, 0x2_0000, 0x4000_0000);
            lemma_mul_mag(ray.direction.z as int, self.e2.x as int, 0x2_0000, 0x4000_0000);
            lemma_mul_mag(ray.direction.x as int, self.e2.z as int, 0x2_0000, 0x4000_0000);
            lemma_mul_mag(ray.direction.x as int, self.e2.y as int, 0x2_0000, 0x4000_0000);
            lemma_mul_mag(ray.direction.y as int, self.e2.x as int, 0x2_0000, 0x4000_0000);
        }
        let rcx = ray.direction.y as i128 * self.e2.z as i128 - ray.direction.z as i128
            * self.e2.y as i128;
        let rcy = ray.direction.z as i128 * self.e2.x as i128 - ray.direction.x as i128
            * self.e2.z as i128;
        let rcz = ray.direction.x as i128 * self.e2.y as i128 - ray.direction.y as i128
            * self.e2.x as i128;
        proof {
            lemma_mul_mag(self.e1.x as int, rcx as int, 0x4000_0000, 0x1_0000_0000_0000);
            lemma_mul_mag(self.e1.y as int, rcy as int, 0x4000_0000, 0x1_0000_0000_0000);
            lemma_mul_mag(self.e1.z as int, rcz as int, 0x4000_0000, 0x1_0000_0000_0000);
        }
        let det = self.e1.x as i128 * rcx + self.e1.y as i128 * rcy + self.e1.z as i128 * rcz;
        if -(TRIANGLE_TOLERANCE as i128) < det && det < TRIANGLE_TOLERANCE as i128 {
            return None;
        }
        let s = ray.origin.sub(self.a);
        proof {
            lemma_mul_mag(s.x as int, rcx as int, 0x4000_0000, 0x1_0000_0000_0000);
            lemma_mul_mag(s.y as int, rcy as int, 0x4000_0000, 0x1_0000_0000_0000);
            lemma_mul_mag(s.z as int, rcz as int, 0x4000_0000, 0x1_0000_0000_0000);
            lemma_mul_mag(s.y as int, self.e1.z as int, 0x4000_0000, 0x4000_0000);
            lemma_mul_mag(s.z as int, self.e1.y as int, 0x4000_0000, 0x4000_0000);
            lemma_mul_mag(s.z as int, self.e1.x as int, 0x4000_0000, 0x4000_0000);
            lemma_mul_mag(s.x as int, self.e1.z as int, 0x4000_0000, 0x4000_0000);
            lemma_mul_mag(s.x as int, self.e1.y as int, 0x4000_0000, 0x4000_0000);
            lemma_mul_mag(s.y as int, self.e1.x as int, 0x4000_0000, 0x4000_0000);
        }
        let nu = s.x as i128 * rcx + s.y as i128 * rcy + s.z as i128 * rcz;
        let svx = s.y as i128 * self.e1.z as i128 - s.z as i128 * self.e1.y as i128;
        let svy = s.z as i128 * self.e1.x as i128 - s.x as i128 * self.e1.z as i128;
        let svz = s.x as i128 * self.e1.y as i128 - s.y as i128 * self.e1.x as i128;
        proof {
            lemma_mul_mag(ray.direction.x as int, svx as int, 0x2_0000, 0x2000_0000_0000_0000);
            lemma_mul_mag(ray.direction.y as int, svy as int, 0x2_0000, 0x2000_0000_0000_0000);
            lemma_mul_mag(ray.direction.z as int, svz as int, 0x2_0000, 0x2000_0000_0000_0000);
            lemma_mul_mag(self.e2.x as int, svx as int, 0x4000_0000, 0x2000_0000_0000_0000);
            lemma_mul_mag(self.e2.y as int, svy as int, 0x4000_0000, 0x2000_0000_0000_0000);
            lemma_mul_mag(self.e2.z as int, svz as int, 0x4000_0000, 0x2000_0000_0000_0000);
        }
        let nv = ray.direction.x as i128 * svx + ray.direction.y as i128 * svy
            + ray.direction.z as i128 * svz;
        let nt = self.e2.x as i128 * svx + self.e2.y as i128 * svy + self.e2.z as i128 * svz;
        let d = if det > 0 {
            det
        } else {
            -det
        };
        let u = if det > 0 {
            nu
        } else {
            -nu
        };
        let v = if det > 0 {
            nv
        } else {
            -nv
        };
        let t = if det > 0 {
            nt
        } else {
            -nt
        };
        if u < 0 || u > d || v < 0 || u + v > d {
            return None;
        }
        proof {
            lemma_mul_mag(t as int, SCALE as int, 0x2000_0000_0000_0000_0000_0000, SCALE as int);
        }
        let tq = div_floor(t * SCALE as i128, d);
        if (MIN_DISTANCE as i128) < tq && tq <= T_LIMIT as i128 {
            Some(tq as i64)
        } else {
            None
        }
    }
}

impl Shape for Triangle {
    open spec fn centroid_spec(self) -> Point {
        BaseVector {
            x: (self.a.x + (self.e1.x + self.e2.x) / 3) as i64,
            y: (self.a.y + (self.e1.y + self.e2.y) / 3) as i64,
            z: (self.a.z + (self.e1.z + self.e2.z) / 3) as i64,
        }
    }

    open spec fn min_spec(self) -> Point {
        let b = BaseVector {
            x: (self.a.x + self.e1.x) as i64,
            y: (self.a.y + self.e1.y) as i64,
            z: (self.a.z + self.e1.z) as i64,
        };
        let c = BaseVector {
            x: (self.a.x + self.e2.x) as i64,
            y: (self.a.y + self.e2.y) as i64,
            z: (self.a.z + self.e2.z) as i64,
        };
        self.a.min_spec(b).min_spec(c)
    }

    open spec fn max_spec(self) -> Point {
        let b = BaseVector {
            x: (self.a.x + self.e1.x) as i64,
            y: (self.a.y + self.e1.y) as i64,
            z: (self.a.z + self.e1.z) as i64,
        };
        let c = BaseVector {
            x: (self.a.x + self.e2.x) as i64,
            y: (self.a.y + self.e2.y) as i64,
            z: (self.a.z + self.e2.z) as i64,
        };
        self.a.max_spec(b).max_spec(c)
    }

    open spec fn material_spec(self) -> usize {
        self.material_index
    }

    fn centroid(&self) -> (r: Point) {
        proof {
            lemma_div_mag(self.e1.x as int + self.e2.x as int, 3, 4 * WORLD as int);
            lemma_div_mag(self.e1.y as int + self.e2.y as int, 3, 4 * WORLD as int);
            lemma_div_mag(self.e1.z as int + self.e2.z as int, 3, 4 * WORLD as int);
        }
        BaseVector {
            x: self.a.x + div_floor(self.e1.x as i128 + self.e2.x as i128, 3) as i64,
            y: self.a.y + div_floor(self.e1.y as i128 + self.e2.y as i128, 3) as i64,
            z: self.a.z + div_floor(self.e1.z as i128 + self.e2.z as i128, 3) as i64,
        }
    }

    fn min(&self) -> (r: Point) {
        let b = self.a.add(self.e1);
        let c = self.a.add(self.e2);
        self.a.min(&b).min(&c)
    }

    fn max(&self) -> (r: Point) {
        let b = self.a.add(self.e1);
        let c = self.a.add(self.e2);
        self.a.max(&b).max(&c)
    }

    fn material_index(&self) -> (r: usize) {
        self.material_index
    }
}

/// Every hit a sphere reports lies strictly beyond the minimum distance.
pub proof fn lemma_sphere_hit_positive(s: Sphere, ray: Ray)
    ensures
        s.hit_spec(ray) matches Some(d) ==> MIN_DISTANCE < d <= T_LIMIT,
{
}

/// Every hit a plane reports lies strictly beyond the minimum distance.
pub proof fn lemma_plane_hit_positive(p: Plane, ray: Ray)
    ensures
        p.hit_spec(ray) matches Some(d) ==> MIN_DISTANCE < d <= T_LIMIT,
{
}

/// Every hit a triangle reports lies strictly beyond the minimum distance.
pub proof fn lemma_triangle_hit_positive(t: Triangle, ray: Ray)
    ensures
        t.hit_spec(ray) matches Some(d) ==> MIN_DISTANCE < d <= T_LIMIT,
{
}

/// Clamps a quotient to the unit range `0..=SCALE`.
fn clamp_to_unit(x: i128) -> (r: i64)
    ensures
        r == clamp_spec(x as int, 0, SCALE as int),
{
    if x < 0 {
        0
    } else if x > SCALE as i128 {
        SCALE
    } else {
        x as i64
    }
}

/// Checks the sphere invariant at run time.
pub fn check_sphere(s: &Sphere) -> (r: bool)
    ensures
        r == s.wf(),
{
    s.radius >= 0 && s.radius <= WORLD && (s.center.x as i128) - (s.radius as i128)
        >= -(WORLD as i128) && (s.center.x as i128) + (s.radius as i128) <= WORLD as i128 && (
    s.center.y as i128) - (s.radius as i128) >= -(WORLD as i128) && (s.center.y as i128) + (
    s.radius as i128) <= WORLD as i128 && (s.center.z as i128) - (s.radius as i128)
        >= -(WORLD as i128) && (s.center.z as i128) + (s.radius as i128) <= WORLD as i128
}

/// Checks the plane invariant at run time.
pub fn check_plane(p: &Plane) -> (r: bool)
    ensures
        r == p.wf(),
{
    p.point.x >= -WORLD && p.point.x <= WORLD && p.point.y >= -WORLD && p.point.y <= WORLD
        && p.point.z >= -WORLD && p.point.z <= WORLD && p.normal.x >= -2 * SCALE && p.normal.x <= 2
        * SCALE && p.normal.y >= -2 * SCALE && p.normal.y <= 2 * SCALE && p.normal.z >= -2 * SCALE
        && p.normal.z <= 2 * SCALE
}

/// Checks the triangle invariant at run time.
pub fn check_triangle(t: &Triangle) -> (r: bool)
    ensures
        r == t.wf(),
{
    let corners = t.a.x >= -WORLD && t.a.x <= WORLD && t.a.y >= -WORLD && t.a.y <= WORLD && t.a.z
        >= -WORLD && t.a.z <= WORLD && (t.a.x as i128) + (t.e1.x as i128) >= -(WORLD as i128) && (
    t.a.x as i128) + (t.e1.x as i128) <= WORLD as i128 && (t.a.y as i128) + (t.e1.y as i128)
        >= -(WORLD as i128) && (t.a.y as i128) + (t.e1.y as i128) <= WORLD as i128 && (
    t.a.z as i128) + (t.e1.z as i128) >= -(WORLD as i128) && (t.a.z as i128) + (t.e1.z as i128)
        <= WORLD as i128 && (t.a.x as i128) + (t.e2.x as i128) >= -(WORLD as i128) && (
    t.a.x as i128) + (t.e2.x as i128) <= WORLD as i128 && (t.a.y as i128) + (t.e2.y as i128)
        >= -(WORLD as i128) && (t.a.y as i128) + (t.e2.y as i128) <= WORLD as i128 && (
    t.a.z as i128) + (t.e2.z as i128) >= -(WORLD as i128) && (t.a.z as i128) + (t.e2.z as i128)
        <= WORLD as i128;
    if !corners {
        return false;
    }
    if !check_vertex_data(&t.normals_texture_coordinates) {
        return false;
    }
    let c = t.e1.cross(t.e2);
    let nz = c.dot(c);
    nz > 0
}

/// Checks the per-vertex data invariant at run time.
fn check_vertex_data(ntc: &NormalsTextureCoordinates) -> (r: bool)
    ensures
        r == ntc.wf(),
{
    match ntc {
        NormalsTextureCoordinates::Both { normals, texture_coordinates, barycentric } =>
            check_barycentric(barycentric) && check_normals(normals) && check_tc(
            texture_coordinates,
        ),
        NormalsTextureCoordinates::Normals { normals, barycentric } => check_barycentric(
            barycentric,
        ) && check_normals(normals),
        NormalsTextureCoordinates::TextureCoordinates { texture_coordinates, barycentric } =>
            check_barycentric(barycentric) && check_tc(texture_coordinates),
        NormalsTextureCoordinates::Neither => true,
    }
}

/// Checks the barycentric bounds at run time.
fn check_barycentric(b: &Barycentric) -> (r: bool)
    ensures
        r == b.wf(),
{
    proof {
        lemma_mul_mag(
            MUL_BOUND as int,
            MUL_BOUND as int,
            0x4000_0000_0000_0000,
            0x4000_0000_0000_0000,
        );
    }
    b.d00 >= -0x4000_0000_0000_0000 && b.d00 <= 0x4000_0000_0000_0000 && b.d01
        >= -0x4000_0000_0000_0000 && b.d01 <= 0x4000_0000_0000_0000 && b.d11
        >= -0x4000_0000_0000_0000 && b.d11 <= 0x4000_0000_0000_0000 && b.denominator
        >= SCALE as i128 && b.denominator <= (MUL_BOUND as i128) * (MUL_BOUND as i128)
}

/// Checks the vertex-normal bounds at run time.
fn check_normals(ns: &[NormalizedVector; 3]) -> (r: bool)
    ensures
        r == (ns[0].bounded_spec(2 * SCALE as int) && ns[1].bounded_spec(2 * SCALE as int)
            && ns[2].bounded_spec(2 * SCALE as int)),
{
    let mut ok = true;
    let mut k: usize = 0;
    while k < 3
        invariant
            k <= 3,
            ok == (forall|kk: int|
                0 <= kk < k ==> (#[trigger] ns[kk]).bounded_spec(2 * SCALE as int)),
        decreases 3 - k,
    {
        let n = ns[k];
        let here = n.x >= -2 * SCALE && n.x <= 2 * SCALE && n.y >= -2 * SCALE && n.y <= 2 * SCALE
            && n.z >= -2 * SCALE && n.z <= 2 * SCALE;
        proof {
            if !here {
                assert(!ns[k as int].bounded_spec(2 * SCALE as int));
            }
        }
        ok = ok && here;
        k = k + 1;
    }
    ok
}

/// Checks the texture-coordinate bounds at run time.
fn check_tc(tc: &[[i64; 2]; 3]) -> (r: bool)
    ensures
        r == tc_bounded(*tc),
{
    let mut ok = true;
    let mut k: usize = 0;
    while k < 3
        invariant
            k <= 3,
            ok == (forall|kk: int, j: int|
                0 <= kk < k && 0 <= j < 2 ==> -WORLD <= #[trigger] tc[kk][j] <= WORLD),
        decreases 3 - k,
    {
        let here = tc[k][0] >= -WORLD && tc[k][0] <= WORLD && tc[k][1] >= -WORLD && tc[k][1]
            <= WORLD;
        proof {
            if here {
                assert(forall|j: int|
                    0 <= j < 2 ==> -WORLD <= #[trigger] tc[k as int][j] <= WORLD) by {
                    assert(tc[k as int][0] >= -WORLD && tc[k as int][0] <= WORLD);
                    assert(tc[k as int][1] >= -WORLD && tc[k as int][1] <= WORLD);
                }
            } else {
                assert(!(-WORLD <= tc[k as int][0] <= WORLD) || !(-WORLD <= tc[k as int][1]
                    <= WORLD));
            }
        }
        ok = ok && here;
        k = k + 1;
    }
    ok
}

} // verus!
