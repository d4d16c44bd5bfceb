//! Axis-aligned bounding boxes over fixed-point points.
use vstd::prelude::*;

verus! {

use crate::vec3::{
    BaseVector,
    Point,
    Vector,
    SCALE,
    WORLD,
    sqrt_floor,
    lemma_sqrt_floor_exists,
    lemma_world_dot_bound,
    lemma_square_nonneg,
    lemma_mul_mag,
    lemma_div_shrink,
    div_floor,
    isqrt,
};

/// An axis-aligned bounding box: the corner with the smallest coordinates
/// and the corner with the largest.
#[derive(Clone, Copy, PartialEq, Eq, Structural, Debug)]
pub struct Aabb {
    pub min: Point,
    pub max: Point,
}

impl Aabb {
    /// Whether both corners lie in the world box.
    pub open spec fn in_world(self) -> bool {
        self.min.in_world() && self.max.in_world()
    }

    /// Whether the corners are ordered on every axis.
    pub open spec fn ordered(self) -> bool {
        self.min.x <= self.max.x && self.min.y <= self.max.y && self.min.z <= self.max.z
    }

    /// Whether `point` lies inside the box, boundaries included.
    pub open spec fn contains_spec(self, point: Vector) -> bool {
        self.min.x <= point.x <= self.max.x && self.min.y <= point.y <= self.max.y && self.min.z
            <= point.z <= self.max.z
    }

    /// Whether `other` lies fully inside `self`.
    pub open spec fn encloses(self, other: Aabb) -> bool {
        self.min.x <= other.min.x && self.min.y <= other.min.y && self.min.z <= other.min.z
            && other.max.x <= self.max.x && other.max.y <= self.max.y && other.max.z <= self.max.z
    }

    /// A box from two corners, normalized so that `min <= max` on every axis.
    pub fn new(min: Point, max: Point) -> (r: Self)
        ensures
            r.min == min.min_spec(max) && r.max == min.max_spec(max),
            r.ordered(),
    {
        Aabb { min: min.min(&max), max: min.max(&max) }
    }

    /// The region common to `self` and `other`: largest of the minima,
    /// smallest of the maxima. Not ordered when the boxes are disjoint.
    pub fn intersection(&self, other: &Self) -> (r: Self)
        ensures
            r.min == self.min.max_spec(other.min),
            r.max == self.max.min_spec(other.max),
    {
        Aabb { min: self.min.max(&other.min), max: self.max.min(&other.max) }
    }

    /// Whether `self` and `other` share at least one point.
    pub fn overlaps(&self, other: &Self) -> (r: bool)
        ensures
            r == (self.max.x >= other.min.x && self.min.x <= other.max.x && self.max.y
                >= other.min.y && self.min.y <= other.max.y && self.max.z >= other.min.z
                && self.min.z <= other.max.z),
    {
        self.max.x >= other.min.x && self.min.x <= other.max.x && self.max.y >= other.min.y
            && self.min.y <= other.max.y && self.max.z >= other.min.z && self.min.z <= other.max.z
    }

    /// Whether the box contains `point`, boundaries included.
    pub fn contains(&self, point: Vector) -> (r: bool)
        ensures
            r == self.contains_spec(point),
    {
        point.x >= self.min.x && point.x <= self.max.x && point.y >= self.min.y && point.y
            <= self.max.y && point.z >= self.min.z && point.z <= self.max.z
    }

    /// Whether the box contains `point`, upper boundaries excluded.
    pub fn contains_exclusive(&self, point: Vector) -> (r: bool)
        ensures
            r == (self.min.x <= point.x < self.max.x && self.min.y <= point.y < self.max.y
                && self.min.z <= point.z < self.max.z),
    {
        point.x >= self.min.x && point.x < self.max.x && point.y >= self.min.y && point.y
            < self.max.y && point.z >= self.min.z && point.z < self.max.z
    }

    /// On one axis, the distance from `p` to the interval `lo..=hi`, or zero
    /// inside it.
    pub open spec fn axis_gap(lo: i64, hi: i64, p: i64) -> int {
        if lo - p >= 0 && lo - p >= p - hi {
            lo - p
        } else if p - hi >= 0 {
            p - hi
        } else {
            0
        }
    }

    /// The squared distance from `point` to the box, zero inside it.
    pub open spec fn distance_squared_spec(self, point: Vector) -> int {
        Self::axis_gap(self.min.x, self.max.x, point.x) * Self::axis_gap(
            self.min.x,
            self.max.x,
            point.x,
        ) + Self::axis_gap(self.min.y, self.max.y, point.y) * Self::axis_gap(
            self.min.y,
            self.max.y,
            point.y,
        ) + Self::axis_gap(self.min.z, self.max.z, point.z) * Self::axis_gap(
            self.min.z,
            self.max.z,
            point.z,
        )
    }

    /// The squared distance from `point` to the box.
    pub fn distance_squared(&self, point: Vector) -> (r: i128)
        requires
            self.in_world(),
            point.in_world(),
        ensures
            r == self.distance_squared_spec(point),
            0 <= r <= 12 * (WORLD as int) * (WORLD as int),
    {
        let gx = Self::gap(self.min.x, self.max.x, point.x);
        let gy = Self::gap(self.min.y, self.max.y, point.y);
        let gz = Self::gap(self.min.z, self.max.z, point.z);
        proof {
            let mw = 2 * WORLD as int;
            lemma_mul_mag(gx as int, gx as int, mw, mw);
            lemma_mul_mag(gy as int, gy as int, mw, mw);
            lemma_mul_mag(gz as int, gz as int, mw, mw);
            lemma_square_nonneg(gx as int);
            lemma_square_nonneg(gy as int);
            lemma_square_nonneg(gz as int);
        }
        (gx as i128) * (gx as i128) + (gy as i128) * (gy as i128) + (gz as i128) * (gz as i128)
    }

    /// One axis of the distance computation.
    fn gap(lo: i64, hi: i64, p: i64) -> (r: i64)
        requires
            -WORLD <= lo <= WORLD,
            -WORLD <= hi <= WORLD,
            -WORLD <= p <= WORLD,
        ensures
            r == Self::axis_gap(lo, hi, p),
            0 <= r <= 2 * WORLD,
    {
        let below = lo - p;
        let above = p - hi;
        if below >= 0 && below >= above {
            below
        } else if above >= 0 {
            above
        } else {
            0
        }
    }

    /// The distance from `point` to the box, rounded down; zero inside it.
    pub fn distance(&self, point: Vector) -> (r: i64)
        requires
            self.in_world(),
            point.in_world(),
        ensures
            r == sqrt_floor(self.distance_squared_spec(point)),
    {
        let d2 = self.distance_squared(point);
        let u = isqrt(d2 as u128);
        proof {
            assert(u <= 0x1_0000_0000_0000u128) by (nonlinear_arith)
                requires
                    u as int * u as int <= d2 as int,
                    0 <= d2 as int <= 12 * (WORLD as int) * (WORLD as int),
            ;
            lemma_sqrt_floor_exists(d2 as int);
            let s = sqrt_floor(d2 as int);
            assert(s == u as int) by (nonlinear_arith)
                requires
                    s >= 0 && s * s <= d2 as int && (d2 as int) < (s + 1) * (s + 1),
                    u as int >= 0 && (u as int) * (u as int) <= d2 as int && (d2 as int) < (
                    u as int + 1) * (u as int + 1),
            ;
        }
        u as i64
    }

    /// Pads the box by `delta` on every side of every axis.
    pub fn expand(&mut self, delta: i64)
        requires
            old(self).in_world(),
            -WORLD <= delta <= WORLD,
        ensures
            final(self).min.x == old(self).min.x - delta,
            final(self).min.y == old(self).min.y - delta,
            final(self).min.z == old(self).min.z - delta,
            final(self).max.x == old(self).max.x + delta,
            final(self).max.y == old(self).max.y + delta,
            final(self).max.z == old(self).max.z + delta,
    {
        let d = BaseVector { x: delta, y: delta, z: delta };
        self.min = self.min.sub(d);
        self.max = self.max.add(d);
    }

    /// The vector from the minimum corner to the maximum corner.
    pub fn diagonal(&self) -> (r: Vector)
        requires
            self.in_world(),
        ensures
            r.x == self.max.x - self.min.x,
            r.y == self.max.y - self.min.y,
            r.z == self.max.z - self.min.z,
    {
        self.max.sub(self.min)
    }

    /// The largest extent over the three axes.
    pub fn max_dimension(&self) -> (r: i64)
        requires
            self.in_world(),
        ensures
            r == self.max.x - self.min.x || r == self.max.y - self.min.y || r == self.max.z
                - self.min.z,
            r >= self.max.x - self.min.x && r >= self.max.y - self.min.y && r >= self.max.z
                - self.min.z,
    {
        let d = self.diagonal();
        let mut best = d.x;
        if d.y > best {
            best = d.y;
        }
        if d.z > best {
            best = d.z;
        }
        best
    }

    /// Interpolates between the corners, axis by axis: `t` of zero picks the
    /// minimum corner, `t` of `SCALE` the maximum.
    pub fn lerp(&self, t: Vector) -> (r: Vector)
        requires
            self.in_world(),
            t.bounded_spec(SCALE as int),
        ensures
            r.x == self.min.x + (self.max.x - self.min.x) * t.x / (SCALE as int),
            r.y == self.min.y + (self.max.y - self.min.y) * t.y / (SCALE as int),
            r.z == self.min.z + (self.max.z - self.min.z) * t.z / (SCALE as int),
    {
        BaseVector {
            x: Self::lerp_axis(self.min.x, self.max.x, t.x),
            y: Self::lerp_axis(self.min.y, self.max.y, t.y),
            z: Self::lerp_axis(self.min.z, self.max.z, t.z),
        }
    }

    /// One axis of corner interpolation.
    fn lerp_axis(lo: i64, hi: i64, t: i64) -> (r: i64)
        requires
            -WORLD <= lo <= WORLD,
            -WORLD <= hi <= WORLD,
            -SCALE <= t <= SCALE,
        ensures
            r == lo + (hi - lo) * t / (SCALE as int),
    {
        proof {
            lemma_mul_mag(hi as int - lo as int, t as int, 2 * WORLD as int, SCALE as int);
            lemma_div_shrink(
                (hi as int - lo as int) * t as int,
                SCALE as int,
                2 * WORLD as int,
            );
        }
        lo + div_floor((hi as i128 - lo as i128) * t as i128, SCALE as i128) as i64
    }

    /// The position of `point` between the corners, axis by axis, scaled so
    /// that the minimum corner is zero and the maximum corner is `SCALE`.
    /// Axes of zero extent are left as the plain offset from the minimum.
    pub fn offset(&self, point: Point) -> (r: Vector)
        requires
            self.in_world(),
            point.in_world(),
        ensures
            r.x == if self.max.x > self.min.x {
                (point.x - self.min.x) * SCALE / (self.max.x - self.min.x)
            } else {
                point.x - self.min.x
            },
            r.y == if self.max.y > self.min.y {
                (point.y - self.min.y) * SCALE / (self.max.y - self.min.y)
            } else {
                point.y - self.min.y
            },
            r.z == if self.max.z > self.min.z {
                (point.z - self.min.z) * SCALE / (self.max.z - self.min.z)
            } else {
                point.z - self.min.z
            },
    {
        BaseVector {
            x: Self::offset_axis(self.min.x, self.max.x, point.x),
            y: Self::offset_axis(self.min.y, self.max.y, point.y),
            z: Self::offset_axis(self.min.z, self.max.z, point.z),
        }
    }

    /// One axis of `offset`.
    fn offset_axis(lo: i64, hi: i64, p: i64) -> (r: i64)
        requires
            -WORLD <= lo <= WORLD,
            -WORLD <= hi <= WORLD,
            -WORLD <= p <= WORLD,
        ensures
            r == if hi > lo {
                (p - lo) * SCALE / (hi - lo)
            } else {
                p - lo
            },
    {
        if hi > lo {
            proof {
                lemma_mul_mag(p as int - lo as int, SCALE as int, 2 * WORLD as int, SCALE as int);
                vstd::arithmetic::div_mod::lemma_fundamental_div_mod(
                    (p as int - lo as int) * SCALE as int,
                    hi as int - lo as int,
                );
                assert(-(2 * (WORLD as int) * SCALE) <= (p as int - lo as int) * (SCALE as int) / (
                hi as int - lo as int) <= 2 * (WORLD as int) * SCALE) by (nonlinear_arith)
                    requires
                        ({
                            let n = (p as int - lo as int) * (SCALE as int);
                            let d = hi as int - lo as int;
                            n == d * (n / d) + n % d && 0 <= n % d < d && d >= 1 && -(2 * (
                            WORLD as int) * SCALE) <= n <= 2 * (WORLD as int) * SCALE
                        }),
                ;
            }
            div_floor((p as i128 - lo as i128) * SCALE as i128, hi as i128 - lo as i128) as i64
        } else {
            p - lo
        }
    }

    /// Whether some axis has no extent at all.
    pub fn is_empty(&self) -> (r: bool)
        ensures
            r == (self.min.x >= self.max.x || self.min.y >= self.max.y || self.min.z
                >= self.max.z),
    {
        self.min.x >= self.max.x || self.min.y >= self.max.y || self.min.z >= self.max.z
    }

    /// The corner selected by the three low bits of `corner`: bit 0 picks the
    /// maximum on the x axis, bit 1 on the y axis, bit 2 on the z axis.
    pub fn corner(&self, corner: usize) -> (r: Point)
        requires
            corner < 8,
        ensures
            r.x == if corner % 2 == 1 {
                self.max.x
            } else {
                self.min.x
            },
            r.y == if (corner / 2) % 2 == 1 {
                self.max.y
            } else {
                self.min.y
            },
            r.z == if (corner / 4) % 2 == 1 {
                self.max.z
            } else {
                self.min.z
            },
    {
        BaseVector {
            x: if corner % 2 == 1 {
                self.max.x
            } else {
                self.min.x
            },
            y: if (corner / 2) % 2 == 1 {
                self.max.y
            } else {
                self.min.y
            },
            z: if (corner / 4) % 2 == 1 {
                self.max.z
            } else {
                self.min.z
            },
        }
    }

    /// The surface area as a specification value:
    /// `2 * (dx*dy + dx*dz + dy*dz)` over the extents.
    pub open spec fn surface_area_spec(self) -> int {
        let dx = self.max.x - self.min.x;
        let dy = self.max.y - self.min.y;
        let dz = self.max.z - self.min.z;
        2 * (dx * dy + dx * dz + dy * dz)
    }

    /// Twice the sum of the pairwise face areas.
    pub fn surface_area(&self) -> (r: i64)
        requires
            self.in_world(),
            self.ordered(),
        ensures
            r == self.surface_area_spec(),
            r >= 0,
    {
        let dx = self.max.x - self.min.x;
        let dy = self.max.y - self.min.y;
        let dz = self.max.z - self.min.z;
        proof {
            lemma_aabb_surface_area_fits(dx as int, dy as int, dz as int);
        }
        2 * (dx * dy + dx * dz + dy * dz)
    }

    /// The product of the three extents.
    pub fn volume(&self) -> (r: i128)
        requires
            self.in_world(),
        ensures
            r == (self.max.x - self.min.x) * (self.max.y - self.min.y) * (self.max.z - self.min.z),
    {
        let dx = self.max.x as i128 - self.min.x as i128;
        let dy = self.max.y as i128 - self.min.y as i128;
        let dz = self.max.z as i128 - self.min.z as i128;
        proof {
            let mw = 2 * WORLD as int;
            lemma_mul_mag(dx as int, dy as int, mw, mw);
            lemma_mul_mag(dx as int * dy as int, dz as int, mw * mw, mw);
        }
        dx * dy * dz
    }

    /// The area of the x/y face.
    pub fn area(&self) -> (r: i128)
        requires
            self.in_world(),
        ensures
            r == (self.max.x - self.min.x) * (self.max.y - self.min.y),
    {
        let dx = self.max.x as i128 - self.min.x as i128;
        let dy = self.max.y as i128 - self.min.y as i128;
        proof {
            let mw = 2 * WORLD as int;
            lemma_mul_mag(dx as int, dy as int, mw, mw);
        }
        dx * dy
    }
}

/// The surface area of a world box fits in an `i64` and is not negative.
pub proof fn lemma_aabb_surface_area_fits(dx: int, dy: int, dz: int)
    requires
        0 <= dx <= 2 * WORLD,
        0 <= dy <= 2 * WORLD,
        0 <= dz <= 2 * WORLD,
    ensures
        0 <= 2 * (dx * dy + dx * dz + dy * dz) <= i64::MAX,
{
    assert(0 <= 2 * (dx * dy + dx * dz + dy * dz) <= 24 * (WORLD as int) * (WORLD as int))
        by (nonlinear_arith)
        requires
            0 <= dx <= 2 * WORLD,
            0 <= dy <= 2 * WORLD,
            0 <= dz <= 2 * WORLD,
    ;
    assert(24 * (WORLD as int) * (WORLD as int) <= i64::MAX) by (nonlinear_arith);
}

/// Growing a bounding box to include a point or another box.
pub trait Union<T>: Sized {
    /// What the box becomes when `value` is included.
    spec fn union_spec(self, value: T) -> Self;

    /// Grows the box to include `value`. The box never shrinks: see
    /// `lemma_union_grows`.
    fn union(&mut self, value: T)
        ensures
            *final(self) == old(self).union_spec(value),
    ;
}

impl Union<Point> for Aabb {
    open spec fn union_spec(self, point: Point) -> Aabb {
        Aabb {
            min: BaseVector {
                x: if self.min.x <= point.x {
                    self.min.x
                } else {
                    point.x
                },
                y: if self.min.y <= point.y {
                    self.min.y
                } else {
                    point.y
                },
                z: if self.min.z <= point.z {
                    self.min.z
                } else {
                    point.z
                },
            },
            max: BaseVector {
                x: if self.max.x >= point.x {
                    self.max.x
                } else {
                    point.x
                },
                y: if self.max.y >= point.y {
                    self.max.y
                } else {
                    point.y
                },
                z: if self.max.z >= point.z {
                    self.max.z
                } else {
                    point.z
                },
            },
        }
    }

    fn union(&mut self, point: Point) {
        self.min = self.min.min(&point);
        self.max = self.max.max(&point);
    }
}

impl Union<Aabb> for Aabb {
    open spec fn union_spec(self, value: Aabb) -> Aabb {
        Aabb {
            min: BaseVector {
                x: if self.min.x <= value.min.x {
                    self.min.x
                } else {
                    value.min.x
                },
                y: if self.min.y <= value.min.y {
                    self.min.y
                } else {
                    value.min.y
                },
                z: if self.min.z <= value.min.z {
                    self.min.z
                } else {
                    value.min.z
                },
            },
            max: BaseVector {
                x: if self.max.x >= value.max.x {
                    self.max.x
                } else {
                    value.max.x
                },
                y: if self.max.y >= value.max.y {
                    self.max.y
                } else {
                    value.max.y
                },
                z: if self.max.z >= value.max.z {
                    self.max.z
                } else {
                    value.max.z
                },
            },
        }
    }

    fn union(&mut self, value: Aabb) {
        self.min = self.min.min(&value.min);
        self.max = self.max.max(&value.max);
    }
}

/// A union can only grow a box: the old box lies inside the new one, and
/// every point the old box contained the new one still contains.
pub proof fn lemma_union_grows(b: Aabb, p: Point, q: Vector)
    ensures
        b.union_spec(p).encloses(b),
        b.contains_spec(q) ==> b.union_spec(p).contains_spec(q),
        b.union_spec(p).contains_spec(p),
{
}

/// Taking the union with another box grows a box as well: the result
/// encloses both operands, so no contained point is ever lost.
pub proof fn lemma_union_box_grows(b: Aabb, o: Aabb, q: Vector)
    ensures
        Union::<Aabb>::union_spec(b, o).encloses(b),
        Union::<Aabb>::union_spec(b, o).encloses(o),
        b.contains_spec(q) ==> Union::<Aabb>::union_spec(b, o).contains_spec(q),
{
}

} // verus!
