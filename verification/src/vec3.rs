//! Three-component vectors over fixed-point scalars.
//!
//! Every scalar is an `i64` holding a real value times [`SCALE`]. All
//! operations state their result exactly, in terms of the components.
use vstd::prelude::*;

verus! {

/// Fixed-point unit: an `i64` scalar `s` stands for the real number `s / SCALE`.
pub const SCALE: i64 = 65536;

/// Largest coordinate magnitude the geometry works with. Chosen so that a
/// surface area `2 * (dx*dy + dx*dz + dy*dz)` of a box inside the world fits
/// in an `i64`.
pub const WORLD: i64 = 536870912;

/// A vector of three fixed-point components.
#[derive(Clone, Copy, PartialEq, Eq, Structural, Debug)]
pub struct BaseVector {
    pub x: i64,
    pub y: i64,
    pub z: i64,
}

/// A free direction or offset.
pub type Vector = BaseVector;
/// A position.
pub type Point = BaseVector;
/// A direction of unit length (up to fixed-point rounding).
pub type NormalizedVector = BaseVector;
/// A color with components nominally in `0..=SCALE`.
pub type Color = BaseVector;

impl BaseVector {
    /// Whether every component is within `bound` in magnitude.
    pub open spec fn bounded_spec(self, bound: int) -> bool {
        -bound <= self.x <= bound && -bound <= self.y <= bound && -bound <= self.z <= bound
    }

    /// Whether the vector lies in the world box.
    pub open spec fn in_world(self) -> bool {
        self.bounded_spec(WORLD as int)
    }

    pub open spec fn dot_spec(self, other: Self) -> int {
        self.x * other.x + self.y * other.y + self.z * other.z
    }

    pub fn new(x: i64, y: i64, z: i64) -> (r: Self)
        ensures
            r == (BaseVector { x, y, z }),
    {
        BaseVector { x, y, z }
    }

    pub fn into_inner(self) -> (r: [i64; 3])
        ensures
            r[0] == self.x && r[1] == self.y && r[2] == self.z,
    {
        [self.x, self.y, self.z]
    }

    pub fn inner(&self) -> (r: [i64; 3])
        ensures
            r[0] == self.x && r[1] == self.y && r[2] == self.z,
    {
        [self.x, self.y, self.z]
    }

    pub fn to_vector(self) -> (r: Vector)
        ensures
            r == self,
    {
        self
    }

    /// Component-wise sum.
    pub fn add(self, other: Self) -> (r: Self)
        requires
            self.bounded_spec((i64::MAX / 2) as int),
            other.bounded_spec((i64::MAX / 2) as int),
        ensures
            r.x == self.x + other.x,
            r.y == self.y + other.y,
            r.z == self.z + other.z,
    {
        BaseVector { x: self.x + other.x, y: self.y + other.y, z: self.z + other.z }
    }

    /// Component-wise difference.
    pub fn sub(self, other: Self) -> (r: Self)
        requires
            self.bounded_spec((i64::MAX / 2) as int),
            other.bounded_spec((i64::MAX / 2) as int),
        ensures
            r.x == self.x - other.x,
            r.y == self.y - other.y,
            r.z == self.z - other.z,
    {
        BaseVector { x: self.x - other.x, y: self.y - other.y, z: self.z - other.z }
    }

    pub fn neg(self) -> (r: Self)
        requires
            self.bounded_spec(i64::MAX as int),
        ensures
            r.x == -self.x && r.y == -self.y && r.z == -self.z,
    {
        BaseVector { x: -self.x, y: -self.y, z: -self.z }
    }

    /// The dot product, computed without overflow in 128-bit arithmetic.
    pub fn dot(self, other: Self) -> (r: i128)
        requires
            self.bounded_spec(MUL_BOUND as int),
            other.bounded_spec(MUL_BOUND as int),
        ensures
            r == self.dot_spec(other),
    {
        proof {
            lemma_i64_mul_fits(self.x as int, other.x as int);
            lemma_i64_mul_fits(self.y as int, other.y as int);
            lemma_i64_mul_fits(self.z as int, other.z as int);
        }
        (self.x as i128) * (other.x as i128) + (self.y as i128) * (other.y as i128) + (
        self.z as i128) * (other.z as i128)
    }

    /// The squared length.
    pub fn length_squared(&self) -> (r: i128)
        requires
            self.bounded_spec(MUL_BOUND as int),
        ensures
            r == self.dot_spec(*self),
            r >= 0,
    {
        proof {
            lemma_square_nonneg(self.x as int);
            lemma_square_nonneg(self.y as int);
            lemma_square_nonneg(self.z as int);
        }
        self.dot(*self)
    }
}

/// A bound under which sums of three pairwise products still fit in an `i128`.
pub const MUL_BOUND: i64 = 0x4000_0000_0000_0000;

/// The product of two values below `MUL_BOUND` in magnitude fits in an
/// `i128` with room to sum a few such products.
pub proof fn lemma_i64_mul_fits(a: int, b: int)
    requires
        -MUL_BOUND <= a <= MUL_BOUND,
        -MUL_BOUND <= b <= MUL_BOUND,
    ensures
        -(MUL_BOUND * MUL_BOUND) <= a * b <= MUL_BOUND * MUL_BOUND,
{
    assert(a * b <= MUL_BOUND * MUL_BOUND && a * b >= -(MUL_BOUND * MUL_BOUND))
        by (nonlinear_arith)
        requires
            -MUL_BOUND <= a <= MUL_BOUND,
            -MUL_BOUND <= b <= MUL_BOUND,
    ;
}

/// Quotient of `a` by a positive `b`, rounded toward negative infinity.
/// This matches `a / b` of the specification language, which rounds the
/// quotient down whenever the divisor is positive.
pub fn div_floor(a: i128, b: i128) -> (q: i128)
    requires
        b > 0,
        -(MUL_BOUND * MUL_BOUND) * 4 <= a <= MUL_BOUND * MUL_BOUND * 4,
    ensures
        q == a as int / b as int,
{
    if a >= 0 {
        let q = ((a as u128) / (b as u128)) as i128;
        proof {
            vstd::arithmetic::div_mod::lemma_fundamental_div_mod(a as int, b as int);
            vstd::arithmetic::div_mod::lemma_fundamental_div_mod((a as u128) as int, (
            b as u128) as int);
            vstd::arithmetic::div_mod::lemma_div_by_multiple((a as u128) as int, 1int);
        }
        q
    } else {
        let m = (-a) as u128;
        let d = b as u128;
        let quot = m / d;
        let rem = m % d;
        proof {
            vstd::arithmetic::div_mod::lemma_fundamental_div_mod(m as int, d as int);
        }
        if rem == 0 {
            let q = -(quot as i128);
            proof {
                assert(a as int == q as int * b as int + 0) by (nonlinear_arith)
                    requires
                        m as int == d as int * quot as int + rem as int,
                        rem == 0,
                        a as int == -(m as int),
                        q as int == -(quot as int),
                        b == d,
                ;
                vstd::arithmetic::div_mod::lemma_fundamental_div_mod_converse(
                    a as int,
                    b as int,
                    q as int,
                    0int,
                );
            }
            q
        } else {
            let q = -(quot as i128) - 1;
            proof {
                assert(a as int == q as int * b as int + (d as int - rem as int))
                    by (nonlinear_arith)
                    requires
                        m as int == d as int * quot as int + rem as int,
                        a as int == -(m as int),
                        q as int == -(quot as int) - 1,
                        b == d,
                ;
                vstd::arithmetic::div_mod::lemma_fundamental_div_mod_converse(
                    a as int,
                    b as int,
                    q as int,
                    (d - rem) as int,
                );
            }
            q
        }
    }
}

/// Floor of the square root: the unique `r` with `r * r <= n < (r + 1) * (r + 1)`.
pub fn isqrt(n: u128) -> (r: u128)
    ensures
        r * r <= n,
        n < (r + 1) * (r + 1),
        r <= u64::MAX,
{
    let mut lo: u128 = 0;
    let mut hi: u128 = 0xFFFF_FFFF_FFFF_FFFF;
    proof {
        assert((hi + 1) * (hi + 1) > n as int) by (nonlinear_arith)
            requires
                hi == 0xFFFF_FFFF_FFFF_FFFFu128,
                n <= u128::MAX,
        ;
    }
    while lo < hi
        invariant
            lo <= hi <= 0xFFFF_FFFF_FFFF_FFFF,
            lo * lo <= n,
            n < (hi + 1) * (hi + 1),
        decreases hi - lo,
    {
        let mid = lo + (hi - lo + 1) / 2;
        proof {
            assert(lo < mid <= hi);
            assert(mid * mid < u128::MAX) by (nonlinear_arith)
                requires
                    mid <= 0xFFFF_FFFF_FFFF_FFFFu128,
            ;
        }
        if mid * mid <= n {
            lo = mid;
        } else {
            hi = mid - 1;
        }
    }
    lo
}

/// The rounded-down square root of a signed non-negative value, tied to
/// `sqrt_floor`.
pub fn isqrt_i128(n: i128) -> (r: i128)
    requires
        0 <= n,
    ensures
        r == sqrt_floor(n as int),
        0 <= r,
        r * r <= n < (r + 1) * (r + 1),
{
    let u = isqrt(n as u128);
    proof {
        assert(u <= 0x2_0000_0000_0000_0000u128) by (nonlinear_arith)
            requires
                u as int * u as int <= n as int,
                0 <= n as int <= i128::MAX,
        ;
        lemma_sqrt_floor_exists(n as int);
        let s = sqrt_floor(n as int);
        assert(s == u as int) by (nonlinear_arith)
            requires
                s >= 0 && s * s <= n as int && (n as int) < (s + 1) * (s + 1),
                u as int >= 0 && (u as int) * (u as int) <= n as int && (n as int) < (u as int + 1)
                    * (u as int + 1),
        ;
    }
    u as i128
}

/// The rounded-down square root, as a specification value. Meaningful for
/// `n >= 0`; `lemma_sqrt_floor_exists` shows the characterizing property.
pub open spec fn sqrt_floor(n: int) -> int {
    choose|r: int| r >= 0 && #[trigger] (r * r) <= n && n < (r + 1) * (r + 1)
}

/// For every `n >= 0` some rounded-down square root exists, so `sqrt_floor`
/// satisfies its characterizing property there.
pub proof fn lemma_sqrt_floor_exists(n: int)
    requires
        n >= 0,
    ensures
        sqrt_floor(n) >= 0,
        sqrt_floor(n) * sqrt_floor(n) <= n,
        n < (sqrt_floor(n) + 1) * (sqrt_floor(n) + 1),
    decreases n,
{
    if n == 0 {
        let w: int = 0;
        assert(w >= 0 && #[trigger] (w * w) <= n && n < (w + 1) * (w + 1));
    } else {
        lemma_sqrt_floor_exists(n - 1);
        let r = sqrt_floor(n - 1);
        if (r + 1) * (r + 1) <= n {
            assert(n < (r + 2) * (r + 2)) by (nonlinear_arith)
                requires
                    r >= 0 && n - 1 < (r + 1) * (r + 1) && (r + 1) * (r + 1) <= n,
            ;
            assert(r + 1 >= 0 && #[trigger] ((r + 1) * (r + 1)) <= n && n < (r + 2) * (r + 2));
        } else {
            assert(r >= 0 && #[trigger] (r * r) <= n && n < (r + 1) * (r + 1));
        }
    }
    assert(exists|r: int| r >= 0 && #[trigger] (r * r) <= n && n < (r + 1) * (r + 1));
}

/// The square-root capability of a fixed-point scalar.
pub trait Sqrt: Sized {
    spec fn sqrt_req(self) -> bool;

    spec fn sqrt_spec(self) -> Self;

    fn sqrt(self) -> (r: Self)
        requires
            self.sqrt_req(),
        ensures
            r == self.sqrt_spec(),
    ;
}

impl Sqrt for i64 {
    open spec fn sqrt_req(self) -> bool {
        self >= 0
    }

    open spec fn sqrt_spec(self) -> i64 {
        sqrt_floor(self as int) as i64
    }

    /// The rounded-down square root of a non-negative scalar.
    fn sqrt(self) -> (r: i64) {
        let u = isqrt(self as u128);
        proof {
            assert(u <= 0x1_0000_0000u128) by (nonlinear_arith)
                requires
                    u * u <= self as u128,
                    self as u128 <= i64::MAX as u128,
            ;
            lemma_sqrt_floor_exists(self as int);
            let s = sqrt_floor(self as int);
            assert(s == u as int) by (nonlinear_arith)
                requires
                    s >= 0 && s * s <= self as int && (self as int) < (s + 1) * (s + 1),
                    u as int >= 0 && (u as int) * (u as int) <= self as int && (self as int) < (
                    u as int + 1) * (u as int + 1),
            ;
        }
        u as i64
    }
}

/// `a * a` is never negative.
pub proof fn lemma_square_nonneg(a: int)
    ensures
        a * a >= 0,
{
    if a < 0 {
        assert(a * a == (-a) * (-a)) by (nonlinear_arith);
        assert((-a) * (-a) >= 0) by (nonlinear_arith);
    } else {
        assert(a * a >= 0) by (nonlinear_arith);
    }
}

/// Magnitude bounds multiply: `|a * b| <= ma * mb`.
pub proof fn lemma_mul_mag(a: int, b: int, ma: int, mb: int)
    requires
        -ma <= a <= ma,
        -mb <= b <= mb,
        0 <= ma,
        0 <= mb,
    ensures
        -(ma * mb) <= a * b <= ma * mb,
{
    assert(-(ma * mb) <= a * b <= ma * mb) by (nonlinear_arith)
        requires
            -ma <= a <= ma,
            -mb <= b <= mb,
            0 <= ma,
            0 <= mb,
    ;
}

/// Dividing by `d` shrinks a dividend bounded by `m * d` to within `m`.
pub proof fn lemma_div_shrink(n: int, d: int, m: int)
    requires
        d >= 1,
        0 <= m,
        -(m * d) <= n <= m * d,
    ensures
        -m <= n / d <= m,
{
    vstd::arithmetic::div_mod::lemma_fundamental_div_mod(n, d);
    assert(-m <= n / d <= m) by (nonlinear_arith)
        requires
            n == d * (n / d) + n % d,
            0 <= n % d < d,
            d >= 1,
            0 <= m,
            -(m * d) <= n <= m * d,
    ;
}

/// A quotient never exceeds the magnitude bound of its dividend when the
/// divisor is at least one.
pub proof fn lemma_div_mag(a: int, b: int, m: int)
    requires
        b >= 1,
        0 <= m,
        -m <= a <= m,
    ensures
        -m <= a / b <= m,
{
    vstd::arithmetic::div_mod::lemma_fundamental_div_mod(a, b);
    assert(-m <= a / b <= m) by (nonlinear_arith)
        requires
            a == b * (a / b) + a % b,
            0 <= a % b < b,
            b >= 1,
            0 <= m,
            -m <= a <= m,
    ;
}

impl BaseVector {
    /// The length, rounded down: `sqrt_floor` of the squared length.
    pub fn length(&self) -> (r: i64)
        requires
            self.in_world(),
        ensures
            r == sqrt_floor(self.dot_spec(*self)),
            r >= 0,
            r * r <= self.dot_spec(*self) < (r + 1) * (r + 1),
    {
        let ls = self.length_squared();
        proof {
            lemma_world_dot_bound(*self, *self);
        }
        let u = isqrt(ls as u128);
        proof {
            assert(u <= 0x1_0000_0000_0000u128) by (nonlinear_arith)
                requires
                    u as int * u as int <= ls as int,
                    0 <= ls as int <= 3 * (WORLD as int) * (WORLD as int),
            ;
            lemma_sqrt_floor_exists(ls as int);
            let s = sqrt_floor(ls as int);
            assert(s == u as int) by (nonlinear_arith)
                requires
                    s >= 0 && s * s <= ls as int && (ls as int) < (s + 1) * (s + 1),
                    u as int >= 0 && (u as int) * (u as int) <= ls as int && (ls as int) < (
                    u as int + 1) * (u as int + 1),
            ;
        }
        u as i64
    }

    /// Multiplication by a fixed-point scalar, component-wise, rounded down.
    pub fn mul_scalar(self, s: i64) -> (r: Self)
        requires
            self.in_world(),
            -WORLD <= s <= WORLD,
        ensures
            r.x == self.x * s / (SCALE as int),
            r.y == self.y * s / (SCALE as int),
            r.z == self.z * s / (SCALE as int),
    {
        proof {
            lemma_mul_mag(self.x as int, s as int, WORLD as int, WORLD as int);
            lemma_mul_mag(self.y as int, s as int, WORLD as int, WORLD as int);
            lemma_mul_mag(self.z as int, s as int, WORLD as int, WORLD as int);
            let m = WORLD as int * WORLD as int;
            lemma_div_shrink(self.x as int * s as int, SCALE as int, m);
            lemma_div_shrink(self.y as int * s as int, SCALE as int, m);
            lemma_div_shrink(self.z as int * s as int, SCALE as int, m);
        }
        BaseVector {
            x: div_floor(self.x as i128 * s as i128, SCALE as i128) as i64,
            y: div_floor(self.y as i128 * s as i128, SCALE as i128) as i64,
            z: div_floor(self.z as i128 * s as i128, SCALE as i128) as i64,
        }
    }

    /// Division by a positive fixed-point scalar, component-wise, rounded down.
    pub fn div_scalar(self, s: i64) -> (r: Self)
        requires
            self.in_world(),
            s > 0,
        ensures
            r.x == self.x * SCALE / (s as int),
            r.y == self.y * SCALE / (s as int),
            r.z == self.z * SCALE / (s as int),
    {
        proof {
            lemma_mul_mag(self.x as int, SCALE as int, WORLD as int, SCALE as int);
            lemma_mul_mag(self.y as int, SCALE as int, WORLD as int, SCALE as int);
            lemma_mul_mag(self.z as int, SCALE as int, WORLD as int, SCALE as int);
            let m = WORLD as int * SCALE as int;
            lemma_div_mag(self.x as int * SCALE as int, s as int, m);
            lemma_div_mag(self.y as int * SCALE as int, s as int, m);
            lemma_div_mag(self.z as int * SCALE as int, s as int, m);
        }
        BaseVector {
            x: div_floor(self.x as i128 * SCALE as i128, s as i128) as i64,
            y: div_floor(self.y as i128 * SCALE as i128, s as i128) as i64,
            z: div_floor(self.z as i128 * SCALE as i128, s as i128) as i64,
        }
    }
}

impl BaseVector {
    /// What `normalize` returns, as a specification value.
    pub open spec fn normalize_spec(self) -> Self {
        let l = sqrt_floor(self.dot_spec(self));
        BaseVector { x: (self.x * SCALE / l) as i64, y: (self.y * SCALE / l) as i64, z: (self.z
            * SCALE / l) as i64 }
    }

    /// What `cross` returns, as a specification value.
    pub open spec fn cross_spec(self, other: Self) -> Self {
        BaseVector {
            x: ((self.y * other.z - self.z * other.y) / (SCALE as int)) as i64,
            y: ((self.z * other.x - self.x * other.z) / (SCALE as int)) as i64,
            z: ((self.x * other.y - self.y * other.x) / (SCALE as int)) as i64,
        }
    }
}

impl Vector {
    /// Normalization: each component times `SCALE`, divided by the rounded
    /// length. The input may not be the zero vector; the result's components
    /// never exceed `SCALE` in magnitude. For inputs much shorter than one
    /// unit the rounded length is coarse and the result can fall well short
    /// of unit length; `make_ray` decides at run time whether a direction
    /// is close enough to use.
    pub fn normalize(self) -> (r: NormalizedVector)
        requires
            self.bounded_spec(0x8000_0000_0000),
            self.dot_spec(self) > 0,
        ensures
            r == self.normalize_spec(),
            r.x == self.x * SCALE / sqrt_floor(self.dot_spec(self)),
            r.y == self.y * SCALE / sqrt_floor(self.dot_spec(self)),
            r.z == self.z * SCALE / sqrt_floor(self.dot_spec(self)),
            r.bounded_spec(SCALE as int),
    {
        let ls = self.length_squared();
        let len = isqrt_i128(ls);
        proof {
            let l = len as int;
            assert(l >= 1) by (nonlinear_arith)
                requires
                    l >= 0,
                    (ls as int) < (l + 1) * (l + 1),
                    ls as int > 0,
            ;
            lemma_square_nonneg(self.x as int);
            lemma_square_nonneg(self.y as int);
            lemma_square_nonneg(self.z as int);
            lemma_component_le_length(self.x as int, l, ls as int);
            lemma_component_le_length(self.y as int, l, ls as int);
            lemma_component_le_length(self.z as int, l, ls as int);
            lemma_mul_mag(self.x as int, SCALE as int, l, SCALE as int);
            lemma_mul_mag(self.y as int, SCALE as int, l, SCALE as int);
            lemma_mul_mag(self.z as int, SCALE as int, l, SCALE as int);
            lemma_div_shrink(self.x as int * SCALE as int, l, SCALE as int);
            lemma_div_shrink(self.y as int * SCALE as int, l, SCALE as int);
            lemma_div_shrink(self.z as int * SCALE as int, l, SCALE as int);
            assert(sqrt_floor(self.dot_spec(self)) == l);
        }
        BaseVector {
            x: div_floor(self.x as i128 * SCALE as i128, len) as i64,
            y: div_floor(self.y as i128 * SCALE as i128, len) as i64,
            z: div_floor(self.z as i128 * SCALE as i128, len) as i64,
        }
    }

    /// Removes from `self` its component along the direction `w`.
    pub fn gram_schmidt(self, w: NormalizedVector) -> (r: Self)
        requires
            self.in_world(),
            w.in_world(),
        ensures
            r.x == self.x - w.x * self.dot_spec(w) / (SCALE as int * SCALE as int),
            r.y == self.y - w.y * self.dot_spec(w) / (SCALE as int * SCALE as int),
            r.z == self.z - w.z * self.dot_spec(w) / (SCALE as int * SCALE as int),
    {
        let d = self.dot(w);
        proof {
            lemma_world_dot_bound(self, w);
            let mw = WORLD as int;
            let md = 3 * (WORLD as int) * (WORLD as int);
            lemma_mul_mag(w.x as int, d as int, mw, md);
            lemma_mul_mag(w.y as int, d as int, mw, md);
            lemma_mul_mag(w.z as int, d as int, mw, md);
            let ms = WORLD as int * WORLD as int;
            let unit = SCALE as int * SCALE as int;
            assert(mw * md <= ms * unit) by (nonlinear_arith)
                requires
                    mw == WORLD as int && md == 3 * (WORLD as int) * (WORLD as int) && ms
                        == WORLD as int * WORLD as int && unit == SCALE as int * SCALE as int,
            ;
            lemma_div_shrink(w.x as int * d as int, unit, ms);
            lemma_div_shrink(w.y as int * d as int, unit, ms);
            lemma_div_shrink(w.z as int * d as int, unit, ms);
        }
        let px = div_floor(w.x as i128 * d, (SCALE as i128) * (SCALE as i128)) as i64;
        let py = div_floor(w.y as i128 * d, (SCALE as i128) * (SCALE as i128)) as i64;
        let pz = div_floor(w.z as i128 * d, (SCALE as i128) * (SCALE as i128)) as i64;
        BaseVector { x: self.x - px, y: self.y - py, z: self.z - pz }
    }

    /// The cross product, scaled back down to fixed point.
    pub fn cross(self, other: Self) -> (r: Self)
        requires
            self.bounded_spec(2 * WORLD as int),
            other.bounded_spec(2 * WORLD as int),
        ensures
            r == self.cross_spec(other),
            r.x == (self.y * other.z - self.z * other.y) / (SCALE as int),
            r.y == (self.z * other.x - self.x * other.z) / (SCALE as int),
            r.z == (self.x * other.y - self.y * other.x) / (SCALE as int),
            r.bounded_spec(0x8000_0000_0000),
    {
        proof {
            let mw = 2 * WORLD as int;
            lemma_mul_mag(self.y as int, other.z as int, mw, mw);
            lemma_mul_mag(self.z as int, other.y as int, mw, mw);
            lemma_mul_mag(self.z as int, other.x as int, mw, mw);
            lemma_mul_mag(self.x as int, other.z as int, mw, mw);
            lemma_mul_mag(self.x as int, other.y as int, mw, mw);
            lemma_mul_mag(self.y as int, other.x as int, mw, mw);
            let m = 0x2000_0000_0000int;
            assert(2 * (mw * mw) <= m * SCALE) by (nonlinear_arith)
                requires
                    mw == 2 * WORLD as int && m == 0x2000_0000_0000,
            ;
            lemma_div_shrink(
                self.y as int * other.z as int - self.z as int * other.y as int,
                SCALE as int,
                m,
            );
            lemma_div_shrink(
                self.z as int * other.x as int - self.x as int * other.z as int,
                SCALE as int,
                m,
            );
            lemma_div_shrink(
                self.x as int * other.y as int - self.y as int * other.x as int,
                SCALE as int,
                m,
            );
        }
        BaseVector {
            x: div_floor(
                self.y as i128 * other.z as i128 - self.z as i128 * other.y as i128,
                SCALE as i128,
            ) as i64,
            y: div_floor(
                self.z as i128 * other.x as i128 - self.x as i128 * other.z as i128,
                SCALE as i128,
            ) as i64,
            z: div_floor(
                self.x as i128 * other.y as i128 - self.y as i128 * other.x as i128,
                SCALE as i128,
            ) as i64,
        }
    }

    /// Whether the squared length is within `NORM_TOLERANCE` of one.
    pub fn is_normalized(&self) -> (r: bool)
        requires
            self.in_world(),
        ensures
            r == (SCALE as int * SCALE as int - NORM_TOLERANCE <= self.dot_spec(*self)
                <= SCALE as int * SCALE as int + NORM_TOLERANCE),
    {
        let ls = self.length_squared();
        let unit: i128 = (SCALE as i128) * (SCALE as i128);
        unit - (NORM_TOLERANCE as i128) <= ls && ls <= unit + (NORM_TOLERANCE as i128)
    }

    /// Whether every component is smaller than `NEAR_ZERO` in magnitude.
    pub fn near_zero(&self) -> (r: bool)
        ensures
            r == (-NEAR_ZERO < self.x < NEAR_ZERO && -NEAR_ZERO < self.y < NEAR_ZERO && -NEAR_ZERO
                < self.z < NEAR_ZERO),
    {
        -NEAR_ZERO < self.x && self.x < NEAR_ZERO && -NEAR_ZERO < self.y && self.y < NEAR_ZERO
            && -NEAR_ZERO < self.z && self.z < NEAR_ZERO
    }
}

/// Tolerance on the squared length of a unit vector.
pub const NORM_TOLERANCE: i64 = 0x200000;

/// Below this fixed-point magnitude a component counts as vanishing.
pub const NEAR_ZERO: i64 = 66;

/// No component of a vector exceeds the rounded-down length of the vector.
pub proof fn lemma_component_le_length(x: int, l: int, ls: int)
    requires
        l >= 0,
        ls < (l + 1) * (l + 1),
        x * x <= ls,
    ensures
        -l <= x <= l,
{
    assert(-l <= x <= l) by (nonlinear_arith)
        requires
            l >= 0,
            ls < (l + 1) * (l + 1),
            x * x <= ls,
    ;
}

/// The dot product of two world vectors is at most three squared world
/// coordinates in magnitude.
pub proof fn lemma_world_dot_bound(a: BaseVector, b: BaseVector)
    requires
        a.in_world(),
        b.in_world(),
    ensures
        -3 * (WORLD as int) * (WORLD as int) <= a.dot_spec(b) <= 3 * (WORLD as int) * (WORLD as int),
{
    assert(-3 * (WORLD as int) * (WORLD as int) <= a.x * b.x + a.y * b.y + a.z * b.z <= 3 * (
    WORLD as int) * (WORLD as int)) by (nonlinear_arith)
        requires
            -WORLD <= a.x <= WORLD && -WORLD <= a.y <= WORLD && -WORLD <= a.z <= WORLD,
            -WORLD <= b.x <= WORLD && -WORLD <= b.y <= WORLD && -WORLD <= b.z <= WORLD,
    ;
}

impl BaseVector {
    /// Element-wise minimum, as a specification value.
    pub open spec fn min_spec(self, other: Self) -> Self {
        BaseVector {
            x: if self.x <= other.x { self.x } else { other.x },
            y: if self.y <= other.y { self.y } else { other.y },
            z: if self.z <= other.z { self.z } else { other.z },
        }
    }

    /// Element-wise maximum, as a specification value.
    pub open spec fn max_spec(self, other: Self) -> Self {
        BaseVector {
            x: if self.x >= other.x { self.x } else { other.x },
            y: if self.y >= other.y { self.y } else { other.y },
            z: if self.z >= other.z { self.z } else { other.z },
        }
    }
}

impl BaseVector {
    /// Combines `self` with `other` component by component, using `f`.
    pub fn combine<F: Fn(i64, i64) -> i64>(self, other: &Self, f: F) -> (r: Self)
        requires
            forall|a: i64, b: i64| #[trigger] f.requires((a, b)),
        ensures
            f.ensures((self.x, other.x), r.x),
            f.ensures((self.y, other.y), r.y),
            f.ensures((self.z, other.z), r.z),
    {
        BaseVector { x: f(self.x, other.x), y: f(self.y, other.y), z: f(self.z, other.z) }
    }
}

impl Vector {
    /// Element-wise minimum.
    pub fn min(self, other: &Self) -> (r: Self)
        ensures
            r == self.min_spec(*other),
    {
        BaseVector {
            x: if self.x <= other.x { self.x } else { other.x },
            y: if self.y <= other.y { self.y } else { other.y },
            z: if self.z <= other.z { self.z } else { other.z },
        }
    }

    /// Element-wise maximum.
    pub fn max(self, other: &Self) -> (r: Self)
        ensures
            r == self.max_spec(*other),
    {
        BaseVector {
            x: if self.x >= other.x { self.x } else { other.x },
            y: if self.y >= other.y { self.y } else { other.y },
            z: if self.z >= other.z { self.z } else { other.z },
        }
    }
}

/// One output pixel, eight bits per channel.
#[derive(Clone, Copy, PartialEq, Eq, Structural, Debug)]
pub struct Pixel {
    pub r: u8,
    pub g: u8,
    pub b: u8,
}

impl Color {
    /// Gamma-two correction: the square root of each unit-range channel,
    /// back in fixed point.
    pub fn color_correct(self) -> (r: Self)
        requires
            0 <= self.x <= SCALE,
            0 <= self.y <= SCALE,
            0 <= self.z <= SCALE,
        ensures
            r.x == sqrt_floor(self.x * SCALE),
            r.y == sqrt_floor(self.y * SCALE),
            r.z == sqrt_floor(self.z * SCALE),
            0 <= r.x <= SCALE && 0 <= r.y <= SCALE && 0 <= r.z <= SCALE,
    {
        proof {
            lemma_mul_mag(self.x as int, SCALE as int, SCALE as int, SCALE as int);
            lemma_mul_mag(self.y as int, SCALE as int, SCALE as int, SCALE as int);
            lemma_mul_mag(self.z as int, SCALE as int, SCALE as int, SCALE as int);
            lemma_gamma_in_unit(self.x as int);
            lemma_gamma_in_unit(self.y as int);
            lemma_gamma_in_unit(self.z as int);
        }
        let rx = isqrt_i128(self.x as i128 * SCALE as i128) as i64;
        let ry = isqrt_i128(self.y as i128 * SCALE as i128) as i64;
        let rz = isqrt_i128(self.z as i128 * SCALE as i128) as i64;
        BaseVector { x: rx, y: ry, z: rz }
    }

    /// Converts a natural (byte) color to a unit-range fixed-point color.
    pub fn to_float_color(p: Pixel) -> (r: Color)
        ensures
            r.x == p.r * SCALE / 255,
            r.y == p.g * SCALE / 255,
            r.z == p.b * SCALE / 255,
            0 <= r.x <= SCALE && 0 <= r.y <= SCALE && 0 <= r.z <= SCALE,
    {
        proof {
            lemma_byte_to_unit(p.r as int);
            lemma_byte_to_unit(p.g as int);
            lemma_byte_to_unit(p.b as int);
        }
        BaseVector {
            x: ((p.r as u64 * SCALE as u64) / 255) as i64,
            y: ((p.g as u64 * SCALE as u64) / 255) as i64,
            z: ((p.b as u64 * SCALE as u64) / 255) as i64,
        }
    }

    /// Converts a unit-range fixed-point color to a natural (byte) color.
    pub fn to_natural_color(self) -> (r: Pixel)
        requires
            0 <= self.x <= SCALE,
            0 <= self.y <= SCALE,
            0 <= self.z <= SCALE,
        ensures
            r.r == self.x * 255 / (SCALE as int),
            r.g == self.y * 255 / (SCALE as int),
            r.b == self.z * 255 / (SCALE as int),
    {
        proof {
            lemma_unit_to_byte(self.x as int);
            lemma_unit_to_byte(self.y as int);
            lemma_unit_to_byte(self.z as int);
        }
        Pixel {
            r: ((self.x as u64 * 255) / SCALE as u64) as u8,
            g: ((self.y as u64 * 255) / SCALE as u64) as u8,
            b: ((self.z as u64 * 255) / SCALE as u64) as u8,
        }
    }
}

/// The gamma-corrected channel stays in the unit range.
proof fn lemma_gamma_in_unit(c: int)
    requires
        0 <= c <= SCALE,
    ensures
        0 <= sqrt_floor(c * SCALE) <= SCALE,
        c * SCALE >= 0,
{
    lemma_mul_mag(c, SCALE as int, SCALE as int, SCALE as int);
    assert(c * SCALE >= 0) by (nonlinear_arith)
        requires
            0 <= c,
    ;
    lemma_sqrt_floor_exists(c * SCALE);
    let s = sqrt_floor(c * SCALE);
    assert(s <= SCALE) by (nonlinear_arith)
        requires
            s >= 0,
            s * s <= c * SCALE,
            c <= SCALE,
            SCALE == 65536,
    ;
}

/// A byte scales into the unit range.
proof fn lemma_byte_to_unit(b: int)
    requires
        0 <= b <= 255,
    ensures
        0 <= b * SCALE <= 255 * (SCALE as int),
        0 <= b * SCALE / 255 <= SCALE,
{
    lemma_mul_mag(b, SCALE as int, 255, SCALE as int);
    assert(0 <= b * SCALE) by (nonlinear_arith)
        requires
            0 <= b,
    ;
    vstd::arithmetic::div_mod::lemma_div_pos_is_pos(b * SCALE, 255);
    assert(b * SCALE <= SCALE * 255) by (nonlinear_arith)
        requires
            0 <= b <= 255,
    ;
    lemma_div_shrink(b * SCALE, 255, SCALE as int);
}

/// A unit-range channel scales into a byte.
proof fn lemma_unit_to_byte(c: int)
    requires
        0 <= c <= SCALE,
    ensures
        0 <= c * 255 <= 255 * (SCALE as int),
        0 <= c * 255 / (SCALE as int) <= 255,
{
    lemma_mul_mag(c, 255, SCALE as int, 255);
    assert(0 <= c * 255 && c * 255 <= 255 * (SCALE as int)) by (nonlinear_arith)
        requires
            0 <= c <= SCALE,
    ;
    vstd::arithmetic::div_mod::lemma_div_pos_is_pos(c * 255, SCALE as int);
    lemma_div_shrink(c * 255, SCALE as int, 255);
}

impl NormalizedVector {
    /// What `reflect` returns, as a specification value.
    pub open spec fn reflect_spec(self, normal: Self) -> Self {
        let unit = SCALE as int * SCALE as int;
        BaseVector {
            x: (self.x - 2 * normal.x * self.dot_spec(normal) / unit) as i64,
            y: (self.y - 2 * normal.y * self.dot_spec(normal) / unit) as i64,
            z: (self.z - 2 * normal.z * self.dot_spec(normal) / unit) as i64,
        }
    }

    /// Wraps components as a direction without checking their length.
    pub fn new_unchecked(x: i64, y: i64, z: i64) -> (r: Self)
        ensures
            r == (BaseVector { x, y, z }),
    {
        BaseVector { x, y, z }
    }

    /// The reflection of `self` about `normal`:
    /// `self - normal * 2 * (self . normal) / SCALE^2`.
    pub fn reflect(self, normal: Self) -> (r: Self)
        requires
            self.bounded_spec(2 * SCALE as int),
            normal.bounded_spec(SCALE as int),
        ensures
            r == self.reflect_spec(normal),
            r.x == self.x - 2 * normal.x * self.dot_spec(normal) / (SCALE as int * SCALE as int),
            r.y == self.y - 2 * normal.y * self.dot_spec(normal) / (SCALE as int * SCALE as int),
            r.z == self.z - 2 * normal.z * self.dot_spec(normal) / (SCALE as int * SCALE as int),
            r.bounded_spec(16 * SCALE as int),
    {
        let dn = self.dot(normal);
        proof {
            lemma_mul_mag(self.x as int, normal.x as int, 131072, 65536);
            lemma_mul_mag(self.y as int, normal.y as int, 131072, 65536);
            lemma_mul_mag(self.z as int, normal.z as int, 131072, 65536);
            lemma_mul_mag(2 * normal.x as int, dn as int, 131072, 25769803776);
            lemma_mul_mag(2 * normal.y as int, dn as int, 131072, 25769803776);
            lemma_mul_mag(2 * normal.z as int, dn as int, 131072, 25769803776);
            lemma_div_shrink(2 * normal.x as int * dn as int, SCALE as int * SCALE as int, 786432);
            lemma_div_shrink(2 * normal.y as int * dn as int, SCALE as int * SCALE as int, 786432);
            lemma_div_shrink(2 * normal.z as int * dn as int, SCALE as int * SCALE as int, 786432);
        }
        let unit = (SCALE as i128) * (SCALE as i128);
        BaseVector {
            x: self.x - div_floor(2 * normal.x as i128 * dn, unit) as i64,
            y: self.y - div_floor(2 * normal.y as i128 * dn, unit) as i64,
            z: self.z - div_floor(2 * normal.z as i128 * dn, unit) as i64,
        }
    }
}

impl NormalizedVector {
    /// Two directions that, together with `self`, form a basis: the branchless
    /// construction from the sign of the z component. The results follow the
    /// stated fixed-point formulas exactly; like every rounded construction
    /// here they are orthonormal up to rounding.
    pub fn coordinate_system(self) -> (r: [NormalizedVector; 2])
        requires
            self.bounded_spec(SCALE as int),
        ensures
            ({
                let denom: int = if self.z >= 0 {
                    SCALE + self.z
                } else {
                    SCALE - self.z
                };
                let q = (SCALE as int * SCALE) / denom;
                let a: int = if self.z >= 0 {
                    -q
                } else {
                    q
                };
                let b = self.x * self.y * a / (SCALE as int * SCALE);
                let ex = self.x * self.x * a / (SCALE as int * SCALE);
                let ey = self.y * self.y * a / (SCALE as int * SCALE);
                if self.z >= 0 {
                    r[0].x == SCALE + ex && r[0].y == b && r[0].z == -self.x && r[1].x == b
                        && r[1].y == SCALE + ey && r[1].z == -self.y
                } else {
                    r[0].x == SCALE - ex && r[0].y == -b && r[0].z == self.x && r[1].x == b
                        && r[1].y == -SCALE + ey && r[1].z == -self.y
                }
            }),
    {
        let positive = self.z >= 0;
        let denom: i64 = if positive {
            SCALE + self.z
        } else {
            SCALE - self.z
        };
        proof {
            lemma_div_shrink(SCALE as int * SCALE, denom as int, SCALE as int);
            vstd::arithmetic::div_mod::lemma_div_pos_is_pos(SCALE as int * SCALE, denom as int);
        }
        let q = div_floor((SCALE as i128) * (SCALE as i128), denom as i128) as i64;
        let a = if positive {
            -q
        } else {
            q
        };
        proof {
            lemma_mul_mag(self.x as int, self.y as int, SCALE as int, SCALE as int);
            lemma_mul_mag(self.x as int, self.x as int, SCALE as int, SCALE as int);
            lemma_mul_mag(self.y as int, self.y as int, SCALE as int, SCALE as int);
            lemma_mul_mag(
                self.x as int * self.y as int,
                a as int,
                4294967296,
                SCALE as int,
            );
            lemma_mul_mag(
                self.x as int * self.x as int,
                a as int,
                4294967296,
                SCALE as int,
            );
            lemma_mul_mag(
                self.y as int * self.y as int,
                a as int,
                4294967296,
                SCALE as int,
            );
            lemma_div_shrink(
                self.x as int * self.y as int * a as int,
                SCALE as int * SCALE as int,
                SCALE as int,
            );
            lemma_div_shrink(
                self.x as int * self.x as int * a as int,
                SCALE as int * SCALE as int,
                SCALE as int,
            );
            lemma_div_shrink(
                self.y as int * self.y as int * a as int,
                SCALE as int * SCALE as int,
                SCALE as int,
            );
        }
        let unit = (SCALE as i128) * (SCALE as i128);
        let b = div_floor(self.x as i128 * self.y as i128 * a as i128, unit) as i64;
        let ex = div_floor(self.x as i128 * self.x as i128 * a as i128, unit) as i64;
        let ey = div_floor(self.y as i128 * self.y as i128 * a as i128, unit) as i64;
        if positive {
            [
                BaseVector { x: SCALE + ex, y: b, z: -self.x },
                BaseVector { x: b, y: SCALE + ey, z: -self.y },
            ]
        } else {
            [
                BaseVector { x: SCALE - ex, y: -b, z: self.x },
                BaseVector { x: b, y: -SCALE + ey, z: -self.y },
            ]
        }
    }
}

/// Linear interpolation between two scalars of a type.
pub trait Lerp: Sized {
    /// Whether interpolation between `self` and `other` at `x` is defined.
    spec fn lerp_req(self, other: Self, x: i64) -> bool;

    /// What the interpolation returns.
    spec fn lerp_spec(self, other: Self, x: i64) -> Self;

    /// Interpolates from `self` (at `x` of zero) to `other` (at `x` of
    /// `SCALE`).
    fn lerp(&self, other: Self, x: i64) -> (r: Self)
        requires
            self.lerp_req(other, x),
        ensures
            r == self.lerp_spec(other, x),
    ;
}

impl Lerp for i64 {
    open spec fn lerp_req(self, other: i64, x: i64) -> bool {
        -WORLD <= self <= WORLD && -WORLD <= other <= WORLD && 0 <= x <= SCALE
    }

    open spec fn lerp_spec(self, other: i64, x: i64) -> i64 {
        (self + (other - self) * x / (SCALE as int)) as i64
    }

    fn lerp(&self, other: i64, x: i64) -> (r: i64) {
        proof {
            lemma_mul_mag(other as int - *self as int, x as int, 2 * WORLD as int, SCALE as int);
            lemma_div_shrink(
                (other as int - *self as int) * x as int,
                SCALE as int,
                2 * WORLD as int,
            );
        }
        *self + div_floor((other as i128 - *self as i128) * x as i128, SCALE as i128) as i64
    }
}

} // verus!
