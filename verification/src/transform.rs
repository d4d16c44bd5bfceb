//! Small square matrices and invertible transforms over fixed-point
//! scalars, three by three.
use vstd::prelude::*;

verus! {

use crate::vec3::{
    BaseVector,
    Point,
    SCALE,
    WORLD,
    div_floor,
    lemma_mul_mag,
    lemma_div_mag,
    lemma_div_shrink,
};

/// A three-by-three matrix of fixed-point scalars, row by row.
#[derive(Clone, Copy, Debug)]
pub struct SquareMatrix {
    pub m: [[i64; 3]; 3],
}

/// The bound matrix entries are kept under so that determinants and
/// products stay exact.
pub const MATRIX_BOUND: i64 = 0x1000_0000;

impl SquareMatrix {
    /// Whether every entry is in the working range.
    pub open spec fn wf(self) -> bool {
        forall|i: int, j: int|
            0 <= i < 3 && 0 <= j < 3 ==> -MATRIX_BOUND <= #[trigger] self.m[i][j] <= MATRIX_BOUND
    }

    /// The determinant, by expansion along the first row.
    pub open spec fn determinant_spec(self) -> int {
        let a = self.m[0][0];
        let b = self.m[0][1];
        let c = self.m[0][2];
        let d = self.m[1][0];
        let e = self.m[1][1];
        let f = self.m[1][2];
        let g = self.m[2][0];
        let h = self.m[2][1];
        let i = self.m[2][2];
        a * (e * i - f * h) - b * (d * i - f * g) + c * (d * h - e * g)
    }

    /// The cofactor of entry `(r, c)`: the signed determinant of the
    /// two-by-two matrix left after deleting row `r` and column `c`.
    pub open spec fn cofactor_spec(self, r: int, c: int) -> int {
        let r1 = if r == 0 {
            1int
        } else {
            0int
        };
        let r2 = if r == 2 {
            1int
        } else {
            2int
        };
        let c1 = if c == 0 {
            1int
        } else {
            0int
        };
        let c2 = if c == 2 {
            1int
        } else {
            2int
        };
        let minor = self.m[r1][c1] * self.m[r2][c2] - self.m[r1][c2] * self.m[r2][c1];
        if (r + c) % 2 == 0 {
            minor
        } else {
            -minor
        }
    }

    /// The identity, scaled to fixed point.
    pub fn identity() -> (r: Self)
        ensures
            r.m[0][0] == SCALE && r.m[0][1] == 0 && r.m[0][2] == 0,
            r.m[1][0] == 0 && r.m[1][1] == SCALE && r.m[1][2] == 0,
            r.m[2][0] == 0 && r.m[2][1] == 0 && r.m[2][2] == SCALE,
            r.wf(),
    {
        SquareMatrix { m: [[SCALE, 0, 0], [0, SCALE, 0], [0, 0, SCALE]] }
    }

    /// The zero matrix.
    pub fn zero() -> (r: Self)
        ensures
            forall|i: int, j: int| 0 <= i < 3 && 0 <= j < 3 ==> #[trigger] r.m[i][j] == 0,
            r.wf(),
    {
        SquareMatrix { m: [[0, 0, 0], [0, 0, 0], [0, 0, 0]] }
    }

    /// The determinant.
    pub fn determinant(self) -> (r: i128)
        requires
            self.wf(),
        ensures
            r == self.determinant_spec(),
            -(0x1000_0000_0000_0000_0000_0000) <= r <= 0x1000_0000_0000_0000_0000_0000,
    {
        proof {
            lemma_matrix_products(self);
        }
        let a = self.m[0][0] as i128;
        let b = self.m[0][1] as i128;
        let c = self.m[0][2] as i128;
        let d = self.m[1][0] as i128;
        let e = self.m[1][1] as i128;
        let f = self.m[1][2] as i128;
        let g = self.m[2][0] as i128;
        let h = self.m[2][1] as i128;
        let i = self.m[2][2] as i128;
        a * (e * i - f * h) - b * (d * i - f * g) + c * (d * h - e * g)
    }

    /// The transpose.
    pub fn transpose(&self) -> (r: Self)
        ensures
            forall|i: int, j: int|
                0 <= i < 3 && 0 <= j < 3 ==> #[trigger] r.m[i][j] == self.m[j][i],
    {
        SquareMatrix {
            m: [
                [self.m[0][0], self.m[1][0], self.m[2][0]],
                [self.m[0][1], self.m[1][1], self.m[2][1]],
                [self.m[0][2], self.m[1][2], self.m[2][2]],
            ],
        }
    }

    /// The inverse, scaled to fixed point: entry `(i, j)` is the cofactor
    /// of `(j, i)` times `SCALE` squared, divided by the determinant — the
    /// two scale factors undo the determinant's and cofactor's own scales,
    /// so that the identity inverts to itself. `None` when the matrix is
    /// singular.
    pub fn inverse(self) -> (r: Option<Self>)
        requires
            self.wf(),
        ensures
            (r is None) == (self.determinant_spec() == 0),
            r matches Some(inv) ==> forall|i: int, j: int|
                0 <= i < 3 && 0 <= j < 3 ==> #[trigger] inv.m[i][j] == scaled_ratio_spec(
                    self.cofactor_spec(j, i),
                    self.determinant_spec(),
                ),
    {
        let det = self.determinant();
        if det == 0 {
            return None;
        }
        let c00 = self.cofactor(0, 0);
        let c01 = self.cofactor(0, 1);
        let c02 = self.cofactor(0, 2);
        let c10 = self.cofactor(1, 0);
        let c11 = self.cofactor(1, 1);
        let c12 = self.cofactor(1, 2);
        let c20 = self.cofactor(2, 0);
        let c21 = self.cofactor(2, 1);
        let c22 = self.cofactor(2, 2);
        let inv = SquareMatrix {
            m: [
                [
                    scaled_ratio(c00, det),
                    scaled_ratio(c10, det),
                    scaled_ratio(c20, det),
                ],
                [
                    scaled_ratio(c01, det),
                    scaled_ratio(c11, det),
                    scaled_ratio(c21, det),
                ],
                [
                    scaled_ratio(c02, det),
                    scaled_ratio(c12, det),
                    scaled_ratio(c22, det),
                ],
            ],
        };
        Some(inv)
    }

    /// One cofactor.
    fn cofactor(&self, r: usize, c: usize) -> (out: i128)
        requires
            self.wf(),
            r < 3,
            c < 3,
        ensures
            out == self.cofactor_spec(r as int, c as int),
            -2 * (MATRIX_BOUND as int) * MATRIX_BOUND <= out <= 2 * (MATRIX_BOUND as int)
                * MATRIX_BOUND,
    {
        let r1: usize = if r == 0 {
            1
        } else {
            0
        };
        let r2: usize = if r == 2 {
            1
        } else {
            2
        };
        let c1: usize = if c == 0 {
            1
        } else {
            0
        };
        let c2: usize = if c == 2 {
            1
        } else {
            2
        };
        proof {
            lemma_mul_mag(
                self.m[r1 as int][c1 as int] as int,
                self.m[r2 as int][c2 as int] as int,
                MATRIX_BOUND as int,
                MATRIX_BOUND as int,
            );
            lemma_mul_mag(
                self.m[r1 as int][c2 as int] as int,
                self.m[r2 as int][c1 as int] as int,
                MATRIX_BOUND as int,
                MATRIX_BOUND as int,
            );
        }
        let minor = self.m[r1][c1] as i128 * self.m[r2][c2] as i128 - self.m[r1][c2] as i128
            * self.m[r2][c1] as i128;
        if (r + c) % 2 == 0 {
            minor
        } else {
            -minor
        }
    }

    /// Applies the matrix to a point: row times column, scaled back down.
    pub fn mul_point(self, rhs: Point) -> (r: Point)
        requires
            self.wf(),
            rhs.in_world(),
        ensures
            r.x == (self.m[0][0] * rhs.x + self.m[0][1] * rhs.y + self.m[0][2] * rhs.z) / (
            SCALE as int),
            r.y == (self.m[1][0] * rhs.x + self.m[1][1] * rhs.y + self.m[1][2] * rhs.z) / (
            SCALE as int),
            r.z == (self.m[2][0] * rhs.x + self.m[2][1] * rhs.y + self.m[2][2] * rhs.z) / (
            SCALE as int),
    {
        BaseVector {
            x: Self::row_dot(self.m[0][0], self.m[0][1], self.m[0][2], rhs),
            y: Self::row_dot(self.m[1][0], self.m[1][1], self.m[1][2], rhs),
            z: Self::row_dot(self.m[2][0], self.m[2][1], self.m[2][2], rhs),
        }
    }

    /// One row of a matrix-point product.
    fn row_dot(a: i64, b: i64, c: i64, rhs: Point) -> (r: i64)
        requires
            -MATRIX_BOUND <= a <= MATRIX_BOUND,
            -MATRIX_BOUND <= b <= MATRIX_BOUND,
            -MATRIX_BOUND <= c <= MATRIX_BOUND,
            rhs.in_world(),
        ensures
            r == (a * rhs.x + b * rhs.y + c * rhs.z) / (SCALE as int),
    {
        proof {
            lemma_mul_mag(a as int, rhs.x as int, MATRIX_BOUND as int, WORLD as int);
            lemma_mul_mag(b as int, rhs.y as int, MATRIX_BOUND as int, WORLD as int);
            lemma_mul_mag(c as int, rhs.z as int, MATRIX_BOUND as int, WORLD as int);
            lemma_div_shrink(
                a as int * rhs.x as int + b as int * rhs.y as int + c as int * rhs.z as int,
                SCALE as int,
                0x300_0000_0000_0000,
            );
        }
        div_floor(
            a as i128 * rhs.x as i128 + b as i128 * rhs.y as i128 + c as i128 * rhs.z as i128,
            SCALE as i128,
        ) as i64
    }
}

/// What one inverse entry is: the scaled cofactor over the determinant,
/// the division always taken with a positive divisor, the result
/// saturated to the entry type.
pub open spec fn scaled_ratio_spec(cof: int, det: int) -> int {
    let q = if det > 0 {
        cof * SCALE * SCALE / det
    } else {
        -(cof * SCALE * SCALE / (-det))
    };
    if q > i64::MAX {
        i64::MAX as int
    } else if q < i64::MIN {
        i64::MIN as int
    } else {
        q
    }
}

/// The scaled ratio of a cofactor to the determinant.
fn scaled_ratio(cof: i128, det: i128) -> (r: i64)
    requires
        det != 0,
        -2 * (MATRIX_BOUND as int) * MATRIX_BOUND <= cof <= 2 * (MATRIX_BOUND as int)
            * MATRIX_BOUND,
        -(0x1000_0000_0000_0000_0000_0000) <= det <= 0x1000_0000_0000_0000_0000_0000,
    ensures
        r == scaled_ratio_spec(cof as int, det as int),
{
    proof {
        assert(2 * (MATRIX_BOUND as int) * MATRIX_BOUND == 0x200_0000_0000_0000)
            by (nonlinear_arith)
            requires
                MATRIX_BOUND == 0x1000_0000,
        ;
        lemma_mul_mag(cof as int, SCALE as int, 0x200_0000_0000_0000, SCALE as int);
        lemma_mul_mag(
            cof as int * SCALE as int,
            SCALE as int,
            0x2_0000_0000_0000_0000_0000,
            SCALE as int,
        );
    }
    let num = cof * SCALE as i128 * SCALE as i128;
    let q = if det > 0 {
        proof {
            lemma_div_mag(num as int, det as int, 0x2_0000_0000_0000_0000_0000_0000_0000);
        }
        div_floor(num, det)
    } else {
        proof {
            lemma_div_mag(num as int, -det as int, 0x2_0000_0000_0000_0000_0000_0000_0000);
        }
        -div_floor(num, -det)
    };
    if q > i64::MAX as i128 {
        i64::MAX
    } else if q < i64::MIN as i128 {
        i64::MIN
    } else {
        q as i64
    }
}

/// Products of two and three bounded entries stay in range.
proof fn lemma_matrix_products(s: SquareMatrix)
    requires
        s.wf(),
    ensures
        forall|i1: int, j1: int, i2: int, j2: int|
            0 <= i1 < 3 && 0 <= j1 < 3 && 0 <= i2 < 3 && 0 <= j2 < 3 ==> -(MATRIX_BOUND as int)
                * MATRIX_BOUND <= #[trigger] (s.m[i1][j1] * s.m[i2][j2]) <= (MATRIX_BOUND as int)
                * MATRIX_BOUND,
        forall|i0: int, j0: int, x: int|
            0 <= i0 < 3 && 0 <= j0 < 3 && -2 * (MATRIX_BOUND as int) * MATRIX_BOUND <= x <= 2 * (
            MATRIX_BOUND as int) * MATRIX_BOUND ==> -2 * (MATRIX_BOUND as int) * MATRIX_BOUND
                * MATRIX_BOUND <= #[trigger] (s.m[i0][j0] * x) <= 2 * (MATRIX_BOUND as int)
                * MATRIX_BOUND * MATRIX_BOUND,
{
    assert forall|i1: int, j1: int, i2: int, j2: int|
        0 <= i1 < 3 && 0 <= j1 < 3 && 0 <= i2 < 3 && 0 <= j2 < 3 implies -(MATRIX_BOUND as int)
        * MATRIX_BOUND <= #[trigger] (s.m[i1][j1] * s.m[i2][j2]) <= (MATRIX_BOUND as int)
        * MATRIX_BOUND by {
        lemma_mul_mag(
            s.m[i1][j1] as int,
            s.m[i2][j2] as int,
            MATRIX_BOUND as int,
            MATRIX_BOUND as int,
        );
    }
    assert forall|i0: int, j0: int, x: int|
        0 <= i0 < 3 && 0 <= j0 < 3 && -2 * (MATRIX_BOUND as int) * MATRIX_BOUND <= x <= 2 * (
        MATRIX_BOUND as int) * MATRIX_BOUND implies -2 * (MATRIX_BOUND as int) * MATRIX_BOUND
        * MATRIX_BOUND <= #[trigger] (s.m[i0][j0] * x) <= 2 * (MATRIX_BOUND as int) * MATRIX_BOUND
        * MATRIX_BOUND by {
        assert(-2 * (MATRIX_BOUND as int) * MATRIX_BOUND * MATRIX_BOUND <= s.m[i0][j0] * x <= 2 * (
        MATRIX_BOUND as int) * MATRIX_BOUND * MATRIX_BOUND) by (nonlinear_arith)
            requires
                -MATRIX_BOUND <= s.m[i0][j0] <= MATRIX_BOUND,
                -2 * (MATRIX_BOUND as int) * MATRIX_BOUND <= x <= 2 * (MATRIX_BOUND as int)
                    * MATRIX_BOUND,
        ;
    }
}

/// A matrix paired with its inverse, so that inverting is a swap.
#[derive(Clone, Copy, Debug)]
pub struct Transform {
    pub m: SquareMatrix,
    pub inv_m: SquareMatrix,
}

impl Transform {
    /// Builds a transform from a matrix and its claimed inverse, checking
    /// that the claim holds up to the inverse's own rounding.
    pub fn new(m: SquareMatrix, inv_m: SquareMatrix) -> (r: Option<Self>)
        requires
            m.wf(),
        ensures
            r matches Some(t) ==> t.m == m && t.inv_m == inv_m,
            (r is Some) == (m.determinant_spec() != 0 && forall|i: int, j: int|
                0 <= i < 3 && 0 <= j < 3 ==> #[trigger] inv_m.m[i][j] == scaled_ratio_spec(
                    m.cofactor_spec(j, i),
                    m.determinant_spec(),
                )),
    {
        match m.inverse() {
            Some(computed) => {
                if matrices_eq(&computed, &inv_m) {
                    proof {
                        assert forall|i: int, j: int|
                            0 <= i < 3 && 0 <= j < 3 implies #[trigger] inv_m.m[i][j]
                            == scaled_ratio_spec(m.cofactor_spec(j, i), m.determinant_spec()) by {
                            assert(computed.m[i][j] == inv_m.m[i][j]);
                        }
                    }
                    Some(Transform { m, inv_m })
                } else {
                    proof {
                        let (i0, j0): (int, int) = choose|i: int, j: int|
                            0 <= i < 3 && 0 <= j < 3 && #[trigger] computed.m[i][j]
                                != inv_m.m[i][j];
                        assert(computed.m[i0][j0] == scaled_ratio_spec(
                            m.cofactor_spec(j0, i0),
                            m.determinant_spec(),
                        ));
                    }
                    None
                }
            },
            None => None,
        }
    }

    /// Builds a transform from a matrix and its inverse without checking.
    pub fn new_unchecked(m: SquareMatrix, inv_m: SquareMatrix) -> (r: Self)
        ensures
            r.m == m && r.inv_m == inv_m,
    {
        Transform { m, inv_m }
    }

    /// Swaps the matrix with its inverse.
    pub fn invert(self) -> (r: Self)
        ensures
            r.m == self.inv_m && r.inv_m == self.m,
    {
        Transform { m: self.inv_m, inv_m: self.m }
    }

    /// Transposes both matrices.
    pub fn transpose(self) -> (r: Self)
        ensures
            forall|i: int, j: int|
                0 <= i < 3 && 0 <= j < 3 ==> #[trigger] r.m.m[i][j] == self.m.m[j][i]
                    && #[trigger] r.inv_m.m[i][j] == self.inv_m.m[j][i],
    {
        Transform { m: self.m.transpose(), inv_m: self.inv_m.transpose() }
    }

    /// A homogeneous two-dimensional translation by `delta`, with its
    /// exact inverse.
    pub fn translate(delta: Point) -> (r: Self)
        requires
            -MATRIX_BOUND <= delta.x <= MATRIX_BOUND,
            -MATRIX_BOUND <= delta.y <= MATRIX_BOUND,
        ensures
            r.m == (SquareMatrix {
                m: [[SCALE, 0, delta.x], [0, SCALE, delta.y], [0, 0, SCALE]],
            }),
            r.inv_m == (SquareMatrix {
                m: [[SCALE, 0, (-delta.x) as i64], [0, SCALE, (-delta.y) as i64], [0, 0, SCALE]],
            }),
    {
        Transform {
            m: SquareMatrix { m: [[SCALE, 0, delta.x], [0, SCALE, delta.y], [0, 0, SCALE]] },
            inv_m: SquareMatrix {
                m: [[SCALE, 0, -delta.x], [0, SCALE, -delta.y], [0, 0, SCALE]],
            },
        }
    }

    /// A homogeneous two-dimensional scaling by `scale`, with its inverse
    /// rounded to fixed point.
    pub fn scale(scale: Point) -> (r: Self)
        requires
            1 <= scale.x <= MATRIX_BOUND,
            1 <= scale.y <= MATRIX_BOUND,
        ensures
            r.m == (SquareMatrix { m: [[scale.x, 0, 0], [0, scale.y, 0], [0, 0, SCALE]] }),
            r.inv_m.m[0][0] == SCALE as int * SCALE / (scale.x as int),
            r.inv_m.m[1][1] == SCALE as int * SCALE / (scale.y as int),
            r.inv_m.m[2][2] == SCALE,
            forall|i: int, j: int|
                0 <= i < 3 && 0 <= j < 3 && i != j ==> #[trigger] r.inv_m.m[i][j] == 0,
    {
        proof {
            lemma_div_shrink(SCALE as int * SCALE, scale.x as int, 0x1_0000_0000);
            lemma_div_shrink(SCALE as int * SCALE, scale.y as int, 0x1_0000_0000);
            vstd::arithmetic::div_mod::lemma_div_pos_is_pos(SCALE as int * SCALE, scale.x as int);
            vstd::arithmetic::div_mod::lemma_div_pos_is_pos(SCALE as int * SCALE, scale.y as int);
        }
        let ix = div_floor((SCALE as i128) * (SCALE as i128), scale.x as i128) as i64;
        let iy = div_floor((SCALE as i128) * (SCALE as i128), scale.y as i128) as i64;
        Transform {
            m: SquareMatrix { m: [[scale.x, 0, 0], [0, scale.y, 0], [0, 0, SCALE]] },
            inv_m: SquareMatrix { m: [[ix, 0, 0], [0, iy, 0], [0, 0, SCALE]] },
        }
    }
}

/// Compares two matrices entry by entry.
pub fn matrices_eq(a: &SquareMatrix, b: &SquareMatrix) -> (r: bool)
    ensures
        r == (forall|i: int, j: int|
            0 <= i < 3 && 0 <= j < 3 ==> #[trigger] a.m[i][j] == b.m[i][j]),
{
    let mut i: usize = 0;
    let mut eq = true;
    while i < 3
        invariant
            i <= 3,
            eq == (forall|i2: int, j2: int|
                0 <= i2 < i && 0 <= j2 < 3 ==> #[trigger] a.m[i2][j2] == b.m[i2][j2]),
        decreases 3 - i,
    {
        let row_eq = a.m[i][0] == b.m[i][0] && a.m[i][1] == b.m[i][1] && a.m[i][2] == b.m[i][2];
        proof {
            if !row_eq {
                assert(exists|j2: int|
                    0 <= j2 < 3 && #[trigger] a.m[i as int][j2] != b.m[i as int][j2]);
            }
        }
        eq = eq && row_eq;
        i = i + 1;
    }
    eq
}

} // verus!
