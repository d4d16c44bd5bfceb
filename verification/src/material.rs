//! Materials: how a surface scatters a ray, and where its color comes
//! from.
use vstd::prelude::*;

verus! {

use crate::{Ray, make_ray};
use crate::rng::Rng;
use crate::vec3::{
    BaseVector,
    Pixel,
    lemma_square_nonneg,
    Color,
    NormalizedVector,
    Point,
    Vector,
    SCALE,
    WORLD,
    div_floor,
    lemma_mul_mag,
    lemma_div_shrink,
};

/// How far along the surface normal a scattered ray starts, so that it
/// does not immediately hit the surface it left.
pub const SCATTER_OFFSET: i64 = 7;

/// A material: its scattering behaviour and its color source.
#[derive(Clone, Debug)]
pub struct Material {
    pub kind: MaterialKind,
    pub color_kind: ColorKind,
}

/// How a surface scatters light.
#[derive(Clone, Copy, PartialEq, Eq, Structural, Debug)]
pub enum MaterialKind {
    Lambertian,
    Metal { fuzziness: i64 },
    Glass { refractive_index: i64 },
    Light,
}

impl MaterialKind {
    pub open spec fn wf(self) -> bool {
        match self {
            MaterialKind::Metal { fuzziness } => 0 <= fuzziness <= SCALE,
            MaterialKind::Glass { refractive_index } => SCALE / 4 <= refractive_index <= 4 * SCALE,
            _ => true,
        }
    }
}

/// Where a surface's color comes from: one solid color, or a texture
/// sampled bilinearly.
#[derive(Clone, Debug)]
pub enum ColorKind {
    Solid(Color),
    Texture { width: usize, height: usize, data: Vec<Pixel> },
}

/// Whether a color has every channel in the unit range.
pub open spec fn color_in_unit(c: Color) -> bool {
    0 <= c.x <= SCALE && 0 <= c.y <= SCALE && 0 <= c.z <= SCALE
}

impl ColorKind {
    pub open spec fn wf(self) -> bool {
        match self {
            ColorKind::Solid(c) => color_in_unit(c),
            ColorKind::Texture { width, height, data } => 1 <= width <= 0x4000 && 1 <= height
                <= 0x4000 && data.len() == width * height,
        }
    }

    /// The color of the texel at `(x, y)`, scaled to the unit range.
    pub open spec fn texel_spec(data: Seq<Pixel>, width: int, x: int, y: int) -> Color {
        let p = data[y * width + x];
        BaseVector {
            x: (p.r * SCALE / 255) as i64,
            y: (p.g * SCALE / 255) as i64,
            z: (p.b * SCALE / 255) as i64,
        }
    }

    /// What `sample` returns on a texture, as a specification value: the
    /// bilinear blend of the four texels around the tiled, vertically
    /// flipped coordinates.
    pub open spec fn texture_sample_spec(
        data: Seq<Pixel>,
        width: int,
        height: int,
        coords: [i64; 2],
    ) -> Color {
        let u = coords[0] as int % (SCALE as int);
        let v = SCALE - coords[1] as int % (SCALE as int);
        let (x0, x1, dx) = Self::texel_axis_spec(u, width);
        let (y0, y1, dy) = Self::texel_axis_spec(v, height);
        let c00 = Self::texel_spec(data, width, x0, y0);
        let c01 = Self::texel_spec(data, width, x0, y1);
        let c10 = Self::texel_spec(data, width, x1, y0);
        let c11 = Self::texel_spec(data, width, x1, y1);
        lerp_color_spec(lerp_color_spec(c00, c10, dx), lerp_color_spec(c01, c11, dx), dy)
    }

    /// The color at texture coordinates `coords`, each coordinate taken
    /// modulo one to tile, the vertical axis flipped, sampled with
    /// bilinear interpolation; a solid color everywhere otherwise.
    pub fn sample(&self, coords: [i64; 2]) -> (r: Color)
        requires
            self.wf(),
            -0x100_0000_0000 <= coords[0] <= 0x100_0000_0000,
            -0x100_0000_0000 <= coords[1] <= 0x100_0000_0000,
        ensures
            color_in_unit(r),
            self matches ColorKind::Solid(c) ==> r == c,
            self matches ColorKind::Texture { width, height, data } ==> r
                == Self::texture_sample_spec(data@, width as int, height as int, coords),
    {
        match self {
            ColorKind::Solid(c) => *c,
            ColorKind::Texture { width, height, data } => {
                let u = crate::shapes::rem_euclid(coords[0], SCALE);
                let v0 = crate::shapes::rem_euclid(coords[1], SCALE);
                let v = SCALE - v0;
                let w = *width;
                let h = *height;
                let (x0, x1, dx) = Self::texel_axis(u, w);
                let (y0, y1, dy) = Self::texel_axis(v, h);
                proof {
                    lemma_mul_mag(y0 as int, w as int, 0x4000, 0x4000);
                    lemma_mul_mag(y1 as int, w as int, 0x4000, 0x4000);
                    lemma_texel_index(x0 as int, y0 as int, w as int, h as int);
                    lemma_texel_index(x0 as int, y1 as int, w as int, h as int);
                    lemma_texel_index(x1 as int, y0 as int, w as int, h as int);
                    lemma_texel_index(x1 as int, y1 as int, w as int, h as int);
                }
                let c00 = Self::texel(data, w, x0, y0);
                let c01 = Self::texel(data, w, x0, y1);
                let c10 = Self::texel(data, w, x1, y0);
                let c11 = Self::texel(data, w, x1, y1);
                let c0 = lerp_color(c00, c10, dx);
                let c1 = lerp_color(c01, c11, dx);
                lerp_color(c0, c1, dy)
            },
        }
    }

    /// The width, height and payload offset the header of a P6 byte
    /// stream holds: the two digit runs after the magic number, and the
    /// position one past the maximum-value line.
    pub open spec fn ppm_header(bytes: Seq<u8>) -> (int, int, int) {
        let stop_w = digit_run_end(bytes, 3);
        let stop_h = digit_run_end(bytes, stop_w + 1);
        (
            digits_value(bytes, 3, stop_w),
            digits_value(bytes, stop_w + 1, stop_h),
            stop_h + 1 + 4,
        )
    }

    /// Whether the bytes are a P6 portable pixmap this library reads: the
    /// magic number, two in-range dimensions each ended by one byte, the
    /// maximum channel value 255 ended by one byte, and three payload
    /// bytes per pixel.
    pub open spec fn ppm_valid(bytes: Seq<u8>) -> bool {
        let stop_w = digit_run_end(bytes, 3);
        let stop_h = digit_run_end(bytes, stop_w + 1);
        let (w, h, base) = Self::ppm_header(bytes);
        &&& bytes.len() >= 2 && bytes[0] == 80 && bytes[1] == 54
        &&& 3 < bytes.len() && stop_w > 3 && stop_w < bytes.len()
        &&& stop_w + 1 < bytes.len() && stop_h > stop_w + 1 && stop_h < bytes.len()
        &&& 1 <= w <= 0x4000 && 1 <= h <= 0x4000
        &&& bytes.len() >= 4 && stop_h + 1 <= bytes.len() - 4
        &&& bytes[stop_h + 1] == 50 && bytes[stop_h + 2] == 53 && bytes[stop_h + 3] == 53
        &&& bytes.len() - base >= 3 * w * h
    }

    /// Parses a binary (P6) portable-pixmap image into a texture: exactly
    /// when the bytes satisfy `ppm_valid`, the result holds the header's
    /// dimensions and one pixel per three payload bytes, in order.
    pub fn texture_from_ppm_p6(contents: &Vec<u8>) -> (r: Option<ColorKind>)
        ensures
            (r is Some) == Self::ppm_valid(contents@),
            r matches Some(ck) ==> ck.wf() && ({
                let (w, h, base) = Self::ppm_header(contents@);
                ck matches ColorKind::Texture { width, height, data } && width == w && height == h
                    && data@.len() == w * h && forall|i: int|
                    0 <= i < data@.len() ==> #[trigger] data@[i] == (Pixel {
                        r: contents@[base + 3 * i],
                        g: contents@[base + 3 * i + 1],
                        b: contents@[base + 3 * i + 2],
                    })
            }),
    {
        if contents.len() < 2 || contents[0] != 80 || contents[1] != 54 {
            return None;
        }
        let (width, after_width) = match parse_number(contents, 3, 0x4000) {
            Some(pair) => pair,
            None => {
                return None;
            },
        };
        let (height, after_height) = match parse_number(contents, after_width, 0x4000) {
            Some(pair) => pair,
            None => {
                return None;
            },
        };
        if width < 1 || height < 1 {
            return None;
        }
        // the maximum channel value, which must be 255
        if contents.len() < 4 || after_height > contents.len() - 4 || contents[after_height] != 50
            || contents[after_height + 1] != 53 || contents[after_height + 2] != 53 {
            return None;
        }
        let base = after_height + 4;
        proof {
            lemma_mul_mag(width as int, height as int, 0x4000, 0x4000);
        }
        let pixels = width * height;
        proof {
            lemma_mul_mag(pixels as int, 3, 0x1000_0000, 3);
            assert(3 * (width as int) * (height as int) == 3 * (pixels as int))
                by (nonlinear_arith)
                requires
                    pixels as int == width as int * height as int,
            ;
        }
        if contents.len() < base || contents.len() - base < 3 * pixels {
            return None;
        }
        let mut data: Vec<Pixel> = Vec::new();
        let mut i: usize = 0;
        while i < pixels
            invariant
                data@.len() == i <= pixels,
                base + 3 * pixels <= contents@.len(),
                contents@.len() <= usize::MAX,
                pixels <= 0x1000_0000,
                forall|k: int|
                    0 <= k < i ==> #[trigger] data@[k] == (Pixel {
                        r: contents@[base + 3 * k],
                        g: contents@[base + 3 * k + 1],
                        b: contents@[base + 3 * k + 2],
                    }),
            decreases pixels - i,
        {
            proof {
                lemma_mul_mag(i as int, 3, 0x1000_0000, 3);
                assert(3 * (i as int) + 3 <= 3 * (pixels as int)) by (nonlinear_arith)
                    requires
                        i < pixels,
                ;
            }
            let at = base + 3 * i;
            data.push(Pixel { r: contents[at], g: contents[at + 1], b: contents[at + 2] });
            i = i + 1;
        }
        Some(ColorKind::Texture { width, height, data })
    }

    /// Reads one texel, scaled to the unit range.
    fn texel(data: &Vec<Pixel>, width: usize, x: usize, y: usize) -> (r: Color)
        requires
            x < width,
            width <= 0x4000,
            y <= 0x4000,
            y * width + x < data@.len(),
        ensures
            r == Self::texel_spec(data@, width as int, x as int, y as int),
            color_in_unit(r),
    {
        proof {
            lemma_mul_mag(y as int, width as int, 0x4000, 0x4000);
        }
        let p = data[y * width + x];
        let r = ((p.r as u64 * SCALE as u64) / 255) as i64;
        let g = ((p.g as u64 * SCALE as u64) / 255) as i64;
        let b = ((p.b as u64 * SCALE as u64) / 255) as i64;
        proof {
            assert(p.r as int * SCALE as int / 255 <= SCALE) by (nonlinear_arith)
                requires
                    p.r <= 255,
            ;
            assert(p.g as int * SCALE as int / 255 <= SCALE) by (nonlinear_arith)
                requires
                    p.g <= 255,
            ;
            assert(p.b as int * SCALE as int / 255 <= SCALE) by (nonlinear_arith)
                requires
                    p.b <= 255,
            ;
        }
        BaseVector { x: r, y: g, z: b }
    }

    /// What `texel_axis` returns, as a specification value: the index of
    /// the texel at or below the scaled coordinate, its clamped neighbour,
    /// and the fractional offset between them.
    pub open spec fn texel_axis_spec(e: int, extent: int) -> (int, int, int) {
        let e0 = e * (extent - 1) / (SCALE as int);
        let e1 = if e0 + 1 < extent {
            e0 + 1
        } else {
            extent - 1
        };
        (e0, e1, e * (extent - 1) - e0 * SCALE)
    }

    /// Maps a unit-range coordinate onto a texel index pair and the
    /// fractional offset between them.
    fn texel_axis(e: i64, extent: usize) -> (r: (usize, usize, i64))
        requires
            0 <= e <= SCALE,
            1 <= extent <= 0x4000,
        ensures
            r.0 < extent,
            r.1 < extent,
            0 <= r.2 <= SCALE,
            ({
                let (e0, e1, de) = Self::texel_axis_spec(e as int, extent as int);
                r.0 == e0 && r.1 == e1 && r.2 == de
            }),
    {
        proof {
            lemma_mul_mag(e as int, extent as int - 1, SCALE as int, 0x4000);
            lemma_div_shrink(e as int * (extent as int - 1), SCALE as int, 0x4000);
            vstd::arithmetic::div_mod::lemma_div_pos_is_pos(
                e as int * (extent as int - 1),
                SCALE as int,
            );
            assert(e as int * (extent as int - 1) <= SCALE as int * (extent as int - 1))
                by (nonlinear_arith)
                requires
                    0 <= e <= SCALE && extent >= 1,
            ;
            lemma_div_shrink(
                SCALE as int * (extent as int - 1),
                SCALE as int,
                extent as int - 1,
            );
            vstd::arithmetic::div_mod::lemma_div_is_ordered(
                e as int * (extent as int - 1),
                SCALE as int * (extent as int - 1),
                SCALE as int,
            );
        }
        let scaled = (e as i128) * (extent as i128 - 1);
        let e0 = div_floor(scaled, SCALE as i128) as i64;
        let e0u = e0 as usize;
        let e1 = if e0u + 1 < extent {
            e0u + 1
        } else {
            extent - 1
        };
        let de = (scaled - (e0 as i128) * (SCALE as i128)) as i64;
        proof {
            vstd::arithmetic::div_mod::lemma_fundamental_div_mod(scaled as int, SCALE as int);
            assert(scaled as int - (scaled as int / SCALE as int) * SCALE as int == scaled as int
                % SCALE as int) by (nonlinear_arith)
                requires
                    scaled as int == SCALE as int * (scaled as int / SCALE as int) + scaled as int
                        % SCALE as int,
            ;
        }
        (e0u, e1, de)
    }
}

/// Whether a byte is a decimal digit.
pub open spec fn is_digit(b: u8) -> bool {
    48 <= b <= 57
}

/// Where the run of decimal digits starting at `from` ends: the first
/// position at or after `from` holding no digit, or the end of the bytes.
pub open spec fn digit_run_end(bytes: Seq<u8>, from: int) -> int
    decreases bytes.len() - from,
    when 0 <= from <= bytes.len()
{
    if from == bytes.len() || !is_digit(bytes[from]) {
        from
    } else {
        digit_run_end(bytes, from + 1)
    }
}

/// The decimal value of the digits in `bytes[from..to]`.
pub open spec fn digits_value(bytes: Seq<u8>, from: int, to: int) -> int
    decreases to - from,
{
    if to <= from {
        0
    } else {
        digits_value(bytes, from, to - 1) * 10 + (bytes[to - 1] - 48)
    }
}

/// A run of digits followed by a terminator ends exactly at the
/// terminator.
proof fn lemma_digit_run_end(bytes: Seq<u8>, from: int, at: int)
    requires
        0 <= from <= at <= bytes.len(),
        forall|k: int| from <= k < at ==> is_digit(#[trigger] bytes[k]),
        at == bytes.len() || !is_digit(bytes[at]),
    ensures
        digit_run_end(bytes, from) == at,
    decreases at - from,
{
    if from < at {
        lemma_digit_run_end(bytes, from + 1, at);
    }
}

/// Reads the run of decimal digits starting at `from` and returns its
/// value and the position one past the byte that ended the run. Nothing
/// comes back without at least one digit, without a byte after the run,
/// or when the value exceeds `cap`.
fn parse_number(contents: &Vec<u8>, from: usize, cap: usize) -> (r: Option<(usize, usize)>)
    requires
        cap <= 0x8000,
    ensures
        ({
            let stop = digit_run_end(contents@, from as int);
            let value = digits_value(contents@, from as int, stop);
            &&& (r is Some <==> from < contents@.len() && stop > from && stop < contents@.len()
                && value <= cap)
            &&& (r matches Some(pair) ==> pair.0 == value && pair.1 == stop + 1)
        }),
{
    if from >= contents.len() {
        return None;
    }
    let mut at = from;
    let mut value: usize = 0;
    while at < contents.len() && contents[at] >= 48 && contents[at] <= 57
        invariant
            from <= at <= contents@.len(),
            cap <= 0x8000,
            value <= cap + 1,
            forall|k: int| from <= k < at ==> is_digit(#[trigger] contents@[k]),
            digits_value(contents@, from as int, at as int) <= cap ==> value == digits_value(
                contents@,
                from as int,
                at as int,
            ),
            digits_value(contents@, from as int, at as int) > cap ==> value == cap + 1,
        decreases contents@.len() - at,
    {
        proof {
            lemma_digits_grow(contents@, from as int, at as int);
        }
        value = value * 10 + ((contents[at] - 48) as usize);
        if value > cap {
            value = cap + 1;
        }
        at = at + 1;
    }
    proof {
        lemma_digit_run_end(contents@, from as int, at as int);
    }
    if at == from || at >= contents.len() || value > cap {
        None
    } else {
        Some((value, at + 1))
    }
}

/// Appending one digit multiplies the value by ten and adds the digit.
proof fn lemma_digits_grow(bytes: Seq<u8>, from: int, at: int)
    requires
        0 <= from <= at < bytes.len(),
        forall|k: int| from <= k < at ==> is_digit(#[trigger] bytes[k]),
        is_digit(bytes[at]),
    ensures
        digits_value(bytes, from, at + 1) == digits_value(bytes, from, at) * 10 + (bytes[at] - 48),
        digits_value(bytes, from, at + 1) >= digits_value(bytes, from, at),
        digits_value(bytes, from, at) >= 0,
{
    lemma_digits_nonneg(bytes, from, at);
    let dv = digits_value(bytes, from, at);
    assert(dv * 10 + (bytes[at] - 48) >= dv) by (nonlinear_arith)
        requires
            dv >= 0,
            bytes[at] >= 48,
    ;
}

/// The value of a run of digits is never negative.
proof fn lemma_digits_nonneg(bytes: Seq<u8>, from: int, to: int)
    requires
        forall|k: int| from <= k < to ==> is_digit(#[trigger] bytes[k]),
    ensures
        digits_value(bytes, from, to) >= 0,
    decreases to - from,
{
    if to > from {
        lemma_digits_nonneg(bytes, from, to - 1);
        let dv = digits_value(bytes, from, to - 1);
        assert(dv * 10 + (bytes[to - 1] - 48) >= 0) by (nonlinear_arith)
            requires
                dv >= 0,
                bytes[to - 1] >= 48,
        ;
    }
}

/// What `lerp_color` returns, as a specification value.
pub open spec fn lerp_color_spec(a: Color, b: Color, t: int) -> Color {
    BaseVector {
        x: (a.x + (b.x - a.x) * t / (SCALE as int)) as i64,
        y: (a.y + (b.y - a.y) * t / (SCALE as int)) as i64,
        z: (a.z + (b.z - a.z) * t / (SCALE as int)) as i64,
    }
}

/// Interpolates two unit-range colors: `a + (b - a) * t / SCALE`,
/// channel-wise, staying in the unit range.
pub fn lerp_color(a: Color, b: Color, t: i64) -> (r: Color)
    requires
        color_in_unit(a),
        color_in_unit(b),
        0 <= t <= SCALE,
    ensures
        r == lerp_color_spec(a, b, t as int),
        r.x == a.x + (b.x - a.x) * t / (SCALE as int),
        r.y == a.y + (b.y - a.y) * t / (SCALE as int),
        r.z == a.z + (b.z - a.z) * t / (SCALE as int),
        color_in_unit(r),
{
    proof {
        lemma_lerp_unit(a.x as int, b.x as int, t as int);
        lemma_lerp_unit(a.y as int, b.y as int, t as int);
        lemma_lerp_unit(a.z as int, b.z as int, t as int);
    }
    BaseVector {
        x: a.x + div_floor((b.x as i128 - a.x as i128) * t as i128, SCALE as i128) as i64,
        y: a.y + div_floor((b.y as i128 - a.y as i128) * t as i128, SCALE as i128) as i64,
        z: a.z + div_floor((b.z as i128 - a.z as i128) * t as i128, SCALE as i128) as i64,
    }
}

/// Interpolation between unit-range values stays in the unit range.
proof fn lemma_lerp_unit(a: int, b: int, t: int)
    requires
        0 <= a <= SCALE,
        0 <= b <= SCALE,
        0 <= t <= SCALE,
    ensures
        0 <= a + (b - a) * t / (SCALE as int) <= SCALE,
        -(SCALE as int) * SCALE <= (b - a) * t <= SCALE as int * SCALE,
{
    lemma_mul_mag(b - a, t, SCALE as int, SCALE as int);
    vstd::arithmetic::div_mod::lemma_fundamental_div_mod((b - a) * t, SCALE as int);
    assert(0 <= a + (b - a) * t / (SCALE as int) <= SCALE) by (nonlinear_arith)
        requires
            0 <= a <= SCALE,
            0 <= b <= SCALE,
            0 <= t <= SCALE,
            (b - a) * t == SCALE as int * ((b - a) * t / (SCALE as int)) + ((b - a) * t) % (
            SCALE as int),
            0 <= ((b - a) * t) % (SCALE as int) < SCALE,
    ;
}

/// A texel index stays within the texture's data.
proof fn lemma_texel_index(x: int, y: int, w: int, h: int)
    requires
        0 <= x < w,
        0 <= y < h,
        w >= 1,
    ensures
        0 <= y * w + x < h * w,
{
    assert(0 <= y * w + x < h * w) by (nonlinear_arith)
        requires
            0 <= x < w && 0 <= y < h && w >= 1,
    ;
}

/// Where a scattered ray starts: the hit point nudged along the surface
/// normal by `SCATTER_OFFSET`.
pub open spec fn scatter_origin_spec(hit_point: Point, normal: NormalizedVector) -> Point {
    BaseVector {
        x: (hit_point.x + normal.x * SCATTER_OFFSET / (SCALE as int)) as i64,
        y: (hit_point.y + normal.y * SCATTER_OFFSET / (SCALE as int)) as i64,
        z: (hit_point.z + normal.z * SCATTER_OFFSET / (SCALE as int)) as i64,
    }
}

/// What `random_direction` returns, given the generator's state: a
/// direction drawn from the unit cube and normalized, or the vertical
/// axis when the draw degenerates.
pub open spec fn random_direction_spec(state: u64) -> NormalizedVector {
    let s1 = crate::rng::rng_next_state(state);
    let s2 = crate::rng::rng_next_state(s1);
    let v = BaseVector {
        x: (crate::rng::rng_output(state) / 0x1_0000_0000_0000 - (SCALE as int) / 2) as i64,
        y: (crate::rng::rng_output(s1) / 0x1_0000_0000_0000 - (SCALE as int) / 2) as i64,
        z: (crate::rng::rng_output(s2) / 0x1_0000_0000_0000 - (SCALE as int) / 2) as i64,
    };
    if v.dot_spec(v) == 0 {
        BaseVector { x: 0, y: 0, z: SCALE }
    } else {
        v.normalize_spec()
    }
}

/// The direction a Lambertian surface scatters into, given the
/// generator's state: the normal plus a random direction, normalized, or
/// the normal itself when the sum vanishes.
pub open spec fn lambertian_direction_spec(normal: NormalizedVector, state: u64)
    -> NormalizedVector {
    let rand = random_direction_spec(state);
    let sum = BaseVector {
        x: (normal.x + rand.x) as i64,
        y: (normal.y + rand.y) as i64,
        z: (normal.z + rand.z) as i64,
    };
    if -crate::vec3::NEAR_ZERO < sum.x < crate::vec3::NEAR_ZERO && -crate::vec3::NEAR_ZERO < sum.y
        < crate::vec3::NEAR_ZERO && -crate::vec3::NEAR_ZERO < sum.z < crate::vec3::NEAR_ZERO {
        normal
    } else if sum.dot_spec(sum) > 0 {
        sum.normalize_spec()
    } else {
        normal
    }
}

/// What became of a ray at a surface: swallowed, scattered onward, or
/// terminated at a light. A scattered or lit ray is tinted by the
/// material's own color source.
pub enum Scatter {
    Absorbed,
    Scattered(Ray),
    Light,
}

impl Material {
    pub open spec fn wf(self) -> bool {
        self.kind.wf() && self.color_kind.wf()
    }

    pub fn new(kind: MaterialKind, color_kind: ColorKind) -> (r: Self)
        ensures
            r.kind == kind && r.color_kind == color_kind,
    {
        Material { kind, color_kind }
    }

    /// Returns the scattered ray, if the ray was not absorbed or stopped
    /// at a light.
    pub fn scatter(&self, ray: &Ray, normal: NormalizedVector, hit_point: Point, rng: &mut Rng) -> (
        r: Scatter)
        requires
            self.wf(),
            ray.wf(),
            normal.bounded_spec(SCALE as int),
            hit_point.bounded_spec(2 * WORLD as int),
        ensures
            r matches Scatter::Scattered(ray2) ==> ray2.wf() && ray2.origin == scatter_origin_spec(
                hit_point,
                normal,
            ),
            (r is Light) == (self.kind is Light),
            self.kind is Lambertian ==> {
                let d = lambertian_direction_spec(normal, old(rng).0);
                &&& ((r is Scattered) <==> (Ray {
                    origin: scatter_origin_spec(hit_point, normal),
                    direction: d,
                }).wf())
                &&& (r matches Scatter::Scattered(ray2) ==> ray2.direction == d)
            },
            self.kind == (MaterialKind::Metal { fuzziness: 0i64 }) ==> {
                let d = ray.direction.reflect_spec(normal);
                &&& ((r is Scattered) <==> (Ray {
                    origin: scatter_origin_spec(hit_point, normal),
                    direction: d,
                }).wf())
                &&& (r matches Scatter::Scattered(ray2) ==> ray2.direction == d)
            },
            self.kind matches MaterialKind::Metal { fuzziness } ==> (fuzziness != 0 ==> (r matches
                Scatter::Scattered(ray2) ==> ray2.direction.dot_spec(normal) > 0)),
    {
        proof {
            lemma_mul_mag(normal.x as int, SCATTER_OFFSET as int, SCALE as int, 7);
            lemma_mul_mag(normal.y as int, SCATTER_OFFSET as int, SCALE as int, 7);
            lemma_mul_mag(normal.z as int, SCATTER_OFFSET as int, SCALE as int, 7);
            lemma_div_shrink(normal.x as int * SCATTER_OFFSET as int, SCALE as int, 7);
            lemma_div_shrink(normal.y as int * SCATTER_OFFSET as int, SCALE as int, 7);
            lemma_div_shrink(normal.z as int * SCATTER_OFFSET as int, SCALE as int, 7);
        }
        let offset = BaseVector {
            x: hit_point.x + div_floor(
                normal.x as i128 * SCATTER_OFFSET as i128,
                SCALE as i128,
            ) as i64,
            y: hit_point.y + div_floor(
                normal.y as i128 * SCATTER_OFFSET as i128,
                SCALE as i128,
            ) as i64,
            z: hit_point.z + div_floor(
                normal.z as i128 * SCATTER_OFFSET as i128,
                SCALE as i128,
            ) as i64,
        };
        match self.kind {
            MaterialKind::Lambertian => {
                let rand = random_direction(rng);
                let dir = BaseVector {
                    x: normal.x + rand.x,
                    y: normal.y + rand.y,
                    z: normal.z + rand.z,
                };
                let dir = if dir.near_zero() {
                    normal
                } else {
                    let ls = dir.length_squared();
                    if ls > 0 {
                        dir.normalize()
                    } else {
                        normal
                    }
                };
                match make_ray(offset, dir) {
                    Some(r2) => Scatter::Scattered(r2),
                    None => Scatter::Absorbed,
                }
            },
            MaterialKind::Metal { fuzziness } => {
                let reflected = ray.direction.reflect(normal);
                if fuzziness == 0 {
                    match make_ray(offset, reflected) {
                        Some(r2) => Scatter::Scattered(r2),
                        None => Scatter::Absorbed,
                    }
                } else {
                    let rand = random_direction(rng);
                    proof {
                        lemma_mul_mag(rand.x as int, fuzziness as int, SCALE as int, SCALE as int);
                        lemma_mul_mag(rand.y as int, fuzziness as int, SCALE as int, SCALE as int);
                        lemma_mul_mag(rand.z as int, fuzziness as int, SCALE as int, SCALE as int);
                        lemma_div_shrink(rand.x as int * fuzziness as int, SCALE as int, SCALE as int);
                        lemma_div_shrink(rand.y as int * fuzziness as int, SCALE as int, SCALE as int);
                        lemma_div_shrink(rand.z as int * fuzziness as int, SCALE as int, SCALE as int);
                    }
                    let dir = BaseVector {
                        x: reflected.x + div_floor(
                            rand.x as i128 * fuzziness as i128,
                            SCALE as i128,
                        ) as i64,
                        y: reflected.y + div_floor(
                            rand.y as i128 * fuzziness as i128,
                            SCALE as i128,
                        ) as i64,
                        z: reflected.z + div_floor(
                            rand.z as i128 * fuzziness as i128,
                            SCALE as i128,
                        ) as i64,
                    };
                    let ls = dir.length_squared();
                    if ls == 0 {
                        return Scatter::Absorbed;
                    }
                    let dir = dir.normalize();
                    let into_surface = dir.dot(normal) <= 0;
                    if into_surface {
                        return Scatter::Absorbed;
                    }
                    match make_ray(offset, dir) {
                        Some(r2) => Scatter::Scattered(r2),
                        None => Scatter::Absorbed,
                    }
                }
            },
            MaterialKind::Glass { refractive_index } => {
                let outward = ray.direction.dot(normal) < 0;
                let n = if outward {
                    normal
                } else {
                    BaseVector { x: -normal.x, y: -normal.y, z: -normal.z }
                };
                let index = if outward {
                    // entering: invert the relative index
                    proof {
                        let unit = SCALE as int * SCALE as int;
                        assert(unit <= 262144 * refractive_index as int && unit >= 16384
                            * refractive_index as int) by (nonlinear_arith)
                            requires
                                unit == SCALE as int * SCALE as int,
                                SCALE == 65536,
                                16384 <= refractive_index as int <= 262144,
                        ;
                        lemma_div_shrink(unit, refractive_index as int, 262144);
                        lemma_div_lower(unit, refractive_index as int, 16384);
                    }
                    let idx = div_floor(
                        (SCALE as i128) * (SCALE as i128),
                        refractive_index as i128,
                    );
                    idx as i64
                } else {
                    refractive_index
                };
                let d = ray.direction;
                let minus_d = BaseVector { x: -d.x, y: -d.y, z: -d.z };
                let cos_raw = minus_d.dot(n);
                let cos = {
                    proof {
                        lemma_mul_mag(minus_d.x as int, n.x as int, 131072, 65536);
                        lemma_mul_mag(minus_d.y as int, n.y as int, 131072, 65536);
                        lemma_mul_mag(minus_d.z as int, n.z as int, 131072, 65536);
                        lemma_div_shrink(cos_raw as int, SCALE as int, 393216);
                    }
                    let c = div_floor(cos_raw, SCALE as i128);
                    let c = c as i64;
                    if c > SCALE {
                        SCALE
                    } else if c < 0 {
                        0
                    } else {
                        c
                    }
                };
                let sin2 = {
                    proof {
                        lemma_mul_mag(cos as int, cos as int, SCALE as int, SCALE as int);
                    }
                    let c2 = (cos as i128) * (cos as i128) / (SCALE as i128);
                    SCALE as i128 - c2
                };
                // total internal reflection, or a random reflectance draw
                let sin2_scaled = {
                    proof {
                        lemma_mul_mag(index as int, index as int, 4 * SCALE as int, 4 * SCALE as int);
                    }
                    (index as i128) * (index as i128) / (SCALE as i128)
                };
                proof {
                    lemma_mul_mag(sin2_scaled as int, sin2 as int, 0x10_0000_0000, 0x2_0000);
                }
                let must_reflect = sin2_scaled * sin2 > (SCALE as i128) * (SCALE as i128);
                let draw = rng.unit();
                let reflectance = schlick(cos, index);
                let dir = if must_reflect || draw < reflectance {
                    d.reflect(n)
                } else {
                    refract(d, n, cos, index)
                };
                let ls = dir.length_squared();
                if ls == 0 {
                    return Scatter::Absorbed;
                }
                let dir = dir.normalize();
                match make_ray(offset, dir) {
                    Some(r2) => Scatter::Scattered(r2),
                    None => Scatter::Absorbed,
                }
            },
            MaterialKind::Light => Scatter::Light,
        }
    }
}

/// A direction drawn nearly uniformly from the unit cube and normalized;
/// the vertical axis when the draw degenerates.
pub fn random_direction(rng: &mut Rng) -> (r: NormalizedVector)
    ensures
        r == random_direction_spec(old(rng).0),
        final(rng).0 == crate::rng::rng_next_state(
            crate::rng::rng_next_state(crate::rng::rng_next_state(old(rng).0)),
        ),
        r.bounded_spec(SCALE as int),
{
    let x = rng.unit() - SCALE / 2;
    let y = rng.unit() - SCALE / 2;
    let z = rng.unit() - SCALE / 2;
    let v = BaseVector { x, y, z };
    let ls = v.length_squared();
    if ls == 0 {
        BaseVector { x: 0, y: 0, z: SCALE }
    } else {
        v.normalize()
    }
}

/// The refracted direction through a surface with relative index `index`,
/// by the decomposition into components perpendicular and parallel to the
/// normal. Degenerate draws come out as the zero vector, which the caller
/// rejects.
fn refract(d: NormalizedVector, n: NormalizedVector, cos: i64, index: i64) -> (r: Vector)
    requires
        d.bounded_spec(2 * SCALE as int),
        n.bounded_spec(SCALE as int),
        0 <= cos <= SCALE,
        SCALE / 64 <= index <= 16 * SCALE,
    ensures
        r.bounded_spec(0x8000_0000_0000),
{
    proof {
        lemma_mul_mag(n.x as int, cos as int, SCALE as int, SCALE as int);
        lemma_mul_mag(n.y as int, cos as int, SCALE as int, SCALE as int);
        lemma_mul_mag(n.z as int, cos as int, SCALE as int, SCALE as int);
        lemma_div_shrink(n.x as int * cos as int, SCALE as int, SCALE as int);
        lemma_div_shrink(n.y as int * cos as int, SCALE as int, SCALE as int);
        lemma_div_shrink(n.z as int * cos as int, SCALE as int, SCALE as int);
    }
    let px = d.x + div_floor(n.x as i128 * cos as i128, SCALE as i128) as i64;
    let py = d.y + div_floor(n.y as i128 * cos as i128, SCALE as i128) as i64;
    let pz = d.z + div_floor(n.z as i128 * cos as i128, SCALE as i128) as i64;
    proof {
        lemma_mul_mag(px as int, index as int, 3 * SCALE as int, 16 * SCALE as int);
        lemma_mul_mag(py as int, index as int, 3 * SCALE as int, 16 * SCALE as int);
        lemma_mul_mag(pz as int, index as int, 3 * SCALE as int, 16 * SCALE as int);
        assert((3 * SCALE as int) * (16 * SCALE as int) <= (48 * SCALE as int) * (SCALE as int))
            by (nonlinear_arith);
        lemma_div_shrink(px as int * index as int, SCALE as int, 48 * SCALE as int);
        lemma_div_shrink(py as int * index as int, SCALE as int, 48 * SCALE as int);
        lemma_div_shrink(pz as int * index as int, SCALE as int, 48 * SCALE as int);
    }
    let perp_x = div_floor(px as i128 * index as i128, SCALE as i128) as i64;
    let perp_y = div_floor(py as i128 * index as i128, SCALE as i128) as i64;
    let perp_z = div_floor(pz as i128 * index as i128, SCALE as i128) as i64;
    let perp = BaseVector { x: perp_x, y: perp_y, z: perp_z };
    let pls = perp.length_squared();
    let unit2 = (SCALE as i128) * (SCALE as i128);
    let disc = unit2 - pls / unit2 * unit2;
    if disc <= 0 {
        return BaseVector { x: 0, y: 0, z: 0 };
    }
    let root = crate::vec3::isqrt_i128(disc);
    proof {
        assert(root * root <= disc ==> root <= 0x2_0000_0000) by (nonlinear_arith)
            requires
                disc <= (SCALE as i128) * (SCALE as i128),
                0 <= root,
                root * root <= disc,
        ;
        lemma_mul_mag(n.x as int, root as int, SCALE as int, 0x2_0000_0000);
        lemma_mul_mag(n.y as int, root as int, SCALE as int, 0x2_0000_0000);
        lemma_mul_mag(n.z as int, root as int, SCALE as int, 0x2_0000_0000);
        lemma_div_shrink(n.x as int * root as int, SCALE as int, 0x2_0000_0000);
        lemma_div_shrink(n.y as int * root as int, SCALE as int, 0x2_0000_0000);
        lemma_div_shrink(n.z as int * root as int, SCALE as int, 0x2_0000_0000);
    }
    let par_x = div_floor(n.x as i128 * root, SCALE as i128) as i64;
    let par_y = div_floor(n.y as i128 * root, SCALE as i128) as i64;
    let par_z = div_floor(n.z as i128 * root, SCALE as i128) as i64;
    BaseVector { x: perp_x - par_x, y: perp_y - par_y, z: perp_z - par_z }
}

/// Schlick's approximation of reflectance, in the unit range.
fn schlick(cos: i64, index: i64) -> (r: i64)
    requires
        0 <= cos <= SCALE,
        SCALE / 64 <= index <= 16 * SCALE,
    ensures
        0 <= r <= SCALE,
{
    // r0 = ((1 - index) / (1 + index))^2 in fixed point
    let num = SCALE as i128 - index as i128;
    let den = SCALE as i128 + index as i128;
    proof {
        lemma_mul_mag(num as int, SCALE as int, 16 * SCALE as int, SCALE as int);
        assert(-((16 * SCALE as int) * den as int) <= num as int * SCALE as int <= (16
            * SCALE as int) * den as int) by (nonlinear_arith)
            requires
                -(16 * SCALE as int) <= num as int <= 16 * SCALE as int,
                den as int >= SCALE,
        ;
        lemma_div_shrink(num as int * SCALE as int, den as int, 16 * SCALE as int);
    }
    let ratio = div_floor(num * SCALE as i128, den) as i64;
    let r0 = {
        proof {
            lemma_mul_mag(ratio as int, ratio as int, 1048576, 1048576);
        }
        let q = div_floor(
            (ratio as i128) * (ratio as i128),
            (SCALE as i128) * (SCALE as i128),
        );
        if q > SCALE as i128 {
            SCALE
        } else if q < 0 {
            0
        } else {
            q as i64
        }
    };
    // (1 - cos)^5 in fixed point
    let m = SCALE - cos;
    proof {
        lemma_mul_mag(m as int, m as int, SCALE as int, SCALE as int);
        lemma_div_shrink(m as int * m as int, SCALE as int, SCALE as int);
        vstd::arithmetic::div_mod::lemma_div_pos_is_pos(m as int * m as int, SCALE as int);
        lemma_square_nonneg(m as int);
    }
    let m2 = div_floor((m as i128) * (m as i128), SCALE as i128) as i64;
    proof {
        lemma_mul_mag(m2 as int, m2 as int, SCALE as int, SCALE as int);
        lemma_div_shrink(m2 as int * m2 as int, SCALE as int, SCALE as int);
        vstd::arithmetic::div_mod::lemma_div_pos_is_pos(m2 as int * m2 as int, SCALE as int);
        lemma_square_nonneg(m2 as int);
    }
    let m4 = div_floor((m2 as i128) * (m2 as i128), SCALE as i128) as i64;
    proof {
        lemma_mul_mag(m4 as int, m as int, SCALE as int, SCALE as int);
        lemma_div_shrink(m4 as int * m as int, SCALE as int, SCALE as int);
    }
    let m5i = div_floor((m4 as i128) * (m as i128), SCALE as i128);
    let m5 = if m5i > SCALE as i128 {
        SCALE
    } else if m5i < 0 {
        0
    } else {
        m5i as i64
    };
    proof {
        lemma_mul_mag(SCALE as int - r0 as int, m5 as int, SCALE as int, SCALE as int);
        vstd::arithmetic::div_mod::lemma_div_pos_is_pos(
            (SCALE as int - r0 as int) * m5 as int,
            SCALE as int,
        );
        lemma_div_shrink((SCALE as int - r0 as int) * m5 as int, SCALE as int, SCALE as int);
    }
    let extra = div_floor((SCALE as i128 - r0 as i128) * m5 as i128, SCALE as i128) as i64;
    let r = r0 + extra;
    if r > SCALE {
        SCALE
    } else if r < 0 {
        0
    } else {
        r
    }
}

/// A dividend at least `m` times the divisor divides to at least `m`.
proof fn lemma_div_lower(n: int, d: int, m: int)
    requires
        d >= 1,
        n >= m * d,
    ensures
        n / d >= m,
{
    vstd::arithmetic::div_mod::lemma_fundamental_div_mod(n, d);
    assert(n / d >= m) by (nonlinear_arith)
        requires
            n == d * (n / d) + n % d,
            0 <= n % d < d,
            d >= 1,
            n >= m * d,
    ;
}

/// Checks the material invariant at run time.
pub fn check_material(m: &Material) -> (r: bool)
    ensures
        r == m.wf(),
{
    let kind_ok = match m.kind {
        MaterialKind::Metal { fuzziness } => 0 <= fuzziness && fuzziness <= SCALE,
        MaterialKind::Glass { refractive_index } => SCALE / 4 <= refractive_index
            && refractive_index <= 4 * SCALE,
        _ => true,
    };
    if !kind_ok {
        return false;
    }
    match &m.color_kind {
        ColorKind::Solid(c) => 0 <= c.x && c.x <= SCALE && 0 <= c.y && c.y <= SCALE && 0 <= c.z
            && c.z <= SCALE,
        ColorKind::Texture { width, height, data } => {
            if !(1 <= *width && *width <= 0x4000 && 1 <= *height && *height <= 0x4000) {
                return false;
            }
            proof {
                lemma_mul_mag(*width as int, *height as int, 0x4000, 0x4000);
            }
            data.len() == *width * *height
        },
    }
}

} // verus!
