//! A ray tracer core on fixed-point coordinates: bounding boxes, a
//! surface-area-heuristic bounding volume hierarchy, nearest-hit traversal,
//! and an incrementally accumulating renderer.
pub mod aabb;
pub mod bvh;
pub mod config;
pub mod convert;
pub mod indices;
pub mod material;
pub mod rng;
pub mod shapes;
pub mod transform;
pub mod vec3;

use vstd::prelude::*;

verus! {

use crate::bvh::{BvhNode, sub_hi, sub_lo, subtree_good, wf_shallow};
use crate::material::{ColorKind, Material, Scatter, color_in_unit, lerp_color};
use crate::rng::Rng;
use crate::shapes::{Intersects, Plane, Shape, Sphere, Triangle};
use crate::vec3::{
    BaseVector,
    Color,
    NormalizedVector,
    Pixel,
    Point,
    Vector,
    SCALE,
    WORLD,
    div_floor,
    lemma_mul_mag,
    lemma_div_mag,
    lemma_div_shrink,
};

/// A ray: a starting point and a direction of roughly unit length.
#[derive(Clone, Copy, PartialEq, Eq, Structural, Debug)]
pub struct Ray {
    pub origin: Point,
    pub direction: NormalizedVector,
}

impl Ray {
    /// The origin lies in the world and the direction is within a factor of
    /// two of unit length.
    pub open spec fn wf(self) -> bool {
        self.origin.in_world() && self.direction.bounded_spec(2 * SCALE as int)
            && (SCALE as int * SCALE as int) / 4 <= self.direction.dot_spec(self.direction) <= 16
            * (SCALE as int) * (SCALE as int)
    }

    pub fn new(origin: Point, direction: NormalizedVector) -> (r: Self)
        ensures
            r == (Ray { origin, direction }),
    {
        Ray { origin, direction }
    }
}

/// Builds a ray only when origin and direction meet the ray invariant.
pub fn make_ray(origin: Point, direction: NormalizedVector) -> (r: Option<Ray>)
    ensures
        match r {
            Some(ray) => ray.wf() && ray.origin == origin && ray.direction == direction,
            None => !(Ray { origin, direction }).wf(),
        },
{
    let ray = Ray { origin, direction };
    let in_origin = origin.x >= -WORLD && origin.x <= WORLD && origin.y >= -WORLD && origin.y
        <= WORLD && origin.z >= -WORLD && origin.z <= WORLD;
    let in_dir = direction.x >= -2 * SCALE && direction.x <= 2 * SCALE && direction.y >= -2 * SCALE
        && direction.y <= 2 * SCALE && direction.z >= -2 * SCALE && direction.z <= 2 * SCALE;
    if !in_origin || !in_dir {
        return None;
    }
    let d = direction.dot(direction);
    let unit: i128 = (SCALE as i128) * (SCALE as i128);
    if unit / 4 <= d && d <= 16 * unit {
        Some(ray)
    } else {
        None
    }
}

/// An in-memory raster of pixels, written in row order.
#[derive(Clone, Debug)]
pub struct Image {
    pub width: usize,
    pub height: usize,
    pub data: Vec<Pixel>,
}

impl Image {
    pub open spec fn wf(self) -> bool {
        self.data.len() == self.width * self.height
    }

    /// A black raster of the given dimensions.
    pub fn new(width: usize, height: usize) -> (r: Self)
        requires
            width <= 0x4000,
            height <= 0x4000,
        ensures
            r.wf(),
            r.width == width && r.height == height,
            forall|i: int| 0 <= i < r.data@.len() ==> r.data@[i] == (Pixel { r: 0, g: 0, b: 0 }),
    {
        proof {
            lemma_mul_mag(width as int, height as int, 0x4000, 0x4000);
        }
        let n = width * height;
        let mut data: Vec<Pixel> = Vec::new();
        let mut i: usize = 0;
        while i < n
            invariant
                data@.len() == i <= n,
                forall|k: int| 0 <= k < i ==> data@[k] == (Pixel { r: 0, g: 0, b: 0 }),
            decreases n - i,
        {
            data.push(Pixel { r: 0, g: 0, b: 0 });
            i = i + 1;
        }
        Image { width, height, data }
    }

    /// Read access to the raster.
    pub fn data(&self) -> (r: &Vec<Pixel>)
        ensures
            r == &self.data,
    {
        &self.data
    }
}

/// The chunk index that pixel `p` falls into when the raster is cut into
/// contiguous chunks of `size` pixels.
pub open spec fn chunk_of(p: int, size: int) -> int {
    p / size
}

/// The pixel range of chunk `i`: `[i * size, min((i + 1) * size, total))`.
pub fn chunk_range(total: usize, size: usize, i: usize) -> (r: (usize, usize))
    requires
        size >= 1,
        i * size <= total,
    ensures
        r.0 == i * size,
        r.1 == if i * size + size <= total {
            i * size + size
        } else {
            total as int
        },
        r.0 <= r.1 <= total,
{
    proof {
        lemma_mul_mag(i as int, size as int, 0x1_0000_0000_0000_0000, 0x1_0000_0000_0000_0000);
    }
    let start = i * size;
    let end = if total - start >= size {
        start + size
    } else {
        total
    };
    (start, end)
}

/// The number of chunks a raster of `total` pixels is cut into.
pub fn chunk_count(total: usize, size: usize) -> (r: usize)
    requires
        1 <= size <= 0x1000_0000,
        total <= 0x1000_0000,
    ensures
        r == (total + size - 1) as int / size as int,
        r * size >= total,
        total > 0 ==> (r - 1) * size < total,
{
    let r = (total + size - 1) / size;
    proof {
        vstd::arithmetic::div_mod::lemma_fundamental_div_mod(
            total as int + size as int - 1,
            size as int,
        );
        assert(r * size >= total && (total > 0 ==> (r - 1) * size < total)) by (nonlinear_arith)
            requires
                size >= 1,
                total as int + size as int - 1 == size as int * (r as int) + (total as int
                    + size as int - 1) % (size as int),
                0 <= (total as int + size as int - 1) % (size as int) < size as int,
    ;
    }
    r
}

/// Chunk disjointness: cutting `0..total` into chunks of `size` covers
/// every pixel exactly once — pixel `p` lies in the range of chunk
/// `p / size` and of no other.
pub proof fn lemma_chunk_partition(total: int, size: int, p: int)
    requires
        size >= 1,
        0 <= p < total,
    ensures
        ({
            let i = chunk_of(p, size);
            i * size <= p < i * size + size && 0 <= i && i * size < total && forall|i2: int|
                0 <= i2 && i2 != i ==> !(#[trigger] (i2 * size) <= p < i2 * size + size)
        }),
{
    vstd::arithmetic::div_mod::lemma_fundamental_div_mod(p, size);
    let i = p / size;
    assert(i * size <= p < i * size + size) by (nonlinear_arith)
        requires
            p == size * i + p % size,
            0 <= p % size < size,
    ;
    assert(0 <= i) by (nonlinear_arith)
        requires
            p >= 0 && size >= 1 && i * size <= p < i * size + size,
    ;
    assert forall|i2: int| 0 <= i2 && i2 != i implies !(#[trigger] (i2 * size) <= p < i2 * size
        + size) by {
        if i2 * size <= p < i2 * size + size {
            assert(i2 == i) by (nonlinear_arith)
                requires
                    i * size <= p < i * size + size,
                    i2 * size <= p < i2 * size + size,
                    size >= 1,
            ;
        }
    }
}

/// The running sums of sampled light for one pixel, one cell per channel,
/// together with how many samples went in. Averages are taken once, at
/// readout, so accumulating in batches loses nothing: see
/// `lemma_incremental_equivalence`. Keeping raw sums and gamma-correcting
/// once at readout keeps the running-mean invariant exact, where averaging
/// already-corrected sweeps would drift.
#[derive(Clone, Copy, PartialEq, Eq, Structural, Debug)]
pub struct ColorSum {
    pub r: i64,
    pub g: i64,
    pub b: i64,
    pub samples: usize,
}

impl ColorSum {
    pub open spec fn wf(self) -> bool {
        0 <= self.r <= self.samples * SCALE && 0 <= self.g <= self.samples * SCALE && 0 <= self.b
            <= self.samples * SCALE && self.samples <= 0x4000_0000
    }

    pub fn empty() -> (r: Self)
        ensures
            r == (ColorSum { r: 0, g: 0, b: 0, samples: 0 }),
            r.wf(),
    {
        ColorSum { r: 0, g: 0, b: 0, samples: 0 }
    }

    /// Folds one sample, a color with channels in `0..=SCALE`, into the sum.
    pub fn add_sample(&mut self, c: Color)
        requires
            old(self).wf(),
            old(self).samples < 0x4000_0000,
            0 <= c.x <= SCALE && 0 <= c.y <= SCALE && 0 <= c.z <= SCALE,
        ensures
            final(self).r == old(self).r + c.x,
            final(self).g == old(self).g + c.y,
            final(self).b == old(self).b + c.z,
            final(self).samples == old(self).samples + 1,
            final(self).wf(),
    {
        proof {
            let n = old(self).samples as int;
            lemma_mul_mag(n + 1, SCALE as int, 0x4000_0000, SCALE as int);
            assert(n * (SCALE as int) + SCALE as int == (n + 1) * (SCALE as int))
                by (nonlinear_arith);
        }
        self.r = self.r + c.x;
        self.g = self.g + c.y;
        self.b = self.b + c.z;
        self.samples = self.samples + 1;
    }

    /// Folds a whole batch of accumulated samples into the sum.
    pub fn add_batch(&mut self, other: ColorSum)
        requires
            old(self).wf(),
            other.wf(),
            old(self).samples + other.samples <= 0x4000_0000,
        ensures
            final(self).r == old(self).r + other.r,
            final(self).g == old(self).g + other.g,
            final(self).b == old(self).b + other.b,
            final(self).samples == old(self).samples + other.samples,
            final(self).wf(),
    {
        proof {
            let n = old(self).samples as int;
            let m = other.samples as int;
            lemma_mul_mag(n + m, SCALE as int, 0x4000_0000, SCALE as int);
            assert(n * (SCALE as int) + m * (SCALE as int) == (n + m) * (SCALE as int))
                by (nonlinear_arith);
        }
        self.r = self.r + other.r;
        self.g = self.g + other.g;
        self.b = self.b + other.b;
        self.samples = self.samples + other.samples;
    }

    /// The average color of the samples so far, rounded down per channel.
    pub fn average(&self) -> (c: Color)
        requires
            self.wf(),
            self.samples >= 1,
        ensures
            c.x == self.r as int / self.samples as int,
            c.y == self.g as int / self.samples as int,
            c.z == self.b as int / self.samples as int,
            0 <= c.x <= SCALE && 0 <= c.y <= SCALE && 0 <= c.z <= SCALE,
    {
        proof {
            lemma_div_mag(self.r as int, self.samples as int, 0x7FFF_FFFF_FFFF_FFFF);
            lemma_div_mag(self.g as int, self.samples as int, 0x7FFF_FFFF_FFFF_FFFF);
            lemma_div_mag(self.b as int, self.samples as int, 0x7FFF_FFFF_FFFF_FFFF);
            lemma_div_shrink(self.r as int, self.samples as int, SCALE as int);
            lemma_div_shrink(self.g as int, self.samples as int, SCALE as int);
            lemma_div_shrink(self.b as int, self.samples as int, SCALE as int);
            vstd::arithmetic::div_mod::lemma_div_pos_is_pos(self.r as int, self.samples as int);
            vstd::arithmetic::div_mod::lemma_div_pos_is_pos(self.g as int, self.samples as int);
            vstd::arithmetic::div_mod::lemma_div_pos_is_pos(self.b as int, self.samples as int);
        }
        BaseVector {
            x: div_floor(self.r as i128, self.samples as i128) as i64,
            y: div_floor(self.g as i128, self.samples as i128) as i64,
            z: div_floor(self.b as i128, self.samples as i128) as i64,
        }
    }
}

/// The channel totals of a sequence of samples.
pub open spec fn sweep_sum(samples: Seq<Color>) -> (int, int, int)
    decreases samples.len(),
{
    if samples.len() == 0 {
        (0, 0, 0)
    } else {
        let (r, g, b) = sweep_sum(samples.drop_last());
        (r + samples.last().x, g + samples.last().y, b + samples.last().z)
    }
}

/// Incremental equivalence: the samples of two sweeps, taken together,
/// total exactly what the two sweeps total separately. A pixel cell that
/// accumulates sweep by sweep through `add_batch` therefore ends in the
/// same state, and yields the same average, as one that accumulates every
/// sample in a single full sweep.
pub proof fn lemma_incremental_equivalence(a: Seq<Color>, b: Seq<Color>)
    ensures
        sweep_sum(a + b).0 == sweep_sum(a).0 + sweep_sum(b).0,
        sweep_sum(a + b).1 == sweep_sum(a).1 + sweep_sum(b).1,
        sweep_sum(a + b).2 == sweep_sum(a).2 + sweep_sum(b).2,
    decreases b.len(),
{
    if b.len() == 0 {
        assert(a + b =~= a);
    } else {
        lemma_incremental_equivalence(a, b.drop_last());
        assert((a + b).drop_last() =~= a + b.drop_last());
        assert((a + b).last() == b.last());
    }
}

/// The shape arrays of a scene, one per kind. The hierarchy builder
/// permutes each in place, so shape identity is by index afterward.
#[derive(Clone, Debug)]
pub struct Shapes {
    pub spheres: Vec<Sphere>,
    pub planes: Vec<Plane>,
    pub triangles: Vec<Triangle>,
}

impl Shapes {
    pub open spec fn wf(self) -> bool {
        (forall|j: int| 0 <= j < self.spheres@.len() ==> (#[trigger] self.spheres@[j]).wf())
            && (forall|j: int| 0 <= j < self.planes@.len() ==> (#[trigger] self.planes@[j]).wf())
            && (forall|j: int|
            0 <= j < self.triangles@.len() ==> (#[trigger] self.triangles@[j]).wf())
            && self.spheres@.len() <= 0x1000_0000 && self.planes@.len() <= 0x1000_0000
            && self.triangles@.len() <= 0x1000_0000
    }

    /// Whether every shape's material index resolves in a table of
    /// `materials` entries.
    pub open spec fn materials_in(self, materials: int) -> bool {
        (forall|j: int|
            0 <= j < self.spheres@.len() ==> (#[trigger] self.spheres@[j]).material_index
                < materials) && (forall|j: int|
            0 <= j < self.planes@.len() ==> (#[trigger] self.planes@[j]).material_index
                < materials) && (forall|j: int|
            0 <= j < self.triangles@.len() ==> (#[trigger] self.triangles@[j]).material_index
                < materials)
    }

    pub fn new(spheres: Vec<Sphere>, planes: Vec<Plane>, triangles: Vec<Triangle>) -> (r: Self)
        ensures
            r.spheres == spheres && r.planes == planes && r.triangles == triangles,
    {
        Shapes { spheres, planes, triangles }
    }
}

/// One flat node array per shape kind.
#[derive(Clone, Debug)]
pub struct Bvhs {
    pub spheres: Vec<BvhNode>,
    pub planes: Vec<BvhNode>,
    pub triangles: Vec<BvhNode>,
}

/// Whether `nodes` is a well-formed hierarchy over exactly `shapes`.
pub open spec fn bvh_over<T: Shape>(nodes: Seq<BvhNode>, shapes: Seq<T>) -> bool {
    nodes.len() >= 1 && wf_shallow(nodes) && subtree_good(nodes, 0, shapes) && sub_lo(nodes, 0)
        == 0 && sub_hi(nodes, 0) == shapes.len()
}

impl Bvhs {
    pub fn new(spheres: Vec<BvhNode>, planes: Vec<BvhNode>, triangles: Vec<BvhNode>) -> (r: Self)
        ensures
            r.spheres == spheres && r.planes == planes && r.triangles == triangles,
    {
        Bvhs { spheres, planes, triangles }
    }
}

/// The image plane: its top-left corner and its two edges, with the
/// raster resolution and sampling parameters.
#[derive(Clone, Copy, PartialEq, Eq, Structural, Debug)]
pub struct Screen {
    pub top_left: Point,
    pub top_edge: Vector,
    pub left_edge: Vector,
    pub resolution_width: usize,
    pub resolution_height: usize,
    pub samples_per_pixel: usize,
    pub max_bounces: usize,
}

impl Screen {
    pub open spec fn wf(self) -> bool {
        self.top_left.bounded_spec(WORLD as int / 4) && self.top_edge.bounded_spec(WORLD as int / 8)
            && self.left_edge.bounded_spec(WORLD as int / 8) && 2 <= self.resolution_width <= 0x4000
            && 2 <= self.resolution_height <= 0x4000 && 1 <= self.samples_per_pixel <= 0x4000
    }

    pub fn new(
        top_left: Point,
        top_edge: Vector,
        left_edge: Vector,
        resolution_width: usize,
        resolution_height: usize,
        samples_per_pixel: usize,
        max_bounces: usize,
    ) -> (r: Self)
        ensures
            r == (Screen {
                top_left,
                top_edge,
                left_edge,
                resolution_width,
                resolution_height,
                samples_per_pixel,
                max_bounces,
            }),
    {
        Screen {
            top_left,
            top_edge,
            left_edge,
            resolution_width,
            resolution_height,
            samples_per_pixel,
            max_bounces,
        }
    }
}

/// The eye point rays start from.
#[derive(Clone, Copy, PartialEq, Eq, Structural, Debug)]
pub struct Camera {
    pub position: Point,
}

impl Camera {
    pub fn new(position: Point) -> (r: Self)
        ensures
            r.position == position,
    {
        Camera { position }
    }
}

/// A scene ready to render: the screen and camera, the shapes, one
/// hierarchy per shape kind, and the material table. Immutable while
/// rendering.
#[derive(Clone, Debug)]
pub struct Scene {
    /// When set, the intended number of samples per sweep: a driver then
    /// calls `render_chunk` once per sweep and folds the sweeps with
    /// `ColorSum::add_batch`, which loses nothing over one full sweep.
    pub incremental: Option<usize>,
    /// When set, how many sweeps an earlier run already accumulated.
    pub continue_sampling: Option<usize>,
    pub screen: Screen,
    pub camera: Camera,
    pub shapes: Shapes,
    pub bvhs: Bvhs,
    pub materials: Vec<Material>,
}

/// The sky blend factor: the ray's upward component mapped to the unit
/// range and clamped.
pub open spec fn sky_blend_factor(dir: NormalizedVector) -> int {
    let raw = dir.y / 2 + SCALE / 2;
    if raw < 0 {
        0
    } else if raw > SCALE {
        SCALE as int
    } else {
        raw
    }
}

/// The sky color a missing ray samples: the horizon blue blended toward
/// white by the ray's upward component.
pub open spec fn sky_color_spec(dir: NormalizedVector) -> Color {
    let a = sky_blend_factor(dir);
    BaseVector {
        x: (13107 + (SCALE - 13107) * a / (SCALE as int)) as i64,
        y: (13107 + (SCALE - 13107) * a / (SCALE as int)) as i64,
        z: (52428 + (SCALE - 52428) * a / (SCALE as int)) as i64,
    }
}

impl Scene {
    /// Whether no shape of the scene intersects `ray`.
    pub open spec fn misses(self, ray: Ray) -> bool {
        (forall|j: int|
            0 <= j < self.shapes.spheres@.len() ==> (#[trigger] self.shapes.spheres@[j].hit_spec(
                ray,
            )) is None) && (forall|j: int|
            0 <= j < self.shapes.planes@.len() ==> (#[trigger] self.shapes.planes@[j].hit_spec(
                ray,
            )) is None) && (forall|j: int|
            0 <= j < self.shapes.triangles@.len() ==> (
            #[trigger] self.shapes.triangles@[j].hit_spec(ray)) is None)
    }

    pub open spec fn wf(self) -> bool {
        self.screen.wf() && self.camera.position.bounded_spec(WORLD as int / 4) && self.shapes.wf()
            && bvh_over(self.bvhs.spheres@, self.shapes.spheres@) && bvh_over(
            self.bvhs.planes@,
            self.shapes.planes@,
        ) && bvh_over(self.bvhs.triangles@, self.shapes.triangles@) && (forall|j: int|
            0 <= j < self.materials@.len() ==> (#[trigger] self.materials@[j]).wf())
            && self.shapes.materials_in(self.materials@.len() as int)
    }

    pub fn new(
        incremental: Option<usize>,
        continue_sampling: Option<usize>,
        screen: Screen,
        camera: Camera,
        bvhs: Bvhs,
        shapes: Shapes,
        materials: Vec<Material>,
    ) -> (r: Self)
        ensures
            r.incremental == incremental && r.continue_sampling == continue_sampling && r.screen
                == screen && r.camera == camera && r.bvhs == bvhs && r.shapes == shapes
                && r.materials == materials,
    {
        Scene { incremental, continue_sampling, screen, camera, shapes, bvhs, materials }
    }

    /// Follows one ray through up to `max_bounces` scatters and returns the
    /// sampled color, with channels in the unit range.
    pub fn ray_color(&self, ray: Ray, bvh_stack: &mut Vec<(i64, usize)>, rng: &mut Rng) -> (r:
        Color)
        requires
            self.wf(),
            ray.wf(),
        ensures
            color_in_unit(r),
            self.screen.max_bounces == 0 ==> r == (BaseVector { x: 0, y: 0, z: 0 }),
            self.screen.max_bounces >= 1 && self.misses(ray) ==> r == sky_color_spec(
                ray.direction,
            ),
    {
        if self.screen.max_bounces == 0 {
            // no bounce budget: no light is gathered
            return BaseVector { x: 0, y: 0, z: 0 };
        }
        let mut current = BaseVector { x: SCALE, y: SCALE, z: SCALE };
        let mut cur_ray = ray;
        let mut bounce: usize = 0;
        while bounce < self.screen.max_bounces
            invariant
                self.wf(),
                cur_ray.wf(),
                color_in_unit(current),
                self.screen.max_bounces >= 1,
                self.misses(ray) ==> cur_ray == ray && ((bounce == 0 && current == (BaseVector {
                    x: SCALE,
                    y: SCALE,
                    z: SCALE,
                })) || (bounce == self.screen.max_bounces && current == sky_color_spec(
                    ray.direction,
                ))),
            decreases self.screen.max_bounces - bounce,
        {
            let hit_s = BvhNode::closest_shape(&cur_ray, &self.shapes.spheres, &self.bvhs.spheres, bvh_stack);
            let hit_p = BvhNode::closest_shape(&cur_ray, &self.shapes.planes, &self.bvhs.planes, bvh_stack);
            let hit_t = BvhNode::closest_shape(
                &cur_ray,
                &self.shapes.triangles,
                &self.bvhs.triangles,
                bvh_stack,
            );
            // 0 = sphere, 1 = plane, 2 = triangle
            let mut nearest: Option<(i64, usize, u8)> = None;
            if let Some((t, j)) = hit_s {
                nearest = Some((t, j, 0));
            }
            if let Some((t, j)) = hit_p {
                let better = match nearest {
                    Some(b) => t < b.0,
                    None => true,
                };
                if better {
                    nearest = Some((t, j, 1));
                }
            }
            if let Some((t, j)) = hit_t {
                let better = match nearest {
                    Some(b) => t < b.0,
                    None => true,
                };
                if better {
                    nearest = Some((t, j, 2));
                }
            }
            proof {
                if self.misses(ray) {
                    if let Some((t, jj)) = hit_s {
                        assert(self.shapes.spheres@[jj as int].hit_spec(cur_ray) is None);
                    }
                    if let Some((t, jj)) = hit_p {
                        assert(self.shapes.planes@[jj as int].hit_spec(cur_ray) is None);
                    }
                    if let Some((t, jj)) = hit_t {
                        assert(self.shapes.triangles@[jj as int].hit_spec(cur_ray) is None);
                    }
                    assert(nearest is None);
                }
            }
            match nearest {
                None => {
                    // the sky: blue at the horizon blended toward white upward
                    let a = {
                        let raw = div_floor(cur_ray.direction.y as i128, 2) as i64 + SCALE / 2;
                        if raw < 0 {
                            0
                        } else if raw > SCALE {
                            SCALE
                        } else {
                            raw
                        }
                    };
                    let horizon = BaseVector { x: 13107, y: 13107, z: 52428 };
                    let white = BaseVector { x: SCALE, y: SCALE, z: SCALE };
                    let sky = lerp_color(horizon, white, a);
                    current = mul_colors(current, sky);
                    proof {
                        if self.misses(ray) {
                            assert(a == sky_blend_factor(cur_ray.direction));
                            vstd::arithmetic::div_mod::lemma_div_multiples_vanish(
                                sky.x as int,
                                SCALE as int,
                            );
                            vstd::arithmetic::div_mod::lemma_div_multiples_vanish(
                                sky.y as int,
                                SCALE as int,
                            );
                            vstd::arithmetic::div_mod::lemma_div_multiples_vanish(
                                sky.z as int,
                                SCALE as int,
                            );
                            assert(current == sky);
                            assert(sky == sky_color_spec(cur_ray.direction));
                        }
                    }
                    bounce = self.screen.max_bounces;
                    continue ;
                },
                Some((t, j, kind)) => {
                    let hit_point = ray_at(&cur_ray, t);
                    let in_world = hit_point.x >= -WORLD && hit_point.x <= WORLD && hit_point.y
                        >= -WORLD && hit_point.y <= WORLD && hit_point.z >= -WORLD && hit_point.z
                        <= WORLD;
                    if !in_world {
                        // the ray left the world: nothing more can light it
                        return BaseVector { x: 0, y: 0, z: 0 };
                    }
                    let (normal, texture_coordinates, material_index): (
                        NormalizedVector,
                        [i64; 2],
                        usize,
                    ) = if kind == 0 {
                        let s = &self.shapes.spheres[j];
                        let delta = BaseVector {
                            x: hit_point.x - s.center.x,
                            y: hit_point.y - s.center.y,
                            z: hit_point.z - s.center.z,
                        };
                        let nz = delta.length_squared();
                        if nz == 0 {
                            return BaseVector { x: 0, y: 0, z: 0 };
                        }
                        let (n, tc) = s.normal_and_texture_coordinates(&hit_point);
                        (n, tc, s.material_index)
                    } else if kind == 1 {
                        let p = &self.shapes.planes[j];
                        let (n, tc) = p.normal_and_texture_coordinates(&hit_point);
                        (n, tc, p.material_index)
                    } else {
                        let tr = &self.shapes.triangles[j];
                        let (n, tc) = tr.normal_and_texture_coordinates(&hit_point);
                        (n, tc, tr.material_index)
                    };
                    let clamped_normal = clamp_direction(normal);
                    let material = &self.materials[material_index];
                    let tc = [clamp_coord(texture_coordinates[0]), clamp_coord(
                        texture_coordinates[1],
                    )];
                    match material.scatter(&cur_ray, clamped_normal, hit_point, rng) {
                        Scatter::Scattered(next_ray) => {
                            let tint = material.color_kind.sample(tc);
                            current = mul_colors(current, tint);
                            cur_ray = next_ray;
                        },
                        Scatter::Absorbed => {
                            return BaseVector { x: 0, y: 0, z: 0 };
                        },
                        Scatter::Light => {
                            let tint = material.color_kind.sample(tc);
                            current = mul_colors(current, tint);
                            bounce = self.screen.max_bounces;
                            continue ;
                        },
                    }
                },
            }
            bounce = bounce + 1;
        }
        current
    }

    /// Renders the color sums of the pixels in `start..end`, with
    /// `samples_per_pixel` jittered rays per pixel.
    pub fn render_chunk(&self, start: usize, end: usize, rng: &mut Rng) -> (r: Vec<ColorSum>)
        requires
            self.wf(),
            start <= end,
            end <= self.screen.resolution_width * self.screen.resolution_height,
        ensures
            r@.len() == end - start,
            forall|i: int|
                0 <= i < r@.len() ==> (#[trigger] r@[i]).wf() && r@[i].samples
                    == self.screen.samples_per_pixel,
    {
        let mut sums: Vec<ColorSum> = Vec::new();
        let mut p = start;
        let mut bvh_stack: Vec<(i64, usize)> = Vec::new();
        while p < end
            invariant
                self.wf(),
                start <= p <= end,
                end <= self.screen.resolution_width * self.screen.resolution_height,
                sums@.len() == p - start,
                forall|i: int|
                    0 <= i < sums@.len() ==> (#[trigger] sums@[i]).wf() && sums@[i].samples
                        == self.screen.samples_per_pixel,
            decreases end - p,
        {
            let x = p % self.screen.resolution_width;
            let y = p / self.screen.resolution_width;
            proof {
                let w = self.screen.resolution_width as int;
                let h = self.screen.resolution_height as int;
                assert((p as int) < h * w) by (nonlinear_arith)
                    requires
                        (p as int) < w * h,
                ;
                vstd::arithmetic::div_mod::lemma_fundamental_div_mod(p as int, w);
                assert((p as int) / w < h) by (nonlinear_arith)
                    requires
                        p as int == w * ((p as int) / w) + (p as int) % w,
                        0 <= (p as int) % w < w,
                        (p as int) < h * w,
                        w >= 1,
                ;
                vstd::arithmetic::div_mod::lemma_div_pos_is_pos(p as int, w);
            }
            let mut cell = ColorSum::empty();
            let mut s: usize = 0;
            while s < self.screen.samples_per_pixel
                invariant
                    self.wf(),
                    x < self.screen.resolution_width,
                    y < self.screen.resolution_height,
                    0 <= s <= self.screen.samples_per_pixel,
                    cell.wf(),
                    cell.samples == s,
                decreases self.screen.samples_per_pixel - s,
            {
                let color = self.sample_pixel(x, y, &mut bvh_stack, rng);
                cell.add_sample(color);
                s = s + 1;
            }
            sums.push(cell);
            p = p + 1;
        }
        sums
    }

    /// Traces one jittered sample through the pixel at `(x, y)`.
    fn sample_pixel(&self, x: usize, y: usize, bvh_stack: &mut Vec<(i64, usize)>, rng: &mut Rng)
        -> (r: Color)
        requires
            self.wf(),
            x < self.screen.resolution_width,
            y < self.screen.resolution_height,
        ensures
            color_in_unit(r),
    {
        let jx = rng.unit() / 2;
        let jy = rng.unit() / 2;
        let px = screen_point(
            self.screen.top_left,
            self.screen.top_edge,
            self.screen.left_edge,
            x,
            y,
            jx,
            jy,
            self.screen.resolution_width,
            self.screen.resolution_height,
        );
        let dir = BaseVector {
            x: px.x - self.camera.position.x,
            y: px.y - self.camera.position.y,
            z: px.z - self.camera.position.z,
        };
        let nz = dir.length_squared();
        if nz == 0 {
            return BaseVector { x: 0, y: 0, z: 0 };
        }
        let dir = dir.normalize();
        match make_ray(self.camera.position, dir) {
            Some(ray) => self.ray_color(ray, bvh_stack, rng),
            None => BaseVector { x: 0, y: 0, z: 0 },
        }
    }

    /// Renders the whole raster in chunks and resolves each pixel to a
    /// gamma-corrected byte color.
    pub fn render(&self, rng: &mut Rng) -> (r: Image)
        requires
            self.wf(),
        ensures
            r.width == self.screen.resolution_width,
            r.height == self.screen.resolution_height,
            r.wf(),
    {
        let width = self.screen.resolution_width;
        let height = self.screen.resolution_height;
        proof {
            lemma_mul_mag(width as int, height as int, 0x4000, 0x4000);
        }
        let total = width * height;
        let chunk_size = if width * height / 64 >= 1 {
            width * height / 64
        } else {
            1
        };
        proof {
            vstd::arithmetic::div_mod::lemma_div_nonincreasing(total as int, 64);
            vstd::arithmetic::div_mod::lemma_div_pos_is_pos(total as int, 64);
        }
        let chunks = chunk_count(total, chunk_size);
        proof {
            assert(total as int + chunk_size as int - 1 <= total as int * chunk_size as int)
                by (nonlinear_arith)
                requires
                    width >= 2 && height >= 2 && total as int == width as int * height as int
                        && chunk_size >= 1,
            ;
            lemma_div_shrink(
                total as int + chunk_size as int - 1,
                chunk_size as int,
                total as int,
            );
        }
        let mut data: Vec<Pixel> = Vec::new();
        let mut c: usize = 0;
        while c < chunks
            invariant
                self.wf(),
                total == self.screen.resolution_width * self.screen.resolution_height,
                total <= 0x1000_0000,
                chunk_size >= 1,
                chunk_size <= 0x1000_0000,
                chunks <= total,
                (chunks - 1) * chunk_size < total,
                chunks * chunk_size >= total,
                c <= chunks,
                data@.len() == if c * chunk_size <= total {
                    c * chunk_size
                } else {
                    total as int
                },
            decreases chunks - c,
        {
            proof {
                lemma_mul_mag(c as int, chunk_size as int, 0x1000_0000, 0x1000_0000);
                assert(chunk_size <= 0x1000_0000);
                assert((c + 1) * chunk_size == c * chunk_size + chunk_size) by (nonlinear_arith);
                assert(c * chunk_size <= chunks * chunk_size) by (nonlinear_arith)
                    requires
                        c < chunks && chunk_size >= 1,
                ;
                assert((chunks - 1) * chunk_size <= chunks * chunk_size - chunk_size)
                    by (nonlinear_arith)
                    requires
                        chunk_size >= 1,
                ;
                assert(c * chunk_size <= (chunks - 1) * chunk_size) by (nonlinear_arith)
                    requires
                        c <= chunks - 1 && chunk_size >= 1,
                ;
            }
            let (start, end) = chunk_range(total, chunk_size, c);
            let sums = self.render_chunk(start, end, rng);
            let mut i: usize = 0;
            while i < sums.len()
                invariant
                    0 <= i <= sums@.len(),
                    data@.len() == start + i,
                    start + sums@.len() == end,
                    forall|k: int|
                        0 <= k < sums@.len() ==> (#[trigger] sums@[k]).wf() && sums@[k].samples
                            >= 1,
                decreases sums@.len() - i,
            {
                let avg = sums[i].average();
                let corrected = avg.color_correct();
                data.push(corrected.to_natural_color());
                i = i + 1;
            }
            c = c + 1;
        }
        proof {
            assert(data@.len() == total);
        }
        Image { width, height, data }
    }
}

/// The point `ray.origin + t * ray.direction`, in fixed point.
pub fn ray_at(ray: &Ray, t: i64) -> (r: Point)
    requires
        ray.wf(),
        0 <= t <= 0x100_0000_0000,
    ensures
        r.x == ray.origin.x + ray.direction.x * t / (SCALE as int),
        r.y == ray.origin.y + ray.direction.y * t / (SCALE as int),
        r.z == ray.origin.z + ray.direction.z * t / (SCALE as int),
{
    proof {
        lemma_mul_mag(ray.direction.x as int, t as int, 131072, 0x100_0000_0000);
        lemma_mul_mag(ray.direction.y as int, t as int, 131072, 0x100_0000_0000);
        lemma_mul_mag(ray.direction.z as int, t as int, 131072, 0x100_0000_0000);
        lemma_div_shrink(ray.direction.x as int * t as int, SCALE as int, 0x200_0000_0000);
        lemma_div_shrink(ray.direction.y as int * t as int, SCALE as int, 0x200_0000_0000);
        lemma_div_shrink(ray.direction.z as int * t as int, SCALE as int, 0x200_0000_0000);
    }
    BaseVector {
        x: ray.origin.x + div_floor(ray.direction.x as i128 * t as i128, SCALE as i128) as i64,
        y: ray.origin.y + div_floor(ray.direction.y as i128 * t as i128, SCALE as i128) as i64,
        z: ray.origin.z + div_floor(ray.direction.z as i128 * t as i128, SCALE as i128) as i64,
    }
}

/// Clamps a shading normal into the unit cube the scatter step expects.
fn clamp_direction(n: NormalizedVector) -> (r: NormalizedVector)
    ensures
        r.bounded_spec(SCALE as int),
{
    let cx = if n.x > SCALE {
        SCALE
    } else if n.x < -SCALE {
        -SCALE
    } else {
        n.x
    };
    let cy = if n.y > SCALE {
        SCALE
    } else if n.y < -SCALE {
        -SCALE
    } else {
        n.y
    };
    let cz = if n.z > SCALE {
        SCALE
    } else if n.z < -SCALE {
        -SCALE
    } else {
        n.z
    };
    BaseVector { x: cx, y: cy, z: cz }
}

/// Multiplies two unit-range colors channel-wise.
pub fn mul_colors(a: Color, b: Color) -> (r: Color)
    requires
        color_in_unit(a),
        color_in_unit(b),
    ensures
        r.x == a.x * b.x / (SCALE as int),
        r.y == a.y * b.y / (SCALE as int),
        r.z == a.z * b.z / (SCALE as int),
        color_in_unit(r),
{
    proof {
        lemma_unit_product(a.x as int, b.x as int);
        lemma_unit_product(a.y as int, b.y as int);
        lemma_unit_product(a.z as int, b.z as int);
    }
    BaseVector {
        x: div_floor(a.x as i128 * b.x as i128, SCALE as i128) as i64,
        y: div_floor(a.y as i128 * b.y as i128, SCALE as i128) as i64,
        z: div_floor(a.z as i128 * b.z as i128, SCALE as i128) as i64,
    }
}

/// A product of unit-range channels, scaled down, stays in the unit range.
proof fn lemma_unit_product(a: int, b: int)
    requires
        0 <= a <= SCALE,
        0 <= b <= SCALE,
    ensures
        0 <= a * b <= SCALE as int * SCALE as int,
        0 <= a * b / (SCALE as int) <= SCALE,
{
    assert(0 <= a * b <= SCALE as int * SCALE as int) by (nonlinear_arith)
        requires
            0 <= a <= SCALE && 0 <= b <= SCALE,
    ;
    vstd::arithmetic::div_mod::lemma_div_pos_is_pos(a * b, SCALE as int);
    lemma_div_shrink(a * b, SCALE as int, SCALE as int);
}

/// One point on the image plane, jittered inside its pixel.
fn screen_point(
    top_left: Point,
    top_edge: Vector,
    left_edge: Vector,
    x: usize,
    y: usize,
    jx: i64,
    jy: i64,
    width: usize,
    height: usize,
) -> (r: Point)
    requires
        top_left.bounded_spec(WORLD as int / 4),
        top_edge.bounded_spec(WORLD as int / 8),
        left_edge.bounded_spec(WORLD as int / 8),
        x < width,
        y < height,
        0 <= jx <= SCALE,
        0 <= jy <= SCALE,
        2 <= width <= 0x4000,
        2 <= height <= 0x4000,
    ensures
        r.in_world(),
{
    proof {
        lemma_mul_mag(x as int, SCALE as int, 0x4000, 65536);
        lemma_mul_mag(y as int, SCALE as int, 0x4000, 65536);
        assert(x as int * SCALE + SCALE <= width as int * SCALE && y as int * SCALE + SCALE
            <= height as int * SCALE) by (nonlinear_arith)
            requires
                x < width && y < height,
        ;
    }
    let xf = x as i64 * SCALE + jx;
    let yf = y as i64 * SCALE + jy;
    let tx = edge_fraction(top_edge.x, xf, width);
    let ty = edge_fraction(top_edge.y, xf, width);
    let tz = edge_fraction(top_edge.z, xf, width);
    let lx = edge_fraction(left_edge.x, yf, height);
    let ly = edge_fraction(left_edge.y, yf, height);
    let lz = edge_fraction(left_edge.z, yf, height);
    BaseVector {
        x: top_left.x + tx + lx,
        y: top_left.y + ty + ly,
        z: top_left.z + tz + lz,
    }
}

/// One component of an edge vector scaled by how far along the raster the
/// pixel lies: `edge * f / ((extent - 1) * SCALE)`.
fn edge_fraction(edge: i64, f: i64, extent: usize) -> (r: i64)
    requires
        -WORLD / 8 <= edge <= WORLD / 8,
        0 <= f,
        f <= extent * SCALE,
        2 <= extent <= 0x4000,
    ensures
        -WORLD / 4 <= r <= WORLD / 4,
{
    proof {
        lemma_mul_mag(extent as int, SCALE as int, 0x4000, 65536);
        lemma_mul_mag(edge as int, f as int, 67108864, 0x4001_0000);
        lemma_mul_mag(extent as int - 1, SCALE as int, 0x4000, 65536);
        assert(edge as int * f as int <= 134217728 * ((extent as int - 1) * (SCALE as int))
            && -(134217728 * ((extent as int - 1) * (SCALE as int))) <= edge as int * f as int)
            by (nonlinear_arith)
            requires
                -67108864 <= edge as int <= 67108864,
                0 <= f as int <= extent as int * SCALE as int,
                SCALE == 65536,
                2 <= extent as int,
        ;
        lemma_div_shrink(
            edge as int * f as int,
            (extent as int - 1) * (SCALE as int),
            134217728,
        );
    }
    let den = (extent as i128 - 1) * (SCALE as i128);
    div_floor(edge as i128 * f as i128, den) as i64
}

/// Clamps a texture coordinate into the range sampling accepts.
fn clamp_coord(c: i64) -> (r: i64)
    ensures
        -0x100_0000_0000 <= r <= 0x100_0000_0000,
{
    if c > 0x100_0000_0000 {
        0x100_0000_0000
    } else if c < -0x100_0000_0000 {
        -0x100_0000_0000
    } else {
        c
    }
}

/// Checks a scene assembled from outside at run time: passes exactly
/// when `Scene::wf` holds, so a driver can validate parsed input before
/// rendering, as the scene loader owes the core well-formed data.
pub fn check_scene(scene: &Scene) -> (r: bool)
    ensures
        r == scene.wf(),
{
    let s = &scene.screen;
    let screen_ok = s.top_left.x >= -WORLD / 4 && s.top_left.x <= WORLD / 4 && s.top_left.y
        >= -WORLD / 4 && s.top_left.y <= WORLD / 4 && s.top_left.z >= -WORLD / 4 && s.top_left.z
        <= WORLD / 4 && s.top_edge.x >= -WORLD / 8 && s.top_edge.x <= WORLD / 8 && s.top_edge.y
        >= -WORLD / 8 && s.top_edge.y <= WORLD / 8 && s.top_edge.z >= -WORLD / 8 && s.top_edge.z
        <= WORLD / 8 && s.left_edge.x >= -WORLD / 8 && s.left_edge.x <= WORLD / 8 && s.left_edge.y
        >= -WORLD / 8 && s.left_edge.y <= WORLD / 8 && s.left_edge.z >= -WORLD / 8 && s.left_edge.z
        <= WORLD / 8 && s.resolution_width >= 2 && s.resolution_width <= 0x4000
        && s.resolution_height >= 2 && s.resolution_height <= 0x4000 && s.samples_per_pixel >= 1
        && s.samples_per_pixel <= 0x4000;
    if !screen_ok {
        return false;
    }
    let c = &scene.camera.position;
    if !(c.x >= -WORLD / 4 && c.x <= WORLD / 4 && c.y >= -WORLD / 4 && c.y <= WORLD / 4 && c.z
        >= -WORLD / 4 && c.z <= WORLD / 4) {
        return false;
    }
    let materials = scene.materials.len();
    if scene.shapes.spheres.len() > 0x1000_0000 || scene.shapes.planes.len() > 0x1000_0000
        || scene.shapes.triangles.len() > 0x1000_0000 {
        return false;
    }
    let mut j: usize = 0;
    while j < scene.shapes.spheres.len()
        invariant
            j <= scene.shapes.spheres@.len(),
            materials == scene.materials@.len(),
            forall|k: int|
                0 <= k < j ==> (#[trigger] scene.shapes.spheres@[k]).wf()
                    && scene.shapes.spheres@[k].material_index < materials,
        decreases scene.shapes.spheres@.len() - j,
    {
        if !crate::shapes::check_sphere(&scene.shapes.spheres[j])
            || scene.shapes.spheres[j].material_index >= materials {
            proof {
                assert(!scene.shapes.spheres@[j as int].wf()
                    || scene.shapes.spheres@[j as int].material_index >= materials);
            }
            return false;
        }
        j = j + 1;
    }
    let mut j: usize = 0;
    while j < scene.shapes.planes.len()
        invariant
            j <= scene.shapes.planes@.len(),
            materials == scene.materials@.len(),
            forall|k: int|
                0 <= k < j ==> (#[trigger] scene.shapes.planes@[k]).wf()
                    && scene.shapes.planes@[k].material_index < materials,
        decreases scene.shapes.planes@.len() - j,
    {
        if !crate::shapes::check_plane(&scene.shapes.planes[j]) || scene.shapes.planes[j].material_index
            >= materials {
            proof {
                assert(!scene.shapes.planes@[j as int].wf()
                    || scene.shapes.planes@[j as int].material_index >= materials);
            }
            return false;
        }
        j = j + 1;
    }
    let mut j: usize = 0;
    while j < scene.shapes.triangles.len()
        invariant
            j <= scene.shapes.triangles@.len(),
            materials == scene.materials@.len(),
            forall|k: int|
                0 <= k < j ==> (#[trigger] scene.shapes.triangles@[k]).wf()
                    && scene.shapes.triangles@[k].material_index < materials,
        decreases scene.shapes.triangles@.len() - j,
    {
        if !crate::shapes::check_triangle(&scene.shapes.triangles[j])
            || scene.shapes.triangles[j].material_index >= materials {
            proof {
                assert(!scene.shapes.triangles@[j as int].wf()
                    || scene.shapes.triangles@[j as int].material_index >= materials);
            }
            return false;
        }
        j = j + 1;
    }
    let mut j: usize = 0;
    while j < scene.materials.len()
        invariant
            j <= scene.materials@.len(),
            forall|k: int| 0 <= k < j ==> (#[trigger] scene.materials@[k]).wf(),
        decreases scene.materials@.len() - j,
    {
        if !crate::material::check_material(&scene.materials[j]) {
            proof {
                assert(!scene.materials@[j as int].wf());
            }
            return false;
        }
        j = j + 1;
    }
    crate::bvh::check_bvh(&scene.bvhs.spheres, &scene.shapes.spheres) && crate::bvh::check_bvh(
        &scene.bvhs.planes,
        &scene.shapes.planes,
    ) && crate::bvh::check_bvh(&scene.bvhs.triangles, &scene.shapes.triangles)
}

} // verus!
