//! End-to-end checks of the tracer's pieces on concrete values.
use raytracer::aabb::{Aabb, Union};
use raytracer::bvh::{closest_shape_brute, BvhNode, BvhNodeKind};
use raytracer::material::{ColorKind, Material, MaterialKind, Scatter};
use raytracer::rng::{Random, Rng};
use raytracer::shapes::{
    Barycentric, Intersects, NormalsTextureCoordinates, Plane, Shape, Sphere, Triangle,
};
use raytracer::convert::{Convert, TryConvert};
use raytracer::indices::Indexer;
use raytracer::transform::{SquareMatrix, Transform};
use raytracer::vec3::{BaseVector, Pixel, Sqrt, SCALE};
use raytracer::{
    chunk_count, chunk_range, make_ray, Bvhs, Camera, ColorSum, Scene, Screen, Shapes,
};

fn v(x: i64, y: i64, z: i64) -> BaseVector {
    BaseVector { x, y, z }
}

fn unit_sphere_at(x: i64, y: i64, z: i64) -> Sphere {
    Sphere::new(v(x, y, z), SCALE, 0)
}

/// A deterministic little generator for test geometry.
fn next_coord(rng: &mut Rng) -> i64 {
    // +-8 units
    (rng.unit() % (16 * SCALE)) - 8 * SCALE
}

#[test]
fn sqrt_rounds_down() {
    assert_eq!(0i64.sqrt(), 0);
    assert_eq!(1i64.sqrt(), 1);
    assert_eq!(99i64.sqrt(), 9);
    assert_eq!(100i64.sqrt(), 10);
    assert_eq!((1i64 << 62).sqrt(), 1 << 31);
}

#[test]
fn vector_algebra_exact() {
    let a = v(SCALE, 2 * SCALE, -3 * SCALE);
    let b = v(-SCALE, SCALE, SCALE);
    let s = a.add(b);
    assert_eq!((s.x, s.y, s.z), (0, 3 * SCALE, -2 * SCALE));
    assert_eq!(a.dot(b), (SCALE as i128) * (SCALE as i128) * (-1 + 2 - 3));
    let c = v(SCALE, 0, 0).cross(v(0, SCALE, 0));
    assert_eq!((c.x, c.y, c.z), (0, 0, SCALE));
    let n = v(3 * SCALE, 4 * SCALE, 0).normalize();
    // length 5: components 3/5 and 4/5
    assert_eq!((n.x, n.y, n.z), (3 * SCALE / 5, 4 * SCALE / 5, 0));
}

#[test]
fn reflect_flips_the_normal_component() {
    let d = v(SCALE, -SCALE, 0);
    let n = v(0, SCALE, 0);
    let r = d.reflect(n);
    assert_eq!((r.x, r.y, r.z), (SCALE, SCALE, 0));
}

#[test]
fn aabb_union_grows_monotonically() {
    let mut b = Aabb::new(v(0, 0, 0), v(SCALE, SCALE, SCALE));
    let before = b;
    Union::<BaseVector>::union(&mut b, v(2 * SCALE, -SCALE, 0));
    assert!(b.min.x <= before.min.x && b.min.y <= before.min.y && b.min.z <= before.min.z);
    assert!(b.max.x >= before.max.x && b.max.y >= before.max.y && b.max.z >= before.max.z);
    assert!(b.contains(v(2 * SCALE, -SCALE, 0)));
    assert!(b.contains(v(SCALE / 2, SCALE / 2, SCALE / 2)));
    let other = Aabb::new(v(-5 * SCALE, 0, 0), v(-4 * SCALE, SCALE, SCALE));
    let mut grown = b;
    Union::<Aabb>::union(&mut grown, other);
    assert!(grown.contains(other.min) && grown.contains(other.max));
    assert!(grown.contains(b.min) && grown.contains(b.max));
}

#[test]
fn aabb_queries() {
    let b = Aabb::new(v(SCALE, SCALE, SCALE), v(0, 0, 0));
    // corners are normalized
    assert_eq!(b.min, v(0, 0, 0));
    assert_eq!(b.max, v(SCALE, SCALE, SCALE));
    assert!(!b.is_empty());
    assert!(b.contains_exclusive(v(0, 0, 0)));
    assert!(!b.contains_exclusive(v(SCALE, 0, 0)));
    assert_eq!(b.surface_area(), 6 * (SCALE as i64) * SCALE);
    assert_eq!(b.volume(), (SCALE as i128).pow(3));
    assert_eq!(b.distance_squared(v(2 * SCALE, 0, 0)), (SCALE as i128) * (SCALE as i128));
    assert_eq!(b.distance(v(2 * SCALE, 0, 0)), SCALE);
    let d = b.diagonal();
    assert_eq!((d.x, d.y, d.z), (SCALE, SCALE, SCALE));
    assert_eq!(b.max_dimension(), SCALE);
    let c = b.corner(5);
    assert_eq!((c.x, c.y, c.z), (SCALE, 0, SCALE));
}

#[test]
fn sphere_hit_straight_on_is_exact() {
    // P7: unit sphere at the origin, camera on +z, ray straight down -z
    let s = unit_sphere_at(0, 0, 0);
    let camera_z = 3 * SCALE;
    let ray = make_ray(v(0, 0, camera_z), v(0, 0, -SCALE)).unwrap();
    let t = s.intersects(&ray).unwrap();
    assert_eq!(t, camera_z - SCALE);
    let hit = raytracer::ray_at(&ray, t);
    assert_eq!((hit.x, hit.y, hit.z), (0, 0, SCALE));
    let (n, _uv) = s.normal_and_texture_coordinates(&hit);
    assert_eq!((n.x, n.y, n.z), (0, 0, SCALE));
}

#[test]
fn plane_hit_and_miss() {
    let p = Plane::new(v(0, -SCALE, 0), v(0, SCALE, 0), 0);
    let down = make_ray(v(0, SCALE, 0), v(0, -SCALE, 0)).unwrap();
    assert_eq!(p.intersects(&down), Some(2 * SCALE));
    let level = make_ray(v(0, SCALE, 0), v(SCALE, 0, 0)).unwrap();
    assert_eq!(p.intersects(&level), None);
}

#[test]
fn triangle_hit_and_miss() {
    let t = Triangle::new(
        v(-SCALE, -SCALE, 0),
        v(SCALE, -SCALE, 0),
        v(0, SCALE, 0),
        NormalsTextureCoordinates::Neither,
        0,
    );
    let through = make_ray(v(0, 0, 2 * SCALE), v(0, 0, -SCALE)).unwrap();
    assert_eq!(t.intersects(&through), Some(2 * SCALE));
    let wide = make_ray(v(5 * SCALE, 0, 2 * SCALE), v(0, 0, -SCALE)).unwrap();
    assert_eq!(t.intersects(&wide), None);
}

#[test]
fn bvh_of_one_shape_is_a_single_leaf() {
    // P8, second half: one shape gives one leaf and no split
    let mut shapes = vec![unit_sphere_at(0, 0, 0)];
    let nodes = BvhNode::new(&mut shapes);
    assert_eq!(nodes.len(), 1);
    assert!(matches!(nodes[0].kind, BvhNodeKind::Leaf { start: 0, end: 1 }));
}

#[test]
fn bvh_of_two_far_clusters_splits() {
    // P8, first half: widely separated shapes are worth a branch. A pair of
    // lone shapes stays one leaf, since scanning two shapes is cheaper than
    // a traversal step by the cost model; two clusters must split.
    let mut shapes = Vec::new();
    for i in 0..10i64 {
        shapes.push(unit_sphere_at(-40 * SCALE, i * SCALE / 8, 0));
        shapes.push(unit_sphere_at(40 * SCALE, i * SCALE / 8, 0));
    }
    let nodes = BvhNode::new(&mut shapes);
    assert!(matches!(nodes[0].kind, BvhNodeKind::Branch { .. }));
    if let BvhNodeKind::Branch { left, right } = nodes[0].kind {
        // each side holds one whole cluster
        let sides = [left, right].map(|c| match nodes[c].kind {
            BvhNodeKind::Leaf { start, end } => end - start,
            BvhNodeKind::Branch { .. } => usize::MAX,
        });
        assert!(sides.iter().all(|&n| n == usize::MAX || n == 10));
    }
}

#[test]
fn bvh_leaves_partition_the_shapes() {
    // P1 at runtime: the leaf ranges of a built tree tile 0..n exactly
    let mut rng = Rng::new(7);
    let mut shapes = Vec::new();
    for _ in 0..40 {
        let c = (next_coord(&mut rng), next_coord(&mut rng), next_coord(&mut rng));
        shapes.push(Sphere::new(v(c.0, c.1, c.2), SCALE / 2, 0));
    }
    let n = shapes.len();
    let nodes = BvhNode::new(&mut shapes);
    let mut seen = vec![0usize; n];
    for node in &nodes {
        if let BvhNodeKind::Leaf { start, end } = node.kind {
            assert!(start <= end && end <= n);
            for slot in seen.iter_mut().take(end).skip(start) {
                *slot += 1;
            }
        }
    }
    assert!(seen.iter().all(|&count| count == 1));
}

#[test]
fn bvh_boxes_bound_their_shapes() {
    // P3 at runtime: every leaf box encloses the bounds of its shapes
    let mut rng = Rng::new(11);
    let mut shapes = Vec::new();
    for _ in 0..25 {
        let c = (next_coord(&mut rng), next_coord(&mut rng), next_coord(&mut rng));
        shapes.push(Sphere::new(v(c.0, c.1, c.2), SCALE / 4, 0));
    }
    let nodes = BvhNode::new(&mut shapes);
    for node in &nodes {
        if let BvhNodeKind::Leaf { start, end } = node.kind {
            for s in shapes.iter().take(end).skip(start) {
                let lo = s.min();
                let hi = s.max();
                assert!(node.min.x <= lo.x && node.min.y <= lo.y && node.min.z <= lo.z);
                assert!(hi.x <= node.max.x && hi.y <= node.max.y && hi.z <= node.max.z);
            }
        }
    }
}

#[test]
fn empty_scene_is_safe() {
    // P4: a hierarchy over no shapes traverses to nothing
    let mut shapes: Vec<Sphere> = Vec::new();
    let nodes = BvhNode::new(&mut shapes);
    assert_eq!(nodes.len(), 1);
    let ray = make_ray(v(0, 0, 0), v(0, 0, SCALE)).unwrap();
    let mut stack = Vec::new();
    assert_eq!(BvhNode::closest_shape(&ray, &shapes, &nodes, &mut stack), None);
}

#[test]
fn traversal_matches_brute_force() {
    // P2 at runtime: the hierarchy finds the same nearest hit as a scan
    let mut rng = Rng::new(23);
    let mut shapes = Vec::new();
    for _ in 0..60 {
        let c = (next_coord(&mut rng), next_coord(&mut rng), next_coord(&mut rng));
        shapes.push(Sphere::new(v(c.0, c.1, c.2), SCALE / 2 + rng.unit() % SCALE, 0));
    }
    let nodes = BvhNode::new(&mut shapes);
    let mut stack = Vec::new();
    for _ in 0..200 {
        let o = v(next_coord(&mut rng), next_coord(&mut rng), next_coord(&mut rng));
        let d = v(
            rng.unit() - SCALE / 2,
            rng.unit() - SCALE / 2,
            rng.unit() - SCALE / 2,
        );
        if d.length_squared() == 0 {
            continue;
        }
        let Some(ray) = make_ray(o, d.normalize()) else {
            continue;
        };
        let fast = BvhNode::closest_shape(&ray, &shapes, &nodes, &mut stack);
        let slow = closest_shape_brute(&ray, &shapes);
        match (fast, slow) {
            (None, None) => {}
            (Some((tf, _)), Some((ts, _))) => assert_eq!(tf, ts),
            other => panic!("hierarchy and scan disagree: {other:?}"),
        }
    }
}

#[test]
fn chunks_tile_the_raster() {
    // P6: every pixel falls in exactly one chunk
    let total = 97usize;
    let size = 8usize;
    let chunks = chunk_count(total, size);
    let mut seen = vec![0usize; total];
    for c in 0..chunks {
        let (start, end) = chunk_range(total, size, c);
        for slot in seen.iter_mut().take(end).skip(start) {
            *slot += 1;
        }
    }
    assert!(seen.iter().all(|&count| count == 1));
}

#[test]
fn batched_sums_match_one_sweep() {
    // P5: folding per-sweep sums equals summing every sample at once
    let samples: Vec<BaseVector> = (0..24)
        .map(|i| v((i * 117) % SCALE, (i * 331) % SCALE, (i * 13) % SCALE))
        .collect();
    let mut whole = ColorSum::empty();
    for s in &samples {
        whole.add_sample(*s);
    }
    let mut folded = ColorSum::empty();
    for batch in samples.chunks(6) {
        let mut partial = ColorSum::empty();
        for s in batch {
            partial.add_sample(*s);
        }
        folded.add_batch(partial);
    }
    assert_eq!(folded, whole);
    assert_eq!(folded.average(), whole.average());
}

#[test]
fn rng_is_deterministic_and_in_range() {
    let mut a = Rng::new(42);
    let mut b = Rng::new(42);
    for _ in 0..100 {
        let x = a.u64();
        assert_eq!(x, b.u64());
    }
    let mut c = Rng::new(1);
    for _ in 0..100 {
        let u = c.unit();
        assert!((0..SCALE).contains(&u));
    }
}

#[test]
fn interner_shares_equal_materials() {
    let mut interner = raytracer::config::Interner(Vec::new());
    let red = Material::new(
        MaterialKind::Lambertian,
        ColorKind::Solid(v(SCALE, 0, 0)),
    );
    let blue = Material::new(
        MaterialKind::Lambertian,
        ColorKind::Solid(v(0, 0, SCALE)),
    );
    let red_again = Material::new(
        MaterialKind::Lambertian,
        ColorKind::Solid(v(SCALE, 0, 0)),
    );
    assert_eq!(interner.intern(red), 0);
    assert_eq!(interner.intern(blue), 1);
    assert_eq!(interner.intern(red_again), 0);
    assert_eq!(interner.0.len(), 2);
}

#[test]
fn color_conversions_are_exact() {
    let c = v(SCALE, SCALE / 2, 0);
    let p = c.to_natural_color();
    assert_eq!((p.r, p.g, p.b), (255, 127, 0));
    let back = BaseVector::to_float_color(Pixel { r: 255, g: 0, b: 255 });
    assert_eq!((back.x, back.y, back.z), (SCALE, 0, SCALE));
    let g = v(SCALE / 4, SCALE, 0).color_correct();
    assert_eq!((g.x, g.y, g.z), (SCALE / 2, SCALE, 0));
}

#[test]
fn matrix_determinant_and_inverse() {
    let m = SquareMatrix { m: [[2, 0, 0], [0, 4, 0], [0, 0, 1]] };
    assert_eq!(m.determinant(), 8);
    let ident = SquareMatrix::identity();
    assert_eq!(
        ident.determinant(),
        (SCALE as i128) * (SCALE as i128) * (SCALE as i128)
    );
    let inv = m.inverse().unwrap();
    // entry (0,0) of the inverse: cofactor 4 * SCALE^2 / det 8
    assert_eq!(inv.m[0][0], 4 * (SCALE as i64) * SCALE / 8);
    let singular = SquareMatrix { m: [[1, 0, 0], [1, 0, 0], [0, 0, 1]] };
    assert!(singular.inverse().is_none());
    // the fixed-point identity inverts to itself, and applying it to a
    // point returns the point
    let ident_inv = SquareMatrix::identity().inverse().unwrap();
    assert_eq!(ident_inv.m, SquareMatrix::identity().m);
    let p = v(3 * SCALE, -2 * SCALE, SCALE / 2);
    let back = ident_inv.mul_point(SquareMatrix::identity().mul_point(p));
    assert_eq!((back.x, back.y, back.z), (p.x, p.y, p.z));
    let t = Transform::translate(v(3, 5, 0));
    assert_eq!(t.m.m[0][2], 3);
    assert_eq!(t.inv_m.m[0][2], -3);
    let flipped = t.invert();
    assert_eq!(flipped.m.m[0][2], -3);
    // the checked constructor accepts the pairs the library itself builds
    assert!(Transform::new(t.m, t.inv_m).is_some());
    let sc = Transform::scale(v(2, 4, 0));
    assert!(Transform::new(sc.m, sc.inv_m).is_some());
    // and rejects a wrong claimed inverse
    assert!(Transform::new(t.m, t.m).is_none());
}

#[test]
fn scatter_light_terminates_paths() {
    let light = Material::new(MaterialKind::Light, ColorKind::Solid(v(SCALE, SCALE, SCALE)));
    let lambert = Material::new(
        MaterialKind::Lambertian,
        ColorKind::Solid(v(SCALE / 2, SCALE / 2, SCALE / 2)),
    );
    let ray = make_ray(v(0, 0, 3 * SCALE), v(0, 0, -SCALE)).unwrap();
    let mut rng = Rng::new(9);
    let at = v(0, 0, SCALE);
    let n = v(0, 0, SCALE);
    assert!(matches!(light.scatter(&ray, n, at, &mut rng), Scatter::Light));
    assert!(matches!(
        lambert.scatter(&ray, n, at, &mut rng),
        Scatter::Scattered(_)
    ));
}

#[test]
fn solid_color_samples_to_itself() {
    let c = ColorKind::Solid(v(SCALE / 3, SCALE / 5, SCALE));
    assert_eq!(c.sample([12345, -99]), v(SCALE / 3, SCALE / 5, SCALE));
}

#[test]
fn texture_sampling_interpolates() {
    let data = vec![
        Pixel { r: 0, g: 0, b: 0 },
        Pixel { r: 255, g: 0, b: 0 },
        Pixel { r: 0, g: 0, b: 0 },
        Pixel { r: 255, g: 0, b: 0 },
    ];
    let tex = ColorKind::Texture { width: 2, height: 2, data };
    // at u = 0 the left column, at u just below 1 nearly the right column
    let left = tex.sample([0, 0]);
    assert_eq!(left.x, 0);
    let right = tex.sample([SCALE - 1, 0]);
    assert!(right.x > SCALE - 64);
}

#[test]
fn whole_scene_renders() {
    // one red unit sphere in front of the camera over a white light dome
    let mut spheres = vec![unit_sphere_at(0, 0, 0)];
    let mut planes: Vec<Plane> = Vec::new();
    let mut triangles: Vec<Triangle> = Vec::new();
    let sphere_nodes = BvhNode::new(&mut spheres);
    let plane_nodes = BvhNode::new(&mut planes);
    let triangle_nodes = BvhNode::new(&mut triangles);
    let scene = Scene::new(
        None,
        None,
        Screen::new(
            v(-SCALE, SCALE, 2 * SCALE),
            v(2 * SCALE, 0, 0),
            v(0, -2 * SCALE, 0),
            8,
            8,
            2,
            4,
        ),
        Camera::new(v(0, 0, 4 * SCALE)),
        Bvhs::new(sphere_nodes, plane_nodes, triangle_nodes),
        Shapes::new(spheres, planes, triangles),
        vec![Material::new(
            MaterialKind::Light,
            ColorKind::Solid(v(SCALE, SCALE / 2, SCALE / 4)),
        )],
    );
    let mut rng = Rng::new(5);
    let image = scene.render(&mut rng);
    assert_eq!(image.width, 8);
    assert_eq!(image.height, 8);
    assert_eq!(image.data().len(), 64);
    // the center pixel looks at the lit sphere
    let center = image.data()[8 * 4 + 4];
    assert!(center.r > 0);
}

#[test]
fn barycentric_weights_sum_to_one() {
    let tri = Triangle::new(
        v(0, 0, 0),
        v(SCALE, 0, 0),
        v(0, SCALE, 0),
        NormalsTextureCoordinates::Neither,
        0,
    );
    let b = Barycentric {
        d00: SCALE,
        d01: 0,
        d11: SCALE,
        denominator: (SCALE as i128) * (SCALE as i128),
    };
    let w = tri.barycentric_coordinates(&v(SCALE / 4, SCALE / 4, 0), b);
    assert_eq!(w[0] + w[1] + w[2], SCALE);
}

#[test]
fn indexer_reads_and_writes() {
    let mut items = vec![10i64, 20, 30];
    let ix: Indexer<i64> = Indexer::new(1);
    assert_eq!(*ix.index(&items), 20);
    ix.index_set(&mut items, 25);
    assert_eq!(items, vec![10, 25, 30]);
    let all = Indexer::index_range((Indexer::new(0), Indexer::new(3)), &items);
    assert_eq!(all, vec![10, 25, 30]);
}

#[test]
fn conversions_round_trip() {
    assert_eq!(TryConvert::<usize>::try_convert(42i64), Some(42usize));
    assert_eq!(TryConvert::<usize>::try_convert(-1i64), None);
    assert_eq!(TryConvert::<i64>::try_convert(7usize), Some(7i64));
    assert_eq!(Convert::<i64>::convert(9u32), 9i64);
}

#[test]
fn ppm_texture_parses() {
    let mut bytes = b"P6\n2 2\n255\n".to_vec();
    bytes.extend_from_slice(&[
        255, 0, 0, 0, 255, 0, //
        0, 0, 255, 255, 255, 255,
    ]);
    let tex = ColorKind::texture_from_ppm_p6(&bytes).unwrap();
    match tex {
        ColorKind::Texture { width, height, data } => {
            assert_eq!((width, height), (2, 2));
            assert_eq!(data.len(), 4);
            assert_eq!(data[0], Pixel { r: 255, g: 0, b: 0 });
            assert_eq!(data[3], Pixel { r: 255, g: 255, b: 255 });
        }
        ColorKind::Solid(_) => panic!("expected a texture"),
    }
    assert!(ColorKind::texture_from_ppm_p6(&b"P5\n2 2\n255\n".to_vec()).is_none());
    assert!(ColorKind::texture_from_ppm_p6(&b"P6\n2 2\n255\n".to_vec()).is_none());
}

#[test]
fn combine_applies_the_function() {
    let a = v(1, 2, 3);
    let b = v(10, 20, 30);
    let sum = a.combine(&b, |x: i64, y: i64| x.wrapping_add(y));
    assert_eq!((sum.x, sum.y, sum.z), (11, 22, 33));
}

#[test]
fn random_draws_follow_the_generator() {
    let mut a = Rng::new(77);
    let mut b = Rng::new(77);
    let word: u64 = Random::random(&mut a);
    assert_eq!(word, b.u64());
}

#[test]
fn shape_bounds_slab_is_conservative_in_practice() {
    // the traversal equivalence theorem assumes that whenever a shape is
    // hit, the slab test of its own bounds reports an entry no later than
    // the hit; this exercises that assumption on random spheres
    let mut rng = Rng::new(31);
    for _ in 0..300 {
        let c = (next_coord(&mut rng), next_coord(&mut rng), next_coord(&mut rng));
        let s = Sphere::new(v(c.0, c.1, c.2), SCALE / 2 + rng.unit() % (2 * SCALE), 0);
        let o = v(next_coord(&mut rng), next_coord(&mut rng), next_coord(&mut rng));
        let d = v(
            rng.unit() - SCALE / 2,
            rng.unit() - SCALE / 2,
            rng.unit() - SCALE / 2,
        );
        if d.length_squared() == 0 {
            continue;
        }
        let Some(ray) = make_ray(o, d.normalize()) else {
            continue;
        };
        if let Some(t) = s.intersects(&ray) {
            let node = BvhNode {
                kind: BvhNodeKind::Leaf { start: 0, end: 1 },
                min: s.min(),
                max: s.max(),
            };
            let entry = node.intersects(&ray).expect("bounds must be hit when the sphere is");
            assert!(entry <= t, "entry {entry} after hit {t}");
        }
    }
}

#[test]
fn ppm_textures_beyond_tiny_sizes_parse() {
    // a 64x48 image: well beyond any header-digit confusion
    let (w, h) = (64usize, 48usize);
    let mut bytes = format!("P6\n{w} {h}\n255\n").into_bytes();
    bytes.extend(std::iter::repeat(7u8).take(3 * w * h));
    let tex = ColorKind::texture_from_ppm_p6(&bytes).unwrap();
    match tex {
        ColorKind::Texture { width, height, data } => {
            assert_eq!((width, height), (w, h));
            assert_eq!(data.len(), w * h);
        }
        ColorKind::Solid(_) => panic!("expected a texture"),
    }
    // over the size limit is rejected
    let huge = format!("P6\n{} 1\n255\n", 0x4001).into_bytes();
    assert!(ColorKind::texture_from_ppm_p6(&huge).is_none());
}

#[test]
fn flat_metal_mirrors_the_ray() {
    let mirror = Material::new(
        MaterialKind::Metal { fuzziness: 0 },
        ColorKind::Solid(v(SCALE, SCALE, SCALE)),
    );
    let ray = make_ray(v(0, 2 * SCALE, 0), v(0, -SCALE, 0)).unwrap();
    let mut rng = Rng::new(3);
    match mirror.scatter(&ray, v(0, SCALE, 0), v(0, 0, 0), &mut rng) {
        Scatter::Scattered(out) => {
            assert_eq!((out.direction.x, out.direction.y, out.direction.z), (0, SCALE, 0));
            // the origin is nudged along the normal
            assert_eq!(out.origin.y, 7 * SCALE / SCALE);
        }
        _ => panic!("a flat metal must scatter"),
    }
}

#[test]
fn missing_everything_samples_the_sky() {
    let scene = Scene::new(
        None,
        None,
        Screen::new(v(-SCALE, SCALE, 2 * SCALE), v(2 * SCALE, 0, 0), v(0, -2 * SCALE, 0), 4, 4, 1, 4),
        Camera::new(v(0, 0, 4 * SCALE)),
        Bvhs::new(
            BvhNode::new(&mut Vec::<Sphere>::new()),
            BvhNode::new(&mut Vec::<Plane>::new()),
            BvhNode::new(&mut Vec::<Triangle>::new()),
        ),
        Shapes::new(Vec::new(), Vec::new(), Vec::new()),
        Vec::new(),
    );
    let mut rng = Rng::new(1);
    let mut stack = Vec::new();
    // straight up: the blend factor saturates at one, giving pure white
    let up = make_ray(v(0, 0, 0), v(0, SCALE, 0)).unwrap();
    let c = scene.ray_color(up, &mut stack, &mut rng);
    assert_eq!((c.x, c.y, c.z), (SCALE, SCALE, SCALE));
    // level with the horizon: the halfway blend
    let level = make_ray(v(0, 0, 0), v(SCALE, 0, 0)).unwrap();
    let c = scene.ray_color(level, &mut stack, &mut rng);
    assert_eq!(c.x, 13107 + (SCALE - 13107) / 2);
    assert_eq!(c.z, 52428 + (SCALE - 52428) / 2);
    // a checked scene passes the runtime validator
    assert!(raytracer::check_scene(&scene));
}

#[test]
fn bvh_nodes_have_one_parent() {
    // the flat arena is a tree: every non-root node is referenced exactly once
    let mut rng = Rng::new(17);
    let mut shapes = Vec::new();
    for _ in 0..30 {
        let c = (next_coord(&mut rng), next_coord(&mut rng), next_coord(&mut rng));
        shapes.push(Sphere::new(v(c.0, c.1, c.2), SCALE / 2, 0));
    }
    let nodes = BvhNode::new(&mut shapes);
    let mut referenced = vec![0usize; nodes.len()];
    for node in &nodes {
        if let BvhNodeKind::Branch { left, right } = node.kind {
            assert_ne!(left, right);
            referenced[left] += 1;
            referenced[right] += 1;
        }
    }
    assert_eq!(referenced[0], 0);
    assert!(referenced.iter().skip(1).all(|&count| count == 1));
}

#[test]
fn scene_checker_rejects_bad_scenes() {
    let mut spheres = vec![Sphere::new(v(0, 0, 0), -SCALE, 0)];
    let nodes = BvhNode::new(&mut Vec::<Sphere>::new());
    let bad = Scene::new(
        None,
        None,
        Screen::new(v(0, 0, 0), v(SCALE, 0, 0), v(0, SCALE, 0), 4, 4, 1, 2),
        Camera::new(v(0, 0, 0)),
        Bvhs::new(nodes.clone(), nodes.clone(), nodes.clone()),
        Shapes::new(spheres.clone(), Vec::new(), Vec::new()),
        vec![Material::new(
            MaterialKind::Light,
            ColorKind::Solid(v(SCALE, SCALE, SCALE)),
        )],
    );
    // a negative radius fails the sphere invariant, and the sphere
    // hierarchy does not cover the one sphere either
    assert!(!raytracer::check_scene(&bad));
    spheres.clear();
    let good = Scene::new(
        None,
        None,
        Screen::new(v(0, 0, 0), v(SCALE, 0, 0), v(0, SCALE, 0), 4, 4, 1, 2),
        Camera::new(v(0, 0, 0)),
        Bvhs::new(nodes.clone(), nodes.clone(), nodes.clone()),
        Shapes::new(spheres, Vec::new(), Vec::new()),
        Vec::new(),
    );
    assert!(raytracer::check_scene(&good));
}
