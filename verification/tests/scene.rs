use pathtracer::bvh::BVHNode;
use pathtracer::camera::{ray_color, resolve, Bounce};
use pathtracer::entity::HitRecord;
use pathtracer::order::Extent;

// A whole picture in small: one sphere of radius 1 about the origin with a
// grey diffuse surface, seen from (0, 0, 3) down the z axis, one sample to the
// pixel. The arithmetic is the test's own; the order of events is the
// library's.

type V = [f64; 3];

fn add(a: V, b: V) -> V {
    [a[0] + b[0], a[1] + b[1], a[2] + b[2]]
}

fn sub(a: V, b: V) -> V {
    [a[0] - b[0], a[1] - b[1], a[2] - b[2]]
}

fn scale(a: V, s: f64) -> V {
    [a[0] * s, a[1] * s, a[2] * s]
}

fn times(a: V, b: V) -> V {
    [a[0] * b[0], a[1] * b[1], a[2] * b[2]]
}

fn dot(a: V, b: V) -> f64 {
    a[0] * b[0] + a[1] * b[1] + a[2] * b[2]
}

/// An integer that compares as the scalar does.
fn key(x: f64) -> i64 {
    let bits = (x + 0.0).to_bits() as i64;
    bits ^ ((((bits >> 63) as u64) >> 1) as i64)
}

#[derive(Clone, Copy)]
struct Ray {
    origin: V,
    direction: V,
}

struct Surface {
    point: V,
    normal: V,
}

const BACKGROUND: V = [0.7, 0.8, 1.0];
const ALBEDO: V = [0.5, 0.5, 0.5];

fn sphere(ray: &Ray) -> Option<HitRecord<Surface>> {
    let oc = sub([0.0, 0.0, 0.0], ray.origin);
    let a = dot(ray.direction, ray.direction);
    let half_b = dot(ray.direction, oc);
    let c = dot(oc, oc) - 1.0;
    let discriminant = half_b * half_b - a * c;
    if discriminant < 0.0 {
        return None;
    }
    let root = (half_b - discriminant.sqrt()) / a;
    if !(0.001 < root) {
        return None;
    }
    let point = add(ray.origin, scale(ray.direction, root));
    Some(HitRecord { time: key(root), surface: Surface { point, normal: point } })
}

fn random_unit() -> V {
    loop {
        let p = [
            2.0 * fastrand::f64() - 1.0,
            2.0 * fastrand::f64() - 1.0,
            2.0 * fastrand::f64() - 1.0,
        ];
        let l = dot(p, p);
        if 1e-12 < l && l < 1.0 {
            return scale(p, 1.0 / l.sqrt());
        }
    }
}

fn pixel(tree: &BVHNode, i: u32, j: u32, depth: u16) -> V {
    let trace = |ray: &Ray| -> Bounce<Ray, V> {
        let found = tree.hit(&|_node: usize| true, &|_entity: usize| sphere(ray));
        match found {
            None => Bounce::Missed,
            Some(hit) => Bounce::Scattered {
                emitted: [0.0, 0.0, 0.0],
                attenuation: ALBEDO,
                ray: Ray {
                    origin: hit.surface.point,
                    direction: add(hit.surface.normal, random_unit()),
                },
            },
        }
    };
    let blend = |emitted: V, attenuation: V, incoming: V| add(emitted, times(attenuation, incoming));
    let draw = || {
        let x = (i as f64 - 4.0 + fastrand::f64() - 0.5) / 4.0;
        let y = (4.0 - j as f64 + fastrand::f64() - 0.5) / 4.0;
        let ray = Ray { origin: [0.0, 0.0, 3.0], direction: [x, y, -1.0] };
        ray_color(&ray, depth, [0.0, 0.0, 0.0], BACKGROUND, &trace, &blend)
    };
    resolve(1, [0.0, 0.0, 0.0], &draw, &|sum: V, sample: V| add(sum, sample), &|sum: V| {
        scale(sum, 1.0)
    })
}

fn world() -> BVHNode {
    let mut entities = vec![Extent::new(0, key(-1.0), key(-1.0), key(-1.0))];
    BVHNode::new(&mut entities)
}

#[test]
fn corner_pixel_is_exactly_the_background() {
    fastrand::seed(42);
    let tree = world();
    for (i, j) in [(0, 0), (8, 0), (0, 8), (8, 8)] {
        assert_eq!(pixel(&tree, i, j, 1), BACKGROUND);
        assert_eq!(pixel(&tree, i, j, 10), BACKGROUND);
    }
}

#[test]
fn centre_pixel_is_not_the_background() {
    fastrand::seed(42);
    let tree = world();
    assert_ne!(pixel(&tree, 4, 4, 1), BACKGROUND);
    assert_ne!(pixel(&tree, 4, 4, 2), BACKGROUND);
}

#[test]
fn centre_pixel_of_depth_one_ends_at_the_cut() {
    // the one bounce allowed is spent on the sphere: nothing comes back
    fastrand::seed(42);
    let tree = world();
    assert_eq!(pixel(&tree, 4, 4, 1), [0.0, 0.0, 0.0]);
}

#[test]
fn centre_pixel_of_depth_two_carries_half_the_background() {
    // a ray scattered off a convex surface leaves the scene
    fastrand::seed(42);
    let tree = world();
    assert_eq!(pixel(&tree, 4, 4, 2), times(ALBEDO, BACKGROUND));
}

#[test]
fn same_seed_same_picture() {
    let tree = world();
    let picture = |seed: u64| -> Vec<V> {
        fastrand::seed(seed);
        let mut out = Vec::new();
        for j in 0..9 {
            for i in 0..9 {
                out.push(pixel(&tree, i, j, 5));
            }
        }
        out
    };
    assert_eq!(picture(42), picture(42));
}

#[test]
fn no_pixel_has_a_negative_part() {
    fastrand::seed(42);
    let tree = world();
    for j in 0..9 {
        for i in 0..9 {
            let c = pixel(&tree, i, j, 5);
            assert!(c[0] >= 0.0 && c[1] >= 0.0 && c[2] >= 0.0);
        }
    }
}

#[test]
fn order_keys_compare_as_the_scalars_do() {
    let scalars = [f64::NEG_INFINITY, -3.5, -1e-300, -0.0, 0.0, 1e-300, 0.001, 2.0, f64::INFINITY];
    for a in scalars {
        for b in scalars {
            assert_eq!(key(a) < key(b), a < b);
            assert_eq!(key(a) == key(b), a == b);
        }
    }
}
