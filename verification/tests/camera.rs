use pathtracer::camera::{ray_color, resolve, Bounce};
use std::cell::{Cell, RefCell};

// Colours are whole numbers here and a ray is the number of the surface it
// leaves: what is under test is the order of events, not the arithmetic.

fn blend(emitted: i64, attenuation: i64, incoming: i64) -> i64 {
    emitted + attenuation * incoming
}

#[test]
fn no_bounce_left_is_black() {
    let trace = |_ray: &u32| -> Bounce<u32, i64> { panic!("nothing to follow") };
    assert_eq!(ray_color(&0, 0, -1, 7, &trace, &blend), -1);
}

#[test]
fn a_ray_that_leaves_the_scene_sees_the_background() {
    let trace = |_ray: &u32| -> Bounce<u32, i64> { Bounce::Missed };
    assert_eq!(ray_color(&0, 1, 0, 7, &trace, &blend), 7);
    assert_eq!(ray_color(&0, 50, 0, 7, &trace, &blend), 7);
}

#[test]
fn an_absorbed_ray_sees_what_the_surface_emits() {
    let trace = |_ray: &u32| -> Bounce<u32, i64> { Bounce::Absorbed { emitted: 15 } };
    assert_eq!(ray_color(&0, 3, 0, 7, &trace, &blend), 15);
}

#[test]
fn a_scattered_ray_blends_what_comes_back() {
    // surface 0 scatters to surface 1, which scatters out of the scene
    let trace = |ray: &u32| -> Bounce<u32, i64> {
        match *ray {
            0 => Bounce::Scattered { emitted: 1, attenuation: 2, ray: 1 },
            1 => Bounce::Scattered { emitted: 10, attenuation: 3, ray: 2 },
            _ => Bounce::Missed,
        }
    };
    // 1 + 2 * (10 + 3 * 100)
    assert_eq!(ray_color(&0, 5, 0, 100, &trace, &blend), 621);
    assert_eq!(ray_color(&0, 3, 0, 100, &trace, &blend), 621);
}

#[test]
fn the_cut_is_hard() {
    let trace = |ray: &u32| -> Bounce<u32, i64> {
        match *ray {
            0 => Bounce::Scattered { emitted: 1, attenuation: 2, ray: 1 },
            1 => Bounce::Scattered { emitted: 10, attenuation: 3, ray: 2 },
            _ => Bounce::Missed,
        }
    };
    // with two bounces the path ends in black where the background would be
    assert_eq!(ray_color(&0, 2, 0, 100, &trace, &blend), 1 + 2 * (10 + 3 * 0));
    assert_eq!(ray_color(&0, 1, 0, 100, &trace, &blend), 1 + 2 * 0);
}

#[test]
fn a_path_takes_no_more_bounces_than_allowed() {
    let bounces = Cell::new(0u32);
    let trace = |ray: &u32| -> Bounce<u32, i64> {
        bounces.set(bounces.get() + 1);
        Bounce::Scattered { emitted: 0, attenuation: 1, ray: *ray + 1 }
    };
    assert_eq!(ray_color(&0, 9, 0, 100, &trace, &blend), 0);
    assert_eq!(bounces.get(), 9);
}

#[test]
fn a_path_of_the_greatest_depth_ends() {
    let trace = |ray: &u32| -> Bounce<u32, i64> {
        Bounce::Scattered { emitted: 1, attenuation: 1, ray: *ray + 1 }
    };
    assert_eq!(ray_color(&0, u16::MAX, 0, 0, &trace, &blend), u16::MAX as i64);
}

#[test]
fn colours_without_negative_part_stay_so() {
    fastrand::seed(4);
    for _ in 0..500 {
        let trace = |_ray: &u32| -> Bounce<u32, i64> {
            match fastrand::u8(0..4) {
                0 => Bounce::Missed,
                1 => Bounce::Absorbed { emitted: fastrand::i64(0..5) },
                _ => Bounce::Scattered {
                    emitted: fastrand::i64(0..5),
                    attenuation: fastrand::i64(0..3),
                    ray: 0,
                },
            }
        };
        let depth = fastrand::u16(0..12);
        assert!(ray_color(&0, depth, 0, fastrand::i64(0..9), &trace, &blend) >= 0);
    }
}

#[test]
fn a_pixel_without_samples_is_the_scaled_zero() {
    let draw = || -> i64 { panic!("nothing to draw") };
    assert_eq!(resolve(0, 5, &draw, &|a: i64, b: i64| a + b, &|s: i64| s * 2), 10);
}

#[test]
fn a_pixel_adds_its_samples_in_turn_and_scales_the_sum() {
    let next = Cell::new(0i64);
    let draw = || {
        next.set(next.get() + 1);
        next.get()
    };
    let added = RefCell::new(Vec::new());
    let accumulate = |sum: i64, sample: i64| {
        added.borrow_mut().push((sum, sample));
        sum + sample
    };
    let color = resolve(4, 0, &draw, &accumulate, &|sum: i64| sum * 10);
    assert_eq!(color, 100);
    assert_eq!(added.into_inner(), vec![(0, 1), (1, 2), (3, 3), (6, 4)]);
}

#[test]
fn a_pixel_draws_as_many_samples_as_asked() {
    let drawn = Cell::new(0u32);
    let draw = || {
        drawn.set(drawn.get() + 1);
        1i64
    };
    let color = resolve(u16::MAX, 0, &draw, &|a: i64, b: i64| a + b, &|s: i64| s);
    assert_eq!(color, 65535);
    assert_eq!(drawn.get(), 65535);
}
