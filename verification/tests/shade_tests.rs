use glam::Vec3;
use rasterizer::shade::{get_brightness, ANGLE_PI};

// The same reduction the renderer's driver uses: the angle between the face
// normal and the light direction, as a fraction of a straight angle scaled by
// ANGLE_PI, clamped into range; a degenerate (zero) normal counts as
// perpendicular.
fn angle_units(normal: Vec3, light: Vec3) -> u32 {
    let angle = normal.angle_between(light);
    if !angle.is_finite() {
        return ANGLE_PI / 2;
    }
    let t = (angle / std::f32::consts::PI * ANGLE_PI as f32).round();
    if t <= 0.0 {
        0
    } else if t >= ANGLE_PI as f32 {
        ANGLE_PI
    } else {
        t as u32
    }
}

#[test]
fn light_along_normal_is_full_brightness() {
    // Angle 0, biased to a straight angle.
    let a = angle_units(Vec3::new(0.0, 0.0, 1.0), Vec3::new(0.0, 0.0, 1.0));
    assert_eq!(a, 0);
    assert_eq!(get_brightness(a), 255);
}

#[test]
fn light_opposite_normal_is_full_brightness() {
    // Angle of a straight angle, unchanged by the bias.
    let a = angle_units(Vec3::new(0.0, 0.0, 1.0), Vec3::new(0.0, 0.0, -1.0));
    assert_eq!(a, ANGLE_PI);
    assert_eq!(get_brightness(a), 255);
}

#[test]
fn light_perpendicular_to_normal_is_dark() {
    let a = angle_units(Vec3::new(0.0, 0.0, 1.0), Vec3::new(1.0, 0.0, 0.0));
    assert_eq!(a, ANGLE_PI / 2);
    assert_eq!(get_brightness(a), 0);
}

#[test]
fn zero_normal_is_dark() {
    let a = angle_units(Vec3::ZERO, Vec3::new(0.0, 0.0, 1.0));
    assert_eq!(a, ANGLE_PI / 2);
    assert_eq!(get_brightness(a), 0);
}

#[test]
fn brightness_at_three_quarters_angle() {
    assert_eq!(get_brightness(750_000), 128);
}

#[test]
fn brightness_symmetric_about_right_angle() {
    for a in [0u32, 1, 100_000, 250_000, 499_999, 500_000, 700_000] {
        assert_eq!(get_brightness(a), get_brightness(ANGLE_PI - a));
    }
}

#[test]
fn brightness_monotone_beyond_right_angle() {
    let mut last = get_brightness(500_000);
    let mut a = 500_000u32;
    while a < ANGLE_PI {
        a += 25_000;
        let b = get_brightness(a);
        assert!(b >= last);
        last = b;
    }
    assert_eq!(last, 255);
}
