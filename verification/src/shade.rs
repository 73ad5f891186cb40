//! The shader: one brightness value per triangle from the angle between its
//! face normal and the light direction.
//!
//! Angles are carried as plain integers: a fraction of a straight angle,
//! scaled by [`ANGLE_PI`]. An angle of `0` means the normal points along the
//! light, `ANGLE_PI / 2` means they are perpendicular, `ANGLE_PI` means they
//! are opposed.

use vstd::prelude::*;

verus! {

/// Number of angle units in a straight angle. A shading angle `a` stands for
/// `a / ANGLE_PI` of a straight angle.
pub const ANGLE_PI: u32 = 1_000_000;

/// Folds angles under a right angle onto the opposite side: with no back-face
/// culling, every triangle is treated as front-facing, so an angle `a`
/// strictly under a right angle becomes `ANGLE_PI - a`. The result always
/// lies between a right angle and a straight angle.
pub open spec fn biased_angle(angle: int) -> int {
    if 2 * angle < ANGLE_PI as int {
        ANGLE_PI as int - angle
    } else {
        angle
    }
}

/// The brightness of a surface under a shading angle in `[0, ANGLE_PI]`: the
/// biased angle, which lies between a right angle and a straight angle, mapped
/// linearly onto `[0, 255]` and rounded half-up.
pub open spec fn brightness_spec(angle: int) -> int {
    (510 * (2 * biased_angle(angle) - ANGLE_PI as int) + ANGLE_PI as int) / (2 * ANGLE_PI as int)
}

/// How bright a surface is under a directional light, given the angle between
/// the surface normal and the light direction.
pub fn get_brightness(angle: u32) -> (b: u8)
    requires
        angle <= ANGLE_PI,
    ensures
        b == brightness_spec(angle as int),
{
    let a: u64 = angle as u64;
    let p: u64 = ANGLE_PI as u64;
    let biased: u64 = if 2 * a < p {
        p - a
    } else {
        a
    };
    let num: u64 = 510 * (2 * biased - p) + p;
    let q: u64 = num / (2 * p);
    q as u8
}

/// Shading is symmetric about a right angle: a light direction and its
/// opposite give the same brightness, because the back-face bias folds the two
/// angles onto one another.
pub proof fn lemma_shading_symmetry(angle: int)
    requires
        0 <= angle <= ANGLE_PI as int,
    ensures
        brightness_spec(angle) == brightness_spec(ANGLE_PI as int - angle),
{
}

} // verus!
