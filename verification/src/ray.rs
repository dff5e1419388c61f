//! How the radiance estimate along a light path is put together.
//!
//! The estimate along a ray is black, the background, or what the surface
//! that the ray met lets through of the estimate along the scattered ray.
//! A budget of bounces, the depth, cuts every path off.

use crate::double::Double;
use vstd::prelude::*;

verus! {

/// The double next to one thousandth: how far along a ray a hit must lie
/// at least, so that a scattered ray does not hit the surface that it
/// leaves.
pub const T_MIN: Double = 0x3f50_624d_d2f1_a9fc;

/// Positive infinity: no hit lies too far along a ray.
pub const T_MAX: Double = crate::double::INFINITY;

/// What became of a ray in the scene.
#[derive(Clone, Copy, Debug, PartialEq, Eq, Structural)]
pub enum Encounter {
    /// It met no surface.
    Miss,
    /// It met a surface that swallowed it.
    Absorbed,
    /// It met a surface that sent a scattered ray on.
    Scattered,
}

/// What the estimate along a ray is.
#[derive(Clone, Copy, Debug, PartialEq, Eq, Structural)]
pub enum Radiance {
    /// No light.
    Black,
    /// The light of the background in the direction of the ray.
    Background,
    /// The attenuation of the surface, times the estimate along the
    /// scattered ray at the depth given.
    Attenuated { depth: i32 },
}

/// Whether a depth leaves no bounce: it is 0 or less.
pub open spec fn is_spent(depth: int) -> bool {
    depth <= 0
}

/// The estimate along a ray at a depth, by what became of the ray. At a
/// spent depth it is black, and the scene is not asked.
pub open spec fn radiance(depth: int, encounter: Encounter) -> Radiance {
    if is_spent(depth) {
        Radiance::Black
    } else {
        match encounter {
            Encounter::Miss => Radiance::Background,
            Encounter::Absorbed => Radiance::Black,
            Encounter::Scattered => Radiance::Attenuated { depth: (depth - 1) as i32 },
        }
    }
}

/// How many surfaces a path bounces off, by what becomes of its rays one
/// after the other.
pub open spec fn bounces(depth: int, path: Seq<Encounter>) -> nat
    decreases path.len(),
{
    if path.len() == 0 {
        0
    } else {
        match radiance(depth, path[0]) {
            Radiance::Attenuated { depth: rest } => 1 + bounces(rest as int, path.skip(1)),
            _ => 0,
        }
    }
}

/// Tests whether a depth leaves no bounce.
pub fn spent(depth: i32) -> (r: bool)
    ensures
        r == is_spent(depth as int),
{
    depth <= 0
}

/// The estimate along a ray at a depth, by what became of the ray.
pub fn ray_color(depth: i32, encounter: Encounter) -> (r: Radiance)
    ensures
        r == radiance(depth as int, encounter),
{
    if spent(depth) {
        Radiance::Black
    } else {
        match encounter {
            Encounter::Miss => Radiance::Background,
            Encounter::Absorbed => Radiance::Black,
            Encounter::Scattered => Radiance::Attenuated { depth: depth - 1 },
        }
    }
}

/// At depth 0 or less the estimate is black, whatever the ray and the scene.
pub proof fn lemma_spent_is_black(depth: int, encounter: Encounter)
    requires
        depth <= 0,
    ensures
        radiance(depth, encounter) == Radiance::Black,
{
}

/// The depth is lower by one after every bounce, and never less than 0.
pub proof fn lemma_bounce_lowers_depth(depth: i32, encounter: Encounter)
    ensures
        radiance(depth as int, encounter) matches Radiance::Attenuated { depth: rest } ==> 0
            <= rest == depth - 1,
{
}

/// No path bounces more often than its depth allows.
pub proof fn lemma_depth_bounds_bounces(depth: i32, path: Seq<Encounter>)
    ensures
        bounces(depth as int, path) <= if depth > 0 {
            depth as int
        } else {
            0
        },
    decreases path.len(),
{
    if path.len() > 0 {
        match radiance(depth as int, path[0]) {
            Radiance::Attenuated { depth: rest } => {
                lemma_depth_bounds_bounces(rest, path.skip(1));
            },
            _ => {},
        }
    }
}

} // verus!
