//! The scattering laws that a surface can bear.

use crate::double::{at_most, less, lt, Double, ONE, ZERO};
use crate::literal::{Number, Triple, TripleText};
use crate::vector::Vec3;
use vstd::prelude::*;

verus! {

/// The material of a surface, with its parameters as written.
#[derive(Debug, PartialEq, Eq)]
pub enum MaterialEnum {
    /// Diffuse: scatters about the normal.
    Lambertian { albedo: Triple },
    /// Mirror-like, blurred by `fuzziness`.
    Metal { albedo: Triple, fuzziness: Number },
    /// Clear: reflects or refracts.
    Dielectric { index_of_refraction: Number },
}

/// What a `MaterialEnum` holds.
pub enum MaterialText {
    Lambertian { albedo: TripleText },
    Metal { albedo: TripleText, fuzziness: Seq<u8> },
    Dielectric { index_of_refraction: Seq<u8> },
}

impl View for MaterialEnum {
    type V = MaterialText;

    open spec fn view(&self) -> MaterialText {
        match self {
            MaterialEnum::Lambertian { albedo } => MaterialText::Lambertian { albedo: albedo@ },
            MaterialEnum::Metal { albedo, fuzziness } => MaterialText::Metal {
                albedo: albedo@,
                fuzziness: fuzziness@,
            },
            MaterialEnum::Dielectric { index_of_refraction } => MaterialText::Dielectric {
                index_of_refraction: index_of_refraction@,
            },
        }
    }
}

/// The three scattering laws.
#[derive(Clone, Copy, Debug, PartialEq, Eq, Structural)]
pub enum MaterialKind {
    Lambertian,
    Metal,
    Dielectric,
}

impl MaterialEnum {
    /// The scattering law of a material.
    pub open spec fn kind_of(material: MaterialText) -> MaterialKind {
        match material {
            MaterialText::Lambertian { .. } => MaterialKind::Lambertian,
            MaterialText::Metal { .. } => MaterialKind::Metal,
            MaterialText::Dielectric { .. } => MaterialKind::Dielectric,
        }
    }

    /// The scattering law of this material.
    pub fn kind(&self) -> (k: MaterialKind)
        ensures
            k == Self::kind_of(self@),
    {
        match self {
            MaterialEnum::Lambertian { .. } => MaterialKind::Lambertian,
            MaterialEnum::Metal { .. } => MaterialKind::Metal,
            MaterialEnum::Dielectric { .. } => MaterialKind::Dielectric,
        }
    }
}

/// The double next to eight tenths.
pub const EIGHT_TENTHS: Double = 0x3fe9_9999_9999_999a;

/// The double next to nineteen twentieths.
pub const NINETEEN_TWENTIETHS: Double = 0x3fee_6666_6666_6666;

/// The scattering law that a draw from the unit interval picks for a small
/// sphere of a generated scene: diffuse below eight tenths, metal from
/// there up to nineteen twentieths, clear from there on.
pub open spec fn drawn_kind(draw: Double) -> MaterialKind {
    if less(draw, EIGHT_TENTHS) {
        MaterialKind::Lambertian
    } else if less(draw, NINETEEN_TWENTIETHS) {
        MaterialKind::Metal
    } else {
        MaterialKind::Dielectric
    }
}

/// Picks the scattering law for a small sphere of a generated scene by a
/// draw.
pub fn choose_material(choose_mat: Double) -> (k: MaterialKind)
    ensures
        k == drawn_kind(choose_mat),
{
    if lt(choose_mat, EIGHT_TENTHS) {
        MaterialKind::Lambertian
    } else if lt(choose_mat, NINETEEN_TWENTIETHS) {
        MaterialKind::Metal
    } else {
        MaterialKind::Dielectric
    }
}

/// What was computed at a hit for the scattering law of the surface.
#[derive(Clone, Copy, Debug, PartialEq, Eq, Structural)]
pub enum Computed {
    /// For a diffuse surface: the sum of the normal and a random unit
    /// vector, and the normal itself.
    Lambertian { scatter_direction: Vec3, normal: Vec3 },
    /// For a metal: the direction of the reflected ray, blurred, and its
    /// dot product with the normal.
    Metal { scattered: Vec3, facing: Double },
    /// For a clear material: the ratio of refraction times the sine of the
    /// angle of the ray; the reflectance; a draw from the unit interval;
    /// and the directions of the reflected and of the refracted ray.
    Dielectric {
        bend: Double,
        reflectance: Double,
        draw: Double,
        reflected: Vec3,
        refracted: Vec3,
    },
}

/// Whether a clear material reflects a ray; else it refracts it. It
/// reflects where it cannot refract, which is where `bend` is above one,
/// and where the reflectance is above the draw.
pub open spec fn reflects(bend: Double, reflectance: Double, draw: Double) -> bool {
    less(ONE, bend) || less(draw, reflectance)
}

/// The direction in which a surface scatters a ray; none where it absorbs
/// the ray.
///
/// A diffuse surface scatters along the sum of the normal and the random
/// vector, unless that is next to nothing; then along the normal. A metal
/// scatters only where the scattered ray leaves the surface, which is where
/// its dot product with the normal is above zero. A clear material reflects
/// or refracts.
pub open spec fn scattered(computed: Computed) -> Option<Vec3> {
    match computed {
        Computed::Lambertian { scatter_direction, normal } => Some(
            if scatter_direction.is_near_zero() {
                normal
            } else {
                scatter_direction
            },
        ),
        Computed::Metal { scattered, facing } => if less(ZERO, facing) {
            Some(scattered)
        } else {
            None
        },
        Computed::Dielectric { bend, reflectance, draw, reflected, refracted } => Some(
            if reflects(bend, reflectance, draw) {
                reflected
            } else {
                refracted
            },
        ),
    }
}

impl MaterialEnum {
    /// Decides in which direction a surface scatters a ray, if it does.
    pub fn scatter(computed: Computed) -> (r: Option<Vec3>)
        ensures
            r == scattered(computed),
    {
        match computed {
            Computed::Lambertian { scatter_direction, normal } => {
                if scatter_direction.near_zero() {
                    Some(normal)
                } else {
                    Some(scatter_direction)
                }
            },
            Computed::Metal { scattered, facing } => {
                if lt(ZERO, facing) {
                    Some(scattered)
                } else {
                    None
                }
            },
            Computed::Dielectric { bend, reflectance, draw, reflected, refracted } => {
                if lt(ONE, bend) || lt(draw, reflectance) {
                    Some(reflected)
                } else {
                    Some(refracted)
                }
            },
        }
    }
}

/// Diffuse surfaces and clear materials always scatter; only a metal can
/// absorb a ray.
pub proof fn lemma_only_metal_absorbs(computed: Computed)
    ensures
        scattered(computed) is None ==> computed is Metal,
{
}

/// A clear material refracts wherever it can and the draw is no less than
/// the reflectance. So a material of no reflectance, under a ray that is
/// not bent beyond one, always refracts.
pub proof fn lemma_refracts(bend: Double, reflectance: Double, draw: Double)
    requires
        at_most(bend, ONE),
        at_most(reflectance, draw),
    ensures
        !reflects(bend, reflectance, draw),
{
}

} // verus!
