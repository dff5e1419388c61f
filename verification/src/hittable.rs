//! Hits, and the spheres of a scene description.

use crate::double::{at_most, is_nan, less, lt, negated, Double, ZERO};
use crate::literal::{Number, Triple, TripleText};
use crate::material::{MaterialEnum, MaterialText};
use crate::vector::{Point3, Vec3};
use core::ops::Neg;
use vstd::prelude::*;

verus! {

/// What is kept of a hit: the point, the normal of the surface there, the
/// parameter of the ray, and whether the ray came from outside.
#[derive(Clone, Copy, Debug, PartialEq, Eq, Structural)]
pub struct HitRecord {
    pub p: Point3,
    pub normal: Vec3,
    pub t: Double,
    pub is_front_face: bool,
}

impl HitRecord {
    /// Turns the normal against the ray. `facing` is the dot product of the
    /// direction of the ray and the outward normal: where it is negative
    /// the ray came from outside, and the outward normal is kept; else the
    /// normal is turned about.
    pub fn set_face_normal(&mut self, facing: Double, outward_normal: &Vec3)
        ensures
            final(self).is_front_face == less(facing, ZERO),
            final(self).normal == if less(facing, ZERO) {
                *outward_normal
            } else {
                outward_normal.turned()
            },
            final(self).p == old(self).p,
            final(self).t == old(self).t,
    {
        self.is_front_face = lt(facing, ZERO);
        self.normal = if self.is_front_face {
            *outward_normal
        } else {
            outward_normal.neg()
        };
    }
}

/// The dot product of the direction of the ray and the normal that is kept,
/// by the dot product with the outward normal: the same where the outward
/// normal is kept, the negative where the normal is turned about.
pub open spec fn kept_facing(facing: Double) -> Double {
    if less(facing, ZERO) {
        facing
    } else {
        negated(facing)
    }
}

/// The normal that is kept never points along the ray: its dot product
/// with the direction of the ray is zero at most.
pub proof fn lemma_normal_opposes_ray(facing: Double)
    requires
        !is_nan(facing),
    ensures
        at_most(kept_facing(facing), ZERO),
{
    crate::double::lemma_negated(facing);
    crate::double::lemma_size_bounds(0);
}

impl Default for HitRecord {
    /// A record of zeros, to be filled in.
    fn default() -> (r: HitRecord)
        ensures
            r == (HitRecord {
                p: Vec3 { x: 0, y: 0, z: 0 },
                normal: Vec3 { x: 0, y: 0, z: 0 },
                t: 0,
                is_front_face: false,
            }),
    {
        HitRecord { p: Vec3::default(), normal: Vec3::default(), t: 0, is_front_face: false }
    }
}

/// A sphere of the scene description.
#[derive(Debug, PartialEq, Eq)]
pub struct Sphere {
    pub center: Triple,
    pub radius: Number,
    pub material: MaterialEnum,
}

/// What a `Sphere` holds.
pub struct SphereText {
    pub center: TripleText,
    pub radius: Seq<u8>,
    pub material: MaterialText,
}

impl View for Sphere {
    type V = SphereText;

    open spec fn view(&self) -> SphereText {
        SphereText { center: self.center@, radius: self.radius@, material: self.material@ }
    }
}

/// The spheres of a scene, in the order in which they were described.
#[derive(Debug, PartialEq, Eq)]
pub struct HittableList {
    pub objects: Vec<Sphere>,
}

impl View for HittableList {
    type V = Seq<SphereText>;

    open spec fn view(&self) -> Seq<SphereText> {
        self.objects@.map_values(|s: Sphere| s@)
    }
}

} // verus!
