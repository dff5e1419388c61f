//! Vectors of three doubles: positions, directions and colours.
//!
//! The arithmetic of vectors is done elsewhere. Here is what needs no
//! arithmetic: drawing a vector, turning it about, and telling whether it is
//! next to nothing.

use crate::double::{abs, absolute, at_most, less, lt, neg, negated, Double, ONE, ZERO};
use crate::util::random_double;
use core::ops::Neg;
use vstd::prelude::*;
use vstd::std_specs::ops::NegSpecImpl;

verus! {

/// Three doubles.
#[derive(Clone, Copy, Debug, PartialEq, Eq, Structural)]
pub struct Vec3 {
    pub x: Double,
    pub y: Double,
    pub z: Double,
}

/// A position.
pub type Point3 = Vec3;

/// Red, green and blue.
pub type Color = Vec3;

/// The double next to one hundred-millionth, below which a component counts
/// for nothing.
pub const TINY: Double = 0x3e45_798e_e230_8c3a;

impl Vec3 {
    /// The vector of the three given components.
    pub fn new(x: Double, y: Double, z: Double) -> (v: Vec3)
        ensures
            v == (Vec3 { x, y, z }),
    {
        Vec3 { x, y, z }
    }

    /// The vector turned about: every component with the other sign.
    pub open spec fn turned(self) -> Vec3 {
        Vec3 { x: negated(self.x), y: negated(self.y), z: negated(self.z) }
    }

    /// Whether every component of the vector is less than `TINY` in size.
    pub open spec fn is_near_zero(self) -> bool {
        less(absolute(self.x), TINY) && less(absolute(self.y), TINY) && less(
            absolute(self.z),
            TINY,
        )
    }

    /// A random vector: each component a uniform draw from the unit
    /// interval, 1 left out, in the order x, y, z.
    pub fn random() -> (v: Vec3)
        ensures
            at_most(ZERO, v.x) && less(v.x, ONE),
            at_most(ZERO, v.y) && less(v.y, ONE),
            at_most(ZERO, v.z) && less(v.z, ONE),
    {
        let x = random_double();
        let y = random_double();
        let z = random_double();
        Vec3 { x, y, z }
    }

    /// Tests whether every component of the vector is less than `TINY` in
    /// size.
    pub fn near_zero(self) -> (r: bool)
        ensures
            r == self.is_near_zero(),
    {
        lt(abs(self.x), TINY) && lt(abs(self.y), TINY) && lt(abs(self.z), TINY)
    }
}

/// Whether a random point is kept as a point inside the unit sphere, or the
/// unit disk: only where the square of its length is below one.
pub fn inside_unit(length_squared: Double) -> (r: bool)
    ensures
        r == less(length_squared, ONE),
{
    lt(length_squared, ONE)
}

impl Default for Vec3 {
    /// The vector of three zeros.
    fn default() -> (v: Vec3)
        ensures
            v == (Vec3 { x: 0, y: 0, z: 0 }),
    {
        Vec3 { x: 0, y: 0, z: 0 }
    }
}

impl Neg for Vec3 {
    type Output = Vec3;

    fn neg(self) -> (r: Vec3) {
        Vec3 { x: neg(self.x), y: neg(self.y), z: neg(self.z) }
    }
}

impl NegSpecImpl for Vec3 {
    open spec fn obeys_neg_spec() -> bool {
        true
    }

    open spec fn neg_req(self) -> bool {
        true
    }

    open spec fn neg_spec(self) -> Vec3 {
        self.turned()
    }
}

} // verus!
