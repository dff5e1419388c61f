//! Which surface a ray meets first.
//!
//! The parameters at which a ray crosses the surfaces are worked out
//! elsewhere. Here they are compared: for each surface the first crossing
//! between two bounds is picked, and among the surfaces the closest.

use crate::double::{is_nan, less, lt, nan, value, Double, ZERO};
use vstd::prelude::*;

verus! {

/// The two parameters at which the line of a ray crosses a sphere, the
/// smaller and the larger. Both are numbers.
#[derive(Clone, Copy, Debug, PartialEq, Eq, Structural)]
pub struct Roots {
    near: Double,
    far: Double,
}

/// The closest hit of a ray: which surface of the scene, and where along
/// the ray.
#[derive(Clone, Copy, Debug, PartialEq, Eq, Structural)]
pub struct Closest {
    /// The index of the surface in the scene.
    pub index: usize,
    /// The parameter of the ray at the hit.
    pub t: Double,
}

/// Whether `t` lies between `t_min` and `t_max`, both left out.
pub open spec fn within(t: Double, t_min: Double, t_max: Double) -> bool {
    less(t_min, t) && less(t, t_max)
}

/// Whether the line of a ray crosses a sphere at all, by the discriminant
/// of the equation of the crossings: it does unless that is negative.
pub open spec fn has_roots(discriminant: Double) -> bool {
    !less(discriminant, ZERO)
}

impl Roots {
    #[verifier::type_invariant]
    spec fn ordered(&self) -> bool {
        !is_nan(self.near) && !is_nan(self.far) && value(self.near) <= value(self.far)
    }

    /// The smaller parameter.
    pub closed spec fn near(&self) -> Double {
        self.near
    }

    /// The larger parameter.
    pub closed spec fn far(&self) -> Double {
        self.far
    }

    /// Where the ray first meets the sphere between `t_min` and `t_max`,
    /// both left out: at the smaller parameter if that lies between them,
    /// else at the larger if that does, else nowhere.
    pub open spec fn crossing(&self, t_min: Double, t_max: Double) -> Option<Double> {
        if within(self.near(), t_min, t_max) {
            Some(self.near())
        } else if within(self.far(), t_min, t_max) {
            Some(self.far())
        } else {
            None
        }
    }

    /// The roots of the equation of the crossings, by its discriminant and
    /// the two parameters computed from it, whichever of them is the
    /// smaller. There are none where the discriminant is negative, nor where
    /// one of the two is no number.
    pub fn new(discriminant: Double, a: Double, b: Double) -> (r: Option<Roots>)
        ensures
            match r {
                Some(roots) => {
                    &&& has_roots(discriminant) && !is_nan(a) && !is_nan(b)
                    &&& roots.near() == if less(b, a) {
                        b
                    } else {
                        a
                    }
                    &&& roots.far() == if less(b, a) {
                        a
                    } else {
                        b
                    }
                },
                None => !has_roots(discriminant) || is_nan(a) || is_nan(b),
            },
    {
        if lt(discriminant, ZERO) || nan(a) || nan(b) {
            None
        } else if lt(b, a) {
            Some(Roots { near: b, far: a })
        } else {
            Some(Roots { near: a, far: b })
        }
    }

    /// The smaller parameter.
    pub fn smaller(&self) -> (t: Double)
        ensures
            t == self.near(),
            !is_nan(t),
            value(t) <= value(self.far()),
    {
        proof {
            use_type_invariant(self);
        }
        self.near
    }

    /// The larger parameter.
    pub fn larger(&self) -> (t: Double)
        ensures
            t == self.far(),
            !is_nan(t),
            value(self.near()) <= value(t),
    {
        proof {
            use_type_invariant(self);
        }
        self.far
    }

    /// Finds where the ray first meets the sphere between `t_min` and
    /// `t_max`, both left out.
    pub fn hit(&self, t_min: Double, t_max: Double) -> (r: Option<Double>)
        ensures
            r == self.crossing(t_min, t_max),
            !is_nan(self.near()) && !is_nan(self.far()),
            value(self.near()) <= value(self.far()),
    {
        proof {
            use_type_invariant(self);
        }
        if lt(t_min, self.near) && lt(self.near, t_max) {
            Some(self.near)
        } else if lt(t_min, self.far) && lt(self.far, t_max) {
            Some(self.far)
        } else {
            None
        }
    }
}

/// Where the ray first meets surface `i` between `t_min` and `t_max`, if it
/// does. A surface whose line the ray's line misses holds no parameters.
pub open spec fn crossing(
    surfaces: Seq<Option<Roots>>,
    i: int,
    t_min: Double,
    t_max: Double,
) -> Option<Double> {
    match surfaces[i] {
        Some(roots) => roots.crossing(t_min, t_max),
        None => None,
    }
}

/// Whether `hit` is the closest hit among the first `n` surfaces: no
/// surface is met before it, and none with a smaller index is met where it
/// is.
pub open spec fn closest_of(
    surfaces: Seq<Option<Roots>>,
    n: int,
    t_min: Double,
    t_max: Double,
    hit: Closest,
) -> bool {
    &&& hit.index < n
    &&& crossing(surfaces, hit.index as int, t_min, t_max) == Some(hit.t)
    &&& forall|j: int|
        0 <= j < n ==> (#[trigger] crossing(surfaces, j, t_min, t_max) matches Some(u) ==> value(
            hit.t,
        ) <= value(u))
    &&& forall|j: int|
        0 <= j < hit.index ==> (#[trigger] crossing(surfaces, j, t_min, t_max) matches Some(u)
            ==> value(hit.t) < value(u))
}

/// Whether the ray meets none of the first `n` surfaces between `t_min` and
/// `t_max`.
pub open spec fn none_of(
    surfaces: Seq<Option<Roots>>,
    n: int,
    t_min: Double,
    t_max: Double,
) -> bool {
    forall|j: int| 0 <= j < n ==> (#[trigger] crossing(surfaces, j, t_min, t_max)) is None
}

/// Finds the closest hit of a ray in a scene, between `t_min` and `t_max`,
/// both left out. The surfaces are gone through in their order, and each is
/// asked only for a hit before the closest so far.
pub fn closest_hit(surfaces: &Vec<Option<Roots>>, t_min: Double, t_max: Double) -> (r: Option<
    Closest,
>)
    ensures
        match r {
            Some(hit) => closest_of(surfaces@, surfaces@.len() as int, t_min, t_max, hit),
            None => none_of(surfaces@, surfaces@.len() as int, t_min, t_max),
        },
{
    let n = surfaces.len();
    let mut best: Option<Closest> = None;
    let mut closest_so_far = t_max;
    let mut i: usize = 0;
    while i < n
        invariant
            i <= n,
            n == surfaces@.len(),
            match best {
                Some(hit) => closest_so_far == hit.t && closest_of(
                    surfaces@,
                    i as int,
                    t_min,
                    t_max,
                    hit,
                ),
                None => closest_so_far == t_max && none_of(surfaces@, i as int, t_min, t_max),
            },
        decreases n - i,
    {
        let found = match &surfaces[i] {
            Some(roots) => roots.hit(t_min, closest_so_far),
            None => None,
        };
        if let Some(t) = found {
            best = Some(Closest { index: i, t });
            closest_so_far = t;
        }
        i += 1;
    }
    best
}

/// Where the smaller parameter is no larger than the larger, the crossing
/// is the least of the two that lies between the bounds.
pub proof fn lemma_crossing_is_least(roots: Roots, t_min: Double, t_max: Double)
    requires
        value(roots.near()) <= value(roots.far()),
    ensures
        match roots.crossing(t_min, t_max) {
            Some(t) => {
                &&& t == roots.near() || t == roots.far()
                &&& within(t, t_min, t_max)
                &&& within(roots.near(), t_min, t_max) ==> value(t) <= value(roots.near())
                &&& within(roots.far(), t_min, t_max) ==> value(t) <= value(roots.far())
            },
            None => !within(roots.near(), t_min, t_max) && !within(roots.far(), t_min, t_max),
        },
{
}

/// Where the closest hit lies does not depend on the order of the surfaces:
/// in two scenes made of the same surfaces, the closest hits lie equally
/// far along the ray. They may differ in the surface only where two are hit
/// at one place.
pub proof fn lemma_closest_is_order_free(
    one: Seq<Option<Roots>>,
    other: Seq<Option<Roots>>,
    t_min: Double,
    t_max: Double,
    hit: Closest,
    other_hit: Closest,
)
    requires
        forall|x: Option<Roots>| one.contains(x) <==> other.contains(x),
        closest_of(one, one.len() as int, t_min, t_max, hit),
        closest_of(other, other.len() as int, t_min, t_max, other_hit),
    ensures
        value(hit.t) == value(other_hit.t),
{
    let x = one[hit.index as int];
    assert(one.contains(x));
    let j = choose|j: int| 0 <= j < other.len() && other[j] == x;
    assert(crossing(other, j, t_min, t_max) == Some(hit.t));
    let y = other[other_hit.index as int];
    assert(other.contains(y));
    let i = choose|i: int| 0 <= i < one.len() && one[i] == y;
    assert(crossing(one, i, t_min, t_max) == Some(other_hit.t));
}

/// A scene that a ray does not hit is not hit in any other order of its
/// surfaces.
pub proof fn lemma_miss_is_order_free(
    one: Seq<Option<Roots>>,
    other: Seq<Option<Roots>>,
    t_min: Double,
    t_max: Double,
)
    requires
        forall|x: Option<Roots>| one.contains(x) <==> other.contains(x),
        none_of(one, one.len() as int, t_min, t_max),
    ensures
        none_of(other, other.len() as int, t_min, t_max),
{
    assert forall|j: int| 0 <= j < other.len() implies (#[trigger] crossing(
        other,
        j,
        t_min,
        t_max,
    )) is None by {
        assert(other.contains(other[j]));
        let i = choose|i: int| 0 <= i < one.len() && one[i] == other[j];
        assert(crossing(one, i, t_min, t_max) is None);
    }
}

} // verus!
