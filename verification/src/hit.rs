//! Which intersection counts: the root a primitive contributes within an
//! interval of the ray parameter, the nearest primitive of a scene, and the
//! side of the surface that was struck.
use crate::scalar::{lemma_negation_reverses_order, Scalar};
use crate::vec::Vec3;
use core::ops::Neg;
use vstd::prelude::*;

verus! {

/// An intersection of a ray with a surface.
#[derive(Clone, Copy, Debug)]
pub struct Hit {
    /// Where the ray meets the surface.
    pub point: Vec3,
    /// The surface normal there, turned against the incoming ray.
    pub normal: Vec3,
    /// The ray parameter of the intersection.
    pub t: Scalar,
    /// Whether the ray struck the surface from outside.
    pub front_face: bool,
}

/// What the intersection quadratic of one primitive gives for one ray: its
/// discriminant and its two roots, the ray parameters at which the ray
/// crosses the surface. Where the discriminant is negative the roots mean
/// nothing.
#[derive(Clone, Copy, Debug)]
pub struct Roots {
    pub discriminant: Scalar,
    /// The root `(-half_b - sqrt(discriminant)) / a`.
    pub near: Scalar,
    /// The root `(-half_b + sqrt(discriminant)) / a`.
    pub far: Scalar,
}

/// `t` lies strictly between `lo` and `hi`. No NaN lies in any interval,
/// and no interval has a NaN bound.
pub open spec fn inside(t: Scalar, lo: Scalar, hi: Scalar) -> bool {
    lo.below(t) && t.below(hi)
}

impl Roots {
    /// The quadratic has real roots: its discriminant is at least zero.
    pub open spec fn has_roots(self) -> bool {
        !self.discriminant.nan() && self.discriminant.value() >= 0
    }

    /// `t` is a root of this primitive that counts in `(lo, hi)`.
    pub open spec fn admits(self, t: Scalar, lo: Scalar, hi: Scalar) -> bool {
        self.has_roots() && (t == self.near || t == self.far) && inside(t, lo, hi)
    }

    /// The smallest root that counts in `(lo, hi)`, if any does; of two
    /// equal roots, `near`.
    pub open spec fn selected(self, lo: Scalar, hi: Scalar) -> Option<Scalar> {
        if !self.has_roots() {
            None
        } else if inside(self.near, lo, hi) && (!inside(self.far, lo, hi) || self.near.value()
            <= self.far.value()) {
            Some(self.near)
        } else if inside(self.far, lo, hi) {
            Some(self.far)
        } else {
            None
        }
    }

    /// The intersection of one primitive: the smallest of its roots that
    /// lies in the open interval `(lo, hi)`, or no hit where the
    /// discriminant is negative or neither root lies there.
    pub fn select(&self, lo: Scalar, hi: Scalar) -> (r: Option<Scalar>)
        ensures
            r == self.selected(lo, hi),
            !self.has_roots() ==> r is None,
            r is None <==> !self.admits(self.near, lo, hi) && !self.admits(self.far, lo, hi),
            r matches Some(t) ==> self.admits(t, lo, hi) && (self.admits(self.near, lo, hi)
                ==> t.at_most(self.near)) && (self.admits(self.far, lo, hi) ==> t.at_most(
                self.far,
            )),
    {
        if !self.discriminant.ge(Scalar::zero()) {
            return None;
        }
        let near_in = lo.lt(self.near) && self.near.lt(hi);
        let far_in = lo.lt(self.far) && self.far.lt(hi);
        if near_in && (!far_in || self.near.le(self.far)) {
            Some(self.near)
        } else if far_in {
            Some(self.far)
        } else {
            None
        }
    }
}

/// No primitive of the scene is hit within `(lo, hi)`.
pub open spec fn all_miss(objects: Seq<Roots>, lo: Scalar, hi: Scalar) -> bool {
    forall|j: int| 0 <= j < objects.len() ==> (#[trigger] objects[j]).selected(lo, hi) is None
}

/// Primitive `i` is the one seen along the ray, at parameter `t`: `t` is
/// its selected root, no primitive has a smaller one, and every primitive
/// before it in the scene has a larger one.
pub open spec fn is_nearest(objects: Seq<Roots>, lo: Scalar, hi: Scalar, i: int, t: Scalar)
    -> bool {
    &&& 0 <= i < objects.len()
    &&& objects[i].selected(lo, hi) == Some(t)
    &&& forall|j: int|
        0 <= j < objects.len() ==> match (#[trigger] objects[j]).selected(lo, hi) {
            Some(u) => t.value() <= u.value() && (j < i ==> t.value() < u.value()),
            None => true,
        }
}

/// Lowering the upper bound from `hi` to `bound` changes nothing about a
/// root below `bound`, and a primitive with no root below `bound` has its
/// selected root, if any, at or above `bound`.
pub proof fn lemma_shrunk_bound(r: Roots, lo: Scalar, bound: Scalar, hi: Scalar)
    requires
        bound == hi || bound.below(hi),
    ensures
        match r.selected(lo, bound) {
            Some(t) => r.selected(lo, hi) == Some(t) && t.below(bound),
            None => match r.selected(lo, hi) {
                Some(u) => bound.at_most(u),
                None => true,
            },
        },
{
}

/// At most one primitive and one root are nearest: the contract of
/// `nearest_hit` names a single result.
pub proof fn lemma_nearest_is_unique(
    objects: Seq<Roots>,
    lo: Scalar,
    hi: Scalar,
    i: int,
    t: Scalar,
    j: int,
    u: Scalar,
)
    requires
        is_nearest(objects, lo, hi, i, t),
        is_nearest(objects, lo, hi, j, u),
    ensures
        i == j,
        t == u,
        !all_miss(objects, lo, hi),
{
    assert(objects[i].selected(lo, hi) == Some(t));
    assert(objects[j].selected(lo, hi) == Some(u));
}

/// The nearest root lies in the interval, belongs to a primitive with real
/// roots, and no root of any primitive that counts in the interval is
/// smaller.
pub proof fn lemma_nearest_is_smallest_root(
    objects: Seq<Roots>,
    lo: Scalar,
    hi: Scalar,
    i: int,
    t: Scalar,
)
    requires
        is_nearest(objects, lo, hi, i, t),
    ensures
        objects[i].admits(t, lo, hi),
        forall|j: int, u: Scalar|
            0 <= j < objects.len() && (#[trigger] objects[j].admits(u, lo, hi)) ==> t.at_most(u),
{
    assert forall|j: int, u: Scalar|
        0 <= j < objects.len() && (#[trigger] objects[j].admits(u, lo, hi)) implies t.at_most(
        u,
    ) by {
        assert(objects[j].selected(lo, hi) is Some);
    }
}

/// How far the nearest surface is does not depend on the order of the
/// primitives in the scene: two scenes with the same primitives are both
/// missed, or are hit at equal ray parameters.
pub proof fn lemma_nearest_ignores_order(
    first: Seq<Roots>,
    second: Seq<Roots>,
    lo: Scalar,
    hi: Scalar,
)
    requires
        first.to_multiset() == second.to_multiset(),
    ensures
        all_miss(first, lo, hi) <==> all_miss(second, lo, hi),
        forall|i: int, t: Scalar, j: int, u: Scalar|
            is_nearest(first, lo, hi, i, t) && is_nearest(second, lo, hi, j, u) ==> t.value()
                == u.value(),
{
    first.to_multiset_ensures();
    second.to_multiset_ensures();
    assert forall|i: int| 0 <= i < first.len() implies second.contains(#[trigger] first[i]) by {
        assert(first.contains(first[i]));
        assert(first.to_multiset().count(first[i]) > 0);
    }
    assert forall|j: int| 0 <= j < second.len() implies first.contains(#[trigger] second[j]) by {
        assert(second.contains(second[j]));
        assert(second.to_multiset().count(second[j]) > 0);
    }
    if all_miss(first, lo, hi) {
        assert forall|j: int| 0 <= j < second.len() implies (#[trigger] second[j]).selected(
            lo,
            hi,
        ) is None by {
            let k = choose|k: int| 0 <= k < first.len() && first[k] == second[j];
            assert(first[k].selected(lo, hi) is None);
        }
    }
    if all_miss(second, lo, hi) {
        assert forall|i: int| 0 <= i < first.len() implies (#[trigger] first[i]).selected(
            lo,
            hi,
        ) is None by {
            let k = choose|k: int| 0 <= k < second.len() && second[k] == first[i];
            assert(second[k].selected(lo, hi) is None);
        }
    }
    assert forall|i: int, t: Scalar, j: int, u: Scalar|
        is_nearest(first, lo, hi, i, t) && is_nearest(second, lo, hi, j, u) implies t.value()
        == u.value() by {
        let k = choose|k: int| 0 <= k < second.len() && second[k] == first[i];
        assert(second[k].selected(lo, hi) == Some(t));
        let l = choose|l: int| 0 <= l < first.len() && first[l] == second[j];
        assert(first[l].selected(lo, hi) == Some(u));
    }
}

/// The dot product of the ray's direction with the recorded normal: the
/// given one on the front face, its exact opposite where the normal was
/// turned round.
pub open spec fn recorded_facing(facing: Scalar) -> Scalar {
    if facing.below(Scalar { bits: 0 }) {
        facing
    } else {
        facing.negated()
    }
}

/// The recorded normal opposes the incoming ray: its dot product with the
/// ray's direction is never above zero.
pub proof fn lemma_recorded_normal_opposes_ray(facing: Scalar)
    ensures
        !(Scalar { bits: 0 }).below(recorded_facing(facing)),
        !facing.nan() ==> recorded_facing(facing).at_most(Scalar { bits: 0 }),
{
    lemma_negation_reverses_order(facing, Scalar { bits: 0 });
}

/// The intersection of a scene: the primitives are tried in order, each
/// within `lo` and the nearest root found so far, so that the result is
/// the nearest surface; of several at the same distance, the first.
pub fn nearest_hit(objects: &Vec<Roots>, lo: Scalar, hi: Scalar) -> (r: Option<(usize, Scalar)>)
    ensures
        r is None <==> all_miss(objects@, lo, hi),
        r matches Some((i, t)) ==> is_nearest(objects@, lo, hi, i as int, t),
{
    let mut best: Option<(usize, Scalar)> = None;
    let mut bound = hi;
    let mut k: usize = 0;
    while k < objects.len()
        invariant
            k <= objects.len(),
            bound == hi || bound.below(hi),
            match best {
                None => bound == hi && all_miss(objects@.take(k as int), lo, hi),
                Some((i, t)) => bound == t && i < k && is_nearest(
                    objects@.take(k as int),
                    lo,
                    hi,
                    i as int,
                    t,
                ),
            },
        decreases objects.len() - k,
    {
        let found = objects[k].select(lo, bound);
        proof {
            lemma_shrunk_bound(objects@[k as int], lo, bound, hi);
            let before = objects@.take(k as int);
            let after = objects@.take(k + 1);
            assert forall|j: int| 0 <= j < before.len() implies before[j] == after[j] by {}
            assert(after[k as int] == objects@[k as int]);
        }
        if let Some(t) = found {
            best = Some((k, t));
            bound = t;
        }
        k += 1;
    }
    proof {
        assert(objects@.take(k as int) =~= objects@);
    }
    best
}

impl Hit {
    /// The record of an intersection at `point`, `t` along the ray, from
    /// the geometric normal there, which points out of the surface, and
    /// `facing`, the dot product of the ray's direction with that normal.
    ///
    /// The ray strikes the front face where it runs against the outward
    /// normal; otherwise the normal is turned round, so that the recorded
    /// normal never points along the ray.
    pub fn oriented(point: Vec3, outward_normal: Vec3, t: Scalar, facing: Scalar) -> (h: Hit)
        ensures
            h.point == point,
            h.t == t,
            h.front_face == (!facing.nan() && facing.value() < 0),
            h.normal == if h.front_face {
                outward_normal
            } else {
                outward_normal.negated()
            },
    {
        let front_face = facing.lt(Scalar::zero());
        let normal = if front_face {
            outward_normal
        } else {
            outward_normal.neg()
        };
        Hit { point, normal, t, front_face }
    }
}

} // verus!
