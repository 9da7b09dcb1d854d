//! The decision core of a recursive, stochastic ray tracer.
//!
//! Every number is a binary64 value held by its IEEE 754 bit pattern, so
//! that each comparison, sign flip, clamp and truncation the tracer makes
//! is exact integer logic with a proved contract: which root of a
//! primitive counts, which primitive is nearest, which side of a surface
//! was struck, whether glass reflects, when a path ends, which byte a
//! colour channel becomes. Random samples are drawn here too, and kept or
//! dropped in whole numbers. Rounding arithmetic (sums, products, roots,
//! trigonometry) is left to the caller, who hands in the computed
//! quantities and acts on the decisions returned.
pub mod hit;
pub mod material;
pub mod random;
pub mod scalar;
pub mod vec;

pub use hit::{Hit, Roots};
pub use material::{Dielectric, Lambertian, Material, Metal};
pub use scalar::Scalar;
pub use vec::Vec3;

use hit::{all_miss, is_nearest, nearest_hit};
use scalar::INFINITY_BITS;
use vstd::prelude::*;

verus! {

/// The pattern of 0.001, the least ray parameter at which a surface
/// counts: nearer intersections are the ray's own origin, found again
/// through rounding.
pub const T_MIN_BITS: u64 = 0x3f50_624d_d2f1_a9fc;

/// The pattern of positive infinity, the bound of the ray parameter.
pub const T_MAX_BITS: u64 = INFINITY_BITS;

/// The lower bound of the ray parameter, as a scalar.
pub open spec fn t_min() -> Scalar {
    Scalar { bits: T_MIN_BITS }
}

/// The upper bound of the ray parameter, as a scalar.
pub open spec fn t_max() -> Scalar {
    Scalar { bits: T_MAX_BITS }
}

/// What becomes of a ray.
#[derive(Clone, Copy, Debug)]
pub enum Step {
    /// It hits nothing and takes the colour of the sky.
    Escaped,
    /// It hits a surface with no bounce left and carries no light.
    Absorbed,
    /// It hits primitive `object` at parameter `t` and is scattered; the
    /// scattered ray has `depth` bounces left.
    Scattered { object: usize, t: Scalar, depth: usize },
}

/// One step of the radiance estimate for a ray with `depth` bounces left,
/// from the roots of every primitive of the scene for that ray.
///
/// The scene is searched over the ray parameters above 0.001. A ray that
/// hits nothing escapes to the sky. A ray that hits a surface is scattered
/// by it, with one bounce fewer left, unless none is left: then it is
/// absorbed, whatever the surface is made of.
pub fn ray_step(objects: &Vec<Roots>, depth: usize) -> (step: Step)
    ensures
        step is Escaped <==> all_miss(objects@, t_min(), t_max()),
        step is Absorbed <==> depth == 0 && !all_miss(objects@, t_min(), t_max()),
        step matches Step::Scattered { object, t, depth: left } ==> depth > 0 && left == depth - 1
            && is_nearest(objects@, t_min(), t_max(), object as int, t),
{
    match nearest_hit(objects, Scalar::from_bits(T_MIN_BITS), Scalar::from_bits(T_MAX_BITS)) {
        None => Step::Escaped,
        Some((object, t)) => {
            if depth > 0 {
                Step::Scattered { object, t, depth: depth - 1 }
            } else {
                Step::Absorbed
            }
        },
    }
}

} // verus!
