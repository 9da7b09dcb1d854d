//! Surface materials: what each reflects, and when glass mirrors a ray
//! instead of letting it through.
use crate::scalar::{Scalar, ONE_BITS};
use crate::vec::Vec3;
use vstd::prelude::*;

verus! {

/// A diffuse surface.
#[derive(Clone, Copy, Debug)]
pub struct Lambertian {
    /// The fraction of light reflected, per channel.
    pub albedo: Vec3,
}

/// A mirroring surface.
#[derive(Clone, Copy, Debug)]
pub struct Metal {
    /// The fraction of light reflected, per channel.
    pub albedo: Vec3,
    /// Roughness, from 0 (a perfect mirror) to 1.
    pub fuzz: Scalar,
}

/// A clear, refracting medium such as glass.
#[derive(Clone, Copy, Debug)]
pub struct Dielectric {
    pub refractive_index: Scalar,
}

/// The closed set of materials a primitive can be made of.
#[derive(Clone, Copy, Debug)]
pub enum Material {
    Lambertian(Lambertian),
    Metal(Metal),
    Dielectric(Dielectric),
}

/// The colour `(1, 1, 1)`, which absorbs nothing.
pub open spec fn white() -> Vec3 {
    Vec3(Scalar { bits: ONE_BITS }, Scalar { bits: ONE_BITS }, Scalar { bits: ONE_BITS })
}

impl Material {
    /// The colour by which a material tints the light it scatters: the
    /// albedo of an opaque surface, white for glass.
    pub open spec fn tint(self) -> Vec3 {
        match self {
            Material::Lambertian(m) => m.albedo,
            Material::Metal(m) => m.albedo,
            Material::Dielectric(_) => white(),
        }
    }

    /// The attenuation of a scattered ray. It depends on the material
    /// alone, never on the ray or on chance.
    pub fn attenuation(&self) -> (colour: Vec3)
        ensures
            colour == self.tint(),
            *self matches Material::Lambertian(m) ==> colour == m.albedo,
            *self matches Material::Metal(m) ==> colour == m.albedo,
            *self is Dielectric ==> colour == white(),
    {
        match self {
            Material::Lambertian(m) => m.albedo,
            Material::Metal(m) => m.albedo,
            Material::Dielectric(_) => Vec3::ones(),
        }
    }
}

impl Dielectric {
    /// The ratio of refractive indices that a ray meets: the inverse of
    /// the medium's index on the way in, the index itself on the way out.
    /// `inverse_index` is `1 / refractive_index`.
    pub fn eta(&self, front_face: bool, inverse_index: Scalar) -> (eta: Scalar)
        ensures
            eta == if front_face {
                inverse_index
            } else {
                self.refractive_index
            },
    {
        if front_face {
            inverse_index
        } else {
            self.refractive_index
        }
    }

    /// The cosine of the angle of incidence, `min(1, -d.n)`, from
    /// `incoming_dot_normal`, the dot product `d.n` of the unit direction
    /// of the incoming ray with the surface normal.
    pub fn cos_theta(incoming_dot_normal: Scalar) -> (cos: Scalar)
        ensures
            cos == incoming_dot_normal.negated().minimum(Scalar { bits: ONE_BITS }),
            !cos.nan(),
            cos.value() <= crate::scalar::unit(),
    {
        incoming_dot_normal.neg().min(Scalar::one())
    }

    /// Snell's law has no solution: `eta * sin_theta` exceeds one, and the
    /// surface reflects totally.
    pub open spec fn cannot_refract(eta_sin_theta: Scalar) -> bool {
        Scalar { bits: ONE_BITS }.below(eta_sin_theta)
    }

    /// Whether the ray is reflected rather than refracted: always under
    /// total internal reflection, else when the uniform `draw` falls below
    /// the Fresnel `reflectance` of the surface at this angle.
    pub fn reflects(eta_sin_theta: Scalar, reflectance: Scalar, draw: Scalar) -> (r: bool)
        ensures
            r == (Self::cannot_refract(eta_sin_theta) || draw.below(reflectance)),
            Self::cannot_refract(eta_sin_theta) ==> r,
    {
        Scalar::one().lt(eta_sin_theta) || draw.lt(reflectance)
    }
}

} // verus!
