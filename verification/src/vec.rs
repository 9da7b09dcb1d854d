//! Triples of scalars: points, directions and colours.
use crate::scalar::{Scalar, ONE_BITS};
use vstd::prelude::*;
use vstd::std_specs::ops::NegSpecImpl;

verus! {

/// Three scalars, read as a point, a direction or an RGB colour.
#[derive(Clone, Copy, Debug)]
pub struct Vec3(pub Scalar, pub Scalar, pub Scalar);

impl Vec3 {
    /// Each component with the opposite sign.
    pub open spec fn negated(self) -> Vec3 {
        Vec3(self.0.negated(), self.1.negated(), self.2.negated())
    }

    /// The three channel bytes of a colour.
    pub open spec fn channel_bytes(self) -> Seq<u8> {
        seq![
            self.0.channel_byte() as u8,
            self.1.channel_byte() as u8,
            self.2.channel_byte() as u8,
        ]
    }

    /// The vector `(1, 1, 1)`: white, as a colour.
    #[inline]
    pub fn ones() -> (v: Vec3)
        ensures
            v.0.bits == ONE_BITS,
            v.1.bits == ONE_BITS,
            v.2.bits == ONE_BITS,
    {
        Vec3(Scalar::one(), Scalar::one(), Scalar::one())
    }

    /// The vector `(0, 0, 0)`: black, as a colour.
    #[inline]
    pub fn zeros() -> (v: Vec3)
        ensures
            v.0.bits == 0,
            v.1.bits == 0,
            v.2.bits == 0,
            v.0.value() == 0 && v.1.value() == 0 && v.2.value() == 0,
    {
        Vec3(Scalar::zero(), Scalar::zero(), Scalar::zero())
    }

    /// The unit vector `(1, 0, 0)`.
    #[inline]
    pub fn x() -> (v: Vec3)
        ensures
            v.0.bits == ONE_BITS,
            v.1.bits == 0,
            v.2.bits == 0,
    {
        Vec3(Scalar::one(), Scalar::zero(), Scalar::zero())
    }

    /// The unit vector `(0, 1, 0)`.
    #[inline]
    pub fn y() -> (v: Vec3)
        ensures
            v.0.bits == 0,
            v.1.bits == ONE_BITS,
            v.2.bits == 0,
    {
        Vec3(Scalar::zero(), Scalar::one(), Scalar::zero())
    }

    /// The unit vector `(0, 0, 1)`.
    #[inline]
    pub fn z() -> (v: Vec3)
        ensures
            v.0.bits == 0,
            v.1.bits == 0,
            v.2.bits == ONE_BITS,
    {
        Vec3(Scalar::zero(), Scalar::zero(), Scalar::one())
    }

    /// The pixel of a colour whose channels are already scaled to the byte
    /// range: each channel held to `[0, 255]`, then cut to its integer part.
    #[inline]
    pub fn clamp_to_bytes(self) -> (pixel: [u8; 3])
        ensures
            pixel@ == self.channel_bytes(),
    {
        let pixel = [self.0.clamp_to_byte(), self.1.clamp_to_byte(), self.2.clamp_to_byte()];
        assert(pixel@ =~= self.channel_bytes());
        pixel
    }
}

/// `-v` is `v.negated()`: negation is exact in every component.
impl core::ops::Neg for Vec3 {
    type Output = Vec3;

    fn neg(self) -> (r: Vec3) {
        Vec3(self.0.neg(), self.1.neg(), self.2.neg())
    }
}

impl NegSpecImpl for Vec3 {
    open spec fn obeys_neg_spec() -> bool {
        true
    }

    open spec fn neg_req(self) -> bool {
        true
    }

    open spec fn neg_spec(self) -> Vec3 {
        self.negated()
    }
}

} // verus!
