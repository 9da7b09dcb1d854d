//! Binary64 numbers by bit pattern: classification and exact ordering.
use vstd::arithmetic::div_mod::{
    lemma_basic_div, lemma_div_is_ordered, lemma_div_multiples_vanish_quotient,
    lemma_fundamental_div_mod, lemma_fundamental_div_mod_converse, lemma_mod_bound,
};
use vstd::arithmetic::power2::{
    lemma2_to64, lemma2_to64_rest, lemma_pow2_adds, lemma_pow2_pos,
    lemma_pow2_strictly_increases, lemma_pow2_unfold, pow2,
};
use vstd::bits::lemma_u64_shr_is_div;
use vstd::prelude::*;

verus! {

/// The sign bit of a binary64 pattern.
pub const SIGN_BIT: u64 = 0x8000_0000_0000_0000;

/// The pattern of positive infinity: every exponent bit set, no fraction bit.
pub const INFINITY_BITS: u64 = 0x7ff0_0000_0000_0000;

/// Two to the power 52: the number of fractions per exponent.
pub const FRACTION_RANGE: u64 = 0x0010_0000_0000_0000;

/// The pattern of the number one.
pub const ONE_BITS: u64 = 0x3ff0_0000_0000_0000;

/// The pattern of the number 255, the largest channel byte.
pub const BYTE_MAX_BITS: u64 = 0x406f_e000_0000_0000;

/// The number one in the units of `Scalar::value`: 2^1074.
pub open spec fn unit() -> nat {
    pow2(1074)
}

/// A binary64 floating-point number, held by its IEEE 754 bit pattern:
/// one sign bit, eleven exponent bits, fifty-two fraction bits.
#[derive(Clone, Copy, Debug)]
pub struct Scalar {
    pub bits: u64,
}

/// The magnitude encoded by a pattern whose sign bit is clear, counted in
/// units of 2^-1074 (the spacing of the subnormal numbers), so that every
/// finite binary64 magnitude is a natural number.
///
/// With exponent field `e` and fraction field `f` the magnitude is `f` for
/// `e == 0` and `(2^52 + f) * 2^(e - 1)` otherwise. The pattern of infinity
/// gets the number one exponent step above the largest finite magnitude.
pub open spec fn magnitude_of(abs: u64) -> nat {
    let e = abs / FRACTION_RANGE;
    let f = abs % FRACTION_RANGE;
    if e == 0 {
        f as nat
    } else {
        ((FRACTION_RANGE + f) * pow2((e - 1) as nat)) as nat
    }
}

impl Scalar {
    /// The sign bit is set (true of negative zero and of some NaNs too).
    pub open spec fn negative(self) -> bool {
        self.bits >= SIGN_BIT
    }

    /// The pattern with its sign bit cleared.
    pub open spec fn abs_bits(self) -> u64 {
        if self.bits >= SIGN_BIT {
            (self.bits - SIGN_BIT) as u64
        } else {
            self.bits
        }
    }

    /// Not a number: exponent all ones and a non-zero fraction.
    pub open spec fn nan(self) -> bool {
        self.abs_bits() > INFINITY_BITS
    }

    /// The number denoted, in units of 2^-1074. Meaningful unless `nan()`.
    pub open spec fn value(self) -> int {
        if self.negative() {
            -(magnitude_of(self.abs_bits()) as int)
        } else {
            magnitude_of(self.abs_bits()) as int
        }
    }

    /// `self < other` as IEEE 754 orders them: false when either is NaN.
    pub open spec fn below(self, other: Scalar) -> bool {
        !self.nan() && !other.nan() && self.value() < other.value()
    }

    /// `self <= other` as IEEE 754 orders them: false when either is NaN.
    pub open spec fn at_most(self, other: Scalar) -> bool {
        !self.nan() && !other.nan() && self.value() <= other.value()
    }

    /// The same magnitude with the opposite sign bit.
    pub open spec fn negated(self) -> Scalar {
        Scalar {
            bits: if self.bits >= SIGN_BIT {
                (self.bits - SIGN_BIT) as u64
            } else {
                (self.bits + SIGN_BIT) as u64
            },
        }
    }

    /// The smaller of two numbers, a NaN giving way to the other operand.
    /// Of two equal numbers (the two zeros among them) it is the first.
    pub open spec fn minimum(self, other: Scalar) -> Scalar {
        if self.nan() {
            other
        } else if other.nan() {
            self
        } else if self.value() <= other.value() {
            self
        } else {
            other
        }
    }

    /// The number cut to its integer part and held to the range of a byte:
    /// 0 for a NaN and for anything not above zero, 255 from 255 upwards.
    pub open spec fn truncated_byte(self) -> int {
        if self.nan() || self.value() <= 0 {
            0
        } else if self.value() >= 255 * unit() {
            255
        } else {
            self.value() / (unit() as int)
        }
    }

    /// The byte of a colour channel: the number held to `[0, 255]` and cut
    /// to its integer part. A NaN, which the upper clamp replaces by 255,
    /// gives 255.
    pub open spec fn channel_byte(self) -> int {
        if self.nan() {
            255
        } else {
            self.truncated_byte()
        }
    }
}

/// The pattern read as a sign and a magnitude.
pub open spec fn rank_of(s: Scalar) -> int {
    if s.negative() {
        -(s.abs_bits() as int)
    } else {
        s.abs_bits() as int
    }
}

/// The magnitude of a pattern lies in the binade that its exponent field
/// names: below 2^52 for exponent zero, within `[2^(e+51), 2^(e+52))`
/// otherwise.
pub proof fn lemma_magnitude_bounds(abs: u64)
    ensures
        abs / FRACTION_RANGE == 0 ==> magnitude_of(abs) < pow2(52),
        abs / FRACTION_RANGE > 0 ==> pow2((abs / FRACTION_RANGE + 51) as nat) <= magnitude_of(abs)
            < pow2((abs / FRACTION_RANGE + 52) as nat),
{
    let e = abs / FRACTION_RANGE;
    let f = abs % FRACTION_RANGE;
    lemma2_to64_rest();
    assert(pow2(52) == FRACTION_RANGE);
    if e > 0 {
        let p = pow2((e - 1) as nat);
        lemma_pow2_pos((e - 1) as nat);
        lemma_pow2_adds(52, (e - 1) as nat);
        lemma_pow2_adds(53, (e - 1) as nat);
        assert(pow2(53) == 2 * FRACTION_RANGE);
        assert(FRACTION_RANGE * p <= (FRACTION_RANGE + f) * p < (2 * FRACTION_RANGE) * p)
            by (nonlinear_arith)
            requires
                0 <= f < FRACTION_RANGE,
                p > 0,
        ;
        assert(52 + (e - 1) as nat == (e + 51) as nat);
        assert(53 + (e - 1) as nat == (e + 52) as nat);
    }
}

/// Among patterns with a clear sign bit, the larger pattern encodes the
/// larger magnitude.
pub proof fn lemma_magnitude_increases(a: u64, b: u64)
    requires
        a < b,
    ensures
        magnitude_of(a) < magnitude_of(b),
{
    let ea = a / FRACTION_RANGE;
    let eb = b / FRACTION_RANGE;
    let fa = a % FRACTION_RANGE;
    let fb = b % FRACTION_RANGE;
    lemma_magnitude_bounds(a);
    lemma_magnitude_bounds(b);
    if ea == eb {
        if ea > 0 {
            let p = pow2((ea - 1) as nat);
            lemma_pow2_pos((ea - 1) as nat);
            assert((FRACTION_RANGE + fa) * p < (FRACTION_RANGE + fb) * p) by (nonlinear_arith)
                requires
                    fa < fb,
                    p > 0,
            ;
        }
    } else {
        assert(ea < eb);
        if ea == 0 {
            if eb + 51 > 52 {
                lemma_pow2_strictly_increases(52, (eb + 51) as nat);
            }
        } else {
            if ea + 52 < eb + 51 {
                lemma_pow2_strictly_increases((ea + 52) as nat, (eb + 51) as nat);
            }
        }
    }
}

/// Sign-and-magnitude order of the patterns is the order of the values.
pub proof fn lemma_rank_orders(a: Scalar, b: Scalar)
    ensures
        rank_of(a) < rank_of(b) <==> a.value() < b.value(),
        rank_of(a) <= rank_of(b) <==> a.value() <= b.value(),
        rank_of(a) == rank_of(b) <==> a.value() == b.value(),
{
    let x = a.abs_bits();
    let y = b.abs_bits();
    assert(magnitude_of(0) == 0);
    if x < y {
        lemma_magnitude_increases(x, y);
    }
    if y < x {
        lemma_magnitude_increases(y, x);
    }
    if 0 < x {
        lemma_magnitude_increases(0, x);
    }
    if 0 < y {
        lemma_magnitude_increases(0, y);
    }
}

/// The pattern `ONE_BITS` denotes one.
pub proof fn lemma_one_value()
    ensures
        magnitude_of(ONE_BITS) == unit(),
{
    lemma2_to64_rest();
    lemma_pow2_adds(52, 1022);
    assert(ONE_BITS / FRACTION_RANGE == 1023 && ONE_BITS % FRACTION_RANGE == 0);
}

/// The pattern `BYTE_MAX_BITS` denotes 255.
pub proof fn lemma_byte_max_value()
    ensures
        magnitude_of(BYTE_MAX_BITS) == 255 * unit(),
{
    lemma2_to64_rest();
    lemma_pow2_adds(45, 1029);
    assert(BYTE_MAX_BITS / FRACTION_RANGE == 1030);
    assert(FRACTION_RANGE + BYTE_MAX_BITS % FRACTION_RANGE == 255 * 0x2000_0000_0000);
    let p = pow2(1029) as int;
    assert((255 * 0x2000_0000_0000) * p == 255 * (0x2000_0000_0000 * p)) by (nonlinear_arith);
}

impl Scalar {
    /// The scalar with the given bit pattern.
    pub fn from_bits(bits: u64) -> (s: Scalar)
        ensures
            s.bits == bits,
    {
        Scalar { bits }
    }

    /// The bit pattern.
    pub fn to_bits(self) -> (bits: u64)
        ensures
            bits == self.bits,
    {
        self.bits
    }

    /// Whether this is a NaN.
    pub fn is_nan(self) -> (r: bool)
        ensures
            r == self.nan(),
    {
        let abs: u64 = self.bits & 0x7fff_ffff_ffff_ffff;
        assert(abs == self.abs_bits()) by {
            let b = self.bits;
            assert(b & 0x7fff_ffff_ffff_ffff == if b >= 0x8000_0000_0000_0000 {
                (b - 0x8000_0000_0000_0000) as u64
            } else {
                b
            }) by (bit_vector);
        }
        abs > INFINITY_BITS
    }

    /// Positive zero.
    pub fn zero() -> (s: Scalar)
        ensures
            s.bits == 0,
            !s.nan(),
            s.value() == 0,
    {
        Scalar { bits: 0 }
    }

    /// The number one.
    pub fn one() -> (s: Scalar)
        ensures
            s.bits == ONE_BITS,
            !s.nan(),
            s.value() == unit(),
    {
        proof {
            lemma_one_value();
        }
        Scalar { bits: ONE_BITS }
    }

    /// Positive infinity, above every finite number.
    pub fn infinity() -> (s: Scalar)
        ensures
            s.bits == INFINITY_BITS,
            !s.nan(),
            forall|x: Scalar| !x.nan() ==> #[trigger] x.value() <= s.value(),
    {
        let s = Scalar { bits: INFINITY_BITS };
        proof {
            assert forall|x: Scalar| !x.nan() implies #[trigger] x.value() <= s.value() by {
                lemma_rank_orders(x, s);
            }
        }
        s
    }

    /// The number with the opposite sign: exact, also for zeros,
    /// infinities and NaNs.
    pub fn neg(self) -> (r: Scalar)
        ensures
            r == self.negated(),
            r.nan() == self.nan(),
            r.value() == -self.value(),
    {
        let bits: u64 = self.bits ^ SIGN_BIT;
        assert(bits == self.negated().bits) by {
            let b = self.bits;
            assert(b ^ 0x8000_0000_0000_0000 == if b >= 0x8000_0000_0000_0000 {
                (b - 0x8000_0000_0000_0000) as u64
            } else {
                (b + 0x8000_0000_0000_0000) as u64
            }) by (bit_vector);
        }
        Scalar { bits }
    }

    /// The smaller of the two; where one is a NaN, the other.
    pub fn min(self, other: Scalar) -> (r: Scalar)
        ensures
            r == self.minimum(other),
    {
        if self.is_nan() {
            other
        } else if other.is_nan() {
            self
        } else if self.le(other) {
            self
        } else {
            other
        }
    }

    /// The saturating, truncating conversion to a byte.
    pub fn to_u8(self) -> (b: u8)
        ensures
            b == self.truncated_byte(),
    {
        if self.is_nan() || self.bits >= SIGN_BIT {
            return 0;
        }
        let e: u64 = self.bits >> 52;
        let f: u64 = self.bits & 0x000f_ffff_ffff_ffff;
        assert(e == self.bits / FRACTION_RANGE && f == self.bits % FRACTION_RANGE) by {
            let b = self.bits;
            assert(b >> 52 == b / 0x0010_0000_0000_0000 && b & 0x000f_ffff_ffff_ffff == b
                % 0x0010_0000_0000_0000) by (bit_vector);
        }
        proof {
            lemma_magnitude_bounds(self.bits);
            lemma_pow2_pos(1074);
        }
        if e < 1023 {
            proof {
                if e > 0 && e + 52 < 1074 {
                    lemma_pow2_strictly_increases((e + 52) as nat, 1074);
                }
                if e == 0 {
                    lemma_pow2_strictly_increases(52, 1074);
                }
                if self.value() > 0 {
                    lemma_basic_div(self.value(), unit() as int);
                }
            }
            return 0;
        }
        proof {
            lemma2_to64();
            lemma_pow2_adds(8, 1074);
        }
        if e >= 1031 {
            proof {
                if e + 51 > 1082 {
                    lemma_pow2_strictly_increases(1082, (e + 51) as nat);
                }
            }
            return 255;
        }
        let m: u64 = FRACTION_RANGE + f;
        let shift: u64 = 1075 - e;
        let q: u64 = m >> shift;
        proof {
            let low = pow2((e - 1) as nat) as int;
            let high = pow2(shift as nat) as int;
            lemma_pow2_pos((e - 1) as nat);
            lemma_pow2_pos(shift as nat);
            lemma_pow2_adds((e - 1) as nat, shift as nat);
            assert(unit() == low * high);
            lemma_u64_shr_is_div(m, shift);
            lemma_div_multiples_vanish_quotient(low, m as int, high);
            assert(self.value() == low * m) by (nonlinear_arith)
                requires
                    self.value() == m * low,
            ;
            assert(q == self.value() / (unit() as int));
            lemma_pow2_adds((e + 52) as nat, (1030 - e) as nat);
            assert(self.value() < 256 * unit()) by {
                if e < 1030 {
                    lemma_pow2_strictly_increases((e + 52) as nat, 1082);
                }
            }
            assert(q < 256 && (self.value() >= 255 * unit() ==> q >= 255)) by (nonlinear_arith)
                requires
                    q == self.value() / (unit() as int),
                    0 <= self.value() < 256 * unit(),
                    unit() > 0,
            ;
        }
        q as u8
    }

    /// The number 255, the largest channel byte.
    pub fn byte_max() -> (s: Scalar)
        ensures
            s.bits == BYTE_MAX_BITS,
            !s.nan(),
            s.value() == 255 * unit(),
    {
        proof {
            lemma_byte_max_value();
        }
        Scalar { bits: BYTE_MAX_BITS }
    }

    /// Clamps to at most 255, then converts to a byte, which clamps at zero
    /// and drops the fraction: no input wraps around.
    pub fn clamp_to_byte(self) -> (b: u8)
        ensures
            b == self.channel_byte(),
    {
        proof {
            lemma_pow2_pos(1074);
        }
        self.min(Scalar::byte_max()).to_u8()
    }

    /// The number `significand * 2^exponent` in the units of `value`
    /// (2^-1074), with the given sign: the binary64 number that is exactly
    /// `significand * 2^(exponent - 1074)`. Every significand below 2^53
    /// has one; the bounds on the exponent keep it a normal number.
    pub fn dyadic(negative: bool, significand: u64, exponent: u64) -> (s: Scalar)
        requires
            significand < 2 * FRACTION_RANGE,
            52 <= exponent <= 2045,
        ensures
            !s.nan(),
            s.negative() == negative,
            s.value() == if negative {
                -(significand * pow2(exponent as nat))
            } else {
                significand * pow2(exponent as nat)
            },
    {
        let sign: u64 = if negative {
            SIGN_BIT
        } else {
            0
        };
        if significand == 0 {
            return Scalar { bits: sign };
        }
        let mut sig: u64 = significand;
        let mut exp: u64 = exponent;
        proof {
            lemma2_to64();
        }
        while sig < FRACTION_RANGE
            invariant
                0 < sig < 2 * FRACTION_RANGE,
                exp <= exponent,
                exponent - exp <= 52,
                sig == significand * pow2((exponent - exp) as nat),
                0 < significand,
                52 <= exponent <= 2045,
            decreases exp,
        {
            proof {
                let d = (exponent - exp) as nat;
                lemma2_to64_rest();
                lemma_pow2_pos(d);
                assert(pow2(d) <= sig) by (nonlinear_arith)
                    requires
                        sig == significand * pow2(d),
                        0 < significand,
                        0 < pow2(d),
                ;
                assert(d != 52);
                lemma_pow2_unfold(d + 1);
                assert(significand * (2 * pow2(d)) == 2 * (significand * pow2(d)))
                    by (nonlinear_arith);
            }
            sig = sig * 2;
            exp = exp - 1;
        }
        let abs: u64 = exp * FRACTION_RANGE + sig;
        proof {
            let f = (sig - FRACTION_RANGE) as int;
            lemma_fundamental_div_mod_converse(
                abs as int,
                FRACTION_RANGE as int,
                exp + 1,
                f,
            );
            let d = (exponent - exp) as nat;
            lemma_pow2_adds(d, exp as nat);
            assert(d + exp as nat == exponent as nat);
            assert((significand * pow2(d)) * pow2(exp as nat) == significand * (pow2(d) * pow2(
                exp as nat,
            ))) by (nonlinear_arith);
            assert(magnitude_of(abs) == significand * pow2(exponent as nat));
        }
        Scalar { bits: sign + abs }
    }

    /// The pattern read as a sign and a magnitude: an integer that orders
    /// the numbers as their values do.
    fn rank(self) -> (k: i64)
        ensures
            k == rank_of(self),
    {
        let abs: u64 = self.bits & 0x7fff_ffff_ffff_ffff;
        assert(abs == self.abs_bits()) by {
            let b = self.bits;
            assert(b & 0x7fff_ffff_ffff_ffff == if b >= 0x8000_0000_0000_0000 {
                (b - 0x8000_0000_0000_0000) as u64
            } else {
                b
            }) by (bit_vector);
        }
        if self.bits >= SIGN_BIT {
            -(abs as i64)
        } else {
            abs as i64
        }
    }

    /// `self < other`; false when either is NaN.
    pub fn lt(self, other: Scalar) -> (r: bool)
        ensures
            r == self.below(other),
    {
        if self.is_nan() || other.is_nan() {
            return false;
        }
        proof {
            lemma_rank_orders(self, other);
        }
        self.rank() < other.rank()
    }

    /// `self <= other`; false when either is NaN.
    pub fn le(self, other: Scalar) -> (r: bool)
        ensures
            r == self.at_most(other),
    {
        if self.is_nan() || other.is_nan() {
            return false;
        }
        proof {
            lemma_rank_orders(self, other);
        }
        self.rank() <= other.rank()
    }

    /// `self > other`; false when either is NaN.
    pub fn gt(self, other: Scalar) -> (r: bool)
        ensures
            r == other.below(self),
    {
        other.lt(self)
    }

    /// `self >= other`; false when either is NaN.
    pub fn ge(self, other: Scalar) -> (r: bool)
        ensures
            r == other.at_most(self),
    {
        other.le(self)
    }
}

/// Negation is exact: it keeps NaNs NaN and takes every other number to
/// its opposite, so that it reverses the order.
pub proof fn lemma_negation_reverses_order(a: Scalar, b: Scalar)
    ensures
        a.negated().nan() == a.nan(),
        a.negated().value() == -a.value(),
        a.negated().negated() == a,
        a.below(b) <==> b.negated().below(a.negated()),
        a.at_most(b) <==> b.negated().at_most(a.negated()),
{
    assert(a.negated().abs_bits() == a.abs_bits());
    assert(b.negated().abs_bits() == b.abs_bits());
}

/// The smaller of two numbers is one of them and is above neither; where
/// neither is a NaN it does not depend on their order, up to the sign of
/// a zero.
pub proof fn lemma_minimum_is_lower_bound(a: Scalar, b: Scalar)
    ensures
        a.minimum(b) == a || a.minimum(b) == b,
        !a.nan() && !b.nan() ==> a.minimum(b).at_most(a) && a.minimum(b).at_most(b)
            && a.minimum(b).value() == b.minimum(a).value(),
        a.minimum(b).nan() <==> a.nan() && b.nan(),
{
}

/// A channel byte lies between 0 and 255 and, away from the two ends, is
/// the number rounded towards zero.
pub proof fn lemma_channel_byte_rounds_down(a: Scalar)
    ensures
        0 <= a.truncated_byte() <= 255,
        0 <= a.channel_byte() <= 255,
        !a.nan() && 0 <= a.value() < 255 * unit() ==> a.channel_byte() * unit() <= a.value() < (
        a.channel_byte() + 1) * unit(),
{
    lemma_pow2_pos(1074);
    if !a.nan() && 0 < a.value() < 255 * unit() {
        let u = unit() as int;
        let v = a.value();
        lemma_fundamental_div_mod(v, u);
        lemma_mod_bound(v, u);
        assert(0 <= v / u < 255 && (v / u) * u <= v < (v / u + 1) * u) by (nonlinear_arith)
            requires
                v == u * (v / u) + v % u,
                0 <= v % u < u,
                0 < v < 255 * u,
        ;
    }
}

/// The channel byte never decreases as the number grows: out-of-range
/// input saturates and does not wrap around.
pub proof fn lemma_channel_byte_monotone(a: Scalar, b: Scalar)
    requires
        a.at_most(b),
    ensures
        a.channel_byte() <= b.channel_byte(),
{
    lemma_pow2_pos(1074);
    lemma_channel_byte_rounds_down(a);
    lemma_channel_byte_rounds_down(b);
    if 0 < a.value() && b.value() < 255 * unit() {
        lemma_div_is_ordered(a.value(), b.value(), unit() as int);
    }
}

} // verus!
