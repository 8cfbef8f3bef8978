//! Binary32 numbers as bit patterns.
//!
//! Every coordinate, colour channel and radius of a scene is an IEEE 754
//! binary32 number. The renderer on the other side of the buffers reads the
//! 32-bit patterns, so that is what a [`Scalar`] holds. Order and arithmetic
//! are defined on the patterns with integer arithmetic alone.

use vstd::prelude::*;
use vstd::arithmetic::power2::{
    lemma2_to64, lemma2_to64_rest, lemma_pow2_adds, lemma_pow2_pos, lemma_pow2_strictly_increases,
    lemma_pow2_unfold, pow2,
};
use crate::rounding::{
    digits_of, encode, encode_with_rest, integer_root, lemma_digits_at_most, lemma_digits_bounds,
    lemma_round_decomposed, lemma_round_root, power_of_two,
};

verus! {

/// An IEEE 754 binary32 number, held as its 32-bit pattern: one sign bit,
/// eight exponent bits, twenty-three fraction bits.
#[derive(Clone, Copy, Debug)]
pub struct Scalar {
    pub bits: u32,
}

/// Pattern of the sign bit alone, which is also the pattern of negative zero.
pub const SIGN: u32 = 0x8000_0000;

/// Pattern of positive infinity: all exponent bits set, no fraction bit.
pub const INFINITE: u32 = 0x7F80_0000;

/// Pattern of the quiet not-a-number that arithmetic here gives back.
pub const QUIET_NAN: u32 = 0x7FC0_0000;

/// Pattern of the number one.
pub const ONE: u32 = 0x3F80_0000;

/// Pattern of the number two.
pub const TWO: u32 = 0x4000_0000;

/// Pattern of the number three.
pub const THREE: u32 = 0x4040_0000;

/// Weight of the lowest exponent bit.
pub const HIDDEN: u32 = 0x80_0000;

impl Scalar {
    /// The pattern without its sign bit.
    pub open spec fn magnitude(self) -> nat {
        (self.bits % SIGN) as nat
    }

    /// The sign bit is set (this holds of negative zero and of some NaNs too).
    pub open spec fn is_negative(self) -> bool {
        self.bits >= SIGN
    }

    /// Not a number: all exponent bits set and some fraction bit.
    pub open spec fn spec_is_nan(self) -> bool {
        self.magnitude() > INFINITE
    }

    /// An infinity: all exponent bits set and no fraction bit.
    pub open spec fn spec_is_infinite(self) -> bool {
        self.magnitude() == INFINITE
    }

    /// Zero, subnormal or normal.
    pub open spec fn spec_is_finite(self) -> bool {
        self.magnitude() < INFINITE
    }

    /// An integer that orders the numbers as IEEE 754 compares them: the
    /// magnitude, negated under a sign bit. Both zeros have key 0. On a NaN
    /// the key means nothing.
    pub open spec fn key(self) -> int {
        if self.is_negative() {
            -(self.magnitude() as int)
        } else {
            self.magnitude() as int
        }
    }

    /// `self < other` as IEEE 754 defines it: false whenever a NaN is involved.
    pub open spec fn spec_lt(self, other: Scalar) -> bool {
        !self.spec_is_nan() && !other.spec_is_nan() && self.key() < other.key()
    }

    /// `self <= other` as IEEE 754 defines it: false whenever a NaN is involved.
    pub open spec fn spec_le(self, other: Scalar) -> bool {
        !self.spec_is_nan() && !other.spec_is_nan() && self.key() <= other.key()
    }

    /// `self > other` as IEEE 754 defines it.
    pub open spec fn spec_gt(self, other: Scalar) -> bool {
        other.spec_lt(self)
    }

    /// `self >= other` as IEEE 754 defines it.
    pub open spec fn spec_ge(self, other: Scalar) -> bool {
        other.spec_le(self)
    }

    /// The lesser of the two, a NaN giving way to the other operand; of two
    /// that compare equal, `self`.
    pub open spec fn spec_min(self, other: Scalar) -> Scalar {
        if self.spec_is_nan() {
            other
        } else if other.spec_lt(self) {
            other
        } else {
            self
        }
    }

    /// The greater of the two, a NaN giving way to the other operand; of two
    /// that compare equal, `self`.
    pub open spec fn spec_max(self, other: Scalar) -> Scalar {
        if self.spec_is_nan() {
            other
        } else if self.spec_lt(other) {
            other
        } else {
            self
        }
    }

    /// The number with the given pattern.
    pub fn from_bits(bits: u32) -> (r: Scalar)
        ensures
            r.bits == bits,
    {
        Scalar { bits }
    }

    /// The pattern of the number.
    pub fn to_bits(self) -> (r: u32)
        ensures
            r == self.bits,
    {
        self.bits
    }

    /// Positive zero.
    pub fn zero() -> (r: Scalar)
        ensures
            r.bits == 0,
    {
        Scalar { bits: 0 }
    }

    /// Positive infinity.
    pub fn infinity() -> (r: Scalar)
        ensures
            r.bits == INFINITE,
    {
        Scalar { bits: INFINITE }
    }

    /// Negative infinity.
    pub fn neg_infinity() -> (r: Scalar)
        ensures
            r.bits == SIGN + INFINITE,
    {
        Scalar { bits: SIGN + INFINITE }
    }

    /// Whether this is a NaN.
    #[verifier::when_used_as_spec(spec_is_nan)]
    pub fn is_nan(self) -> (r: bool)
        ensures
            r == self.spec_is_nan(),
    {
        self.bits % SIGN > INFINITE
    }

    /// Whether this is an infinity.
    #[verifier::when_used_as_spec(spec_is_infinite)]
    pub fn is_infinite(self) -> (r: bool)
        ensures
            r == self.spec_is_infinite(),
    {
        self.bits % SIGN == INFINITE
    }

    /// Whether this is zero, subnormal or normal.
    #[verifier::when_used_as_spec(spec_is_finite)]
    pub fn is_finite(self) -> (r: bool)
        ensures
            r == self.spec_is_finite(),
    {
        self.bits % SIGN < INFINITE
    }

    /// The order key as a machine integer.
    fn order_key(self) -> (k: i64)
        ensures
            k == self.key(),
    {
        let m: i64 = (self.bits % SIGN) as i64;
        if self.bits >= SIGN {
            -m
        } else {
            m
        }
    }

    /// Whether `self` is less than `other`.
    #[verifier::when_used_as_spec(spec_lt)]
    pub fn lt(self, other: Scalar) -> (r: bool)
        ensures
            r == self.spec_lt(other),
    {
        !self.is_nan() && !other.is_nan() && self.order_key() < other.order_key()
    }

    /// Whether `self` is at most `other`.
    #[verifier::when_used_as_spec(spec_le)]
    pub fn le(self, other: Scalar) -> (r: bool)
        ensures
            r == self.spec_le(other),
    {
        !self.is_nan() && !other.is_nan() && self.order_key() <= other.order_key()
    }

    /// Whether `self` is greater than `other`.
    #[verifier::when_used_as_spec(spec_gt)]
    pub fn gt(self, other: Scalar) -> (r: bool)
        ensures
            r == self.spec_gt(other),
    {
        other.lt(self)
    }

    /// Whether `self` is at least `other`.
    #[verifier::when_used_as_spec(spec_ge)]
    pub fn ge(self, other: Scalar) -> (r: bool)
        ensures
            r == self.spec_ge(other),
    {
        other.le(self)
    }

    /// The lesser of the two.
    #[verifier::when_used_as_spec(spec_min)]
    pub fn min(self, other: Scalar) -> (r: Scalar)
        ensures
            r == self.spec_min(other),
    {
        if self.is_nan() {
            other
        } else if other.lt(self) {
            other
        } else {
            self
        }
    }

    /// The greater of the two.
    #[verifier::when_used_as_spec(spec_max)]
    pub fn max(self, other: Scalar) -> (r: Scalar)
        ensures
            r == self.spec_max(other),
    {
        if self.is_nan() {
            other
        } else if self.lt(other) {
            other
        } else {
            self
        }
    }
}

/// Number of binary digits of `n`.
pub open spec fn bit_length(n: nat) -> nat
    decreases n,
{
    if n == 0 {
        0
    } else {
        1 + bit_length(n / 2)
    }
}

/// The magnitude pattern of the binary32 number nearest to the rational
/// `num / den`, counted in units of 2^-149 (the least positive binary32
/// number). Representable neighbours lie `pow2(q)` units apart, where `q`
/// is the number of digits that `num / den` has beyond twenty-four. Of two
/// neighbours equally near, the one with an even significand is taken.
/// Whatever lies beyond the largest finite number becomes infinity.
#[verifier::opaque]
pub open spec fn round_magnitude(num: nat, den: nat) -> nat
    recommends
        den > 0,
{
    let digits = bit_length(num / den);
    let q: nat = if digits > 24 {
        (digits - 24) as nat
    } else {
        0
    };
    let step = den * pow2(q);
    let sig = num / step;
    let rest = num % step;
    let up: nat = if 2 * rest > step || (2 * rest == step && sig % 2 == 1) {
        1
    } else {
        0
    };
    let m: nat = q * (HIDDEN as nat) + sig + up;
    if m >= INFINITE {
        INFINITE as nat
    } else {
        m
    }
}

/// The greatest number whose square is at most `n`.
pub open spec fn root(n: nat) -> nat
    decreases n,
{
    if n == 0 {
        0
    } else {
        let r = root((n - 1) as nat);
        if (r + 1) * (r + 1) <= n {
            r + 1
        } else {
            r
        }
    }
}

/// The magnitude pattern of the binary32 number nearest to the square root
/// of `n`, counted in units of 2^-149. Representable neighbours lie
/// `pow2(q)` units apart, where `q` is the number of digits that the root
/// has beyond twenty-four. The root lies above the middle between two
/// neighbours where four times `n` is more than the square of twice that
/// middle. Of two neighbours equally near, the one with an even significand
/// is taken.
#[verifier::opaque]
pub open spec fn round_root(n: nat) -> nat {
    let digits = bit_length(root(n));
    let q: nat = if digits > 24 {
        (digits - 24) as nat
    } else {
        0
    };
    let step = pow2(q);
    let sig = root(n) / step;
    let middle = (2 * sig + 1) * step;
    let up: nat = if 4 * n > middle * middle || (4 * n == middle * middle && sig % 2 == 1) {
        1
    } else {
        0
    };
    let m: nat = q * (HIDDEN as nat) + sig + up;
    if m >= INFINITE {
        INFINITE as nat
    } else {
        m
    }
}

/// The binary32 number nearest to an exact sum of `sum` units of 2^-149. An
/// exact zero is negative only where both terms were negative.
pub open spec fn round_sum(sum: int, both_negative: bool) -> Scalar {
    if sum == 0 {
        pack(both_negative, 0)
    } else if sum < 0 {
        pack(true, round_magnitude((-sum) as nat, 1))
    } else {
        pack(false, round_magnitude(sum as nat, 1))
    }
}

/// The number with the given sign and magnitude pattern.
pub open spec fn pack(negative: bool, magnitude: nat) -> Scalar {
    Scalar {
        bits: (if negative {
            SIGN + magnitude
        } else {
            magnitude as int
        }) as u32,
    }
}

impl Scalar {
    /// The absolute value of a finite number, in units of 2^-149.
    #[verifier::opaque]
    pub open spec fn weight(self) -> nat {
        let e = self.magnitude() / (HIDDEN as nat);
        let f = self.magnitude() % (HIDDEN as nat);
        if e == 0 {
            f
        } else {
            (HIDDEN as nat + f) * pow2((e - 1) as nat)
        }
    }

    /// The value of a finite number, in units of 2^-149.
    pub open spec fn scaled(self) -> int {
        if self.is_negative() {
            -(self.weight() as int)
        } else {
            self.weight() as int
        }
    }

    /// The same number with the opposite sign.
    pub open spec fn spec_neg(self) -> Scalar {
        pack(!self.is_negative(), self.magnitude())
    }

    /// The IEEE 754 sum, rounded to nearest, ties to even. A sum of
    /// opposite infinities, or with a NaN, is the quiet NaN. An exact zero
    /// is negative only where both operands are negative.
    #[verifier::opaque]
    pub open spec fn spec_add(self, other: Scalar) -> Scalar {
        if self.spec_is_nan() || other.spec_is_nan() {
            Scalar { bits: QUIET_NAN }
        } else if self.spec_is_infinite() {
            if other.spec_is_infinite() && self.is_negative() != other.is_negative() {
                Scalar { bits: QUIET_NAN }
            } else {
                self
            }
        } else if other.spec_is_infinite() {
            other
        } else {
            round_sum(
                self.scaled() + other.scaled(),
                self.is_negative() && other.is_negative(),
            )
        }
    }

    /// The IEEE 754 difference: the sum with the negated subtrahend.
    pub open spec fn spec_sub(self, other: Scalar) -> Scalar {
        self.spec_add(other.spec_neg())
    }

    /// The IEEE 754 product, rounded to nearest, ties to even. The sign is
    /// negative where the signs differ, also by a zero. Infinity times
    /// zero, or a product with a NaN, is the quiet NaN.
    #[verifier::opaque]
    pub open spec fn spec_mul(self, other: Scalar) -> Scalar {
        let negative = self.is_negative() != other.is_negative();
        if self.spec_is_nan() || other.spec_is_nan() {
            Scalar { bits: QUIET_NAN }
        } else if self.spec_is_infinite() || other.spec_is_infinite() {
            if self.magnitude() == 0 || other.magnitude() == 0 {
                Scalar { bits: QUIET_NAN }
            } else {
                pack(negative, INFINITE as nat)
            }
        } else {
            pack(negative, round_magnitude(self.weight() * other.weight(), pow2(149)))
        }
    }

    /// The IEEE 754 quotient, rounded to nearest, ties to even. The sign is
    /// negative where the signs differ. A number by zero is infinity, by
    /// infinity zero. Zero by zero, infinity by infinity, or a quotient with
    /// a NaN, is the quiet NaN.
    #[verifier::opaque]
    pub open spec fn spec_div(self, other: Scalar) -> Scalar {
        let negative = self.is_negative() != other.is_negative();
        if self.spec_is_nan() || other.spec_is_nan() {
            Scalar { bits: QUIET_NAN }
        } else if self.spec_is_infinite() {
            if other.spec_is_infinite() {
                Scalar { bits: QUIET_NAN }
            } else {
                pack(negative, INFINITE as nat)
            }
        } else if other.spec_is_infinite() {
            pack(negative, 0)
        } else if other.magnitude() == 0 {
            if self.magnitude() == 0 {
                Scalar { bits: QUIET_NAN }
            } else {
                pack(negative, INFINITE as nat)
            }
        } else {
            pack(negative, round_magnitude(self.weight() * pow2(149), other.weight()))
        }
    }

    /// The IEEE 754 square root, rounded to nearest, ties to even. The root
    /// of a zero is that zero. The root of a number below zero, or of a
    /// NaN, is the quiet NaN.
    #[verifier::opaque]
    pub open spec fn spec_sqrt(self) -> Scalar {
        if self.spec_is_nan() {
            Scalar { bits: QUIET_NAN }
        } else if self.magnitude() == 0 {
            self
        } else if self.is_negative() {
            Scalar { bits: QUIET_NAN }
        } else if self.spec_is_infinite() {
            self
        } else {
            pack(false, round_root(self.weight() * pow2(149)))
        }
    }

    /// The binary32 number nearest to the integer `n`, ties to even.
    pub open spec fn spec_from_int(n: int) -> Scalar {
        if n < 0 {
            pack(true, round_magnitude(((-n) * pow2(149)) as nat, 1))
        } else {
            pack(false, round_magnitude((n * pow2(149)) as nat, 1))
        }
    }

    /// The number with the opposite sign.
    #[verifier::when_used_as_spec(spec_neg)]
    pub fn neg(self) -> (r: Scalar)
        ensures
            r == self.spec_neg(),
    {
        if self.bits >= SIGN {
            Scalar { bits: self.bits - SIGN }
        } else {
            Scalar { bits: self.bits + SIGN }
        }
    }

    /// Significand and exponent of a finite number: it weighs
    /// `sig * 2^q` units of 2^-149, and its magnitude pattern is
    /// `q * 2^23 + sig`.
    fn unpack(self) -> (r: (u64, u32))
        requires
            self.spec_is_finite(),
        ensures
            self.weight() == r.0 * pow2(r.1 as nat),
            self.magnitude() == r.1 * HIDDEN + r.0,
            r.0 < 0x100_0000,
            r.1 <= 253,
            r.1 > 0 ==> r.0 >= HIDDEN,
    {
        proof {
            reveal(Scalar::weight);
            lemma2_to64();
        }
        let m: u32 = self.bits % SIGN;
        let e: u32 = m / HIDDEN;
        let f: u32 = m % HIDDEN;
        if e == 0 {
            assert(f * pow2(0) == f) by (nonlinear_arith)
                requires
                    pow2(0) == 1,
            ;
            (f as u64, 0)
        } else {
            ((HIDDEN + f) as u64, e - 1)
        }
    }

    /// The sum.
    #[verifier::when_used_as_spec(spec_add)]
    pub fn add(self, other: Scalar) -> (r: Scalar)
        ensures
            r == self.spec_add(other),
    {
        proof {
            reveal(Scalar::spec_add);
        }
        if self.is_nan() || other.is_nan() {
            return Scalar { bits: QUIET_NAN };
        }
        if self.is_infinite() {
            if other.is_infinite() && (self.bits >= SIGN) != (other.bits >= SIGN) {
                return Scalar { bits: QUIET_NAN };
            }
            return self;
        }
        if other.is_infinite() {
            return other;
        }
        let (s1, q1) = self.unpack();
        let (s2, q2) = other.unpack();
        if q1 >= q2 {
            sum_finite(self.bits >= SIGN, s1, q1, other.bits >= SIGN, s2, q2)
        } else {
            sum_finite(other.bits >= SIGN, s2, q2, self.bits >= SIGN, s1, q1)
        }
    }

    /// The difference.
    #[verifier::when_used_as_spec(spec_sub)]
    pub fn sub(self, other: Scalar) -> (r: Scalar)
        ensures
            r == self.spec_sub(other),
    {
        self.add(other.neg())
    }

    /// The product.
    #[verifier::when_used_as_spec(spec_mul)]
    pub fn mul(self, other: Scalar) -> (r: Scalar)
        ensures
            r == self.spec_mul(other),
    {
        proof {
            reveal(Scalar::spec_mul);
        }
        let negative: bool = (self.bits >= SIGN) != (other.bits >= SIGN);
        if self.is_nan() || other.is_nan() {
            return Scalar { bits: QUIET_NAN };
        }
        if self.is_infinite() || other.is_infinite() {
            if self.bits % SIGN == 0 || other.bits % SIGN == 0 {
                return Scalar { bits: QUIET_NAN };
            }
            return Scalar { bits: if negative { SIGN + INFINITE } else { INFINITE } };
        }
        let (s1, q1) = self.unpack();
        let (s2, q2) = other.unpack();
        proof {
            lemma_pow2_adds(q1 as nat, q2 as nat);
            assert(s1 * s2 < 0x1_0000_0000_0000) by (nonlinear_arith)
                requires
                    s1 < 0x100_0000,
                    s2 < 0x100_0000,
            ;
            assert(self.weight() * other.weight() == (s1 * s2) * pow2((q1 + q2) as nat))
                by (nonlinear_arith)
                requires
                    self.weight() == s1 * pow2(q1 as nat),
                    other.weight() == s2 * pow2(q2 as nat),
                    pow2((q1 + q2) as nat) == pow2(q1 as nat) * pow2(q2 as nat),
            ;
        }
        encode(negative, s1 * s2, q1 + q2, 149)
    }

    /// The quotient.
    #[verifier::when_used_as_spec(spec_div)]
    pub fn div(self, other: Scalar) -> (r: Scalar)
        ensures
            r == self.spec_div(other),
    {
        proof {
            reveal(Scalar::spec_div);
        }
        let negative: bool = (self.bits >= SIGN) != (other.bits >= SIGN);
        let signed_zero = Scalar { bits: if negative { SIGN } else { 0 } };
        let signed_infinity = Scalar { bits: if negative { SIGN + INFINITE } else { INFINITE } };
        if self.is_nan() || other.is_nan() {
            return Scalar { bits: QUIET_NAN };
        }
        if self.is_infinite() {
            if other.is_infinite() {
                return Scalar { bits: QUIET_NAN };
            }
            return signed_infinity;
        }
        if other.is_infinite() {
            return signed_zero;
        }
        if other.bits % SIGN == 0 {
            if self.bits % SIGN == 0 {
                return Scalar { bits: QUIET_NAN };
            }
            return signed_infinity;
        }
        let (s1, q1) = self.unpack();
        let (s2, q2) = other.unpack();
        let ghost num: nat = self.weight() * pow2(149);
        let ghost den: nat = other.weight();
        proof {
            lemma2_to64();
            lemma_pow2_pos(q2 as nat);
            assert(den > 0) by (nonlinear_arith)
                requires
                    den == s2 * pow2(q2 as nat),
                    s2 > 0,
                    pow2(q2 as nat) > 0,
            ;
        }
        if s1 == 0 {
            proof {
                assert(num == 0) by (nonlinear_arith)
                    requires
                        num == self.weight() * pow2(149),
                        self.weight() == 0 * pow2(q1 as nat),
                ;
                assert(0 == 0 * (den * pow2(0)) + 0) by (nonlinear_arith);
                lemma_round_decomposed(0, den, 0, 0, 0);
            }
            return signed_zero;
        }
        // Move the dividend up until it fills sixty-four digits, so that the
        // quotient has enough of them.
        let digits: u32 = digits_of(s1);
        proof {
            lemma_digits_bounds(s1 as nat);
            lemma_digits_at_most(s1 as nat, 24);
            lemma2_to64_rest();
            lemma_pow2_adds(digits as nat, (64 - digits) as nat);
            lemma_pow2_adds((digits - 1) as nat, (64 - digits) as nat);
        }
        let k: u32 = 64 - digits;
        let scale: u64 = power_of_two(k);
        assert(0x8000_0000_0000_0000 <= s1 * scale < 0x1_0000_0000_0000_0000) by (nonlinear_arith)
            requires
                pow2((digits - 1) as nat) <= s1 < pow2(digits as nat),
                scale > 0,
                pow2(digits as nat) * scale == 0x1_0000_0000_0000_0000,
                pow2((digits - 1) as nat) * scale == 0x8000_0000_0000_0000,
        ;
        let n: u64 = s1 * scale;
        let quotient: u64 = n / s2;
        let rest: u64 = n % s2;
        assert(n == quotient * s2 + rest && 0 <= rest < s2 && quotient >= 0x200_0000)
            by (nonlinear_arith)
            requires
                quotient == n / s2,
                rest == n % s2,
                0 < s2 < 0x100_0000,
                n >= 0x8000_0000_0000_0000,
        ;
        let raise: u32 = q1 + 149 - k;
        proof {
            lemma_pow2_adds(k as nat, raise as nat);
            lemma_pow2_adds(q1 as nat, 149);
            assert((quotient * s2 + rest) * pow2(raise as nat) == num) by (nonlinear_arith)
                requires
                    n == quotient * s2 + rest,
                    n == s1 * scale,
                    scale * pow2(raise as nat) == pow2(q1 as nat) * pow2(149),
                    num == self.weight() * pow2(149),
                    self.weight() == s1 * pow2(q1 as nat),
            ;
        }
        encode_with_rest(negative, quotient, raise, q2, rest > 0, Ghost(rest as nat), Ghost(s2 as nat))
    }

    /// The square root.
    #[verifier::when_used_as_spec(spec_sqrt)]
    pub fn sqrt(self) -> (r: Scalar)
        ensures
            r == self.spec_sqrt(),
    {
        proof {
            reveal(Scalar::spec_sqrt);
        }
        if self.is_nan() {
            return Scalar { bits: QUIET_NAN };
        }
        if self.bits % SIGN == 0 {
            return self;
        }
        if self.bits >= SIGN {
            return Scalar { bits: QUIET_NAN };
        }
        if self.is_infinite() {
            return self;
        }
        let (s, q) = self.unpack();
        // Move the significand up until it fills sixty-three or sixty-four
        // digits, whichever leaves an even exponent.
        let digits: u32 = digits_of(s);
        proof {
            lemma2_to64();
            lemma2_to64_rest();
            lemma_digits_bounds(s as nat);
            lemma_digits_at_most(s as nat, 24);
        }
        let e: u32 = q + 149;
        let k: u32 = if (e - (64 - digits)) % 2 == 0 {
            64 - digits
        } else {
            63 - digits
        };
        let h: u32 = (e - k) / 2;
        let scale: u64 = power_of_two(k);
        proof {
            lemma_pow2_adds(digits as nat, k as nat);
            lemma_pow2_adds((digits - 1) as nat, k as nat);
            if k == 63 - digits {
                lemma_pow2_unfold(63);
                lemma_pow2_unfold(64);
            }
        }
        assert(0x4000_0000_0000_0000 <= s * scale < 0x1_0000_0000_0000_0000) by (nonlinear_arith)
            requires
                pow2((digits - 1) as nat) <= s < pow2(digits as nat),
                scale > 0,
                pow2(digits as nat) * scale <= 0x1_0000_0000_0000_0000,
                pow2((digits - 1) as nat) * scale >= 0x4000_0000_0000_0000,
        ;
        let big: u64 = s * scale;
        let r: u64 = integer_root(big);
        let inexact: bool = r * r != big;
        let sig: u64 = r / 256;
        let low: u64 = r % 256;
        let up: u64 = if low > 128 || (low == 128 && (inexact || sig % 2 == 1)) {
            1
        } else {
            0
        };
        proof {
            lemma_pow2_adds(h as nat, h as nat);
            lemma_pow2_adds(k as nat, (2 * h) as nat);
            lemma_pow2_adds(q as nat, 149);
            let n: nat = self.weight() * pow2(149);
            assert(n == big * (pow2(h as nat) * pow2(h as nat))) by (nonlinear_arith)
                requires
                    n == self.weight() * pow2(149),
                    self.weight() == s * pow2(q as nat),
                    big == s * scale,
                    scale * (pow2(h as nat) * pow2(h as nat)) == pow2(q as nat) * pow2(149),
            ;
            lemma_round_root(n, big as nat, r as nat, h as nat);
        }
        let m: u64 = (8 + h as u64) * (HIDDEN as u64) + sig + up;
        Scalar { bits: m as u32 }
    }

    /// Converts an index or a count to the nearest binary32 number.
    pub fn from_usize(n: usize) -> (r: Scalar)
        ensures
            r == Scalar::spec_from_int(n as int),
    {
        proof {
            lemma2_to64();
        }
        encode(false, n as u64, 149, 0)
    }

    /// Converts a signed integer to the nearest binary32 number.
    pub fn from_i32(n: i32) -> (r: Scalar)
        ensures
            r == Scalar::spec_from_int(n as int),
    {
        proof {
            lemma2_to64();
        }
        if n < 0 {
            encode(true, (-(n as i64)) as u64, 149, 0)
        } else {
            encode(false, n as u64, 149, 0)
        }
    }

}

/// A weight with its sign.
pub open spec fn signed(negative: bool, weight: nat) -> int {
    if negative {
        -(weight as int)
    } else {
        weight as int
    }
}

/// The rounded sum of two finite numbers given by sign, significand and
/// exponent, the first with the exponent that is not the smaller.
fn sum_finite(a_neg: bool, a_sig: u64, a_q: u32, b_neg: bool, b_sig: u64, b_q: u32) -> (r: Scalar)
    requires
        a_sig < 0x100_0000,
        b_sig < 0x100_0000,
        b_q <= a_q <= 253,
        a_q > 0 ==> a_sig >= HIDDEN,
    ensures
        r == round_sum(
            signed(a_neg, a_sig as nat * pow2(a_q as nat)) + signed(
                b_neg,
                b_sig as nat * pow2(b_q as nat),
            ),
            a_neg && b_neg,
        ),
{
    let d: u32 = a_q - b_q;
    let ghost wa: nat = a_sig as nat * pow2(a_q as nat);
    let ghost wb: nat = b_sig as nat * pow2(b_q as nat);
    if d > 38 {
        proof {
            lemma_far_sum(a_sig as nat, a_q as nat, b_sig as nat, b_q as nat, a_neg == b_neg);
        }
        let mag: u32 = a_q * HIDDEN + a_sig as u32;
        return Scalar { bits: if a_neg { SIGN + mag } else { mag } };
    }
    let scale: u64 = power_of_two(d);
    proof {
        lemma2_to64();
        lemma2_to64_rest();
        if d < 38 {
            lemma_pow2_strictly_increases(d as nat, 38);
        }
        assert(a_sig * scale < 0x4000_0000_0000_0000) by (nonlinear_arith)
            requires
                a_sig < 0x100_0000,
                0 < scale <= 0x40_0000_0000,
        ;
        lemma_pow2_adds(d as nat, b_q as nat);
        lemma_pow2_pos(b_q as nat);
    }
    let x: u64 = a_sig * scale;
    let ghost unit = pow2(b_q as nat);
    assert(wa == x * unit) by (nonlinear_arith)
        requires
            wa == a_sig * pow2(a_q as nat),
            pow2(a_q as nat) == scale * unit,
            x == a_sig * scale,
    ;
    if a_neg == b_neg {
        let t: u64 = x + b_sig;
        assert(wa + wb == t * unit && (t > 0 ==> t * unit > 0)) by (nonlinear_arith)
            requires
                wa == x * unit,
                wb == b_sig * unit,
                t == x + b_sig,
                unit > 0,
        ;
        if t == 0 {
            Scalar { bits: if a_neg { SIGN } else { 0 } }
        } else {
            encode(a_neg, t, b_q, 0)
        }
    } else if x == b_sig {
        Scalar { bits: 0 }
    } else if x > b_sig {
        let t: u64 = x - b_sig;
        assert(wa - wb == t * unit && t * unit > 0) by (nonlinear_arith)
            requires
                wa == x * unit,
                wb == b_sig * unit,
                t == x - b_sig,
                t > 0,
                unit > 0,
        ;
        encode(a_neg, t, b_q, 0)
    } else {
        let t: u64 = b_sig - x;
        assert(wb - wa == t * unit && t * unit > 0) by (nonlinear_arith)
            requires
                wa == x * unit,
                wb == b_sig * unit,
                t == b_sig - x,
                t > 0,
                unit > 0,
        ;
        encode(b_neg, t, b_q, 0)
    }
}

/// A term more than thirty-eight binary places below another cannot move
/// it: the sum rounds back to the greater term.
proof fn lemma_far_sum(a_sig: nat, a_q: nat, b_sig: nat, b_q: nat, same_sign: bool)
    requires
        HIDDEN <= a_sig < 0x100_0000,
        b_sig < 0x100_0000,
        b_q + 38 < a_q <= 253,
    ensures
        a_q * HIDDEN + a_sig < INFINITE,
        a_sig * pow2(a_q) > b_sig * pow2(b_q),
        same_sign ==> round_magnitude(a_sig * pow2(a_q) + b_sig * pow2(b_q), 1) == a_q * HIDDEN
            + a_sig,
        !same_sign ==> round_magnitude((a_sig * pow2(a_q) - b_sig * pow2(b_q)) as nat, 1) == a_q
            * HIDDEN + a_sig,
{
    let p = pow2(a_q);
    let half = pow2((a_q - 1) as nat);
    let quarter = pow2((a_q - 2) as nat);
    let wa = a_sig * p;
    let wb = b_sig * pow2(b_q);
    lemma2_to64();
    lemma_pow2_pos(a_q);
    lemma_pow2_pos(b_q);
    lemma_pow2_unfold(a_q);
    lemma_pow2_unfold((a_q - 1) as nat);
    lemma_pow2_adds(24, b_q);
    lemma_pow2_strictly_increases(24 + b_q, (a_q - 2) as nat);
    assert(wb < quarter) by (nonlinear_arith)
        requires
            wb == b_sig * pow2(b_q),
            b_sig < pow2(24),
            pow2(24) * pow2(b_q) < quarter,
            pow2(b_q) > 0,
    ;
    assert(p == 2 * half && half == 2 * quarter);
    assert(wa >= 0x80_0000 * p) by (nonlinear_arith)
        requires
            wa == a_sig * p,
            a_sig >= 0x80_0000,
            p > 0,
    ;
    assert(a_q * HIDDEN + a_sig < INFINITE) by (nonlinear_arith)
        requires
            a_q <= 253,
            a_sig < 0x100_0000,
    ;
    assert(1 * (1 * p) == p) by (nonlinear_arith);
    if same_sign {
        assert(wa + wb == a_sig * (1 * p) + wb) by (nonlinear_arith)
            requires
                wa == a_sig * p,
        ;
        lemma_round_decomposed(wa + wb, 1, a_q, a_sig, wb);
    } else if wb == 0 {
        assert(wa == a_sig * (1 * p) + 0) by (nonlinear_arith)
            requires
                wa == a_sig * p,
        ;
        lemma_round_decomposed(wa, 1, a_q, a_sig, 0);
    } else if a_sig > HIDDEN {
        let rest = (p - wb) as nat;
        assert(wa - wb == (a_sig - 1) * (1 * p) + rest) by (nonlinear_arith)
            requires
                wa == a_sig * p,
                rest == p - wb,
        ;
        lemma_round_decomposed((wa - wb) as nat, 1, a_q, (a_sig - 1) as nat, rest);
    } else {
        let rest = (half - wb) as nat;
        let sig: nat = 0xff_ffff;
        assert(wa - wb == sig * (1 * half) + rest) by (nonlinear_arith)
            requires
                wa == a_sig * p,
                a_sig == 0x80_0000,
                p == 2 * half,
                rest == half - wb,
                sig == 0xff_ffff,
        ;
        lemma_round_decomposed((wa - wb) as nat, 1, (a_q - 1) as nat, sig, rest);
        assert((a_q - 1) * HIDDEN + sig + 1 == a_q * HIDDEN + a_sig) by (nonlinear_arith)
            requires
                sig == 0xff_ffff,
                a_sig == 0x80_0000,
        ;
    }
}

} // verus!
