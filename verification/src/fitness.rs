//! Fitness scores.
//!
//! A genome reports its fitness as a double-precision number. The engine
//! never computes with such a number: it only asks whether a score can be
//! compared, which of two scores is the better one, and what a score is
//! worth when it is rounded up to a whole sampling weight. All three can be
//! read off the 64 bits of the number, so a score is carried as those bits
//! and the answers are proved about plain integers.
//!
//! The bits are those of IEEE 754 binary64: one sign bit, eleven bits of
//! exponent, fifty-two bits of fraction. With exponent field `e` and
//! fraction `f` the number is
//!
//! * `f * 2^(-1074)` when `e == 0`,
//! * `(2^52 + f) * 2^(e - 1075)` when `0 < e < 2047`,
//! * infinite when `e == 2047` and `f == 0`,
//! * not a number when `e == 2047` and `f != 0`,
//!
//! negated when the sign bit is set.

use vstd::prelude::*;
use vstd::arithmetic::div_mod::{lemma_basic_div, lemma_fundamental_div_mod, lemma_small_mod};
use vstd::arithmetic::power2::{
    lemma2_to64,
    lemma2_to64_rest,
    lemma_pow2_pos,
    lemma_pow2_strictly_increases,
    pow2,
};
use vstd::bits::lemma_u64_shl_is_mul;
use crate::error::ExperimentError;

verus! {

/// The value of the sign bit: two to the power 63.
pub const SIGN_BIT: u64 = 0x8000_0000_0000_0000;

/// The value of the lowest exponent bit, which is also the significand's
/// hidden bit: two to the power 52.
pub const HIDDEN_BIT: u64 = 0x0010_0000_0000_0000;

/// The exponent field of infinities and of what is not a number.
pub const EXPONENT_SPECIAL: u64 = 2047;

/// The exponent field at which the significand counts whole units.
pub const EXPONENT_UNIT: u64 = 1075;

/// A fitness score, held as the bits of a double-precision number.
#[derive(Clone, Copy, Debug)]
pub struct Fitness {
    pub bits: u64,
}

/// The quotient of `n` by `d`, rounded up.
pub open spec fn ceil_div(n: nat, d: nat) -> nat {
    if n % d == 0 {
        n / d
    } else {
        n / d + 1
    }
}

/// Rounding up gives the least whole number of `d`s that covers `n`.
pub proof fn lemma_ceil_div_is_least(n: nat, d: nat)
    requires
        d > 0,
    ensures
        ceil_div(n, d) * d >= n,
        forall|k: nat| #[trigger] (k * d) >= n ==> k >= ceil_div(n, d),
{
    lemma_fundamental_div_mod(n as int, d as int);
    let q = n / d;
    let r = n % d;
    assert(n == d * q + r);
    assert(d * q == q * d) by (nonlinear_arith);
    if r != 0 {
        assert((q + 1) * d == q * d + d) by (nonlinear_arith);
    }
    assert forall|k: nat| #[trigger] (k * d) >= n implies k >= ceil_div(n, d) by {
        if k < ceil_div(n, d) {
            if r == 0 {
                assert(k * d < q * d) by (nonlinear_arith)
                    requires
                        k < q,
                        d > 0,
                ;
            } else {
                assert(k * d <= q * d) by (nonlinear_arith)
                    requires
                        k <= q,
                        d > 0,
                ;
            }
        }
    }
}

impl Fitness {
    /// Whether the sign bit is set.
    pub open spec fn negative(self) -> bool {
        self.bits >= SIGN_BIT
    }

    /// The exponent field.
    pub open spec fn exponent(self) -> nat {
        ((self.bits / HIDDEN_BIT) % 2048) as nat
    }

    /// The fraction field.
    pub open spec fn fraction(self) -> nat {
        (self.bits % HIDDEN_BIT) as nat
    }

    /// Whether the score is not a number, and so cannot be compared.
    pub open spec fn nan(self) -> bool {
        self.exponent() == EXPONENT_SPECIAL && self.fraction() != 0
    }

    /// Whether the score is neither infinite nor not a number.
    pub open spec fn finite(self) -> bool {
        self.exponent() != EXPONENT_SPECIAL
    }

    /// Exponent and fraction read as one number. Among scores of one sign
    /// that are numbers, a greater magnitude is a greater absolute value.
    pub open spec fn magnitude(self) -> nat {
        (self.bits % SIGN_BIT) as nat
    }

    /// The place of a score in the order of the numbers: of two scores that
    /// are numbers, the one with the greater key is the greater number, and
    /// equal keys are equal numbers. Both zeros have key zero.
    pub open spec fn key(self) -> int {
        if self.negative() {
            -(self.magnitude() as int)
        } else {
            self.magnitude() as int
        }
    }

    /// Whether this score is a number at least as great as `threshold`.
    /// Nothing reaches a threshold that is not a number.
    pub open spec fn reaches(self, threshold: Fitness) -> bool {
        !self.nan() && !threshold.nan() && self.key() >= threshold.key()
    }

    /// The significand of a finite score: the fraction, with the hidden bit
    /// above it unless the exponent field is zero.
    pub open spec fn significand(self) -> nat {
        if self.exponent() == 0 {
            self.fraction()
        } else {
            (self.fraction() + HIDDEN_BIT) as nat
        }
    }

    /// The power of two by which the significand of a finite score is
    /// scaled: the absolute value is `significand * 2^scale`.
    pub open spec fn scale(self) -> int {
        if self.exponent() == 0 {
            1 - EXPONENT_UNIT
        } else {
            self.exponent() - EXPONENT_UNIT
        }
    }

    /// The absolute value of a finite score, rounded up to a whole number.
    pub open spec fn ceiling(self) -> nat {
        if self.scale() >= 0 {
            self.significand() * pow2(self.scale() as nat)
        } else {
            ceil_div(self.significand(), pow2((-self.scale()) as nat))
        }
    }

    /// What a score is worth as a sampling weight: the score rounded up to
    /// a whole number, and no more than 32 bits can hold. A score that is
    /// infinite or not a number has no weight, nor has one below zero. Both
    /// zeros weigh nothing.
    pub open spec fn weight_of(self) -> Result<u32, ExperimentError> {
        if !self.finite() {
            Err(ExperimentError::NotFinite)
        } else if self.key() < 0 {
            Err(ExperimentError::Negative)
        } else if self.ceiling() > u32::MAX {
            Ok(u32::MAX)
        } else {
            Ok(self.ceiling() as u32)
        }
    }

    /// The score with the given bits. The score that stands for a number
    /// is the one with the bits of that number.
    pub fn from_bits(bits: u64) -> (fitness: Fitness)
        ensures
            fitness.bits == bits,
    {
        Fitness { bits }
    }

    /// The bits of the score.
    pub fn to_bits(&self) -> (bits: u64)
        ensures
            bits == self.bits,
    {
        self.bits
    }

    /// Whether the score is not a number.
    pub fn is_nan(&self) -> (answer: bool)
        ensures
            answer == self.nan(),
    {
        (self.bits / HIDDEN_BIT) % 2048 == EXPONENT_SPECIAL && self.bits % HIDDEN_BIT != 0
    }

    /// Whether the score is neither infinite nor not a number.
    pub fn is_finite(&self) -> (answer: bool)
        ensures
            answer == self.finite(),
    {
        (self.bits / HIDDEN_BIT) % 2048 != EXPONENT_SPECIAL
    }

    /// Whether the sign bit is clear.
    pub fn is_sign_positive(&self) -> (answer: bool)
        ensures
            answer == !self.negative(),
    {
        self.bits < SIGN_BIT
    }

    /// The key by which scores are ordered.
    pub fn order_key(&self) -> (key: i64)
        ensures
            key == self.key(),
    {
        let magnitude: u64 = self.bits % SIGN_BIT;
        if self.bits >= SIGN_BIT {
            -(magnitude as i64)
        } else {
            magnitude as i64
        }
    }

    /// Whether this score is a number at least as great as `threshold`.
    pub fn at_least(&self, threshold: &Fitness) -> (answer: bool)
        ensures
            answer == self.reaches(*threshold),
    {
        !self.is_nan() && !threshold.is_nan() && self.order_key() >= threshold.order_key()
    }

    /// The sampling weight of the score.
    pub fn weight(&self) -> (weight: Result<u32, ExperimentError>)
        ensures
            weight == self.weight_of(),
    {
        let exponent: u64 = (self.bits / HIDDEN_BIT) % 2048;
        let fraction: u64 = self.bits % HIDDEN_BIT;
        if exponent == EXPONENT_SPECIAL {
            return Err(ExperimentError::NotFinite);
        }
        if self.bits > SIGN_BIT {
            return Err(ExperimentError::Negative);
        }
        let significand: u64 = if exponent == 0 {
            fraction
        } else {
            fraction + HIDDEN_BIT
        };
        let biased: u64 = if exponent == 0 {
            1
        } else {
            exponent
        };
        if biased >= EXPONENT_UNIT {
            proof {
                let factor = pow2(self.scale() as nat);
                lemma_pow2_pos(self.scale() as nat);
                assert(significand * factor >= significand) by (nonlinear_arith)
                    requires
                        factor >= 1,
                ;
            }
            return Ok(u32::MAX);
        }
        let shift: u64 = EXPONENT_UNIT - biased;
        assert(shift == -self.scale());
        proof {
            lemma2_to64();
            lemma2_to64_rest();
        }
        if shift >= 54 {
            proof {
                if shift > 54 {
                    lemma_pow2_strictly_increases(54, shift as nat);
                }
                let divisor = pow2(shift as nat);
                lemma_basic_div(significand as int, divisor as int);
                lemma_small_mod(significand as nat, divisor);
            }
            return Ok(
                if significand == 0 {
                    0
                } else {
                    1
                },
            );
        }
        proof {
            if shift < 53 {
                lemma_pow2_strictly_increases(shift as nat, 53);
            }
            lemma_u64_shl_is_mul(1, shift);
        }
        let divisor: u64 = 1u64 << shift;
        assert(divisor == pow2(shift as nat));
        let quotient: u64 = significand / divisor;
        let rounded: u64 = if significand % divisor == 0 {
            quotient
        } else {
            quotient + 1
        };
        assert(rounded == self.ceiling());
        if rounded > 0xffff_ffff {
            Ok(u32::MAX)
        } else {
            Ok(rounded as u32)
        }
    }
}

} // verus!
