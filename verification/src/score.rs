//! Scores: finite, non-negative binary32 values, handled by their bit patterns.
//!
//! A binary32 pattern has a sign bit, eight exponent bits and 23 fraction bits.
//! Every finite non-negative value is a whole multiple of 2^-149, the smallest
//! positive value of the format, so a score is modelled by that multiple: a
//! natural number of *units*. Order and products of scores are then statements
//! about natural numbers, with no rounding anywhere.

use vstd::prelude::*;
use vstd::arithmetic::power2::*;
use vstd::arithmetic::mul::*;

verus! {

/// Two to the power 23: the weight of the exponent field in a bit pattern, and
/// the hidden leading bit of a normal significand.
pub const FRACTION_RADIX: u32 = 0x80_0000;

/// The pattern of positive infinity. Patterns below it are the finite
/// non-negative values; patterns from it up to `0x7FFF_FFFF` are infinity and
/// the positive not-a-number values.
pub const INFINITY_BITS: u32 = 0x7F80_0000;

/// The pattern of negative zero, the one pattern with the sign bit set whose
/// value is not below zero.
pub const NEGATIVE_ZERO_BITS: u32 = 0x8000_0000;

/// Whether `bits` is the pattern of a finite value that is not below zero.
pub open spec fn encodes_score(bits: u32) -> bool {
    bits < INFINITY_BITS || bits == NEGATIVE_ZERO_BITS
}

/// The integer significand of a finite non-negative pattern: the fraction
/// field, with the hidden bit added for a normal value.
pub open spec fn significand(bits: u32) -> nat {
    if bits / FRACTION_RADIX == 0 {
        (bits % FRACTION_RADIX) as nat
    } else {
        (FRACTION_RADIX + bits % FRACTION_RADIX) as nat
    }
}

/// The power of two by which the significand is multiplied to give units.
/// Subnormal values and the lowest normal exponent both have scale zero.
pub open spec fn scale(bits: u32) -> nat {
    if bits / FRACTION_RADIX == 0 {
        0
    } else {
        (bits / FRACTION_RADIX - 1) as nat
    }
}

/// The value of a pattern that encodes a score, in units of 2^-149.
pub open spec fn units(bits: u32) -> nat {
    if bits == NEGATIVE_ZERO_BITS {
        0
    } else {
        significand(bits) * pow2(scale(bits))
    }
}

/// The number of units in the score one.
pub open spec fn one() -> nat {
    pow2(149)
}

/// Among finite non-negative patterns, the order of the patterns is the order
/// of the values.
pub proof fn lemma_units_strictly_increase(a: u32, b: u32)
    requires
        a < b < INFINITY_BITS,
    ensures
        units(a) < units(b),
{
    let ea = (a / FRACTION_RADIX) as nat;
    let eb = (b / FRACTION_RADIX) as nat;
    let sa = significand(a);
    let sb = significand(b);
    let pa = pow2(scale(a));
    let pb = pow2(scale(b));
    assert(units(a) == sa * pa && units(b) == sb * pb);
    assert(ea <= eb);
    lemma_pow2_pos(scale(a));
    lemma_pow2_pos(scale(b));
    if ea == eb {
        assert(sa < sb && pa == pb);
        lemma_mul_strict_inequality(sa as int, sb as int, pa as int);
    } else {
        assert(sb >= FRACTION_RADIX && scale(b) == eb - 1);
        assert(FRACTION_RADIX * pb <= sb * pb) by {
            lemma_mul_inequality(FRACTION_RADIX as int, sb as int, pb as int);
        }
        if ea == 0 {
            assert(sa < FRACTION_RADIX && scale(a) == 0);
            assert(pa == 1) by {
                lemma2_to64();
            }
            assert(sa * pa == sa) by (nonlinear_arith)
                requires
                    pa == 1,
            ;
            assert(FRACTION_RADIX * pb >= FRACTION_RADIX) by (nonlinear_arith)
                requires
                    pb >= 1,
            ;
        } else {
            assert(sa < 2 * FRACTION_RADIX && scale(a) == ea - 1);
            assert(pow2(ea) == 2 * pa) by {
                lemma_pow2_unfold(ea);
            }
            assert(sa * pa < FRACTION_RADIX * pow2(ea)) by (nonlinear_arith)
                requires
                    sa < 2 * FRACTION_RADIX,
                    pa > 0,
                    pow2(ea) == 2 * pa,
            ;
            assert(pow2(ea) <= pb) by {
                if ea < eb - 1 {
                    lemma_pow2_strictly_increases(ea, scale(b));
                }
            }
            assert(FRACTION_RADIX * pow2(ea) <= FRACTION_RADIX * pb) by (nonlinear_arith)
                requires
                    pow2(ea) <= pb,
            ;
        }
    }
}

/// The order of two score patterns is the order of their values.
pub proof fn lemma_units_order(a: u32, b: u32)
    requires
        a < INFINITY_BITS,
        b < INFINITY_BITS,
    ensures
        a <= b <==> units(a) <= units(b),
{
    if a < b {
        lemma_units_strictly_increase(a, b);
    } else if b < a {
        lemma_units_strictly_increase(b, a);
    }
}

/// Shifting one left by `shift` places gives two to the power `shift`.
proof fn lemma_shifted_one(shift: u32)
    requires
        shift < 127,
    ensures
        (1u128 << shift) == pow2(shift as nat),
    decreases shift,
{
    if shift == 0 {
        assert(1u128 << 0u32 == 1) by (bit_vector);
        lemma2_to64();
    } else {
        let less = (shift - 1) as u32;
        lemma_shifted_one(less);
        assert((1u128 << shift) == 2 * (1u128 << less)) by (bit_vector)
            requires
                0 < shift < 127,
                less == shift - 1,
        ;
        lemma_pow2_unfold(shift as nat);
    }
}

/// Scaling both sides of a comparison by the same power of two changes nothing.
proof fn lemma_common_scale(a: nat, b: nat, low: nat, extra: nat)
    ensures
        a * pow2(low + extra) >= b * pow2(low) <==> a * pow2(extra) >= b,
        a * pow2(low) >= b * pow2(low + extra) <==> a >= b * pow2(extra),
{
    lemma_pow2_adds(low, extra);
    lemma_pow2_pos(low);
    let p = pow2(low);
    let q = pow2(extra);
    assert(a * (p * q) >= b * p <==> a * q >= b) by (nonlinear_arith)
        requires
            p > 0,
    ;
    assert(a * p >= b * (p * q) <==> a >= b * q) by (nonlinear_arith)
        requires
            p > 0,
    ;
}

/// Two to the power `shift`.
fn power_of_two(shift: u32) -> (power: u128)
    requires
        shift < 127,
    ensures
        power == pow2(shift as nat),
{
    proof {
        lemma_shifted_one(shift);
    }
    1u128 << shift
}

/// Whether `a` times two to the `xa` is at least `b` times two to the `xb`.
///
/// The larger exponent is reduced to the difference of the two. A difference
/// of 48 or more decides the comparison by itself, since both factors are
/// below two to the 48; a smaller one leaves a product below two to the 96.
fn scaled_at_least(a: u64, xa: u32, b: u64, xb: u32) -> (yes: bool)
    requires
        a < 0x1_0000_0000_0000,
        b < 0x1_0000_0000_0000,
    ensures
        yes <==> a * pow2(xa as nat) >= b * pow2(xb as nat),
{
    proof {
        lemma2_to64_rest();
    }
    if xa >= xb {
        let extra = xa - xb;
        proof {
            lemma_common_scale(a as nat, b as nat, xb as nat, extra as nat);
        }
        if extra >= 48 {
            proof {
                if extra > 48 {
                    lemma_pow2_strictly_increases(48, extra as nat);
                }
                if a > 0 {
                    lemma_mul_inequality(1, a as int, pow2(extra as nat) as int);
                }
                lemma_mul_basics(pow2(extra as nat) as int);
            }
            a > 0 || b == 0
        } else {
            let power = power_of_two(extra);
            proof {
                lemma_pow2_strictly_increases(extra as nat, 48);
                lemma_mul_upper_bound(a as int, 0x1_0000_0000_0000, power as int, 0x1_0000_0000_0000);
            }
            (a as u128) * power >= b as u128
        }
    } else {
        let extra = xb - xa;
        proof {
            lemma_common_scale(a as nat, b as nat, xa as nat, extra as nat);
        }
        if extra >= 48 {
            proof {
                if extra > 48 {
                    lemma_pow2_strictly_increases(48, extra as nat);
                }
                if b > 0 {
                    lemma_mul_inequality(1, b as int, pow2(extra as nat) as int);
                }
                lemma_mul_basics(pow2(extra as nat) as int);
            }
            b == 0
        } else {
            let power = power_of_two(extra);
            proof {
                lemma_pow2_strictly_increases(extra as nat, 48);
                lemma_mul_upper_bound(b as int, 0x1_0000_0000_0000, power as int, 0x1_0000_0000_0000);
            }
            a as u128 >= (b as u128) * power
        }
    }
}

/// A finite, non-negative binary32 value.
///
/// Negative values, infinities and not-a-number values have no `Score`: they
/// are turned away where a score is made. The view of a score is its value in
/// units of 2^-149.
#[derive(Clone, Copy, Debug)]
pub struct Score {
    bits: u32,
}

impl View for Score {
    type V = nat;

    closed spec fn view(&self) -> nat {
        units(self.bits)
    }
}

impl DeepView for Score {
    type V = nat;

    open spec fn deep_view(&self) -> nat {
        self@
    }
}

impl Score {
    #[verifier::type_invariant]
    spec fn finite(self) -> bool {
        self.bits < INFINITY_BITS
    }

    /// The score with the given bit pattern, if the pattern is that of a
    /// finite value not below zero. Negative zero gives the score zero.
    pub fn from_bits(bits: u32) -> (score: Option<Score>)
        ensures
            score.is_some() <==> encodes_score(bits),
            score matches Some(s) ==> s@ == units(bits),
    {
        if bits < INFINITY_BITS {
            Some(Score { bits })
        } else if bits == NEGATIVE_ZERO_BITS {
            let zero = Score { bits: 0 };
            assert(zero@ == 0 && units(bits) == 0) by {
                assert(significand(0) == 0);
                lemma_mul_basics(pow2(scale(0)) as int);
            }
            Some(zero)
        } else {
            None
        }
    }

    /// The bit pattern of the score, with the sign bit clear.
    pub fn to_bits(&self) -> (bits: u32)
        ensures
            bits < INFINITY_BITS,
            units(bits) == self@,
    {
        proof {
            use_type_invariant(self);
        }
        self.bits
    }

    /// Whether this score is at least `other`.
    pub fn at_least(&self, other: &Score) -> (yes: bool)
        ensures
            yes <==> self@ >= other@,
    {
        proof {
            use_type_invariant(self);
            use_type_invariant(other);
            lemma_units_order(other.bits, self.bits);
        }
        self.bits >= other.bits
    }

    /// The significand and the scale of the score.
    fn parts(&self) -> (parts: (u64, u32))
        ensures
            parts.0 == significand(self.bits),
            parts.1 == scale(self.bits),
            parts.0 < 0x100_0000,
            parts.1 <= 253,
            self@ == parts.0 * pow2(parts.1 as nat),
    {
        proof {
            use_type_invariant(self);
        }
        let exponent = self.bits / FRACTION_RADIX;
        let fraction = self.bits % FRACTION_RADIX;
        if exponent == 0 {
            (fraction as u64, 0)
        } else {
            ((FRACTION_RADIX + fraction) as u64, exponent - 1)
        }
    }

    /// Whether this score is at least `alpha` times `peak`.
    ///
    /// The product is taken exactly: it is not rounded to a binary32 value
    /// before the comparison.
    pub fn clears(&self, alpha: &Score, peak: &Score) -> (yes: bool)
        ensures
            yes <==> self@ * one() >= alpha@ * peak@,
    {
        let (sv, xv) = self.parts();
        let (sa, xa) = alpha.parts();
        let (sp, xp) = peak.parts();
        proof {
            assert(sa * sp < 0x1_0000_0000_0000) by (nonlinear_arith)
                requires
                    sa < 0x100_0000,
                    sp < 0x100_0000,
            ;
            lemma_pow2_adds(xv as nat, 149);
            lemma_pow2_adds(xa as nat, xp as nat);
            let (pv, pa, pp) = (pow2(xv as nat), pow2(xa as nat), pow2(xp as nat));
            assert((sv * pv) * one() == sv * (pv * one())) by (nonlinear_arith);
            assert((sa * pa) * (sp * pp) == (sa * sp) * (pa * pp)) by (nonlinear_arith);
        }
        scaled_at_least(sv, xv + 149, sa * sp, xa + xp)
    }
}

} // verus!
