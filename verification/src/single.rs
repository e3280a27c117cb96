//! Single-precision binary floating-point numbers, as IEEE 754 lays them
//! out in 32 bits, read with integer arithmetic alone.
//!
//! Every finite number of the format is a whole multiple of 2^-149. That
//! multiple, the magnitude, stands for the number's absolute value here, so
//! that what is said of a number is said of an integer.
use vstd::prelude::*;
use vstd::arithmetic::power2::pow2;
use vstd::arithmetic::power2::lemma_pow2_pos;
use vstd::arithmetic::power2::lemma_pow2_unfold;
use vstd::arithmetic::power2::lemma_pow2_adds;
use vstd::arithmetic::power2::lemma_pow2_strictly_increases;
use vstd::arithmetic::power2::lemma2_to64;

verus! {

/// A number in single precision, held as its 32 bits: one bit of sign,
/// eight of exponent, twenty-three of fraction.
#[derive(Clone, Copy, Debug, PartialEq, Eq, Structural)]
pub struct Single {
    pub bits: u32,
}

/// The magnitude of 1.
pub open spec fn one() -> nat {
    pow2(149)
}

/// The magnitude of 2.
pub open spec fn two() -> nat {
    pow2(150)
}

impl Single {
    /// The sign bit is set.
    pub open spec fn sign(self) -> bool {
        self.bits >= 0x8000_0000
    }

    /// The eight bits of the exponent.
    pub open spec fn exponent(self) -> nat {
        ((self.bits / 0x80_0000) % 0x100) as nat
    }

    /// The twenty-three bits of the fraction.
    pub open spec fn fraction(self) -> nat {
        (self.bits % 0x80_0000) as nat
    }

    /// Neither an infinity nor a NaN.
    pub open spec fn is_finite(self) -> bool {
        self.exponent() < 255
    }

    pub open spec fn is_infinite(self) -> bool {
        self.exponent() == 255 && self.fraction() == 0
    }

    pub open spec fn is_nan(self) -> bool {
        self.exponent() == 255 && self.fraction() != 0
    }

    /// The significand: the fraction, with the hidden bit in front of it
    /// unless the number is subnormal.
    pub open spec fn significand(self) -> nat {
        if self.exponent() == 0 {
            self.fraction()
        } else {
            0x80_0000 + self.fraction()
        }
    }

    /// The power of two, in units of 2^-149, that the significand counts.
    pub open spec fn scale(self) -> nat {
        if self.exponent() == 0 {
            0
        } else {
            (self.exponent() - 1) as nat
        }
    }

    /// The absolute value of a finite number, in units of 2^-149.
    pub open spec fn magnitude(self) -> nat {
        self.significand() * pow2(self.scale())
    }

    /// Greater than zero: a positive number or positive infinity.
    pub open spec fn is_positive(self) -> bool {
        !self.sign() && !self.is_nan() && (self.is_infinite() || self.significand() > 0)
    }

    /// Positive, finite and not subnormal.
    pub open spec fn is_positive_normal(self) -> bool {
        !self.sign() && 0 < self.exponent() < 255
    }

    pub fn from_bits(bits: u32) -> (x: Single)
        ensures
            x.bits == bits,
    {
        Single { bits }
    }

    pub fn to_bits(self) -> (bits: u32)
        ensures
            bits == self.bits,
    {
        self.bits
    }

    /// Tells whether the number is positive, finite and not subnormal.
    pub fn positive_normal(self) -> (r: bool)
        ensures
            r == self.is_positive_normal(),
    {
        0x80_0000 <= self.bits && self.bits < 0x7f80_0000
    }
}

/// The distance between neighbours of the format around `d`: the power of
/// two that leaves `d` twenty-four significant bits.
pub open spec fn ulp(d: nat) -> nat
    decreases d,
{
    if d < 0x100_0000 {
        1
    } else {
        2 * ulp(d / 2)
    }
}

/// The multiple of `u` nearest to `d`; of two equally near, the even one.
pub open spec fn round_half_even(d: nat, u: nat) -> nat {
    let q = d / u;
    let r = d % u;
    if 2 * r < u || (2 * r == u && q % 2 == 0) {
        q * u
    } else {
        (q + 1) * u
    }
}

/// The magnitude of the format nearest to `d`, as its arithmetic rounds.
pub open spec fn round(d: nat) -> nat {
    round_half_even(d, ulp(d))
}

/// Between 2^(23+j) and 2^(24+j) neighbours lie 2^j apart.
pub proof fn lemma_ulp_in_binade(d: nat, j: nat)
    requires
        pow2(23 + j) <= d < pow2(24 + j),
    ensures
        ulp(d) == pow2(j),
    decreases j,
{
    lemma2_to64();
    if j == 0 {
    } else {
        lemma_pow2_unfold(23 + j);
        lemma_pow2_unfold(24 + j);
        lemma_pow2_unfold(j);
        if j > 1 {
            lemma_pow2_strictly_increases(24, 23 + j);
        }
        lemma_ulp_in_binade(d / 2, (j - 1) as nat);
    }
}

/// Around a multiple `c * 2^j` with `c` of at most twenty-four bits,
/// neighbours lie no further apart than 2^j, and by a power of two.
pub proof fn lemma_ulp_of_multiple(c: nat, j: nat) -> (i: nat)
    requires
        c < 0x100_0000,
    ensures
        i <= j,
        ulp(c * pow2(j)) == pow2(i),
    decreases j,
{
    lemma2_to64();
    let d = c * pow2(j);
    if d < 0x100_0000 {
        0
    } else {
        if j == 0 {
            assert(d == c) by (nonlinear_arith)
                requires
                    d == c * pow2(j),
                    pow2(j) == 1,
            ;
        }
        lemma_pow2_unfold(j);
        assert(d == 2 * (c * pow2((j - 1) as nat))) by (nonlinear_arith)
            requires
                d == c * pow2(j),
                pow2(j) == 2 * pow2((j - 1) as nat),
        ;
        let i = lemma_ulp_of_multiple(c, (j - 1) as nat);
        lemma_pow2_unfold(i + 1);
        i + 1
    }
}

/// A number of at most twenty-four significant bits is not rounded.
pub proof fn lemma_round_exact(c: nat, j: nat)
    requires
        c < 0x100_0000,
    ensures
        round(c * pow2(j)) == c * pow2(j),
{
    let d = c * pow2(j);
    let i = lemma_ulp_of_multiple(c, j);
    let u = pow2(i);
    lemma_pow2_pos(i);
    lemma_pow2_adds((j - i) as nat, i);
    let m = c * pow2((j - i) as nat);
    assert(d == m * u) by (nonlinear_arith)
        requires
            d == c * pow2(j),
            pow2(j) == pow2((j - i) as nat) * u,
            m == c * pow2((j - i) as nat),
    ;
    vstd::arithmetic::div_mod::lemma_fundamental_div_mod_converse(d as int, u as int, m as int, 0);
}

/// Rounding keeps a common factor of the number and the distance.
pub proof fn lemma_round_half_even_scales(c: nat, u: nat, s: nat)
    requires
        u > 0,
        s > 0,
    ensures
        round_half_even(c * s, u * s) == round_half_even(c, u) * s,
{
    let q = c / u;
    let r = c % u;
    vstd::arithmetic::div_mod::lemma_fundamental_div_mod(c as int, u as int);
    vstd::arithmetic::div_mod::lemma_mod_bound(c as int, u as int);
    assert(u * s > 0) by (nonlinear_arith)
        requires
            u > 0,
            s > 0,
    ;
    assert(c * s == q * (u * s) + r * s && 0 <= r * s < u * s) by (nonlinear_arith)
        requires
            c == u * q + r,
            0 <= r < u,
            s > 0,
    ;
    vstd::arithmetic::div_mod::lemma_fundamental_div_mod_converse(
        (c * s) as int,
        (u * s) as int,
        q as int,
        (r * s) as int,
    );
    assert((c * s) / (u * s) == q);
    assert((c * s) % (u * s) == r * s);
    assert((2 * (r * s) < u * s) == (2 * r < u) && (2 * (r * s) == u * s) == (2 * r == u))
        by (nonlinear_arith)
        requires
            s > 0,
    ;
    assert(q * (u * s) == (q * u) * s && (q + 1) * (u * s) == ((q + 1) * u) * s)
        by (nonlinear_arith);
}

} // verus!
