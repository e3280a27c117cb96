//! Fixed-point codes of samples.
//!
//! A code of `n` bits counts steps of 2^-(n-1). A sample above zero is
//! counted from zero, a sample at or below zero from 2 below it, so that the
//! samples from -1 up to 0 take the upper half of the codes and those above
//! 0 up to 1 the lower half. The sum and the quotient are those of single
//! precision, and the conversion to an unsigned integer drops the fraction
//! and saturates.
use vstd::prelude::*;
use vstd::arithmetic::power2::pow2;
use vstd::arithmetic::power2::lemma_pow2_pos;
use vstd::arithmetic::power2::lemma_pow2_adds;
use vstd::arithmetic::power2::lemma_pow2_unfold;
use vstd::arithmetic::power2::lemma_pow2_strictly_increases;
use vstd::arithmetic::power2::lemma2_to64;
use vstd::arithmetic::power2::lemma2_to64_rest;
use vstd::arithmetic::div_mod::lemma_div_by_multiple;
use vstd::arithmetic::div_mod::lemma_div_multiples_vanish_quotient;
use vstd::arithmetic::div_mod::lemma_basic_div;
use vstd::arithmetic::div_mod::lemma_div_is_ordered;
use vstd::arithmetic::div_mod::lemma_fundamental_div_mod;
use vstd::arithmetic::div_mod::lemma_fundamental_div_mod_converse;
use vstd::arithmetic::div_mod::lemma_mod_bound;
use vstd::arithmetic::div_mod::lemma_multiply_divide_lt;
use vstd::arithmetic::mul::lemma_mul_inequality;
use vstd::arithmetic::mul::lemma_mul_strict_inequality;
use vstd::bits::lemma_u64_shl_is_mul;
use crate::single::Single;
use crate::single::two;
use crate::single::one;
use crate::single::round;
use crate::single::round_half_even;
use crate::single::lemma_round_exact;
use crate::single::lemma_ulp_in_binade;
use crate::single::lemma_round_half_even_scales;

verus! {

/// The step of a code of `n` bits, 2^-(n-1), in units of 2^-149.
pub open spec fn step(n: nat) -> nat {
    pow2((150 - n) as nat)
}

/// The greatest code of `n` bits.
pub open spec fn top(n: nat) -> nat {
    (pow2(n) - 1) as nat
}

/// `q`, or `cap` where `q` is beyond it.
pub open spec fn at_most(q: nat, cap: nat) -> nat {
    if q <= cap {
        q
    } else {
        cap
    }
}

/// `q`, or the greatest code where `q` is beyond it.
pub open spec fn saturated(q: nat, n: nat) -> nat {
    at_most(q, top(n))
}

/// The magnitude of the sum of 2 and a finite `x` that is not above zero,
/// as single precision rounds it; 0 where the sum is not above zero.
pub open spec fn two_plus(x: Single) -> nat {
    if x.magnitude() >= two() {
        0
    } else {
        round((two() - x.magnitude()) as nat)
    }
}

/// The code of `n` bits of the sample `x`. Of a sample above zero it is the
/// number of whole steps in the sample, and one less where that number is
/// the first code of the upper half. Of a sample at or below zero it is the
/// number of whole steps in the sum of 2 and the sample. Either number is
/// cut at the greatest code. A sample that is no number has the code 0, and
/// so has negative infinity.
pub open spec fn fixed(x: Single, n: nat) -> nat {
    if x.is_positive() {
        let q = if x.is_infinite() {
            top(n)
        } else {
            saturated(x.magnitude() / step(n), n)
        };
        if q == pow2((n - 1) as nat) {
            (q - 1) as nat
        } else {
            q
        }
    } else if !x.is_finite() {
        0
    } else {
        saturated(two_plus(x) / step(n), n)
    }
}

/// The quotient of `sig * 2^g` by `2^shift`, or `cap` where the quotient is
/// beyond it.
fn scaled(sig: u64, g: u32, shift: u32, cap: u64) -> (r: u64)
    requires
        sig <= 0x100_0000,
        g < 256,
        shift < 256,
        cap < 0x1_0000_0000,
    ensures
        r == at_most((sig as nat * pow2(g as nat)) / pow2(shift as nat), cap as nat),
{
    let ghost whole: nat = sig as nat * pow2(g as nat);
    let ghost quotient: nat = whole / pow2(shift as nat);
    proof {
        lemma2_to64();
        lemma_pow2_pos(g as nat);
        lemma_pow2_pos(shift as nat);
    }
    if sig == 0 {
        proof {
            assert(whole == 0) by (nonlinear_arith)
                requires
                    whole == sig * pow2(g as nat),
                    sig == 0,
            ;
        }
        0
    } else if g >= shift {
        let k: u32 = g - shift;
        proof {
            lemma_pow2_adds(k as nat, shift as nat);
            lemma_pow2_pos(k as nat);
            assert(whole == (sig * pow2(k as nat)) * pow2(shift as nat)) by (nonlinear_arith)
                requires
                    whole == sig * pow2(g as nat),
                    pow2(g as nat) == pow2(k as nat) * pow2(shift as nat),
            ;
            lemma_div_by_multiple((sig * pow2(k as nat)) as int, pow2(shift as nat) as int);
            assert(quotient == sig * pow2(k as nat));
        }
        if k >= 32 {
            proof {
                if k > 32 {
                    lemma_pow2_strictly_increases(32, k as nat);
                }
                assert(sig * pow2(k as nat) >= pow2(32)) by (nonlinear_arith)
                    requires
                        sig >= 1,
                        pow2(k as nat) >= pow2(32),
                ;
            }
            cap
        } else {
            proof {
                lemma_pow2_strictly_increases(k as nat, 32);
                assert(sig * pow2(k as nat) <= 0x100_0000 * 0x1_0000_0000) by (nonlinear_arith)
                    requires
                        sig <= 0x100_0000,
                        pow2(k as nat) <= 0x1_0000_0000,
                ;
                lemma_u64_shl_is_mul(sig, k as u64);
            }
            let v: u64 = sig << (k as u64);
            if v > cap {
                cap
            } else {
                v
            }
        }
    } else {
        let k: u32 = shift - g;
        proof {
            lemma_pow2_adds(g as nat, k as nat);
            lemma_pow2_pos(k as nat);
            assert(whole == pow2(g as nat) * sig) by (nonlinear_arith)
                requires
                    whole == sig * pow2(g as nat),
            ;
            lemma_div_multiples_vanish_quotient(
                pow2(g as nat) as int,
                sig as int,
                pow2(k as nat) as int,
            );
            assert(quotient == sig as nat / pow2(k as nat));
        }
        if k >= 25 {
            proof {
                if k > 25 {
                    lemma_pow2_strictly_increases(25, k as nat);
                }
                lemma_basic_div(sig as int, pow2(k as nat) as int);
            }
            0
        } else {
            proof {
                lemma_pow2_strictly_increases(k as nat, 25);
                lemma_u64_shl_is_mul(1, k as u64);
            }
            let unit: u64 = 1u64 << (k as u64);
            let v: u64 = sig / unit;
            if v > cap {
                cap
            } else {
                v
            }
        }
    }
}

/// The quotient of `d` by `2^k`, rounded to the nearest whole number and,
/// of two equally near, to the even one.
pub(crate) fn rounded_quotient(d: u64, k: u32) -> (r: u64)
    requires
        k <= 24,
        d <= 0x1_0000_0000_0000,
    ensures
        r * pow2(k as nat) == round_half_even(d as nat, pow2(k as nat)),
        r <= d as nat / pow2(k as nat) + 1,
{
    proof {
        lemma2_to64();
        lemma_pow2_pos(k as nat);
        lemma_pow2_strictly_increases(k as nat, 25);
        lemma_u64_shl_is_mul(1, k as u64);
    }
    let unit: u64 = 1u64 << (k as u64);
    let q: u64 = d / unit;
    let low: u64 = d % unit;
    if 2 * low < unit || (2 * low == unit && q % 2 == 0) {
        q
    } else {
        q + 1
    }
}

/// Just below 2 the sum rounds up to 2: a magnitude of at most 2^-24 is
/// lost in the sum of 2 and its negative.
pub proof fn lemma_two_absorbs(m: nat)
    requires
        0 < m <= pow2(125),
    ensures
        round((two() - m) as nat) == two(),
{
    let d = (two() - m) as nat;
    let u = pow2(126);
    lemma2_to64();
    lemma_pow2_pos(125);
    lemma_pow2_unfold(126);
    lemma_pow2_unfold(150);
    lemma_pow2_adds(24, 126);
    lemma_pow2_adds(23, 126);
    assert(pow2(149) == 0x80_0000 * u);
    assert(pow2(150) == 0x100_0000 * u);
    lemma_ulp_in_binade(d, 126);
    lemma_fundamental_div_mod_converse(d as int, u as int, 0xff_ffff, (u - m) as int);
}

/// The sum of 2 and the negative of `sig * 2^(126-k)`, a magnitude from
/// 2^-k up to twice that: its rounding is that of `2^(24+k) - sig` to a
/// multiple of `2^k`.
pub proof fn lemma_two_minus(sig: nat, k: nat, r: nat)
    requires
        0x80_0000 <= sig < 0x100_0000,
        k <= 24,
        r * pow2(k) == round_half_even((pow2(24 + k) - sig) as nat, pow2(k)),
    ensures
        sig * pow2((126 - k) as nat) < two(),
        round((two() - sig * pow2((126 - k) as nat)) as nat) == r * pow2(126),
{
    let g = (126 - k) as nat;
    let dk = (pow2(24 + k) - sig) as nat;
    let d = (two() - sig * pow2(g)) as nat;
    lemma2_to64();
    lemma_pow2_pos(g);
    lemma_pow2_pos(k);
    lemma_pow2_adds(24 + k, g);
    lemma_pow2_adds(k, g);
    if k > 0 {
        lemma_pow2_strictly_increases(24, 24 + k);
    }
    assert(pow2(24 + k) >= 0x100_0000);
    assert(d == dk * pow2(g) && sig * pow2(g) < two()) by (nonlinear_arith)
        requires
            two() == pow2(24 + k) * pow2(g),
            sig < pow2(24 + k),
            pow2(g) > 0,
            dk == pow2(24 + k) - sig,
            d == (two() - sig * pow2(g)) as nat,
    ;
    if k == 0 {
        assert(round_half_even(dk, 1) == dk);
        assert(r == dk) by (nonlinear_arith)
            requires
                r * pow2(k) == dk,
                pow2(k) == 1,
        ;
        lemma_round_exact(dk, g);
    } else {
        lemma_pow2_unfold(24 + k);
        lemma_pow2_adds(23 + k, g);
        if k > 1 {
            lemma_pow2_strictly_increases(24, 23 + k);
        }
        assert(pow2(23 + k) <= dk < pow2(24 + k));
        lemma_mul_inequality(pow2(23 + k) as int, dk as int, pow2(g) as int);
        lemma_mul_strict_inequality(dk as int, pow2(24 + k) as int, pow2(g) as int);
        lemma_ulp_in_binade(d, 126);
        lemma_round_half_even_scales(dk, pow2(k), pow2(g));
        assert(r * pow2(126) == (r * pow2(k)) * pow2(g)) by (nonlinear_arith)
            requires
                pow2(126) == pow2(k) * pow2(g),
        ;
    }
}

/// The sum of 2 and a sample from -2 up to 0 that is a whole multiple of
/// 2^-23 is not rounded.
pub proof fn lemma_sum_exact(x: Single)
    requires
        x.magnitude() <= two(),
        x.magnitude() % pow2(126) == 0,
    ensures
        two_plus(x) == two() - x.magnitude(),
{
    let m = x.magnitude();
    let u = pow2(126);
    let d = (two() - m) as nat;
    lemma2_to64();
    lemma_pow2_pos(126);
    lemma_pow2_adds(24, 126);
    lemma_fundamental_div_mod(m as int, u as int);
    assert(m / u <= 0x100_0000) by (nonlinear_arith)
        requires
            m == u * (m / u),
            two() == 0x100_0000 * u,
            m <= two(),
            u > 0,
    ;
    let c = (0x100_0000 - m / u) as nat;
    assert(d == c * u) by (nonlinear_arith)
        requires
            m == u * (m / u),
            two() == 0x100_0000 * u,
            d == two() - m,
            c == 0x100_0000 - m / u,
    ;
    if m == 0 {
        lemma_round_exact(1, 150);
        assert(1 * pow2(150) == pow2(150));
    } else if m < two() {
        assert(c < 0x100_0000) by (nonlinear_arith)
            requires
                m == u * (m / u),
                m > 0,
                u > 0,
                c == 0x100_0000 - m / u,
        ;
        lemma_round_exact(c, 126);
    }
}

/// Every code fits its `n` bits.
pub proof fn lemma_fixed_fits(x: Single, n: nat)
    requires
        n >= 1,
    ensures
        fixed(x, n) <= top(n),
{
    lemma_pow2_pos(n);
    lemma_pow2_pos((n - 1) as nat);
    lemma_pow2_strictly_increases((n - 1) as nat, n);
    if x.is_positive() {
        let q = if x.is_infinite() {
            top(n)
        } else {
            saturated(x.magnitude() / step(n), n)
        };
        assert(q <= top(n));
    } else if x.is_finite() {
        assert(saturated(two_plus(x) / step(n), n) <= top(n));
    }
}

/// A sample above 0 and up to 1 takes a code of the lower half: the number
/// of whole steps in it, and the last code of that half for the sample 1.
pub proof fn lemma_lower_half(x: Single, n: nat)
    requires
        1 <= n <= 150,
        x.is_positive(),
        x.is_finite(),
        x.magnitude() <= one(),
    ensures
        fixed(x, n) == at_most(x.magnitude() / step(n), (pow2((n - 1) as nat) - 1) as nat),
        fixed(x, n) < pow2((n - 1) as nat),
{
    let half = pow2((n - 1) as nat);
    lemma_pow2_pos((150 - n) as nat);
    lemma_pow2_pos((n - 1) as nat);
    lemma_pow2_strictly_increases((n - 1) as nat, n);
    lemma_pow2_adds((n - 1) as nat, (150 - n) as nat);
    lemma_div_by_multiple(half as int, step(n) as int);
    lemma_div_is_ordered(x.magnitude() as int, one() as int, step(n) as int);
}

/// A sample from -1 up to 0 takes a code of the upper half.
pub proof fn lemma_upper_half(x: Single, n: nat)
    requires
        1 <= n <= 150,
        !x.is_positive(),
        x.is_finite(),
        x.magnitude() <= one(),
    ensures
        pow2((n - 1) as nat) <= fixed(x, n) <= top(n),
{
    let half = pow2((n - 1) as nat);
    let m = x.magnitude();
    let d = (two() - m) as nat;
    let u = pow2(126);
    lemma_fixed_fits(x, n);
    lemma_pow2_pos((150 - n) as nat);
    lemma_pow2_pos(126);
    lemma_pow2_strictly_increases((n - 1) as nat, n);
    lemma_pow2_adds((n - 1) as nat, (150 - n) as nat);
    lemma_pow2_unfold(150);
    lemma_pow2_adds(23, 126);
    lemma_div_by_multiple(half as int, step(n) as int);
    assert(one() <= d <= two());
    assert(round(d) >= one()) by {
        if d == two() {
            lemma_round_exact(1, 150);
            assert(1 * pow2(150) == pow2(150));
        } else {
            lemma2_to64();
            lemma_ulp_in_binade(d, 126);
            lemma_fundamental_div_mod(d as int, u as int);
            lemma_mod_bound(d as int, u as int);
            let q = d / u;
            assert(q >= 0x80_0000) by (nonlinear_arith)
                requires
                    d == u * q + d % u,
                    0 <= d % u < u,
                    d >= 0x80_0000 * u,
            ;
            assert(q * u >= one() && (q + 1) * u >= one()) by (nonlinear_arith)
                requires
                    q >= 0x80_0000,
                    one() == 0x80_0000 * u,
                    u > 0,
            ;
        }
    }
    lemma_div_is_ordered(one() as int, round(d) as int, step(n) as int);
}

/// Computes the code of 16 or of 32 bits of the sample `x`.
pub(crate) fn encode(x: Single, n: u32) -> (q: u64)
    requires
        n == 16 || n == 32,
    ensures
        q == fixed(x, n as nat),
        q <= top(n as nat),
{
    let bits: u32 = x.to_bits();
    let e: u32 = (bits / 0x80_0000) % 0x100;
    let f: u32 = bits % 0x80_0000;
    let cap: u64 = if n == 16 {
        0xffff
    } else {
        0xffff_ffff
    };
    let half: u64 = if n == 16 {
        0x8000
    } else {
        0x8000_0000
    };
    let shift: u32 = 150 - n;
    let sig: u64 = if e == 0 {
        f as u64
    } else {
        0x80_0000 + f as u64
    };
    let g: u32 = if e == 0 {
        0
    } else {
        e - 1
    };
    proof {
        lemma2_to64();
        assert(cap == top(n as nat));
        assert(half == pow2((n - 1) as nat));
        assert(sig == x.significand());
        assert(g == x.scale());
        assert(e == x.exponent());
        assert(f == x.fraction());
    }
    if bits < 0x8000_0000 && (e == 255 && f == 0 || e < 255 && sig > 0) {
        let q: u64 = if e == 255 {
            cap
        } else {
            scaled(sig, g, shift, cap)
        };
        if q == half {
            q - 1
        } else {
            q
        }
    } else if e == 255 {
        0
    } else if e >= 128 {
        proof {
            lemma_pow2_adds(23, 127);
            if g > 127 {
                lemma_pow2_strictly_increases(127, g as nat);
            }
            assert(x.magnitude() >= two()) by (nonlinear_arith)
                requires
                    x.magnitude() == sig as nat * pow2(g as nat),
                    sig >= 0x80_0000,
                    pow2(g as nat) >= pow2(127),
                    two() == 0x80_0000 * pow2(127),
            ;
            lemma_pow2_pos((150 - n) as nat);
            lemma_basic_div(0, step(n as nat) as int);
        }
        0
    } else {
        let r: u64 = if e <= 102 {
            proof {
                let m = x.magnitude();
                if sig == 0 {
                    assert(m == 0) by (nonlinear_arith)
                        requires
                            m == sig as nat * pow2(g as nat),
                            sig == 0,
                    ;
                    lemma_round_exact(1, 150);
                    assert(1 * pow2(150) == pow2(150));
                } else {
                    lemma_pow2_adds(24, 101);
                    lemma_pow2_pos(g as nat);
                    if g < 101 {
                        lemma_pow2_strictly_increases(g as nat, 101);
                    }
                    assert(0 < m < pow2(125)) by (nonlinear_arith)
                        requires
                            m == sig as nat * pow2(g as nat),
                            0 < sig < 0x100_0000,
                            0 < pow2(g as nat) <= pow2(101),
                            pow2(125) == 0x100_0000 * pow2(101),
                    ;
                    lemma_pow2_strictly_increases(125, 150);
                    lemma_two_absorbs(m);
                }
                lemma_pow2_adds(24, 126);
            }
            0x100_0000
        } else {
            let k: u32 = 127 - e;
            proof {
                lemma2_to64_rest();
                lemma_pow2_strictly_increases((24 + k) as nat, 49);
                lemma_pow2_pos((24 + k) as nat);
                lemma_u64_shl_is_mul(1, (24 + k) as u64);
                if k > 0 {
                    lemma_pow2_strictly_increases(24, (24 + k) as nat);
                }
            }
            let d: u64 = (1u64 << ((24 + k) as u64)) - sig;
            let r: u64 = rounded_quotient(d, k);
            proof {
                lemma_pow2_pos(k as nat);
                lemma_pow2_adds(24, k as nat);
                lemma_multiply_divide_lt(d as int, pow2(k as nat) as int, 0x100_0000);
                lemma_two_minus(sig as nat, k as nat, r as nat);
            }
            r
        };
        proof {
            assert(two_plus(x) == r as nat * pow2(126));
        }
        scaled(r, 126, shift, cap)
    }
}

} // verus!
