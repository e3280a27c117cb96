//! The number of samples that a time holds at a sampling rate: their
//! product as single precision forms it, rounded to the nearest whole number.
use vstd::prelude::*;
use vstd::arithmetic::power2::pow2;
use vstd::arithmetic::power2::lemma_pow2_pos;
use vstd::arithmetic::power2::lemma_pow2_adds;
use vstd::arithmetic::power2::lemma_pow2_unfold;
use vstd::arithmetic::power2::lemma_pow2_strictly_increases;
use vstd::arithmetic::power2::lemma2_to64;
use vstd::arithmetic::power2::lemma2_to64_rest;
use vstd::arithmetic::div_mod::lemma_basic_div;
use vstd::arithmetic::div_mod::lemma_div_denominator;
use vstd::arithmetic::div_mod::lemma_div_multiples_vanish_fancy;
use vstd::arithmetic::div_mod::lemma_div_multiples_vanish_quotient;
use vstd::arithmetic::div_mod::lemma_fundamental_div_mod;
use vstd::arithmetic::div_mod::lemma_fundamental_div_mod_converse;
use vstd::arithmetic::div_mod::lemma_mod_bound;
use vstd::arithmetic::div_mod::lemma_multiply_divide_lt;
use vstd::bits::lemma_u64_shl_is_mul;
use vstd::bits::lemma_u64_mul_pow2_le_max_iff_max_shr;
use crate::single::Single;
use crate::single::round_half_even;
use crate::single::ulp;
use crate::single::lemma_ulp_in_binade;
use crate::single::lemma_ulp_of_multiple;
use crate::single::lemma_round_half_even_scales;
use crate::fixed::at_most;
use crate::fixed::rounded_quotient;

verus! {

/// The distance between neighbours of the format around a product `e`, in
/// units of 2^-298: the one that leaves twenty-four significant bits, but
/// not less than the least distance of the format, 2^-149.
pub open spec fn spacing(e: nat) -> nat {
    if ulp(e) >= pow2(149) {
        ulp(e)
    } else {
        pow2(149)
    }
}

/// The magnitude of the product of two finite numbers as single precision
/// rounds it, in units of 2^-298.
pub open spec fn product(a: Single, b: Single) -> nat {
    let e = a.magnitude() * b.magnitude();
    round_half_even(e, spacing(e))
}

/// The whole number nearest to the magnitude `p`, which is in units of
/// 2^-298; of two equally near, the greater.
pub open spec fn nearest_whole(p: nat) -> nat {
    (p + pow2(297)) / pow2(298)
}

/// The number of samples in `time` seconds at `rate` samples a second, at
/// most `limit`: none where the product is no number or is below zero.
pub open spec fn samples(rate: Single, time: Single, limit: nat) -> nat {
    if rate.is_nan() || time.is_nan() {
        0
    } else if rate.sign() != time.sign() {
        0
    } else if rate.is_infinite() || time.is_infinite() {
        if rate.significand() == 0 || time.significand() == 0 {
            0
        } else {
            limit
        }
    } else {
        at_most(nearest_whole(product(rate, time)), limit)
    }
}

/// The distance between neighbours is a power of two, and above 1 only
/// from 2^24 on.
pub proof fn lemma_ulp_is_power(d: nat) -> (j: nat)
    ensures
        ulp(d) == pow2(j),
        j == 0 || pow2(23 + j) <= d,
    decreases d,
{
    lemma2_to64();
    if d < 0x100_0000 {
        0
    } else {
        let j = lemma_ulp_is_power(d / 2);
        lemma_pow2_unfold(j + 1);
        lemma_pow2_unfold(23 + j + 1);
        j + 1
    }
}

/// Rounding does not pass a multiple of the distance.
pub proof fn lemma_round_half_even_below(e: nat, u: nat, bound: nat)
    requires
        u > 0,
        bound % u == 0,
        e <= bound,
    ensures
        round_half_even(e, u) <= bound,
{
    let q = e / u;
    let c = bound / u;
    lemma_fundamental_div_mod(e as int, u as int);
    lemma_fundamental_div_mod(bound as int, u as int);
    lemma_mod_bound(e as int, u as int);
    assert(q <= c && (q < c ==> (q + 1) * u <= bound) && q * u <= bound) by (nonlinear_arith)
        requires
            e == u * q + e % u,
            0 <= e % u < u,
            bound == u * c,
            e <= bound,
    ;
    if q == c {
        assert(e % u == 0) by (nonlinear_arith)
            requires
                e == u * q + e % u,
                0 <= e % u,
                bound == u * q,
                e <= bound,
        ;
    }
}

/// A product below a quarter rounds to no more than a quarter.
proof fn lemma_small_product(e: nat)
    requires
        e < pow2(296),
    ensures
        nearest_whole(round_half_even(e, spacing(e))) == 0,
{
    let j = lemma_ulp_is_power(e);
    if 23 + j >= 296 {
        if 23 + j > 296 {
            lemma_pow2_strictly_increases(296, 23 + j);
        }
        assert(false);
    }
    let i: nat = if j >= 149 {
        j
    } else {
        149
    };
    if j < 149 {
        lemma_pow2_strictly_increases(j, 149);
    } else if j > 149 {
        lemma_pow2_strictly_increases(149, j);
    }
    assert(spacing(e) == pow2(i));
    lemma_pow2_pos(i);
    lemma_pow2_adds((296 - i) as nat, i);
    lemma_fundamental_div_mod_converse(
        pow2(296) as int,
        pow2(i) as int,
        pow2((296 - i) as nat) as int,
        0,
    );
    lemma_round_half_even_below(e, pow2(i), pow2(296));
    lemma_pow2_unfold(297);
    lemma_pow2_unfold(298);
    lemma_basic_div((round_half_even(e, spacing(e)) + pow2(297)) as int, pow2(298) as int);
}

/// A product of at least a quarter is rounded to twenty-four significant
/// bits: with `s` in `sh` bits more than that, to the multiple of `2^sh`
/// nearest to `s`.
proof fn lemma_large_product(s: nat, g: nat, sh: nat, r: nat)
    requires
        0 < s < pow2(24 + sh),
        sh == 0 || pow2(23 + sh) <= s,
        sh + g >= 149,
        r * pow2(sh) == round_half_even(s, pow2(sh)),
    ensures
        round_half_even(s * pow2(g), spacing(s * pow2(g))) == r * pow2(sh + g),
{
    let e = s * pow2(g);
    lemma2_to64();
    lemma_pow2_pos(g);
    lemma_pow2_pos(sh);
    lemma_pow2_adds(sh, g);
    if sh == 0 {
        assert(round_half_even(s, 1) == s);
        assert(r == s) by (nonlinear_arith)
            requires
                r * pow2(sh) == s,
                pow2(sh) == 1,
        ;
        let i = lemma_ulp_of_multiple(s, g);
        let j: nat = if i >= 149 {
            i
        } else {
            149
        };
        if i < 149 {
            lemma_pow2_strictly_increases(i, 149);
        } else if i > 149 {
            lemma_pow2_strictly_increases(149, i);
        }
        assert(spacing(e) == pow2(j));
        lemma_pow2_pos(j);
        lemma_pow2_adds((g - j) as nat, j);
        let m = s * pow2((g - j) as nat);
        assert(e == m * pow2(j)) by (nonlinear_arith)
            requires
                e == s * pow2(g),
                pow2(g) == pow2((g - j) as nat) * pow2(j),
                m == s * pow2((g - j) as nat),
        ;
        lemma_fundamental_div_mod_converse(e as int, pow2(j) as int, m as int, 0);
    } else {
        lemma_pow2_adds(23 + sh, g);
        lemma_pow2_adds(24 + sh, g);
        assert(pow2(23 + sh + g) <= e < pow2(24 + sh + g)) by (nonlinear_arith)
            requires
                e == s * pow2(g),
                pow2(23 + sh) <= s < pow2(24 + sh),
                pow2(g) > 0,
                pow2(23 + sh + g) == pow2(23 + sh) * pow2(g),
                pow2(24 + sh + g) == pow2(24 + sh) * pow2(g),
        ;
        lemma_ulp_in_binade(e, sh + g);
        if sh + g > 149 {
            lemma_pow2_strictly_increases(149, sh + g);
        }
        assert(spacing(e) == pow2(sh + g));
        lemma_round_half_even_scales(s, pow2(sh), pow2(g));
        assert(r * pow2(sh + g) == (r * pow2(sh)) * pow2(g)) by (nonlinear_arith)
            requires
                pow2(sh + g) == pow2(sh) * pow2(g),
        ;
    }
}

/// The whole number nearest to the product `s * 2^g`, in units of 2^-298,
/// as single precision rounds it; at most the greatest number of 64 bits.
fn whole_product(s: u64, g: u32) -> (c: u64)
    requires
        s < 0x1_0000_0000_0000,
        g <= 1000,
    ensures
        c == at_most(
            nearest_whole(
                round_half_even(s as nat * pow2(g as nat), spacing(s as nat * pow2(g as nat))),
            ),
            u64::MAX as nat,
        ),
{
    let ghost e: nat = s as nat * pow2(g as nat);
    proof {
        lemma2_to64();
        lemma2_to64_rest();
        lemma_pow2_pos(g as nat);
    }
    let mut t: u64 = s;
    let mut sh: u32 = 0;
    while t >= 0x100_0000
        invariant
            sh <= 24,
            t == s as nat / pow2(sh as nat),
            s < pow2(48),
            t < pow2((48 - sh) as nat),
            sh == 0 || pow2((23 + sh) as nat) <= s,
        decreases t,
    {
        proof {
            lemma2_to64();
            lemma_pow2_pos(sh as nat);
            lemma_pow2_unfold((sh + 1) as nat);
            lemma_pow2_unfold((48 - sh) as nat);
            lemma_pow2_adds(24, sh as nat);
            lemma_div_denominator(s as int, pow2(sh as nat) as int, 2);
            lemma_fundamental_div_mod(s as int, pow2(sh as nat) as int);
            lemma_mod_bound(s as int, pow2(sh as nat) as int);
            assert(s >= 0x100_0000 * pow2(sh as nat)) by (nonlinear_arith)
                requires
                    s == pow2(sh as nat) * t + s as nat % pow2(sh as nat),
                    0 <= s as nat % pow2(sh as nat),
                    t >= 0x100_0000,
                    pow2(sh as nat) > 0,
            ;
            if sh >= 24 {
                assert(false);
            }
        }
        t = t / 2;
        sh = sh + 1;
    }
    proof {
        lemma_pow2_pos(sh as nat);
        lemma_pow2_adds(24, sh as nat);
        lemma_fundamental_div_mod(s as int, pow2(sh as nat) as int);
        lemma_mod_bound(s as int, pow2(sh as nat) as int);
        assert(s < pow2((24 + sh) as nat)) by (nonlinear_arith)
            requires
                s == pow2(sh as nat) * t + s as nat % pow2(sh as nat),
                s as nat % pow2(sh as nat) < pow2(sh as nat),
                t < 0x100_0000,
                pow2((24 + sh) as nat) == 0x100_0000 * pow2(sh as nat),
        ;
    }
    if s == 0 {
        proof {
            assert(e == 0) by (nonlinear_arith)
                requires
                    e == s as nat * pow2(g as nat),
                    s == 0,
            ;
            lemma_pow2_strictly_increases(0, 296);
            lemma_small_product(0);
        }
        return 0;
    }
    if 24 + sh + g <= 296 {
        proof {
            lemma_pow2_adds((24 + sh) as nat, g as nat);
            if 24 + sh + g < 296 {
                lemma_pow2_strictly_increases((24 + sh + g) as nat, 296);
            }
            assert(e < pow2(296)) by (nonlinear_arith)
                requires
                    e == s as nat * pow2(g as nat),
                    s < pow2((24 + sh) as nat),
                    pow2(g as nat) > 0,
                    pow2((24 + sh) as nat) * pow2(g as nat) <= pow2(296),
            ;
            lemma_small_product(e);
        }
        return 0;
    }
    let r: u64 = rounded_quotient(s, sh);
    let shift: u32 = sh + g;
    let ghost rounded: nat = r as nat * pow2(shift as nat);
    proof {
        lemma_large_product(s as nat, g as nat, sh as nat, r as nat);
        lemma_multiply_divide_lt(s as int, pow2(sh as nat) as int, 0x100_0000);
        lemma_pow2_pos(shift as nat);
        assert(r >= 1) by {
            if sh == 0 {
                assert(round_half_even(s as nat, 1) == s);
                assert(r == s) by (nonlinear_arith)
                    requires
                        r * pow2(sh as nat) == s,
                        pow2(sh as nat) == 1,
                ;
            } else {
                lemma_pow2_adds(23, sh as nat);
                assert(t >= 1) by (nonlinear_arith)
                    requires
                        s == pow2(sh as nat) * t + s as nat % pow2(sh as nat),
                        s as nat % pow2(sh as nat) < pow2(sh as nat),
                        s >= 0x80_0000 * pow2(sh as nat),
                        pow2(sh as nat) > 0,
                ;
                let q = s as nat / pow2(sh as nat);
                let u = pow2(sh as nat);
                assert(round_half_even(s as nat, u) >= q * u) by (nonlinear_arith)
                    requires
                        round_half_even(s as nat, u) == q * u || round_half_even(s as nat, u) == (q
                            + 1) * u,
                        u > 0,
                ;
                assert(r >= q) by (nonlinear_arith)
                    requires
                        r * u >= q * u,
                        u > 0,
                ;
            }
        }
    }
    if shift >= 298 {
        let k: u32 = shift - 298;
        proof {
            lemma_pow2_adds(k as nat, 298);
            lemma_pow2_pos(k as nat);
            lemma_pow2_pos(298);
            lemma_pow2_strictly_increases(297, 298);
            assert(rounded == pow2(298) * (r as nat * pow2(k as nat))) by (nonlinear_arith)
                requires
                    rounded == r as nat * pow2(shift as nat),
                    pow2(shift as nat) == pow2(k as nat) * pow2(298),
            ;
            lemma_div_multiples_vanish_fancy(
                (r as nat * pow2(k as nat)) as int,
                pow2(297) as int,
                pow2(298) as int,
            );
            assert(nearest_whole(rounded) == r as nat * pow2(k as nat));
        }
        if k >= 64 {
            proof {
                if k > 64 {
                    lemma_pow2_strictly_increases(64, k as nat);
                }
                assert(r as nat * pow2(k as nat) >= pow2(64)) by (nonlinear_arith)
                    requires
                        r >= 1,
                        pow2(k as nat) >= pow2(64),
                ;
            }
            u64::MAX
        } else {
            proof {
                lemma_u64_mul_pow2_le_max_iff_max_shr(r, k as u64, u64::MAX);
            }
            if r > (u64::MAX >> (k as u64)) {
                u64::MAX
            } else {
                proof {
                    lemma_u64_shl_is_mul(r, k as u64);
                }
                r << (k as u64)
            }
        }
    } else {
        let k: u32 = 298 - shift;
        proof {
            lemma_pow2_adds(k as nat, shift as nat);
            lemma_pow2_adds((k - 1) as nat, shift as nat);
            lemma_pow2_pos(k as nat);
            lemma_pow2_strictly_increases(k as nat, 26);
            lemma_pow2_strictly_increases((k - 1) as nat, 26);
            lemma_u64_shl_is_mul(1, k as u64);
            lemma_u64_shl_is_mul(1, (k - 1) as u64);
            let x: nat = r as nat + pow2((k - 1) as nat);
            assert(rounded + pow2(297) == pow2(shift as nat) * x) by (nonlinear_arith)
                requires
                    rounded == r as nat * pow2(shift as nat),
                    pow2(297) == pow2((k - 1) as nat) * pow2(shift as nat),
                    x == r as nat + pow2((k - 1) as nat),
            ;
            assert(pow2(298) == pow2(shift as nat) * pow2(k as nat)) by (nonlinear_arith)
                requires
                    pow2(298) == pow2(k as nat) * pow2(shift as nat),
            ;
            lemma_div_multiples_vanish_quotient(
                pow2(shift as nat) as int,
                x as int,
                pow2(k as nat) as int,
            );
            assert(nearest_whole(rounded) == x / pow2(k as nat));
        }
        let half: u64 = 1u64 << ((k - 1) as u64);
        let unit: u64 = 1u64 << (k as u64);
        (r + half) / unit
    }
}

/// Counts the samples in `time` seconds at `rate` samples a second.
pub fn count(rate: Single, time: Single) -> (n: usize)
    ensures
        n == samples(rate, time, usize::MAX as nat),
{
    let rb: u32 = rate.to_bits();
    let tb: u32 = time.to_bits();
    let re: u32 = (rb / 0x80_0000) % 0x100;
    let rf: u32 = rb % 0x80_0000;
    let te: u32 = (tb / 0x80_0000) % 0x100;
    let tf: u32 = tb % 0x80_0000;
    let rs: u64 = if re == 0 {
        rf as u64
    } else {
        0x80_0000 + rf as u64
    };
    let ts: u64 = if te == 0 {
        tf as u64
    } else {
        0x80_0000 + tf as u64
    };
    if (re == 255 && rf != 0) || (te == 255 && tf != 0) {
        0
    } else if (rb >= 0x8000_0000) != (tb >= 0x8000_0000) {
        0
    } else if re == 255 || te == 255 {
        if rs == 0 || ts == 0 {
            0
        } else {
            usize::MAX
        }
    } else {
        let rg: u32 = if re == 0 {
            0
        } else {
            re - 1
        };
        let tg: u32 = if te == 0 {
            0
        } else {
            te - 1
        };
        proof {
            lemma_pow2_adds(rg as nat, tg as nat);
            assert(rs * ts < 0x100_0000 * 0x100_0000) by (nonlinear_arith)
                requires
                    rs < 0x100_0000,
                    ts < 0x100_0000,
            ;
            assert(rate.magnitude() * time.magnitude() == (rs * ts) as nat * pow2((rg + tg) as nat))
                by (nonlinear_arith)
                requires
                    rate.magnitude() == rs as nat * pow2(rg as nat),
                    time.magnitude() == ts as nat * pow2(tg as nat),
                    pow2((rg + tg) as nat) == pow2(rg as nat) * pow2(tg as nat),
            ;
        }
        let c: u64 = whole_product(rs * ts, rg + tg);
        if c > usize::MAX as u64 {
            usize::MAX
        } else {
            c as usize
        }
    }
}

} // verus!
