//! Narrowing a double to an integer: the fraction is dropped, and a value
//! beyond the integer type becomes the type's nearest bound.

use vstd::prelude::*;
use vstd::arithmetic::power2::{
    pow2, lemma_pow2_adds, lemma_pow2_pos, lemma_pow2_strictly_increases, lemma2_to64,
    lemma2_to64_rest,
};
use vstd::arithmetic::div_mod::{
    lemma_div_multiples_vanish_quotient, lemma_div_is_ordered, lemma_div_by_multiple,
    lemma_basic_div, lemma_div_basics, lemma_fundamental_div_mod, lemma_mod_bound,
};
use vstd::arithmetic::mul::{
    lemma_mul_inequality, lemma_mul_strict_inequality, lemma_mul_is_commutative,
};
use vstd::bits::lemma_u64_shr_is_div;
use crate::scalar::{Scalar, HIDDEN_BIT, exponent_of, significand_of, shift_of, units_of};
use crate::value::{lemma_units_bounds, lemma_units_order};

verus! {

/// The whole part of a value of `u` units: `u` times 2^-1074, rounded down.
pub open spec fn whole_of(u: nat) -> nat {
    u / pow2(1074)
}

impl Scalar {
    /// The integral part of a number: its value rounded toward zero.
    pub open spec fn integral(self) -> int {
        if self.negative() {
            -(whole_of(units_of(self.magnitude())) as int)
        } else {
            whole_of(units_of(self.magnitude())) as int
        }
    }

    /// What narrowing to `i32` gives: 0 for what is not a number, else the
    /// integral part, brought to the nearest bound where it is out of range.
    pub open spec fn truncated_i32(self) -> i32 {
        if self.nan() {
            0i32
        } else if self.integral() >= i32::MAX {
            i32::MAX
        } else if self.integral() <= i32::MIN {
            i32::MIN
        } else {
            self.integral() as i32
        }
    }

    /// What narrowing to `u32` gives: 0 for what is not a number, else the
    /// integral part, brought to the nearest bound where it is out of range.
    pub open spec fn truncated_u32(self) -> u32 {
        if self.nan() {
            0u32
        } else if self.integral() >= u32::MAX {
            u32::MAX
        } else if self.integral() <= 0 {
            0u32
        } else {
            self.integral() as u32
        }
    }

    /// The whole part of the magnitude of a number, capped at 2^32.
    fn whole(self) -> (r: u64)
        requires
            !self.nan(),
        ensures
            r <= 0x1_0000_0000,
            r == if whole_of(units_of(self.magnitude())) >= 0x1_0000_0000 {
                0x1_0000_0000
            } else {
                whole_of(units_of(self.magnitude()))
            },
    {
        let magnitude: u64 = self.abs().bits;
        let exponent: u64 = magnitude / HIDDEN_BIT;
        if exponent < 1023 {
            proof {
                lemma_whole_small(magnitude as nat);
            }
            0
        } else if exponent >= 1055 {
            proof {
                lemma_whole_large(magnitude as nat);
            }
            0x1_0000_0000
        } else {
            let significand: u64 = HIDDEN_BIT + magnitude % HIDDEN_BIT;
            let drop: u64 = 1075 - exponent;
            proof {
                lemma_whole_shifted(magnitude as nat);
                lemma_u64_shr_is_div(significand, drop);
            }
            significand >> drop
        }
    }

    /// The number narrowed to `i32`, as `as i32` narrows a double.
    pub fn to_i32(self) -> (r: i32)
        ensures
            r == self.truncated_i32(),
    {
        if self.is_nan() {
            return 0;
        }
        let whole: u64 = self.whole();
        if self.is_negative() {
            if whole >= 0x8000_0000 {
                i32::MIN
            } else {
                -(whole as i32)
            }
        } else {
            if whole >= 0x7fff_ffff {
                i32::MAX
            } else {
                whole as i32
            }
        }
    }

    /// The number narrowed to `u32`, as `as u32` narrows a double.
    pub fn to_u32(self) -> (r: u32)
        ensures
            r == self.truncated_u32(),
    {
        if self.is_nan() {
            return 0;
        }
        let whole: u64 = self.whole();
        if self.is_negative() {
            0
        } else if whole >= 0xffff_ffff {
            u32::MAX
        } else {
            whole as u32
        }
    }
}

/// A double below 1 has no whole part.
proof fn lemma_whole_small(m: nat)
    requires
        exponent_of(m) < 1023,
    ensures
        whole_of(units_of(m)) == 0,
{
    lemma2_to64_rest();
    let s: nat = shift_of(m);
    assert(significand_of(m) < pow2(53));
    lemma_pow2_pos(s);
    lemma_mul_strict_inequality(significand_of(m) as int, pow2(53) as int, pow2(s) as int);
    lemma_pow2_adds(53, s);
    assert(units_of(m) < pow2(53 + s));
    if 53 + s < 1074 {
        lemma_pow2_strictly_increases(53 + s, 1074);
    }
    lemma_basic_div(units_of(m) as int, pow2(1074) as int);
}

/// A double of 2^32 or more has a whole part of 2^32 or more.
proof fn lemma_whole_large(m: nat)
    requires
        exponent_of(m) >= 1055,
    ensures
        whole_of(units_of(m)) >= 0x1_0000_0000,
{
    lemma2_to64();
    lemma2_to64_rest();
    let s: nat = shift_of(m);
    let extra: nat = (s - 1054) as nat;
    assert(significand_of(m) >= pow2(52));
    lemma_pow2_pos(s);
    lemma_mul_inequality(pow2(52) as int, significand_of(m) as int, pow2(s) as int);
    lemma_pow2_adds(52, s);
    assert(units_of(m) >= pow2(52 + s));
    lemma_pow2_adds(1074, 32 + extra);
    lemma_pow2_adds(32, extra);
    lemma_pow2_pos(extra);
    lemma_pow2_pos(1074);
    assert(52 + s == 1074 + (32 + extra));
    lemma_mul_is_commutative(pow2(1074) as int, pow2(32 + extra) as int);
    lemma_div_by_multiple(pow2(32 + extra) as int, pow2(1074) as int);
    lemma_div_is_ordered(pow2(52 + s) as int, units_of(m) as int, pow2(1074) as int);
    lemma_mul_inequality(1, pow2(extra) as int, pow2(32) as int);
    lemma_mul_is_commutative(pow2(32) as int, pow2(extra) as int);
}

/// Between 1 and 2^32, the whole part is the significand without its low bits.
proof fn lemma_whole_shifted(m: nat)
    requires
        1023 <= exponent_of(m) < 1055,
    ensures
        whole_of(units_of(m)) == significand_of(m) / pow2((1075 - exponent_of(m)) as nat),
        significand_of(m) / pow2((1075 - exponent_of(m)) as nat) < 0x1_0000_0000,
{
    lemma2_to64();
    lemma2_to64_rest();
    let s: nat = shift_of(m);
    let drop: nat = (1075 - exponent_of(m)) as nat;
    let sig: nat = significand_of(m);
    lemma_pow2_pos(s);
    lemma_pow2_pos(drop);
    lemma_pow2_adds(s, drop);
    assert(s + drop == 1074);
    lemma_div_multiples_vanish_quotient(pow2(s) as int, sig as int, pow2(drop) as int);
    lemma_mul_is_commutative(pow2(s) as int, sig as int);
    assert(whole_of(units_of(m)) == sig / pow2(drop));
    // sig < 2^53 = 2^32 * 2^21 <= 2^32 * 2^drop
    assert(sig < pow2(53));
    let more: nat = (drop - 21) as nat;
    lemma_pow2_adds(21, more);
    lemma_pow2_pos(more);
    lemma_pow2_adds(32, 21);
    assert(pow2(drop) >= pow2(21)) by {
        lemma_mul_inequality(1, pow2(more) as int, pow2(21) as int);
        lemma_mul_is_commutative(pow2(21) as int, pow2(more) as int);
    }
    assert(sig < 0x1_0000_0000 * pow2(drop)) by (nonlinear_arith)
        requires
            sig < 0x1_0000_0000 * 0x20_0000,
            pow2(drop) >= 0x20_0000,
    ;
    assert(sig / pow2(drop) < 0x1_0000_0000) by (nonlinear_arith)
        requires
            sig < 0x1_0000_0000 * pow2(drop),
            pow2(drop) > 0,
    ;
}

/// A double whose value is the whole number `n` is narrowed to `n`, where the
/// integer type holds `n`.
pub proof fn lemma_whole_number_survives(s: Scalar, n: int)
    requires
        !s.nan(),
        s.units() == n * pow2(1074),
    ensures
        s.integral() == n,
        i32::MIN <= n <= i32::MAX ==> s.truncated_i32() == n,
        0 <= n <= u32::MAX ==> s.truncated_u32() == n,
{
    lemma_pow2_pos(1074);
    let p: int = pow2(1074) as int;
    let m: int = units_of(s.magnitude()) as int;
    let k: int = if s.negative() { -n } else { n };
    assert(m == k * p) by (nonlinear_arith)
        requires
            s.units() == n * p,
            m == if s.negative() { -s.units() } else { s.units() },
            k == if s.negative() { -n } else { n },
    ;
    assert(k >= 0) by (nonlinear_arith)
        requires
            m == k * p,
            m >= 0,
            p > 0,
    ;
    lemma_div_by_multiple(k, p);
    assert(whole_of(units_of(s.magnitude())) == k);
}

/// Narrowing drops the fraction toward zero: the integral part is the whole
/// number nearest to the value among those that are not farther from zero.
pub proof fn law_narrowing_is_toward_zero(s: Scalar)
    requires
        !s.nan(),
    ensures
        s.units() >= 0 ==> s.integral() * pow2(1074) <= s.units() < (s.integral() + 1) * pow2(
            1074,
        ),
        s.units() <= 0 ==> (s.integral() - 1) * pow2(1074) < s.units() <= s.integral() * pow2(
            1074,
        ),
{
    lemma_pow2_pos(1074);
    let u: int = units_of(s.magnitude()) as int;
    let p: int = pow2(1074) as int;
    lemma_fundamental_div_mod(u, p);
    lemma_mod_bound(u, p);
    let q: int = u / p;
    assert(q * p <= u < (q + 1) * p) by (nonlinear_arith)
        requires
            u == p * q + u % p,
            0 <= u % p < p,
    ;
    assert((-q) * p == -(q * p) && (-q - 1) * p == -((q + 1) * p)) by (nonlinear_arith);
    lemma_units_order(s.magnitude(), 0);
    lemma_units_bounds(0);
    if u == 0 {
        assert(q == 0) by {
            lemma_div_basics(p);
        }
    }
}

} // verus!
