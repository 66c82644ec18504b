//! Sum, difference and half of doubles: the exact result, rounded to the
//! nearest double.

use vstd::prelude::*;
use vstd::arithmetic::power2::{
    pow2, lemma_pow2_adds, lemma_pow2_pos, lemma_pow2_unfold, lemma2_to64, lemma2_to64_rest,
};
use vstd::arithmetic::div_mod::{
    lemma_fundamental_div_mod, lemma_div_is_ordered, lemma_div_by_multiple,
    lemma_multiply_divide_lt, lemma_mod_bound,
};
use vstd::arithmetic::mul::{
    lemma_mul_inequality, lemma_mul_strict_inequality, lemma_mul_is_commutative,
    lemma_mul_is_associative, lemma_mul_is_distributive_add_other_way,
    lemma_mul_is_distributive_sub_other_way, lemma_mul_inequality_converse,
};
use crate::round::{
    assembled, bit_length, distance, nearest, tips_up, lemma_bit_length_bounds, lemma_nearest_exact,
    lemma_nearest_increases, lemma_nearest_parts, lemma_nearest_zero,
};
use crate::scalar::{
    Scalar, HIDDEN_BIT, INFINITY_BITS, SIGN_BIT, exponent_of, shift_of, significand_of, units_of,
};
use crate::value::{
    lemma_pow2_increases, lemma_significand_bounds, lemma_units_bounds, lemma_units_order,
};

verus! {

/// The bit pattern that the operations here give for what is not a number.
pub const NAN_BITS: u64 = 0x7ff8_0000_0000_0000;

impl Scalar {
    /// The double with the given sign and the pattern `m` below it.
    pub open spec fn signed(negative: bool, m: nat) -> Scalar {
        Scalar { bits: if negative { (SIGN_BIT + m) as u64 } else { m as u64 } }
    }

    /// The double nearest to `v` units. Where `v` is 0, `negative_zero` says
    /// which zero it is.
    pub open spec fn rounded(v: int, negative_zero: bool) -> Scalar {
        if v > 0 {
            Scalar::signed(false, nearest(v as nat))
        } else if v < 0 {
            Scalar::signed(true, nearest((-v) as nat))
        } else {
            Scalar::signed(negative_zero, 0)
        }
    }

    /// `-self`: the same pattern with the other sign.
    pub open spec fn opposite(self) -> Scalar {
        Scalar::signed(!self.negative(), self.magnitude())
    }

    /// `self + other` on doubles. With an operand that is not a number, or
    /// with infinities of opposite sign, the sum is not a number. Else an
    /// infinity among the operands is the sum. Two finite numbers give the double nearest
    /// to their exact sum; a sum of 0 is negative zero only where both
    /// operands are negative.
    pub open spec fn sum(self, other: Scalar) -> Scalar {
        if self.nan() || other.nan() {
            Scalar { bits: NAN_BITS }
        } else if !self.finite() && !other.finite() && self.negative() != other.negative() {
            Scalar { bits: NAN_BITS }
        } else if !self.finite() {
            self
        } else if !other.finite() {
            other
        } else {
            Scalar::rounded(self.units() + other.units(), self.negative() && other.negative())
        }
    }

    /// `self - other` on doubles: the sum with the opposite.
    pub open spec fn difference(self, other: Scalar) -> Scalar {
        self.sum(other.opposite())
    }

    /// `self / 2.0` on doubles. Half of an even number of units is exact;
    /// half of an odd number lies in the middle between two doubles and goes
    /// to the even one.
    pub open spec fn half(self) -> Scalar {
        if self.nan() {
            Scalar { bits: NAN_BITS }
        } else if !self.finite() {
            self
        } else {
            let u: nat = units_of(self.magnitude());
            let up: nat = if tips_up(u / 2, u % 2, 1) { 1 } else { 0 };
            Scalar::signed(self.negative(), nearest(u / 2 + up))
        }
    }

    /// `-self`.
    pub fn negate(self) -> (r: Scalar)
        ensures
            r == self.opposite(),
    {
        if self.bits >= SIGN_BIT {
            Scalar { bits: self.bits - SIGN_BIT }
        } else {
            Scalar { bits: self.bits + SIGN_BIT }
        }
    }

    /// `self + other`.
    pub fn plus(self, other: Scalar) -> (r: Scalar)
        ensures
            r == self.sum(other),
    {
        if self.is_nan() || other.is_nan() {
            return Scalar { bits: NAN_BITS };
        }
        let a: u64 = self.abs().bits;
        let b: u64 = other.abs().bits;
        let na: bool = self.is_negative();
        let nb: bool = other.is_negative();
        if a == INFINITY_BITS {
            if b == INFINITY_BITS && na != nb {
                Scalar { bits: NAN_BITS }
            } else {
                self
            }
        } else if b == INFINITY_BITS {
            other
        } else {
            let same: bool = na == nb;
            let (m, negative): (u64, bool) = if a >= b {
                (combine(a, b, same), na)
            } else {
                (combine(b, a, same), nb)
            };
            proof {
                lemma_units_order(a as nat, b as nat);
                lemma_units_order(b as nat, a as nat);
                lemma_nearest_zero(units_of(a as nat) + units_of(b as nat));
                if a >= b {
                    lemma_nearest_zero((units_of(a as nat) - units_of(b as nat)) as nat);
                } else {
                    lemma_nearest_zero((units_of(b as nat) - units_of(a as nat)) as nat);
                }
            }
            if m == 0 {
                Scalar { bits: if na && nb { SIGN_BIT } else { 0 } }
            } else if negative {
                Scalar { bits: SIGN_BIT + m }
            } else {
                Scalar { bits: m }
            }
        }
    }

    /// `self - other`.
    pub fn minus(self, other: Scalar) -> (r: Scalar)
        ensures
            r == self.difference(other),
    {
        self.plus(other.negate())
    }

    /// `self / 2.0`.
    pub fn halve(self) -> (r: Scalar)
        ensures
            r == self.half(),
    {
        if self.is_nan() {
            return Scalar { bits: NAN_BITS };
        }
        let m: u64 = self.abs().bits;
        if m >= INFINITY_BITS {
            return self;
        }
        let halved: u64 = if m >= 2 * HIDDEN_BIT {
            proof {
                lemma_half_exact(m as nat);
            }
            m - HIDDEN_BIT
        } else {
            let q: u64 = m / 2;
            proof {
                lemma_units_bounds(m as nat);
            }
            if m % 2 == 1 && q % 2 == 1 {
                q + 1
            } else {
                q
            }
        };
        if self.is_negative() {
            Scalar { bits: SIGN_BIT + halved }
        } else {
            Scalar { bits: halved }
        }
    }
}

/// The significand in a pattern.
fn significand_bits(m: u64) -> (r: u64)
    ensures
        r == significand_of(m as nat),
{
    if m < HIDDEN_BIT {
        m
    } else {
        HIDDEN_BIT + m % HIDDEN_BIT
    }
}

/// The scale in a pattern.
fn shift_bits(m: u64) -> (r: u64)
    ensures
        r == shift_of(m as nat),
{
    if m < HIDDEN_BIT {
        0
    } else {
        m / HIDDEN_BIT - 1
    }
}

/// 2^k.
fn power_of_two(k: u64) -> (p: u128)
    requires
        k <= 120,
    ensures
        p == pow2(k as nat),
{
    let mut p: u128 = 1;
    let mut i: u64 = 0;
    proof {
        lemma2_to64();
    }
    while i < k
        invariant
            i <= k <= 120,
            p == pow2(i as nat),
        decreases k - i,
    {
        proof {
            lemma_pow2_unfold((i + 1) as nat);
            lemma_pow2_increases((i + 1) as nat, 120);
            lemma_pow2_120();
        }
        p = p * 2;
        i = i + 1;
    }
    p
}

/// 2^120 and 2^118, written out.
proof fn lemma_pow2_120()
    ensures
        pow2(120) == 0x100_0000_0000_0000_0000_0000_0000_0000,
        pow2(118) == 0x40_0000_0000_0000_0000_0000_0000_0000,
        pow2(117) == 0x20_0000_0000_0000_0000_0000_0000_0000,
{
    lemma2_to64();
    lemma2_to64_rest();
    lemma_pow2_adds(64, 56);
    lemma_pow2_adds(64, 54);
    lemma_pow2_adds(64, 53);
}

/// The number of binary digits of `n`.
fn bit_count(n: u128) -> (len: u64)
    requires
        n < pow2(118),
    ensures
        len == bit_length(n as nat),
        len <= 118,
{
    let mut len: u64 = 0;
    let mut rest: u128 = n;
    proof {
        if n > 0 {
            lemma_bit_length_bounds(n as nat);
            if bit_length(n as nat) > 118 {
                lemma_pow2_increases(118, (bit_length(n as nat) - 1) as nat);
            }
        }
    }
    while rest != 0
        invariant
            bit_length(n as nat) == len + bit_length(rest as nat),
            bit_length(n as nat) <= 118,
        decreases rest,
    {
        rest = rest / 2;
        len = len + 1;
    }
    len
}

/// Rounds `n` times 2^k units: the pattern of the nearest double.
fn round_scaled(n: u128, k: u64) -> (m: u64)
    requires
        n < pow2(118),
        k <= 2046,
    ensures
        m == nearest((n as nat) * pow2(k as nat)),
{
    if n == 0 {
        proof {
            assert((n as nat) * pow2(k as nat) == 0) by (nonlinear_arith)
                requires
                    n == 0,
            ;
        }
        return 0;
    }
    let len: u64 = bit_count(n);
    proof {
        lemma_pow2_120();
        lemma_bit_length_bounds(n as nat);
    }
    if len + k <= 53 {
        let p: u128 = power_of_two(k);
        proof {
            lemma_scale_small(n as nat, k as nat);
        }
        return (n * p) as u64;
    }
    let drop: u64 = len + k - 53;
    let kept: u64;
    let up: bool;
    if len > 53 {
        let p: u128 = power_of_two(len - 53);
        proof {
            lemma_scale_cut(n as nat, (len - 53) as nat, k as nat);
            lemma_pow2_unfold((len - 53) as nat);
            lemma_pow2_pos((len - 53) as nat);
        }
        let cut: u128 = n / p;
        let rest: u128 = n % p;
        let half: u128 = p / 2;
        kept = cut as u64;
        up = rest > half || (rest == half && cut % 2 == 1);
    } else {
        let p: u128 = power_of_two(53 - len);
        proof {
            lemma_scale_pad(n as nat, (53 - len) as nat, k as nat);
        }
        kept = (n * p) as u64;
        up = false;
    }
    if drop >= 2047 {
        proof {
            assert(drop * (HIDDEN_BIT as nat) >= INFINITY_BITS) by (nonlinear_arith)
                requires
                    drop >= 2047,
                    HIDDEN_BIT == 0x0010_0000_0000_0000,
                    INFINITY_BITS == 0x7ff0_0000_0000_0000,
            ;
        }
        return INFINITY_BITS;
    }
    let raw: u64 = drop * HIDDEN_BIT + kept + if up { 1 } else { 0 };
    if raw >= INFINITY_BITS {
        INFINITY_BITS
    } else {
        raw
    }
}

/// The pattern of the double nearest to the sum, or to the difference, of
/// two finite non-negative doubles of which the first is not the smaller.
fn combine(hi: u64, lo: u64, same: bool) -> (m: u64)
    requires
        lo <= hi < INFINITY_BITS,
    ensures
        same ==> m == nearest(units_of(hi as nat) + units_of(lo as nat)),
        !same ==> units_of(hi as nat) >= units_of(lo as nat) && m == nearest(
            (units_of(hi as nat) - units_of(lo as nat)) as nat,
        ),
{
    let shift_hi: u64 = shift_bits(hi);
    let shift_lo: u64 = shift_bits(lo);
    let sig_hi: u64 = significand_bits(hi);
    let sig_lo: u64 = significand_bits(lo);
    proof {
        lemma_units_order(lo as nat, hi as nat);
        lemma_units_split(hi as nat, lo as nat);
    }
    let gap: u64 = shift_hi - shift_lo;
    if gap > 64 {
        proof {
            lemma_far(hi as nat, lo as nat);
        }
        return hi;
    }
    let p: u128 = power_of_two(gap);
    proof {
        lemma_significand_bounds(hi as nat);
        lemma_significand_bounds(lo as nat);
        lemma_pow2_120();
        lemma_pow2_increases(gap as nat, 64);
        lemma2_to64();
        assert((sig_hi as nat) * pow2(gap as nat) < 0x20_0000_0000_0000_0000_0000_0000_0000)
            by (nonlinear_arith)
            requires
                sig_hi < 0x20_0000_0000_0000,
                pow2(gap as nat) <= 0x1_0000_0000_0000_0000,
        ;
    }
    let wide: u128 = (sig_hi as u128) * p;
    let total: u128 = if same {
        wide + (sig_lo as u128)
    } else {
        wide - (sig_lo as u128)
    };
    proof {
        let scale: nat = pow2(shift_lo as nat);
        if same {
            lemma_mul_is_distributive_add_other_way(scale as int, wide as int, sig_lo as int);
        } else {
            lemma_mul_is_distributive_sub_other_way(scale as int, wide as int, sig_lo as int);
        }
    }
    round_scaled(total, shift_lo)
}

/// Of two patterns the larger has the larger scale, and its value is its
/// significand, moved up by the difference of the scales, at the scale of the
/// smaller. On that scale its part is not below the significand of the smaller.
proof fn lemma_units_split(hi: nat, lo: nat)
    requires
        lo <= hi,
    ensures
        shift_of(lo) <= shift_of(hi),
        units_of(hi) == significand_of(hi) * pow2((shift_of(hi) - shift_of(lo)) as nat) * pow2(
            shift_of(lo),
        ),
        significand_of(lo) <= significand_of(hi) * pow2((shift_of(hi) - shift_of(lo)) as nat),
{
    lemma_significand_bounds(hi);
    lemma_significand_bounds(lo);
    assert(exponent_of(lo) <= exponent_of(hi)) by {
        if exponent_of(lo) > exponent_of(hi) {
            assert(exponent_of(lo) * pow2(52) >= (exponent_of(hi) + 1) * pow2(52))
                by (nonlinear_arith)
                requires
                    exponent_of(lo) >= exponent_of(hi) + 1,
            ;
        }
    }
    let gap: nat = (shift_of(hi) - shift_of(lo)) as nat;
    let scale: nat = pow2(shift_of(lo));
    lemma_pow2_adds(gap, shift_of(lo));
    lemma_mul_is_associative(significand_of(hi) as int, pow2(gap) as int, scale as int);
    lemma_units_order(lo, hi);
    lemma_pow2_pos(shift_of(lo));
    assert(units_of(lo) <= units_of(hi));
    lemma_mul_inequality_converse(
        significand_of(lo) as int,
        (significand_of(hi) * pow2(gap)) as int,
        scale as int,
    );
}

/// A number of at most 53 digits, moved up so that it still has at most 53,
/// is a double as it stands.
proof fn lemma_scale_small(n: nat, k: nat)
    requires
        n > 0,
        bit_length(n) + k <= 53,
    ensures
        n * pow2(k) < 2 * HIDDEN_BIT,
        nearest(n * pow2(k)) == n * pow2(k),
{
    lemma2_to64_rest();
    lemma_bit_length_bounds(n);
    let len: nat = bit_length(n);
    lemma_pow2_pos(k);
    lemma_mul_strict_inequality(n as int, pow2(len) as int, pow2(k) as int);
    lemma_pow2_adds(len, k);
    lemma_pow2_increases(len + k, 53);
}

/// Rounding a number of more than 53 digits that stands `k` places up: the
/// cut is the one of the number itself.
proof fn lemma_scale_cut(n: nat, dn: nat, k: nat)
    requires
        dn >= 1,
        bit_length(n) == 53 + dn,
    ensures
        HIDDEN_BIT <= n / pow2(dn) < 2 * HIDDEN_BIT,
        nearest(n * pow2(k)) == assembled(
            dn + k,
            n / pow2(dn),
            tips_up(n / pow2(dn), n % pow2(dn), pow2((dn - 1) as nat)),
        ),
{
    lemma2_to64_rest();
    assert(n > 0) by {
        assert(bit_length(0) == 0);
    }
    lemma_bit_length_bounds(n);
    let p: nat = pow2(dn);
    let scale: nat = pow2(k);
    let half: nat = pow2((dn - 1) as nat);
    let kept: nat = n / p;
    let rest: nat = n % p;
    lemma_pow2_pos(dn);
    lemma_pow2_pos(k);
    lemma_pow2_pos((dn - 1) as nat);
    lemma_pow2_adds(52, dn);
    lemma_pow2_adds(53, dn);
    lemma_pow2_adds(dn, k);
    lemma_pow2_adds((dn - 1) as nat, k);
    lemma_fundamental_div_mod(n as int, p as int);
    lemma_mod_bound(n as int, p as int);
    // the cut has 53 digits
    assert(kept >= pow2(52)) by {
        lemma_mul_is_commutative(pow2(52) as int, p as int);
        lemma_div_by_multiple(pow2(52) as int, p as int);
        lemma_div_is_ordered((pow2(52) * p) as int, n as int, p as int);
    }
    assert(kept < pow2(53)) by {
        lemma_multiply_divide_lt(n as int, p as int, pow2(53) as int);
    }
    // the number, moved up, in its cut and rest
    assert(n * scale == kept * (p * scale) + rest * scale) by (nonlinear_arith)
        requires
            n == p * kept + rest,
    ;
    lemma_mul_strict_inequality(rest as int, p as int, scale as int);
    lemma_nearest_parts(n * scale, dn + k, kept, rest * scale);
    // the rest tips up as it did before the move
    assert(half * scale == pow2((dn + k - 1) as nat));
    if rest > half {
        lemma_mul_strict_inequality(half as int, rest as int, scale as int);
    }
    if rest < half {
        lemma_mul_strict_inequality(rest as int, half as int, scale as int);
    }
}

/// Rounding a number of at most 53 digits that stands more places up than it
/// lacks digits: nothing is cut.
proof fn lemma_scale_pad(n: nat, j: nat, k: nat)
    requires
        n > 0,
        bit_length(n) + j == 53,
        j < k,
    ensures
        HIDDEN_BIT <= n * pow2(j) < 2 * HIDDEN_BIT,
        nearest(n * pow2(k)) == assembled((k - j) as nat, n * pow2(j), false),
{
    lemma2_to64_rest();
    lemma_bit_length_bounds(n);
    let len: nat = bit_length(n);
    let drop: nat = (k - j) as nat;
    lemma_pow2_pos(j);
    lemma_pow2_pos(drop);
    lemma_pow2_pos((drop - 1) as nat);
    lemma_mul_strict_inequality(n as int, pow2(len) as int, pow2(j) as int);
    lemma_mul_inequality(pow2((len - 1) as nat) as int, n as int, pow2(j) as int);
    lemma_pow2_adds(len, j);
    lemma_pow2_adds((len - 1) as nat, j);
    lemma_pow2_adds(j, drop);
    lemma_mul_is_associative(n as int, pow2(j) as int, pow2(drop) as int);
    lemma_nearest_parts(n * pow2(k), drop, n * pow2(j), 0);
}

/// Half of a double whose exponent can go down by one is that double.
proof fn lemma_half_exact(m: nat)
    requires
        2 * HIDDEN_BIT <= m < INFINITY_BITS,
    ensures
        units_of(m) % 2 == 0,
        units_of(m) == 2 * units_of((m - HIDDEN_BIT) as nat),
        nearest(units_of(m) / 2) == m - HIDDEN_BIT,
{
    let lower: nat = (m - HIDDEN_BIT) as nat;
    lemma_significand_bounds(m);
    lemma_significand_bounds(lower);
    assert(exponent_of(lower) + 1 == exponent_of(m) && significand_of(lower) == significand_of(m))
        by {
        let h: nat = HIDDEN_BIT as nat;
        let e: nat = exponent_of(m);
        let f: nat = m % h;
        assert(lower == (e - 1) * h + f) by (nonlinear_arith)
            requires
                m == e * h + f,
                lower == m - h,
        ;
        vstd::arithmetic::div_mod::lemma_fundamental_div_mod_converse(
            lower as int,
            h as int,
            e - 1,
            f as int,
        );
    }
    let s: nat = shift_of(lower);
    lemma_pow2_unfold(s + 1);
    assert(units_of(m) == 2 * units_of(lower)) by (nonlinear_arith)
        requires
            units_of(m) == significand_of(m) * pow2(s + 1),
            units_of(lower) == significand_of(m) * pow2(s),
            pow2(s + 1) == 2 * pow2(s),
    ;
    lemma_nearest_exact(lower);
}

/// Where the scales of two doubles are more than 64 apart, the smaller one
/// is less than a quarter of the step between the larger one and either of
/// its neighbours: the double nearest to their sum, and to their difference,
/// is the larger one.
proof fn lemma_far(hi: nat, lo: nat)
    requires
        lo <= hi < INFINITY_BITS,
        shift_of(hi) > shift_of(lo) + 64,
    ensures
        nearest(units_of(hi) + units_of(lo)) == hi,
        units_of(lo) <= units_of(hi),
        nearest((units_of(hi) - units_of(lo)) as nat) == hi,
{
    lemma2_to64();
    lemma2_to64_rest();
    lemma_significand_bounds(hi);
    lemma_units_bounds(lo);
    lemma_units_order(lo, hi);
    let h: nat = HIDDEN_BIT as nat;
    let s: nat = shift_of(hi);
    let sig: nat = significand_of(hi);
    let t: nat = units_of(lo);
    let step: nat = pow2(s);
    let half: nat = pow2((s - 1) as nat);
    let quarter: nat = pow2((s - 2) as nat);
    lemma_pow2_unfold(s);
    lemma_pow2_unfold((s - 1) as nat);
    lemma_pow2_pos((s - 2) as nat);
    // the smaller one is below a quarter of the step
    assert(t < quarter) by {
        if exponent_of(lo) == 0 {
            lemma_pow2_increases(52, (s - 2) as nat);
        } else {
            lemma_pow2_increases(53 + shift_of(lo), (s - 2) as nat);
        }
    }
    assert(s * h + sig == hi) by (nonlinear_arith)
        requires
            s + 1 == exponent_of(hi),
            sig == h + hi % h,
            hi == exponent_of(hi) * h + hi % h,
    ;
    // sum
    lemma_nearest_parts(sig * step + t, s, sig, t);
    // difference
    if t == 0 {
        lemma_nearest_exact(hi);
    } else if sig > h {
        assert(sig * step - t == (sig - 1) * step + (step - t)) by (nonlinear_arith);
        lemma_nearest_parts((sig * step - t) as nat, s, (sig - 1) as nat, (step - t) as nat);
    } else {
        assert(sig * step - t == (2 * h - 1) * half + (half - t)) by (nonlinear_arith)
            requires
                sig == h,
                step == 2 * half,
        ;
        lemma_nearest_parts(
            (sig * step - t) as nat,
            (s - 1) as nat,
            (2 * h - 1) as nat,
            (half - t) as nat,
        );
        assert((s - 1) * h + (2 * h - 1) + 1 == s * h + sig) by (nonlinear_arith)
            requires
                sig == h,
        ;
    }
}

/// Halving gives a nearest double: the half of a finite double keeps the
/// sign, and no pattern up to infinity stands for a value that is nearer to
/// half of it. Where another pattern is as near, the one that halving gives is
/// even. Twice the values are compared, so that the half needs no fraction.
pub proof fn law_half_is_nearest(s: Scalar, m: nat)
    requires
        s.finite(),
        m <= INFINITY_BITS,
    ensures
        s.half().finite(),
        s.half().negative() == s.negative(),
        distance(2 * units_of(s.half().magnitude()), units_of(s.magnitude())) <= distance(
            2 * units_of(m),
            units_of(s.magnitude()),
        ),
        distance(2 * units_of(s.half().magnitude()), units_of(s.magnitude())) == distance(
            2 * units_of(m),
            units_of(s.magnitude()),
        ) ==> m == s.half().magnitude() || s.half().magnitude() % 2 == 0,
{
    let h: nat = HIDDEN_BIT as nat;
    let a: nat = s.magnitude();
    let u: nat = units_of(a);
    let up: nat = if tips_up(u / 2, u % 2, 1) { 1 } else { 0 };
    let r: nat = nearest(u / 2 + up);
    lemma_nearest_zero(u / 2 + up);
    assert(s.half() == Scalar::signed(s.negative(), r));
    if a >= 2 * h {
        lemma_half_exact(a);
        assert(r == a - h);
    } else {
        lemma_units_bounds(a);
        assert(r == u / 2 + up);
        lemma_units_bounds(r);
    }
    assert(r < INFINITY_BITS);
    lemma_units_order(m, r);
    lemma_units_order(r, m);
}

/// A pattern under a sign is read back as that sign and that pattern.
pub proof fn lemma_signed(negative: bool, m: nat)
    requires
        m <= INFINITY_BITS,
    ensures
        Scalar::signed(negative, m).negative() == negative,
        Scalar::signed(negative, m).magnitude() == m,
        !Scalar::signed(negative, m).nan(),
        Scalar::signed(negative, m).finite() == (m < INFINITY_BITS),
{
}

/// A double is the pattern under its sign.
pub proof fn lemma_signed_self(s: Scalar)
    ensures
        Scalar::signed(s.negative(), s.magnitude()) == s,
{
}

/// Adding to zero gives the same number back.
pub proof fn lemma_zero_sum(v: Scalar)
    requires
        !v.nan(),
    ensures
        Scalar::zero().sum(v).same(v),
{
    lemma_units_bounds(0);
    lemma_units_order(v.magnitude(), 0);
    if v.finite() {
        lemma_nearest_exact(v.magnitude());
        lemma_signed(v.negative(), v.magnitude());
        lemma_signed(false, 0);
        lemma_signed_self(v);
    }
}

/// Where the exact sum of two finite doubles is the value of a third, their
/// sum is that third.
pub proof fn lemma_exact_sum(a: Scalar, b: Scalar, c: Scalar)
    requires
        a.finite(),
        b.finite(),
        c.finite(),
        a.units() + b.units() == c.units(),
    ensures
        a.sum(b).same(c),
{
    lemma_units_bounds(0);
    lemma_units_order(c.magnitude(), 0);
    lemma_nearest_exact(c.magnitude());
    lemma_signed(c.negative(), c.magnitude());
    lemma_signed(a.negative() && b.negative(), 0);
}

/// Half of a number is a number, finite where the number is, and not negative
/// where the number is not.
pub proof fn lemma_half_of_number(v: Scalar)
    requires
        !v.nan(),
    ensures
        !v.half().nan(),
        v.finite() ==> v.half().finite(),
        Scalar::zero().at_most(v) ==> Scalar::zero().at_most(v.half()),
{
    lemma_units_bounds(0);
    if v.finite() {
        let u: nat = units_of(v.magnitude());
        let q: nat = if u % 2 == 1 && (u / 2) % 2 == 1 {
            u / 2 + 1
        } else {
            u / 2
        };
        lemma_nearest_zero(q);
        lemma_signed(v.negative(), nearest(q));
        lemma_units_order(v.magnitude(), 0);
        lemma_units_order(nearest(q), 0);
        law_half_is_nearest(v, 0);
    }
}

/// Adding what is not negative does not make a number smaller. The one sum
/// left out is that of negative and positive infinity, which is not a number.
pub proof fn lemma_sum_not_below(x: Scalar, w: Scalar)
    requires
        !x.nan(),
        Scalar::zero().at_most(w),
        !(x.negative() && !x.finite() && !w.finite()),
    ensures
        x.at_most(x.sum(w)),
{
    lemma_units_bounds(0);
    lemma_units_order(w.magnitude(), 0);
    let mx: nat = x.magnitude();
    let mw: nat = w.magnitude();
    if !x.finite() {
        if !w.finite() {
            assert(!w.negative());
        }
    } else if !w.finite() {
        assert(!w.negative());
        lemma_units_order(mx, mw);
    } else {
        let v: int = x.units() + w.units();
        let nz: bool = x.negative() && w.negative();
        if v > 0 {
            let m: nat = nearest(v as nat);
            lemma_nearest_zero(v as nat);
            lemma_signed(false, m);
            if x.units() > 0 {
                lemma_nearest_increases(units_of(mx), v as nat);
                lemma_nearest_exact(mx);
                lemma_units_order(mx, m);
                lemma_units_order(m, mx);
            }
        } else if v < 0 {
            let m: nat = nearest((-v) as nat);
            lemma_nearest_zero((-v) as nat);
            lemma_signed(true, m);
            lemma_nearest_increases((-v) as nat, units_of(mx));
            lemma_nearest_exact(mx);
            lemma_units_order(mx, m);
            lemma_units_order(m, mx);
        } else {
            lemma_signed(nz, 0);
        }
    }
}

} // verus!
