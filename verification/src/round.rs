//! Rounding a whole number of units to the nearest double, half-way cases to
//! the even significand.

use vstd::prelude::*;
use vstd::arithmetic::power2::{
    pow2, lemma_pow2_adds, lemma_pow2_pos, lemma_pow2_unfold, lemma2_to64, lemma2_to64_rest,
};
use vstd::arithmetic::div_mod::{
    lemma_fundamental_div_mod, lemma_fundamental_div_mod_converse, lemma_div_is_ordered,
    lemma_div_by_multiple, lemma_multiply_divide_lt, lemma_mod_bound,
};
use vstd::arithmetic::mul::{
    lemma_mul_inequality, lemma_mul_is_commutative, lemma_mul_is_distributive_add_other_way,
};
use crate::scalar::{HIDDEN_BIT, INFINITY_BITS, exponent_of, significand_of, shift_of, units_of};
use crate::value::{
    lemma_pow2_increases, lemma_significand_bounds, lemma_units_bounds, lemma_units_order,
};

verus! {

/// The number of binary digits of `n`: 0 for 0, else the `len` for which
/// `n` lies from 2^(len-1) up to, not including, 2^len.
pub open spec fn bit_length(n: nat) -> nat
    decreases n,
{
    if n == 0 {
        0
    } else {
        1 + bit_length(n / 2)
    }
}

/// Whether a number that was cut to `kept`, leaving `rest` of which `half`
/// is the middle, is nearer to `kept + 1`: above the middle it is, and in the
/// middle it goes to the even one of the two.
pub open spec fn tips_up(kept: nat, rest: nat, half: nat) -> bool {
    rest > half || (rest == half && kept % 2 == 1)
}

/// A pattern at or beyond infinity is infinity.
pub open spec fn capped(m: nat) -> nat {
    if m >= INFINITY_BITS {
        INFINITY_BITS as nat
    } else {
        m
    }
}

/// The pattern made of 53 kept bits, the count of bits dropped below them, and
/// one more where the dropped bits tip up. The count stands right above the
/// kept bits, so a carry out of them moves on to the next exponent by itself.
pub open spec fn assembled(drop: nat, kept: nat, up: bool) -> nat {
    capped(drop * (HIDDEN_BIT as nat) + kept + if up { 1nat } else { 0nat })
}

/// The bit pattern of the non-negative double nearest to `u` units. Up to 53
/// bits are kept as they are. Of a longer number the leading 53 bits are kept
/// and the rest decides whether one is added.
pub open spec fn nearest(u: nat) -> nat {
    if u < 2 * HIDDEN_BIT {
        u
    } else {
        let drop: nat = (bit_length(u) - 53) as nat;
        let kept: nat = u / pow2(drop);
        let rest: nat = u % pow2(drop);
        let half: nat = pow2((drop - 1) as nat);
        assembled(drop, kept, tips_up(kept, rest, half))
    }
}

/// A number between two neighbouring powers of two has as many digits as the
/// upper one's exponent says.
pub proof fn lemma_bit_length(u: nat, len: nat)
    requires
        len >= 1,
        pow2((len - 1) as nat) <= u < pow2(len),
    ensures
        bit_length(u) == len,
    decreases len,
{
    lemma2_to64();
    if len == 1 {
        assert(u == 1);
        assert(bit_length(0) == 0);
        assert(bit_length(1) == 1 + bit_length(0));
    } else {
        lemma_pow2_unfold(len);
        lemma_pow2_unfold((len - 1) as nat);
        lemma_bit_length(u / 2, (len - 1) as nat);
    }
}

/// A positive number lies between the two powers of two that its digit count
/// names.
pub proof fn lemma_bit_length_bounds(u: nat)
    requires
        u > 0,
    ensures
        bit_length(u) >= 1,
        pow2((bit_length(u) - 1) as nat) <= u < pow2(bit_length(u)),
    decreases u,
{
    lemma2_to64();
    if u == 1 {
        assert(bit_length(0) == 0);
        assert(bit_length(1) == 1 + bit_length(0));
    } else {
        lemma_bit_length_bounds(u / 2);
        let len: nat = bit_length(u / 2);
        assert(bit_length(u) == 1 + len);
        lemma_pow2_unfold(len);
        lemma_pow2_unfold(1 + len);
    }
}

/// Rounding, from a cut into 53 leading bits and a rest.
pub proof fn lemma_nearest_parts(u: nat, drop: nat, kept: nat, rest: nat)
    requires
        drop >= 1,
        HIDDEN_BIT <= kept < 2 * HIDDEN_BIT,
        rest < pow2(drop),
        u == kept * pow2(drop) + rest,
    ensures
        bit_length(u) == 53 + drop,
        u >= 2 * HIDDEN_BIT,
        u / pow2(drop) == kept,
        u % pow2(drop) == rest,
        nearest(u) == assembled(drop, kept, tips_up(kept, rest, pow2((drop - 1) as nat))),
{
    lemma2_to64_rest();
    let p: nat = pow2(drop);
    lemma_pow2_pos(drop);
    lemma_pow2_adds(52, drop);
    lemma_pow2_adds(53, drop);
    lemma_mul_inequality(pow2(52) as int, kept as int, p as int);
    lemma_mul_inequality((kept + 1) as int, pow2(53) as int, p as int);
    lemma_mul_is_distributive_add_other_way(p as int, kept as int, 1);
    assert(pow2(52 + drop) <= u < pow2(53 + drop));
    lemma_bit_length(u, 53 + drop);
    lemma_pow2_increases(53, 52 + drop);
    lemma_fundamental_div_mod_converse(u as int, p as int, kept as int, rest as int);
}

/// A double is the nearest double to its own value.
pub proof fn lemma_nearest_exact(m: nat)
    requires
        m <= INFINITY_BITS,
    ensures
        nearest(units_of(m)) == m,
{
    lemma2_to64_rest();
    lemma_significand_bounds(m);
    lemma_units_bounds(m);
    if exponent_of(m) > 1 {
        let s: nat = shift_of(m);
        lemma_pow2_pos(s);
        lemma_pow2_pos((s - 1) as nat);
        lemma_nearest_parts(units_of(m), s, significand_of(m), 0);
        assert(s * HIDDEN_BIT + significand_of(m) == m) by (nonlinear_arith)
            requires
                s + 1 == exponent_of(m),
                significand_of(m) == HIDDEN_BIT + m % (HIDDEN_BIT as nat),
                m == exponent_of(m) * (HIDDEN_BIT as nat) + m % (HIDDEN_BIT as nat),
        ;
    }
}

/// Only zero rounds to zero, and nothing rounds beyond infinity.
pub proof fn lemma_nearest_zero(u: nat)
    ensures
        nearest(u) == 0 <==> u == 0,
        nearest(u) <= INFINITY_BITS,
{
    if u >= 2 * HIDDEN_BIT {
        lemma_cut(u);
        let drop: nat = (bit_length(u) - 53) as nat;
        let h: nat = HIDDEN_BIT as nat;
        assert(drop * h >= h) by (nonlinear_arith)
            requires
                drop >= 1,
        ;
    }
}

/// The cut of a number of more than 53 digits: its leading 53 digits, and a
/// rest below them that decides which way it is rounded.
pub proof fn lemma_cut(u: nat)
    requires
        u >= 2 * HIDDEN_BIT,
    ensures
        bit_length(u) >= 54,
        HIDDEN_BIT <= u / pow2((bit_length(u) - 53) as nat) < 2 * HIDDEN_BIT,
        u % pow2((bit_length(u) - 53) as nat) < pow2((bit_length(u) - 53) as nat),
        u == (u / pow2((bit_length(u) - 53) as nat)) * pow2((bit_length(u) - 53) as nat) + u % pow2(
            (bit_length(u) - 53) as nat,
        ),
        nearest(u) == assembled(
            (bit_length(u) - 53) as nat,
            u / pow2((bit_length(u) - 53) as nat),
            tips_up(
                u / pow2((bit_length(u) - 53) as nat),
                u % pow2((bit_length(u) - 53) as nat),
                pow2((bit_length(u) - 54) as nat),
            ),
        ),
{
    lemma2_to64_rest();
    lemma_bit_length_bounds(u);
    let len: nat = bit_length(u);
    if len < 54 {
        lemma_pow2_increases(len, 53);
    }
    let drop: nat = (len - 53) as nat;
    let p: nat = pow2(drop);
    lemma_pow2_pos(drop);
    lemma_pow2_adds(52, drop);
    lemma_pow2_adds(53, drop);
    lemma_fundamental_div_mod(u as int, p as int);
    lemma_mod_bound(u as int, p as int);
    lemma_mul_is_commutative(pow2(52) as int, p as int);
    lemma_div_by_multiple(pow2(52) as int, p as int);
    lemma_div_is_ordered((pow2(52) * p) as int, u as int, p as int);
    lemma_multiply_divide_lt(u as int, p as int, pow2(53) as int);
    lemma_mul_is_commutative(p as int, (u / p) as int);
}

/// A larger number has no fewer digits.
pub proof fn lemma_bit_length_increases(u: nat, v: nat)
    requires
        u <= v,
    ensures
        bit_length(u) <= bit_length(v),
{
    if u > 0 && bit_length(u) > bit_length(v) {
        lemma_bit_length_bounds(u);
        lemma_bit_length_bounds(v);
        lemma_pow2_increases(bit_length(v), (bit_length(u) - 1) as nat);
    }
}

/// Rounding keeps the order: a larger number does not round to a smaller
/// double.
pub proof fn lemma_nearest_increases(u: nat, v: nat)
    requires
        u <= v,
    ensures
        nearest(u) <= nearest(v),
{
    let h: nat = HIDDEN_BIT as nat;
    if v >= 2 * h {
        lemma_cut(v);
        let dv: nat = (bit_length(v) - 53) as nat;
        let kv: nat = v / pow2(dv);
        let rv: nat = v % pow2(dv);
        assert(dv * h + kv >= 2 * h) by (nonlinear_arith)
            requires
                dv >= 1,
                kv >= h,
        ;
        if u >= 2 * h {
            lemma_cut(u);
            lemma_bit_length_increases(u, v);
            let du: nat = (bit_length(u) - 53) as nat;
            let ku: nat = u / pow2(du);
            let ru: nat = u % pow2(du);
            if du < dv {
                assert(du * h + ku + 1 <= dv * h + kv) by (nonlinear_arith)
                    requires
                        du + 1 <= dv,
                        ku < 2 * h,
                        kv >= h,
                ;
            } else {
                lemma_pow2_pos(du);
                lemma_div_is_ordered(u as int, v as int, pow2(du) as int);
                if ku == kv {
                    assert(ru <= rv);
                }
            }
        }
    }
}

/// How far two numbers are apart.
pub open spec fn distance(a: nat, b: nat) -> nat {
    if a >= b {
        (a - b) as nat
    } else {
        (b - a) as nat
    }
}

/// The pattern with the count `drop` above the bits `kept` stands for `kept`
/// times 2^drop units. With all 53 bits set and one more, the pattern is the
/// first of the next exponent.
pub proof fn lemma_assembled_units(drop: nat, kept: nat)
    requires
        drop >= 1,
        HIDDEN_BIT <= kept <= 2 * HIDDEN_BIT,
    ensures
        units_of(drop * (HIDDEN_BIT as nat) + kept) == kept * pow2(drop),
{
    let h: nat = HIDDEN_BIT as nat;
    let m: nat = drop * h + kept;
    lemma_significand_bounds(m);
    if kept < 2 * h {
        assert(m == (drop + 1) * h + (kept - h)) by (nonlinear_arith)
            requires
                m == drop * h + kept,
        ;
        lemma_fundamental_div_mod_converse(m as int, h as int, (drop + 1) as int, kept - h);
        assert(exponent_of(m) == drop + 1);
        assert(significand_of(m) == kept);
        assert(shift_of(m) == drop);
    } else {
        assert(m == (drop + 2) * h + 0) by (nonlinear_arith)
            requires
                m == drop * h + kept,
                kept == 2 * h,
        ;
        lemma_fundamental_div_mod_converse(m as int, h as int, (drop + 2) as int, 0);
        assert(exponent_of(m) == drop + 2);
        assert(significand_of(m) == h);
        assert(shift_of(m) == drop + 1);
        lemma_pow2_unfold(drop + 1);
        assert(h * pow2(drop + 1) == kept * pow2(drop)) by (nonlinear_arith)
            requires
                kept == 2 * h,
                pow2(drop + 1) == 2 * pow2(drop),
        ;
    }
}

/// Rounding gives a nearest double: no pattern up to infinity stands for a
/// value that is nearer to `u`, infinity taken as 2^2098 units. Where another
/// pattern is as near, the one that rounding gives is even.
pub proof fn law_nearest_is_nearest(u: nat, m: nat)
    requires
        m <= INFINITY_BITS,
    ensures
        nearest(u) <= INFINITY_BITS,
        distance(units_of(nearest(u)), u) <= distance(units_of(m), u),
        distance(units_of(nearest(u)), u) == distance(units_of(m), u) ==> m == nearest(u)
            || nearest(u) % 2 == 0,
{
    let h: nat = HIDDEN_BIT as nat;
    let r: nat = nearest(u);
    lemma_nearest_zero(u);
    lemma_units_order(m, r);
    lemma_units_order(r, m);
    if u < 2 * h {
        lemma_units_bounds(u);
    } else {
        lemma_cut(u);
        let d: nat = (bit_length(u) - 53) as nat;
        let p: nat = pow2(d);
        let half: nat = pow2((d - 1) as nat);
        let k: nat = u / p;
        let rest: nat = u % p;
        let up: bool = tips_up(k, rest, half);
        let low: nat = d * h + k;
        lemma_pow2_unfold(d);
        lemma_assembled_units(d, k);
        lemma_assembled_units(d, k + 1);
        assert((k + 1) * p == k * p + p) by (nonlinear_arith);
        assert(low % 2 == k % 2) by (nonlinear_arith)
            requires
                low == d * h + k,
                h == 0x0010_0000_0000_0000,
        ;
        if low >= INFINITY_BITS {
            lemma_units_order(low, INFINITY_BITS as nat);
            lemma_units_order(INFINITY_BITS as nat, low);
            lemma_units_order(m, INFINITY_BITS as nat);
            lemma_units_order(INFINITY_BITS as nat, m);
            assert(r == INFINITY_BITS);
        } else {
            assert(r == if up { low + 1 } else { low });
            lemma_units_order(m, low);
            lemma_units_order(low, m);
            lemma_units_order(m, low + 1);
            lemma_units_order(low + 1, m);
        }
    }
}

} // verus!
