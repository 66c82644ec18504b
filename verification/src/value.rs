//! How the value of a double follows its bit pattern: bounds on the value by
//! the exponent, and the order of values as the order of patterns.

use vstd::prelude::*;
use vstd::arithmetic::power2::{
    pow2, lemma_pow2_adds, lemma_pow2_pos, lemma_pow2_strictly_increases, lemma2_to64,
    lemma2_to64_rest,
};
use vstd::arithmetic::mul::{lemma_mul_inequality, lemma_mul_strict_inequality};
use crate::scalar::{HIDDEN_BIT, exponent_of, significand_of, shift_of, units_of};

verus! {

/// Powers of two grow with the exponent.
pub proof fn lemma_pow2_increases(a: nat, b: nat)
    requires
        a <= b,
    ensures
        pow2(a) <= pow2(b),
{
    if a < b {
        lemma_pow2_strictly_increases(a, b);
    }
}

/// The significand of a normal number has 53 bits; that of a subnormal one is
/// the pattern itself and has fewer.
pub proof fn lemma_significand_bounds(m: nat)
    ensures
        exponent_of(m) == 0 ==> significand_of(m) == m && m < pow2(52),
        exponent_of(m) > 0 ==> pow2(52) <= significand_of(m) < pow2(53),
        m == exponent_of(m) * pow2(52) + m % pow2(52),
        pow2(52) == HIDDEN_BIT,
        pow2(53) == 2 * HIDDEN_BIT,
{
    lemma2_to64_rest();
}

/// A pattern with exponent field 0 or 1 is its own value in units. Any other
/// lies between two neighbouring powers of two, fixed by its exponent.
pub proof fn lemma_units_bounds(m: nat)
    ensures
        exponent_of(m) <= 1 ==> units_of(m) == m,
        exponent_of(m) >= 1 ==> pow2(52 + shift_of(m)) <= units_of(m) < pow2(53 + shift_of(m)),
        exponent_of(m) == 0 ==> units_of(m) < pow2(52),
{
    lemma2_to64();
    lemma_significand_bounds(m);
    let s: nat = shift_of(m);
    let sig: nat = significand_of(m);
    lemma_pow2_pos(s);
    if exponent_of(m) >= 1 {
        lemma_mul_inequality(pow2(52) as int, sig as int, pow2(s) as int);
        lemma_mul_strict_inequality(sig as int, pow2(53) as int, pow2(s) as int);
        lemma_pow2_adds(52, s);
        lemma_pow2_adds(53, s);
    }
    if exponent_of(m) <= 1 {
        assert(s == 0);
        assert(sig * 1 == sig);
    }
}

/// A larger pattern stands for a larger value.
pub proof fn lemma_units_increasing(a: nat, b: nat)
    requires
        a < b,
    ensures
        units_of(a) < units_of(b),
{
    lemma_significand_bounds(a);
    lemma_significand_bounds(b);
    lemma_units_bounds(a);
    lemma_units_bounds(b);
    let ea: nat = exponent_of(a);
    let eb: nat = exponent_of(b);
    assert(ea <= eb) by {
        if ea > eb {
            assert(ea * pow2(52) >= (eb + 1) * pow2(52)) by (nonlinear_arith)
                requires
                    ea >= eb + 1,
            ;
        }
    }
    if ea == eb {
        if ea > 0 {
            lemma_pow2_pos(shift_of(a));
            lemma_mul_strict_inequality(
                significand_of(a) as int,
                significand_of(b) as int,
                pow2(shift_of(a)) as int,
            );
        }
    } else if ea == 0 {
        lemma_pow2_increases(52, 52 + shift_of(b));
    } else {
        lemma_pow2_increases(53 + shift_of(a), 52 + shift_of(b));
    }
}

/// Values are ordered as their patterns are.
pub proof fn lemma_units_order(a: nat, b: nat)
    ensures
        a < b <==> units_of(a) < units_of(b),
        a == b <==> units_of(a) == units_of(b),
        a == 0 <==> units_of(a) == 0,
{
    if a < b {
        lemma_units_increasing(a, b);
    }
    if b < a {
        lemma_units_increasing(b, a);
    }
    lemma_units_bounds(0);
    if 0 < a {
        lemma_units_increasing(0, a);
    }
}

} // verus!
