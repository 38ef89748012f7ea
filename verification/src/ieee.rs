//! Single-precision numbers as their bit patterns.
//!
//! A pattern is a sign bit above a magnitude; on numbers, greater magnitude
//! patterns are greater absolute values. So finiteness, signs and comparisons
//! of numbers are decided here without arithmetic on them.

use vstd::prelude::*;

verus! {

/// Pattern of the sign bit.
pub const SIGN: u32 = 0x8000_0000;

/// Magnitude pattern of infinity; beyond it lie patterns that are no number.
pub const INFINITE: u32 = 0x7f80_0000;

pub open spec fn magnitude(bits: u32) -> int {
    if bits < SIGN {
        bits as int
    } else {
        bits - SIGN
    }
}

pub open spec fn spec_is_finite(bits: u32) -> bool {
    magnitude(bits) < INFINITE
}

pub open spec fn spec_is_nan(bits: u32) -> bool {
    magnitude(bits) > INFINITE
}

/// Less than zero.
pub open spec fn spec_is_negative(bits: u32) -> bool {
    bits > SIGN && !spec_is_nan(bits)
}

/// Finite and greater than zero.
pub open spec fn spec_is_positive_finite(bits: u32) -> bool {
    0 < bits < INFINITE
}

/// A number whose order is that of the numbers the patterns stand for. Both
/// zeros have one key.
pub open spec fn spec_order_key(bits: u32) -> int {
    if bits < SIGN {
        magnitude(bits)
    } else {
        -magnitude(bits)
    }
}

pub fn is_finite(bits: u32) -> (res: bool)
    ensures
        res == spec_is_finite(bits),
{
    if bits < SIGN {
        bits < INFINITE
    } else {
        bits - SIGN < INFINITE
    }
}

pub fn is_nan(bits: u32) -> (res: bool)
    ensures
        res == spec_is_nan(bits),
{
    if bits < SIGN {
        bits > INFINITE
    } else {
        bits - SIGN > INFINITE
    }
}

pub fn is_negative(bits: u32) -> (res: bool)
    ensures
        res == spec_is_negative(bits),
{
    bits > SIGN && bits - SIGN <= INFINITE
}

pub fn is_positive_finite(bits: u32) -> (res: bool)
    ensures
        res == spec_is_positive_finite(bits),
{
    0 < bits && bits < INFINITE
}

pub fn order_key(bits: u32) -> (res: i64)
    ensures
        res == spec_order_key(bits),
{
    if bits < SIGN {
        bits as i64
    } else {
        -((bits - SIGN) as i64)
    }
}

/// The magnitude that a pattern stands for, in units of the smallest positive
/// number. An exponent field of 0 means the fraction alone; any other field
/// puts a leading one above the 23 bits of fraction and doubles with each
/// step. Infinity is given the value that comes next after the greatest number.
pub open spec fn units(magnitude: int) -> int {
    let (exponent, fraction) = (magnitude / 0x80_0000, magnitude % 0x80_0000);
    if exponent == 0 {
        fraction
    } else {
        (0x80_0000 + fraction) * vstd::arithmetic::power2::pow2((exponent - 1) as nat)
    }
}

/// The number that a pattern stands for, in the same units: the top bit is the
/// sign.
pub open spec fn number(bits: u32) -> int {
    if bits < 0x8000_0000 {
        units(bits as int)
    } else {
        -units(bits - 0x8000_0000)
    }
}

proof fn lemma_units_increase(a: int, b: int)
    requires
        0 <= a < b,
    ensures
        0 <= units(a) < units(b),
{
    let (ea, fa) = (a / 0x80_0000, a % 0x80_0000);
    let (eb, fb) = (b / 0x80_0000, b % 0x80_0000);
    assert(a == 0x80_0000 * ea + fa && 0 <= fa < 0x80_0000);
    assert(b == 0x80_0000 * eb + fb && 0 <= fb < 0x80_0000);
    assert(0 <= ea <= eb);
    if eb > 0 {
        let pb = vstd::arithmetic::power2::pow2((eb - 1) as nat) as int;
        vstd::arithmetic::power2::lemma_pow2_pos((eb - 1) as nat);
        assert((0x80_0000 + fb) * pb >= 0x80_0000 * pb && 0x80_0000 * pb >= 0x80_0000) by (nonlinear_arith)
            requires
                fb >= 0,
                pb >= 1,
        ;
        if ea > 0 {
            let pa = vstd::arithmetic::power2::pow2((ea - 1) as nat) as int;
            vstd::arithmetic::power2::lemma_pow2_pos((ea - 1) as nat);
            assert((0x80_0000 + fa) * pa > 0) by (nonlinear_arith)
                requires
                    fa >= 0,
                    pa >= 1,
            ;
            if ea == eb {
                assert((0x80_0000 + fa) * pa < (0x80_0000 + fb) * pa) by (nonlinear_arith)
                    requires
                        fa < fb,
                        pa >= 1,
                ;
            } else {
                vstd::arithmetic::power2::lemma_pow2_unfold(ea as nat);
                if ea < eb - 1 {
                    vstd::arithmetic::power2::lemma_pow2_strictly_increases(ea as nat, (eb - 1) as nat);
                }
                assert(pb >= 2 * pa);
                assert((0x80_0000 + fa) * pa < 0x80_0000 * pb) by (nonlinear_arith)
                    requires
                        fa < 0x80_0000,
                        pa >= 1,
                        pb >= 2 * pa,
                ;
            }
        }
    }
}

/// Law: patterns are ordered as the numbers they stand for, and have one key
/// exactly when they stand for one number.
pub proof fn law_keys_order_as_the_numbers_do(a: u32, b: u32)
    ensures
        spec_order_key(a) < spec_order_key(b) <==> number(a) < number(b),
        spec_order_key(a) == spec_order_key(b) <==> number(a) == number(b),
{
    let ma = if a < 0x8000_0000 { a as int } else { a - 0x8000_0000 };
    let mb = if b < 0x8000_0000 { b as int } else { b - 0x8000_0000 };
    assert(units(0) == 0);
    if ma > 0 {
        lemma_units_increase(0, ma);
    }
    if mb > 0 {
        lemma_units_increase(0, mb);
    }
    if ma < mb {
        lemma_units_increase(ma, mb);
    } else if mb < ma {
        lemma_units_increase(mb, ma);
    }
}

/// Law: a pattern stands for a finite number when its exponent field is not
/// all ones; with all ones it is infinite where the fraction is 0 and no number
/// elsewhere. The sign changes neither.
pub proof fn law_exponent_tells_finite_from_infinite(bits: u32)
    ensures
        spec_is_finite(bits) <==> (bits / 0x80_0000) % 256 != 255,
        spec_is_nan(bits) <==> (bits / 0x80_0000) % 256 == 255 && bits % 0x80_0000 != 0,
{
}

/// Law: signs are those of the numbers. A zero is neither negative nor
/// positive, whichever sign it carries.
pub proof fn law_signs_are_those_of_the_numbers(bits: u32)
    ensures
        spec_is_negative(bits) <==> number(bits) < 0 && !spec_is_nan(bits),
        spec_is_positive_finite(bits) <==> number(bits) > 0 && spec_is_finite(bits),
{
    assert(units(0) == 0);
    let m = if bits < 0x8000_0000 { bits as int } else { bits - 0x8000_0000 };
    if m > 0 {
        lemma_units_increase(0, m);
    }
}

/// Law: whatever is told of patterns is true of the numbers they stand for.
pub proof fn law_answers_are_true_of_the_numbers(
    a: u32,
    b: u32,
    ka: i64,
    kb: i64,
    finite: bool,
    nan: bool,
    negative: bool,
    positive: bool,
)
    requires
        call_ensures(order_key, (a,), ka),
        call_ensures(order_key, (b,), kb),
        call_ensures(is_finite, (a,), finite),
        call_ensures(is_nan, (a,), nan),
        call_ensures(is_negative, (a,), negative),
        call_ensures(is_positive_finite, (a,), positive),
    ensures
        ka < kb <==> number(a) < number(b),
        ka == kb <==> number(a) == number(b),
        finite <==> (a / 0x80_0000) % 256 != 255,
        nan <==> !finite && a % 0x80_0000 != 0,
        negative <==> number(a) < 0 && !nan,
        positive <==> number(a) > 0 && finite,
{
    law_keys_order_as_the_numbers_do(a, b);
    law_exponent_tells_finite_from_infinite(a);
    law_signs_are_those_of_the_numbers(a);
}

} // verus!
