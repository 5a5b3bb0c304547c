//! Fixed-point plane coordinates.
//!
//! Every coordinate of the complex plane is held as a signed count of
//! millionths, so the whole renderer works on plain integers and each
//! arithmetic step has an exact, machine-checked meaning.  An operation
//! whose true result leaves the representable range reports `None`
//! instead of wrapping or saturating.

use vstd::prelude::*;
use vstd::arithmetic::div_mod::{
    lemma_div_is_ordered, lemma_div_nonincreasing, lemma_div_pos_is_pos,
};

verus! {

/// Number of fractional units in one whole: a coordinate is a count of
/// units of `1 / SCALE`.
pub const SCALE: i64 = 1_000_000;

/// A fixed-point number; `raw` counts units of `1 / SCALE`.
#[derive(Clone, Copy, Debug, PartialEq, Eq, Structural)]
pub struct Fp {
    pub raw: i64,
}

/// Magnitude of an integer.
pub open spec fn mag(x: int) -> int {
    if x >= 0 {
        x
    } else {
        -x
    }
}

/// Whether a mathematical integer is representable as a raw `i64` count.
pub open spec fn fits_i64(v: int) -> bool {
    i64::MIN as int <= v <= i64::MAX as int
}

/// Integer division truncated toward zero, for a positive divisor: the
/// rounding that every fixed-point operation here uses.
pub open spec fn div_trunc(a: int, b: int) -> int {
    if a >= 0 {
        a / b
    } else {
        -((-a) / b)
    }
}

/// Raw count of the product of two fixed-point numbers.
pub open spec fn mul_value(a: int, b: int) -> int {
    div_trunc(a * b, SCALE as int)
}

/// Raw count of the quotient of two fixed-point numbers.
pub open spec fn div_value(a: int, b: int) -> int {
    div_trunc(a * SCALE as int, b)
}

/// How every checked operation packages its result: the exact value when
/// it is representable, `None` otherwise.
pub open spec fn fp_result(v: int) -> Option<Fp> {
    if fits_i64(v) {
        Some(Fp { raw: v as i64 })
    } else {
        None
    }
}

/// Truncating division has the magnitude of the floor division of the
/// magnitudes, with the dividend's sign.
pub proof fn lemma_div_trunc_mag(a: int, b: int)
    requires
        b >= 1,
    ensures
        mag(div_trunc(a, b)) == mag(a) / b,
        a >= 0 ==> div_trunc(a, b) >= 0,
        a < 0 ==> div_trunc(a, b) <= 0,
{
    if a >= 0 {
        lemma_div_pos_is_pos(a, b);
    } else {
        lemma_div_pos_is_pos(-a, b);
    }
}

/// The magnitude of a truncating division never exceeds the dividend's.
pub proof fn lemma_div_trunc_le(a: int, b: int)
    requires
        b >= 1,
    ensures
        mag(div_trunc(a, b)) <= mag(a),
{
    lemma_div_trunc_mag(a, b);
    lemma_div_nonincreasing(mag(a), b);
}

/// Dividends ordered by magnitude give truncating quotients ordered by
/// magnitude.
pub proof fn lemma_div_trunc_mag_ordered(a: int, c: int, b: int)
    requires
        b >= 1,
        mag(a) <= c,
    ensures
        mag(div_trunc(a, b)) <= c / b,
{
    lemma_div_trunc_mag(a, b);
    lemma_div_is_ordered(mag(a), c, b);
}

/// Magnitude of an `i64`, widened so that even `i64::MIN` has one.
fn abs_u128(x: i64) -> (r: u128)
    ensures
        r as int == mag(x as int),
{
    if x >= 0 {
        x as u128
    } else {
        (-(x as i128)) as u128
    }
}

/// Checked fixed-point addition: the exact sum when it is representable.
pub fn fp_add(a: Fp, b: Fp) -> (r: Option<Fp>)
    ensures
        r == fp_result(a.raw as int + b.raw as int),
{
    let s: i128 = a.raw as i128 + b.raw as i128;
    if i64::MIN as i128 <= s && s <= i64::MAX as i128 {
        Some(Fp { raw: s as i64 })
    } else {
        None
    }
}

/// Checked fixed-point subtraction: the exact difference when it is
/// representable.
pub fn fp_sub(a: Fp, b: Fp) -> (r: Option<Fp>)
    ensures
        r == fp_result(a.raw as int - b.raw as int),
{
    let s: i128 = a.raw as i128 - b.raw as i128;
    if i64::MIN as i128 <= s && s <= i64::MAX as i128 {
        Some(Fp { raw: s as i64 })
    } else {
        None
    }
}

/// Checked fixed-point multiplication, truncated toward zero.
pub fn fp_mul(a: Fp, b: Fp) -> (r: Option<Fp>)
    ensures
        r == fp_result(mul_value(a.raw as int, b.raw as int)),
{
    let ghost av = a.raw as int;
    let ghost bv = b.raw as int;
    let neg: bool = (a.raw < 0) != (b.raw < 0);
    let ma: u128 = abs_u128(a.raw);
    let mb: u128 = abs_u128(b.raw);
    proof {
        assert(ma * mb <= 0x8000_0000_0000_0000u128 * 0x8000_0000_0000_0000u128)
            by (nonlinear_arith)
            requires
                ma <= 0x8000_0000_0000_0000u128,
                mb <= 0x8000_0000_0000_0000u128,
        ;
        if av >= 0 && bv >= 0 {
            assert(av * bv >= 0 && ma as int * mb as int == av * bv) by (nonlinear_arith)
                requires
                    av >= 0,
                    bv >= 0,
                    ma as int == av,
                    mb as int == bv,
            ;
        } else if av >= 0 && bv < 0 {
            assert(av * bv <= 0 && ma as int * mb as int == -(av * bv)) by (nonlinear_arith)
                requires
                    av >= 0,
                    bv < 0,
                    ma as int == av,
                    mb as int == -bv,
            ;
        } else if av < 0 && bv >= 0 {
            assert(av * bv <= 0 && ma as int * mb as int == -(av * bv)) by (nonlinear_arith)
                requires
                    av < 0,
                    bv >= 0,
                    ma as int == -av,
                    mb as int == bv,
            ;
        } else {
            assert(av * bv >= 0 && ma as int * mb as int == av * bv) by (nonlinear_arith)
                requires
                    av < 0,
                    bv < 0,
                    ma as int == -av,
                    mb as int == -bv,
            ;
        }
        assert(ma as int * mb as int == mag(av * bv));
    }
    let p: u128 = ma * mb;
    let q: u128 = p / (SCALE as u128);
    proof {
        lemma_div_trunc_mag(av * bv, SCALE as int);
    }
    finish_signed_division(q, neg, Ghost(av * bv), Ghost(SCALE as int))
}

/// Checked fixed-point division by a positive divisor, truncated toward
/// zero.
pub fn fp_div(a: Fp, b: Fp) -> (r: Option<Fp>)
    requires
        b.raw > 0,
    ensures
        r == fp_result(div_value(a.raw as int, b.raw as int)),
{
    let ghost av = a.raw as int;
    let ghost bv = b.raw as int;
    let neg: bool = a.raw < 0;
    let ma: u128 = abs_u128(a.raw);
    proof {
        assert(ma * (SCALE as u128) <= 0x8000_0000_0000_0000u128 * 1_000_000u128)
            by (nonlinear_arith)
            requires
                ma <= 0x8000_0000_0000_0000u128,
        ;
        if av >= 0 {
            assert(av * SCALE as int >= 0 && ma as int * SCALE as int == av * SCALE as int)
                by (nonlinear_arith)
                requires
                    av >= 0,
                    ma as int == av,
                    SCALE as int > 0,
            ;
        } else {
            assert(av * SCALE as int <= 0 && ma as int * SCALE as int == -(av * SCALE as int))
                by (nonlinear_arith)
                requires
                    av < 0,
                    ma as int == -av,
                    SCALE as int > 0,
            ;
        }
        assert(ma as int * SCALE as int == mag(av * SCALE as int));
    }
    let p: u128 = ma * (SCALE as u128);
    let q: u128 = p / (b.raw as u128);
    proof {
        lemma_div_trunc_mag(av * SCALE as int, bv);
    }
    finish_signed_division(q, neg, Ghost(av * SCALE as int), Ghost(bv))
}

/// Reattaches the sign to the quotient of magnitudes and checks that the
/// signed value is representable.
fn finish_signed_division(q: u128, neg: bool, Ghost(num): Ghost<int>, Ghost(den): Ghost<int>) -> (r:
    Option<Fp>)
    requires
        den >= 1,
        q as int == mag(num) / den,
        neg ==> num <= 0,
        !neg ==> num >= 0,
    ensures
        r == fp_result(div_trunc(num, den)),
{
    proof {
        lemma_div_trunc_mag(num, den);
    }
    if neg {
        if q <= 0x8000_0000_0000_0000u128 {
            Some(Fp { raw: (-(q as i128)) as i64 })
        } else {
            None
        }
    } else {
        if q <= i64::MAX as u128 {
            Some(Fp { raw: q as i64 })
        } else {
            None
        }
    }
}

/// A whole number of grid cells as a fixed-point coordinate.
pub fn fp_from_usize(w: usize) -> (r: Fp)
    requires
        w * SCALE as int <= i64::MAX as int,
    ensures
        r.raw as int == w * SCALE as int,
{
    proof {
        assert(w <= i64::MAX as int) by (nonlinear_arith)
            requires
                w * SCALE as int <= i64::MAX as int,
                SCALE as int >= 1,
                w >= 0,
        ;
    }
    Fp { raw: (w as i64) * SCALE }
}

} // verus!
