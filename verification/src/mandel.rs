//! The escape-time computation: iterated complex squaring-and-offset with
//! a per-component escape threshold.

use vstd::prelude::*;
use crate::fixed::{fits_i64, fp_add, fp_mul, fp_sub, mul_value, Fp};

verus! {

/// Iteration cap of the escape-time computation.
pub const MAX_ITERATIONS: i32 = 100;

/// Escape threshold: a point escapes as soon as its real or its imaginary
/// component alone exceeds two.  The test is deliberately per-component
/// (not the magnitude test) because that is what shapes this renderer's
/// picture.
pub const ESCAPE_THRESHOLD_FP: i64 = 2_000_000;

/// A point of the complex plane in fixed-point coordinates.
#[derive(Clone, Copy, Debug, PartialEq, Eq, Structural)]
pub struct ComplexNumber {
    pub real: Fp,
    pub imaginary: Fp,
}

/// What the escape-time computation found for one grid cell.
#[derive(Clone, Copy, Debug, PartialEq, Eq, Structural)]
pub enum MandelbrotResult {
    /// The trajectory crossed the escape threshold right after the update
    /// with this 0-based index.
    Escapes(i32),
    /// The trajectory stayed under the threshold for the whole cap.
    Bounded,
    /// Placeholder of a cell whose point was not computed yet.
    Uninitialized,
}

/// A fixed-point step left the representable range; the computation is
/// aborted rather than rendered wrongly.
#[derive(Clone, Copy, Debug, PartialEq, Eq, Structural)]
pub struct OverflowError;

/// One update of the recurrence `z := z^2 + c`, with every intermediate
/// checked for representability, in the exact order the arithmetic is
/// performed: real part first, then imaginary part.
pub open spec fn step_value(zr: int, zi: int, cr: int, ci: int) -> Option<(int, int)> {
    let rr = mul_value(zr, zr);
    if !fits_i64(rr) {
        None
    } else {
        let ii = mul_value(zi, zi);
        if !fits_i64(ii) {
            None
        } else if !fits_i64(rr - ii) {
            None
        } else if !fits_i64(rr - ii + cr) {
            None
        } else {
            let ri = mul_value(zr, zi);
            if !fits_i64(ri) {
                None
            } else if !fits_i64(ri + ri) {
                None
            } else if !fits_i64(ri + ri + ci) {
                None
            } else {
                Some((rr - ii + cr, ri + ri + ci))
            }
        }
    }
}

/// The result of iterating from `z` with constant `c`, where `i` updates
/// of the cap have already happened.
pub open spec fn mandel_from(zr: int, zi: int, cr: int, ci: int, i: int, cap: int) -> Result<
    MandelbrotResult,
    OverflowError,
>
    decreases cap - i,
{
    if i >= cap {
        Ok(MandelbrotResult::Bounded)
    } else {
        match step_value(zr, zi, cr, ci) {
            None => Err(OverflowError),
            Some(z2) => {
                if z2.1 > ESCAPE_THRESHOLD_FP as int || z2.0 > ESCAPE_THRESHOLD_FP as int {
                    Ok(MandelbrotResult::Escapes(i as i32))
                } else {
                    mandel_from(z2.0, z2.1, cr, ci, i + 1, cap)
                }
            },
        }
    }
}

/// The full escape-time result for the point `c`: iteration starts at
/// `z = c` with index zero.
pub open spec fn mandelbrot_value(cr: int, ci: int, cap: int) -> Result<
    MandelbrotResult,
    OverflowError,
> {
    mandel_from(cr, ci, cr, ci, 0, cap)
}

/// One checked update of the recurrence.
fn mandel_step(z: ComplexNumber, c: ComplexNumber) -> (r: Option<ComplexNumber>)
    ensures
        match r {
            Some(z2) => step_value(
                z.real.raw as int,
                z.imaginary.raw as int,
                c.real.raw as int,
                c.imaginary.raw as int,
            ) == Some((z2.real.raw as int, z2.imaginary.raw as int)),
            None => step_value(
                z.real.raw as int,
                z.imaginary.raw as int,
                c.real.raw as int,
                c.imaginary.raw as int,
            ) is None,
        },
{
    let rr = match fp_mul(z.real, z.real) {
        Some(v) => v,
        None => {
            return None;
        },
    };
    let ii = match fp_mul(z.imaginary, z.imaginary) {
        Some(v) => v,
        None => {
            return None;
        },
    };
    let d = match fp_sub(rr, ii) {
        Some(v) => v,
        None => {
            return None;
        },
    };
    let re2 = match fp_add(d, c.real) {
        Some(v) => v,
        None => {
            return None;
        },
    };
    let ri = match fp_mul(z.real, z.imaginary) {
        Some(v) => v,
        None => {
            return None;
        },
    };
    let dbl = match fp_add(ri, ri) {
        Some(v) => v,
        None => {
            return None;
        },
    };
    let im2 = match fp_add(dbl, c.imaginary) {
        Some(v) => v,
        None => {
            return None;
        },
    };
    Some(ComplexNumber { real: re2, imaginary: im2 })
}

/// Escape-time computation for one point: the result is exactly what the
/// recurrence prescribes, or an overflow report where a fixed-point step
/// left the representable range.
pub fn get_mandelbrot_value(c: ComplexNumber) -> (r: Result<MandelbrotResult, OverflowError>)
    ensures
        r == mandelbrot_value(c.real.raw as int, c.imaginary.raw as int, MAX_ITERATIONS as int),
{
    let mut z = c;
    let mut i: i32 = 0;
    while i < MAX_ITERATIONS
        invariant
            0 <= i <= MAX_ITERATIONS,
            mandel_from(
                z.real.raw as int,
                z.imaginary.raw as int,
                c.real.raw as int,
                c.imaginary.raw as int,
                i as int,
                MAX_ITERATIONS as int,
            ) == mandelbrot_value(
                c.real.raw as int,
                c.imaginary.raw as int,
                MAX_ITERATIONS as int,
            ),
        decreases MAX_ITERATIONS - i,
    {
        let stepped = match mandel_step(z, c) {
            Some(v) => v,
            None => {
                return Err(OverflowError);
            },
        };
        if stepped.imaginary.raw > ESCAPE_THRESHOLD_FP || stepped.real.raw > ESCAPE_THRESHOLD_FP {
            return Ok(MandelbrotResult::Escapes(i));
        }
        z = stepped;
        i = i + 1;
    }
    Ok(MandelbrotResult::Bounded)
}

/// Whether an escape-time result only reports escape indices between
/// `i` (inclusive) and `cap` (exclusive), and never the placeholder.
pub open spec fn result_indices_wf(
    r: Result<MandelbrotResult, OverflowError>,
    i: int,
    cap: int,
) -> bool {
    match r {
        Ok(m) => match m {
            MandelbrotResult::Escapes(k) => i <= k as int && (k as int) < cap,
            MandelbrotResult::Bounded => true,
            MandelbrotResult::Uninitialized => false,
        },
        Err(_) => true,
    }
}

/// Every escape index the iteration can report lies between the starting
/// index and the cap, and an uninitialized marker is never reported.
pub proof fn lemma_mandel_result_wf(zr: int, zi: int, cr: int, ci: int, i: int, cap: int)
    requires
        0 <= i,
        cap <= i32::MAX as int,
    ensures
        result_indices_wf(mandel_from(zr, zi, cr, ci, i, cap), i, cap),
    decreases cap - i,
{
    if i < cap {
        match step_value(zr, zi, cr, ci) {
            None => {},
            Some(z2) => {
                if !(z2.1 > ESCAPE_THRESHOLD_FP as int || z2.0 > ESCAPE_THRESHOLD_FP as int) {
                    lemma_mandel_result_wf(z2.0, z2.1, cr, ci, i + 1, cap);
                }
            },
        }
    }
}

/// The origin never escapes: iterating from `(0, 0)` with `c = (0, 0)`
/// stays at the origin, so the result is `Bounded` for every cap.
pub proof fn lemma_origin_bounded(cap: int)
    requires
        0 <= cap,
    ensures
        mandelbrot_value(0, 0, cap) == Ok::<MandelbrotResult, OverflowError>(
            MandelbrotResult::Bounded,
        ),
{
    lemma_origin_bounded_from(0, cap);
}

proof fn lemma_origin_bounded_from(i: int, cap: int)
    requires
        0 <= i,
    ensures
        mandel_from(0, 0, 0, 0, i, cap) == Ok::<MandelbrotResult, OverflowError>(
            MandelbrotResult::Bounded,
        ),
    decreases cap - i,
{
    if i < cap {
        assert(step_value(0, 0, 0, 0) == Some((0int, 0int)));
        lemma_origin_bounded_from(i + 1, cap);
    }
}

} // verus!
