//! Mapping a pixel of the character grid to a point of the complex plane.
//!
//! The mapping is scale-driven: the plane's lower bound is folded into an
//! offset term `low * size / range`, and the sum is multiplied by the
//! common scale factor (with the aspect compensation on the vertical
//! axis).  It is kept in exactly this shape, rather than rewritten as a
//! linear interpolation between the plane bounds, because the rendered
//! picture depends on it.

use vstd::prelude::*;
use crate::fixed::{div_value, fits_i64, fp_add, fp_div, fp_from_usize, fp_mul, mul_value, Fp, SCALE};
use crate::mandel::ComplexNumber;

verus! {

/// Right edge of the plane window (0.47).
pub const UPPER_MANDELBROT_X_FP: i64 = 470_000;

/// Left edge of the plane window (-2.0).
pub const LOWER_MANDELBROT_X_FP: i64 = -2_000_000;

/// Horizontal extent of the plane window.
pub const RANGE_SIZE_X_FP: i64 = UPPER_MANDELBROT_X_FP - LOWER_MANDELBROT_X_FP;

/// Top edge of the plane window (1.12).
pub const UPPER_MANDELBROT_Y_FP: i64 = 1_120_000;

/// Bottom edge of the plane window (-1.12).
pub const LOWER_MANDELBROT_Y_FP: i64 = -1_120_000;

/// Vertical extent of the plane window.
pub const RANGE_SIZE_Y_FP: i64 = UPPER_MANDELBROT_Y_FP - LOWER_MANDELBROT_Y_FP;

/// Terminal characters are taller than wide; vertical coordinates are
/// stretched by this factor (2.5) to keep the picture's aspect ratio.
pub const CHARACTER_SIZE_COMPENSATION_FP: i64 = 2_500_000;

/// Largest grid width the mapper accepts.
pub const MAX_WIDTH: usize = 100_000;

/// Largest grid height the mapper accepts.
pub const MAX_HEIGHT: usize = 100_000;

/// The real coordinate of pixel column `x`, step by step:
/// `scale * (x + low_x * width / range_x)`, each intermediate checked.
pub open spec fn map_real_chain(x: int, w: int, scale: int) -> Option<int> {
    let a = mul_value(LOWER_MANDELBROT_X_FP as int, w * SCALE as int);
    if !fits_i64(a) {
        None
    } else {
        let b = div_value(a, RANGE_SIZE_X_FP as int);
        if !fits_i64(b) {
            None
        } else {
            let c = x * SCALE as int + b;
            if !fits_i64(c) {
                None
            } else {
                let d = mul_value(scale, c);
                if !fits_i64(d) {
                    None
                } else {
                    Some(d)
                }
            }
        }
    }
}

/// The imaginary coordinate of pixel row `y`, step by step:
/// `compensation * scale * (y + low_y * height / range_y)`.
pub open spec fn map_imag_chain(y: int, h: int, scale: int) -> Option<int> {
    let e = mul_value(CHARACTER_SIZE_COMPENSATION_FP as int, scale);
    if !fits_i64(e) {
        None
    } else {
        let a = mul_value(LOWER_MANDELBROT_Y_FP as int, h * SCALE as int);
        if !fits_i64(a) {
            None
        } else {
            let b = div_value(a, RANGE_SIZE_Y_FP as int);
            if !fits_i64(b) {
                None
            } else {
                let c = y * SCALE as int + b;
                if !fits_i64(c) {
                    None
                } else {
                    let f = mul_value(e, c);
                    if !fits_i64(f) {
                        None
                    } else {
                        Some(f)
                    }
                }
            }
        }
    }
}

/// The plane point of pixel `(x, y)`: the real coordinate is computed
/// first, and the first unrepresentable intermediate aborts the mapping.
pub open spec fn map_point_value(x: int, y: int, w: int, h: int, scale: int) -> Option<(int, int)> {
    match map_real_chain(x, w, scale) {
        None => None,
        Some(re) => match map_imag_chain(y, h, scale) {
            None => None,
            Some(im) => Some((re, im)),
        },
    }
}

/// Whether `r` is exactly what the mapping prescribes for these inputs.
pub open spec fn map_coordinate_matches(
    r: Option<ComplexNumber>,
    x: int,
    y: int,
    w: int,
    h: int,
    scale: int,
) -> bool {
    match r {
        Some(p) => map_point_value(x, y, w, h, scale) == Some(
            (p.real.raw as int, p.imaginary.raw as int),
        ),
        None => map_point_value(x, y, w, h, scale) is None,
    }
}

/// Maps pixel `(x, y)` of a `width` by `height` grid to its plane point.
pub fn map_coordinate(x: usize, y: usize, width: usize, height: usize, scale: Fp) -> (r: Option<
    ComplexNumber,
>)
    requires
        width <= MAX_WIDTH,
        height <= MAX_HEIGHT,
        x < width,
        y < height,
    ensures
        map_coordinate_matches(r, x as int, y as int, width as int, height as int, scale.raw as int),
{
    proof {
        assert(width * SCALE as int <= i64::MAX as int && x * SCALE as int <= i64::MAX as int
            && height * SCALE as int <= i64::MAX as int && y * SCALE as int <= i64::MAX as int)
            by (nonlinear_arith)
            requires
                width <= MAX_WIDTH,
                height <= MAX_HEIGHT,
                x < width,
                y < height,
                SCALE as int == 1_000_000,
                MAX_WIDTH == 100_000int,
                MAX_HEIGHT == 100_000int,
        ;
    }
    let w_fp = fp_from_usize(width);
    let x_fp = fp_from_usize(x);
    let a = match fp_mul(Fp { raw: LOWER_MANDELBROT_X_FP }, w_fp) {
        Some(v) => v,
        None => {
            return None;
        },
    };
    let b = match fp_div(a, Fp { raw: RANGE_SIZE_X_FP }) {
        Some(v) => v,
        None => {
            return None;
        },
    };
    let c = match fp_add(x_fp, b) {
        Some(v) => v,
        None => {
            return None;
        },
    };
    let re = match fp_mul(scale, c) {
        Some(v) => v,
        None => {
            return None;
        },
    };
    let h_fp = fp_from_usize(height);
    let y_fp = fp_from_usize(y);
    let e = match fp_mul(Fp { raw: CHARACTER_SIZE_COMPENSATION_FP }, scale) {
        Some(v) => v,
        None => {
            return None;
        },
    };
    let a2 = match fp_mul(Fp { raw: LOWER_MANDELBROT_Y_FP }, h_fp) {
        Some(v) => v,
        None => {
            return None;
        },
    };
    let b2 = match fp_div(a2, Fp { raw: RANGE_SIZE_Y_FP }) {
        Some(v) => v,
        None => {
            return None;
        },
    };
    let c2 = match fp_add(y_fp, b2) {
        Some(v) => v,
        None => {
            return None;
        },
    };
    let im = match fp_mul(e, c2) {
        Some(v) => v,
        None => {
            return None;
        },
    };
    Some(ComplexNumber { real: re, imaginary: im })
}

/// The mapper is a pure function of its inputs: any two results that
/// satisfy its contract for the same pixel, grid and scale are equal.
pub proof fn lemma_map_coordinate_deterministic(
    r1: Option<ComplexNumber>,
    r2: Option<ComplexNumber>,
    x: int,
    y: int,
    w: int,
    h: int,
    scale: int,
)
    requires
        map_coordinate_matches(r1, x, y, w, h, scale),
        map_coordinate_matches(r2, x, y, w, h, scale),
    ensures
        r1 == r2,
{
    match (r1, r2) {
        (Some(p1), Some(p2)) => {
            assert(p1.real.raw == p2.real.raw && p1.imaginary.raw == p2.imaginary.raw);
        },
        _ => {},
    }
}

} // verus!
