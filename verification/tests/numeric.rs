use mandelbrot::coords::map_coordinate;
use mandelbrot::fixed::{fp_add, fp_div, fp_mul, fp_sub, Fp, SCALE};
use mandelbrot::mandel::ComplexNumber;
use mandelbrot::screen::Screen;

fn fresh_screen(width: usize) -> Screen {
    Screen {
        width,
        height: width * 2 / 5,
        pixels: vec![],
        scale: Fp { raw: SCALE },
        iteration_count: vec![],
        total_iterations: 0,
    }
}

#[test]
fn fp_mul_truncates_toward_zero() {
    assert_eq!(fp_mul(Fp { raw: -1_500_000 }, Fp { raw: 1 }), Some(Fp { raw: -1 }));
    assert_eq!(fp_mul(Fp { raw: 1_500_000 }, Fp { raw: 1 }), Some(Fp { raw: 1 }));
    assert_eq!(
        fp_mul(Fp { raw: 2_000_000 }, Fp { raw: 3_000_000 }),
        Some(Fp { raw: 6_000_000 })
    );
}

#[test]
fn fp_mul_reports_overflow() {
    assert_eq!(fp_mul(Fp { raw: i64::MAX }, Fp { raw: i64::MAX }), None);
}

#[test]
fn fp_div_truncates_and_keeps_sign() {
    assert_eq!(fp_div(Fp { raw: 1 }, Fp { raw: 3 }), Some(Fp { raw: 333_333 }));
    assert_eq!(
        fp_div(Fp { raw: -5_000_000 }, Fp { raw: 2_000_000 }),
        Some(Fp { raw: -2_500_000 })
    );
    assert_eq!(fp_div(Fp { raw: -1 }, Fp { raw: 3 }), Some(Fp { raw: -333_333 }));
}

#[test]
fn fp_add_and_sub_are_exact_or_reported() {
    assert_eq!(fp_add(Fp { raw: 1 }, Fp { raw: 2 }), Some(Fp { raw: 3 }));
    assert_eq!(fp_add(Fp { raw: i64::MAX }, Fp { raw: 1 }), None);
    assert_eq!(fp_sub(Fp { raw: 1 }, Fp { raw: 2 }), Some(Fp { raw: -1 }));
    assert_eq!(fp_sub(Fp { raw: i64::MIN }, Fp { raw: 1 }), None);
}

#[test]
fn mapper_is_deterministic() {
    let first = map_coordinate(3, 2, 300, 120, Fp { raw: 8_233 });
    let second = map_coordinate(3, 2, 300, 120, Fp { raw: 8_233 });
    assert_eq!(first, second);
}

#[test]
fn mapper_exact_value_at_origin_pixel() {
    let point = map_coordinate(0, 0, 1, 1, Fp { raw: SCALE });
    assert_eq!(
        point,
        Some(ComplexNumber {
            real: Fp { raw: -809_716 },
            imaginary: Fp { raw: -1_250_000 },
        })
    );
}

#[test]
fn scale_factor_is_the_larger_range_ratio() {
    let mut screen = fresh_screen(300);
    screen.initialize();
    assert_eq!(screen.height, 120);
    // range_x / width = 2.47 / 300 -> 8233 millionths (truncated);
    // range_y / (height * 2.5) = 2.24 / 300 -> 7466 millionths; the max wins
    assert_eq!(screen.scale.raw, 8_233);
    assert_eq!(screen.get_scale_factor().raw, 8_233);
}

#[test]
fn scale_factor_vertical_side_can_win() {
    let mut screen = fresh_screen(3);
    screen.initialize();
    assert_eq!(screen.height, 1);
    // range_x / 3 = 823333; range_y / (1 * 2.5) = 896000; the max wins
    assert_eq!(screen.scale.raw, 896_000);
}
