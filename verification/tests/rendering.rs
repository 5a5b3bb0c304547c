use mandelbrot::fixed::{Fp, SCALE};
use mandelbrot::mandel::{get_mandelbrot_value, ComplexNumber, MandelbrotResult, OverflowError};
use mandelbrot::screen::Screen;

const LUMINANCE: &str = ".,-~:;=!*#$@";

fn fresh_screen(width: usize) -> Screen {
    Screen {
        width,
        height: width * 2 / 5,
        pixels: vec![],
        scale: Fp { raw: SCALE },
        iteration_count: vec![],
        total_iterations: 0,
    }
}

#[test]
fn origin_is_bounded() {
    let origin = ComplexNumber { real: Fp { raw: 0 }, imaginary: Fp { raw: 0 } };
    assert_eq!(get_mandelbrot_value(origin), Ok(MandelbrotResult::Bounded));
}

#[test]
fn far_point_escapes_at_index_zero() {
    let c = ComplexNumber {
        real: Fp { raw: 5_000_000 },
        imaginary: Fp { raw: 5_000_000 },
    };
    assert_eq!(get_mandelbrot_value(c), Ok(MandelbrotResult::Escapes(0)));
}

#[test]
fn huge_point_reports_overflow() {
    let c = ComplexNumber {
        real: Fp { raw: 4_000_000_000_000_000 },
        imaginary: Fp { raw: 4_000_000_000_000_000 },
    };
    assert_eq!(get_mandelbrot_value(c), Err(OverflowError));
}

#[test]
fn overflowing_scale_aborts_the_set_pass() {
    let mut screen = Screen {
        width: 1,
        height: 1,
        pixels: vec![vec![MandelbrotResult::Uninitialized]],
        scale: Fp { raw: i64::MAX },
        iteration_count: vec![],
        total_iterations: 0,
    };
    assert_eq!(screen.calculate_set(), Err(OverflowError));
}

#[test]
fn histogram_total_counts_every_cell() {
    let mut screen = fresh_screen(10);
    screen.initialize();
    assert_eq!(screen.height, 4);
    screen.calculate_set().unwrap();
    screen.calculate_iterations();
    assert_eq!(screen.total_iterations, 40);
    let sum: i64 = screen.iteration_count.iter().sum();
    assert_eq!(sum, 40);
    assert_eq!(screen.iteration_count.len(), 101);
}

#[test]
fn render_produces_full_lines_from_the_palette() {
    let mut screen = fresh_screen(10);
    screen.initialize();
    screen.calculate_set().unwrap();
    screen.calculate_iterations();
    let text = screen.render();
    let lines: Vec<&str> = text.split_terminator('\n').collect();
    assert_eq!(lines.len(), 4);
    for line in lines {
        assert_eq!(line.chars().count(), 10);
        for c in line.chars() {
            assert!(c == ' ' || LUMINANCE.contains(c));
        }
    }
    assert!(text.ends_with('\n'));
}

#[test]
fn luminance_indices_follow_the_cumulative_share() {
    let mut screen = Screen {
        width: 4,
        height: 1,
        pixels: vec![vec![
            MandelbrotResult::Escapes(0),
            MandelbrotResult::Escapes(1),
            MandelbrotResult::Escapes(2),
            MandelbrotResult::Bounded,
        ]],
        scale: Fp { raw: SCALE },
        iteration_count: vec![],
        total_iterations: 0,
    };
    screen.calculate_iterations();
    // bucket 0 holds the Escapes(0) cell and the Bounded cell
    assert_eq!(screen.iteration_count[0], 2);
    assert_eq!(screen.iteration_count[1], 1);
    assert_eq!(screen.iteration_count[2], 1);
    assert_eq!(screen.total_iterations, 4);
    // shares below the cells: 0/4, 2/4 and 3/4 of the last palette slot
    assert_eq!(screen.render(), ".;* \n");
}

#[test]
fn uninitialized_cells_render_as_nothing() {
    let mut screen = fresh_screen(5);
    screen.initialize();
    screen.calculate_iterations();
    assert_eq!(screen.total_iterations, 10);
    assert_eq!(screen.render(), "\n\n");
}

#[test]
fn pipeline_is_idempotent() {
    let mut screen = fresh_screen(10);
    screen.initialize();
    screen.calculate_set().unwrap();
    screen.calculate_iterations();
    let first = screen.render();
    screen.calculate_set().unwrap();
    screen.calculate_iterations();
    let second = screen.render();
    assert_eq!(first, second);
}
