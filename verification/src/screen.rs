//! The character grid and its computation passes.
//!
//! A screen goes through strictly sequential phases: sized and scaled by
//! `initialize`, every cell resolved by `calculate_set`, the histogram
//! built by `calculate_iterations`, and the text produced by `render`.
//! Each pass states exactly what it leaves behind, so the passes compose
//! and repeat without hidden state.

use vstd::prelude::*;
use crate::coords::{
    map_coordinate, map_point_value, CHARACTER_SIZE_COMPENSATION_FP,
    MAX_HEIGHT, MAX_WIDTH, RANGE_SIZE_X_FP, RANGE_SIZE_Y_FP,
};
use crate::fixed::{
    div_value, fp_div, fp_from_usize, fp_mul, lemma_div_trunc_le, lemma_div_trunc_mag,
    lemma_div_trunc_mag_ordered, mul_value, Fp, SCALE,
};
use crate::histogram::{
    bucket_of, cell_wf, grid_wf, hist_len, hist_of_grid, hist_of_row, histogram_of,
    lemma_entry_le_sum, lemma_hist_of_grid_facts, lemma_hist_of_row_facts, lemma_histogram_facts,
    lemma_sum_all_zero, lemma_sum_take_all, lemma_sum_take_ordered, lemma_sum_take_succ, lemma_sum_update,
    lemma_total_cells_uniform, row_wf, sum_of, zero_hist,
};
use crate::luminance::{
    cell_chars, grid_chars, lemma_luminance_index_in_range, luminance_index, luminance_len,
    luminance_str, row_chars,
};
use crate::mandel::{
    get_mandelbrot_value, lemma_mandel_result_wf, mandelbrot_value, result_indices_wf,
    MandelbrotResult, OverflowError, MAX_ITERATIONS,
};
use vstd::string::StringExecFns;
use vstd::arithmetic::div_mod::lemma_div_is_ordered;

verus! {

/// The character grid: dimensions, per-cell results, the scale factor,
/// and the escape-count histogram with its total.
pub struct Screen {
    pub width: usize,
    pub height: usize,
    pub pixels: Vec<Vec<MandelbrotResult>>,
    pub scale: Fp,
    pub iteration_count: Vec<i64>,
    pub total_iterations: i64,
}

/// The larger of the horizontal plane range per grid column and the
/// vertical plane range per aspect-compensated grid row.
pub open spec fn scale_factor_value(w: int, h: int) -> int {
    let a = div_value(RANGE_SIZE_X_FP as int, w * SCALE as int);
    let b = div_value(
        RANGE_SIZE_Y_FP as int,
        mul_value(h * SCALE as int, CHARACTER_SIZE_COMPENSATION_FP as int),
    );
    if a > b {
        a
    } else {
        b
    }
}

/// The escape-time result of pixel `(x, y)` of a `w` by `h` grid with
/// the given scale: the point is mapped, then iterated; the first
/// unrepresentable intermediate aborts the cell.
pub open spec fn pixel_value_spec(x: int, y: int, w: int, h: int, scale: int) -> Result<
    MandelbrotResult,
    OverflowError,
> {
    match map_point_value(x, y, w, h, scale) {
        None => Err(OverflowError),
        Some(c) => mandelbrot_value(c.0, c.1, MAX_ITERATIONS as int),
    }
}

/// The cell a successful computation pass leaves at `(x, y)`.
pub open spec fn pixel_ok_value(x: int, y: int, w: int, h: int, scale: int) -> MandelbrotResult {
    match pixel_value_spec(x, y, w, h, scale) {
        Ok(m) => m,
        Err(_) => MandelbrotResult::Uninitialized,
    }
}

/// The whole grid a successful computation pass leaves behind: a pure
/// function of the dimensions and the scale alone.
pub open spec fn computed_grid(w: int, h: int, scale: int) -> Seq<Seq<MandelbrotResult>> {
    Seq::new(h as nat, |y: int| Seq::new(w as nat, |x: int| pixel_ok_value(x, y, w, h, scale)))
}

impl Screen {
    /// The grid as a mathematical sequence of rows.
    pub open spec fn grid(self) -> Seq<Seq<MandelbrotResult>> {
        self.pixels@.map(|y: int, row: Vec<MandelbrotResult>| row@)
    }

    /// Dimensions consistent with the stored width and height, and small
    /// enough for the mapper and the counters.
    pub open spec fn dims_ok(self) -> bool {
        &&& self.width <= MAX_WIDTH
        &&& self.height <= MAX_HEIGHT
        &&& self.pixels@.len() == self.height
        &&& forall|y: int|
            0 <= y < self.height ==> (#[trigger] self.pixels@[y])@.len() == self.width
    }

    /// Scale-factor property: the result equals the larger of
    /// `range_x / width` and `range_y / (height * compensation)`, computed
    /// on fixed-point coordinates, for any positive dimensions.
    pub fn get_scale_factor(&self) -> (r: Fp)
        requires
            1 <= self.width <= MAX_WIDTH,
            1 <= self.height <= MAX_HEIGHT,
        ensures
            r.raw as int == scale_factor_value(self.width as int, self.height as int),
    {
        let ghost w = self.width as int;
        let ghost h = self.height as int;
        proof {
            assert(w * SCALE as int <= 100_000_000_000 && w * SCALE as int >= 1_000_000 && h
                * SCALE as int <= 100_000_000_000 && h * SCALE as int >= 1_000_000)
                by (nonlinear_arith)
                requires
                    1 <= w <= 100_000,
                    1 <= h <= 100_000,
                    SCALE as int == 1_000_000,
            ;
        }
        let w_fp = fp_from_usize(self.width);
        let h_fp = fp_from_usize(self.height);
        proof {
            // h * SCALE * COMP stays well inside the checked range, and the
            // compensated denominator is positive.
            assert(h_fp.raw as int * CHARACTER_SIZE_COMPENSATION_FP as int
                <= 250_000_000_000_000_000 && h_fp.raw as int
                * CHARACTER_SIZE_COMPENSATION_FP as int >= 2_500_000_000_000) by (nonlinear_arith)
                requires
                    1_000_000 <= h_fp.raw as int <= 100_000_000_000,
                    CHARACTER_SIZE_COMPENSATION_FP as int == 2_500_000,
            ;
            lemma_div_trunc_mag_ordered(
                h_fp.raw as int * CHARACTER_SIZE_COMPENSATION_FP as int,
                250_000_000_000_000_000,
                SCALE as int,
            );
            lemma_div_trunc_mag(h_fp.raw as int * CHARACTER_SIZE_COMPENSATION_FP as int, SCALE as int);
            lemma_div_is_ordered(
                2_500_000_000_000,
                h_fp.raw as int * CHARACTER_SIZE_COMPENSATION_FP as int,
                SCALE as int,
            );
        }
        let denom_y = match fp_mul(h_fp, Fp { raw: CHARACTER_SIZE_COMPENSATION_FP }) {
            Some(v) => v,
            None => {
                proof {
                    assert(false);
                }
                Fp { raw: 1 }
            },
        };
        proof {
            lemma_div_trunc_le(RANGE_SIZE_X_FP as int * SCALE as int, w_fp.raw as int);
            lemma_div_trunc_le(RANGE_SIZE_Y_FP as int * SCALE as int, denom_y.raw as int);
        }
        let a = match fp_div(Fp { raw: RANGE_SIZE_X_FP }, w_fp) {
            Some(v) => v,
            None => {
                proof {
                    assert(false);
                }
                Fp { raw: 1 }
            },
        };
        let b = match fp_div(Fp { raw: RANGE_SIZE_Y_FP }, denom_y) {
            Some(v) => v,
            None => {
                proof {
                    assert(false);
                }
                Fp { raw: 1 }
            },
        };
        if a.raw > b.raw {
            a
        } else {
            b
        }
    }

    /// Sizes the grid from its width (one row per `compensation` columns),
    /// fills it with uninitialized cells, and fixes the scale factor.
    pub fn initialize(&mut self)
        requires
            3 <= old(self).width <= MAX_WIDTH,
        ensures
            final(self).width == old(self).width,
            final(self).height == old(self).width * 2 / 5,
            1 <= final(self).height <= MAX_HEIGHT,
            final(self).dims_ok(),
            forall|y: int, x: int|
                0 <= y < final(self).height && 0 <= x < final(self).width ==> final(self).grid()[y][x]
                    == MandelbrotResult::Uninitialized,
            final(self).scale.raw as int == scale_factor_value(
                final(self).width as int,
                final(self).height as int,
            ),
            final(self).iteration_count == old(self).iteration_count,
            final(self).total_iterations == old(self).total_iterations,
    {
        // floor(width / 2.5) == width * 2 / 5 on whole numbers
        self.height = self.width * 2 / 5;
        let mut rows: Vec<Vec<MandelbrotResult>> = Vec::new();
        let mut y: usize = 0;
        while y < self.height
            invariant
                y <= self.height,
                rows@.len() == y,
                forall|yy: int| 0 <= yy < y ==> (#[trigger] rows@[yy])@.len() == self.width,
                forall|yy: int, xx: int|
                    0 <= yy < y && 0 <= xx < self.width ==> (#[trigger] rows@[yy]@[xx])
                        == MandelbrotResult::Uninitialized,
            decreases self.height - y,
        {
            let mut row: Vec<MandelbrotResult> = Vec::new();
            let mut x: usize = 0;
            while x < self.width
                invariant
                    x <= self.width,
                    row@.len() == x,
                    forall|xx: int|
                        0 <= xx < x ==> (#[trigger] row@[xx]) == MandelbrotResult::Uninitialized,
                decreases self.width - x,
            {
                row.push(MandelbrotResult::Uninitialized);
                x = x + 1;
            }
            rows.push(row);
            y = y + 1;
        }
        self.pixels = rows;
        self.scale = self.get_scale_factor();
    }

    /// Resolves every cell in row-major order: maps its pixel to the
    /// plane and runs the escape-time iteration.  Success is owed exactly
    /// when no cell's arithmetic leaves the representable range; the
    /// first overflowing cell aborts the pass instead of being rendered
    /// wrongly.
    pub fn calculate_set(&mut self) -> (r: Result<(), OverflowError>)
        requires
            old(self).dims_ok(),
        ensures
            final(self).width == old(self).width,
            final(self).height == old(self).height,
            final(self).scale == old(self).scale,
            final(self).iteration_count == old(self).iteration_count,
            final(self).total_iterations == old(self).total_iterations,
            final(self).dims_ok(),
            r is Ok <==> (forall|y: int, x: int|
                0 <= y < old(self).height && 0 <= x < old(self).width ==> (
                #[trigger] pixel_value_spec(
                    x,
                    y,
                    old(self).width as int,
                    old(self).height as int,
                    old(self).scale.raw as int,
                )) is Ok),
            r is Ok ==> final(self).grid() == computed_grid(
                old(self).width as int,
                old(self).height as int,
                old(self).scale.raw as int,
            ),
            r is Ok ==> grid_wf(final(self).grid()),
            r is Ok ==> forall|y: int, x: int|
                0 <= y < old(self).height && 0 <= x < old(self).width ==> (
                #[trigger] final(self).grid()[y][x]) != MandelbrotResult::Uninitialized,
    {
        let ghost w = self.width as int;
        let ghost h = self.height as int;
        let ghost sc = self.scale.raw as int;
        let mut y: usize = 0;
        while y < self.height
            invariant
                self.dims_ok(),
                self.width == old(self).width,
                self.height == old(self).height,
                self.scale == old(self).scale,
                self.iteration_count == old(self).iteration_count,
                self.total_iterations == old(self).total_iterations,
                w == self.width as int,
                h == self.height as int,
                sc == self.scale.raw as int,
                y <= self.height,
                forall|yy: int, xx: int|
                    0 <= yy < y && 0 <= xx < w ==> Ok::<MandelbrotResult, OverflowError>(
                        #[trigger] self.grid()[yy][xx],
                    ) == pixel_value_spec(xx, yy, w, h, sc),
            decreases self.height - y,
        {
            let mut row: Vec<MandelbrotResult> = Vec::new();
            let mut x: usize = 0;
            while x < self.width
                invariant
                    self.dims_ok(),
                    self.width == old(self).width,
                    self.height == old(self).height,
                    self.scale == old(self).scale,
                    self.iteration_count == old(self).iteration_count,
                    self.total_iterations == old(self).total_iterations,
                    w == self.width as int,
                    h == self.height as int,
                    sc == self.scale.raw as int,
                    y < self.height,
                    x <= self.width,
                    row@.len() == x,
                    forall|xx: int|
                        0 <= xx < x ==> Ok::<MandelbrotResult, OverflowError>(
                            #[trigger] row@[xx],
                        ) == pixel_value_spec(xx, y as int, w, h, sc),
                decreases self.width - x,
            {
                let point = match map_coordinate(x, y, self.width, self.height, self.scale) {
                    Some(p) => p,
                    None => {
                        proof {
                            assert(pixel_value_spec(x as int, y as int, w, h, sc) is Err);
                        }
                        return Err(OverflowError);
                    },
                };
                let pr = match get_mandelbrot_value(point) {
                    Ok(v) => v,
                    Err(e) => {
                        proof {
                            assert(pixel_value_spec(x as int, y as int, w, h, sc) is Err);
                        }
                        return Err(e);
                    },
                };
                proof {
                    assert(Ok::<MandelbrotResult, OverflowError>(pr) == pixel_value_spec(
                        x as int,
                        y as int,
                        w,
                        h,
                        sc,
                    ));
                }
                row.push(pr);
                x = x + 1;
            }
            let ghost prev = self.grid();
            self.pixels.set(y, row);
            proof {
                assert forall|yy: int, xx: int| 0 <= yy < y + 1 && 0 <= xx < w implies Ok::<
                    MandelbrotResult,
                    OverflowError,
                >(#[trigger] self.grid()[yy][xx]) == pixel_value_spec(xx, yy, w, h, sc) by {
                    if yy == y as int {
                        assert(self.grid()[yy] == row@);
                        assert(Ok::<MandelbrotResult, OverflowError>(row@[xx])
                            == pixel_value_spec(xx, yy, w, h, sc));
                    } else {
                        assert(self.grid()[yy] == prev[yy]);
                        assert(Ok::<MandelbrotResult, OverflowError>(prev[yy][xx])
                            == pixel_value_spec(xx, yy, w, h, sc));
                    }
                }
            }
            y = y + 1;
        }
        proof {
            let g = self.grid();
            assert forall|yy: int, xx: int| 0 <= yy < h && 0 <= xx < w implies (
            #[trigger] pixel_value_spec(xx, yy, w, h, sc)) is Ok by {
                assert(Ok::<MandelbrotResult, OverflowError>(g[yy][xx]) == pixel_value_spec(
                    xx,
                    yy,
                    w,
                    h,
                    sc,
                ));
            }
            assert forall|yy: int, xx: int| 0 <= yy < h && 0 <= xx < w implies cell_wf(
                #[trigger] g[yy][xx],
            ) && g[yy][xx] != MandelbrotResult::Uninitialized && g[yy][xx] == pixel_ok_value(
                xx,
                yy,
                w,
                h,
                sc,
            ) by {
                assert(Ok::<MandelbrotResult, OverflowError>(g[yy][xx]) == pixel_value_spec(
                    xx,
                    yy,
                    w,
                    h,
                    sc,
                ));
                let mp = map_point_value(xx, yy, w, h, sc);
                assert(mp is Some);
                let c = mp->Some_0;
                lemma_mandel_result_wf(c.0, c.1, c.0, c.1, 0, MAX_ITERATIONS as int);
                assert(result_indices_wf(
                    mandelbrot_value(c.0, c.1, MAX_ITERATIONS as int),
                    0,
                    MAX_ITERATIONS as int,
                ));
            }
            assert forall|yy: int| 0 <= yy < h implies row_wf(#[trigger] g[yy]) by {
                assert forall|xx: int| 0 <= xx < g[yy].len() implies cell_wf(
                    #[trigger] g[yy][xx],
                ) by {
                    assert(g[yy].len() == w);
                }
            }
            assert(g =~~= computed_grid(w, h, sc));
        }
        Ok(())
    }

    /// Builds the histogram: a fresh zero-filled bucket per possible
    /// escape index, one increment per cell (bounded and uninitialized
    /// cells land in bucket zero, a kept quirk), and the total over all
    /// buckets.  The total is exactly the number of grid cells.
    pub fn calculate_iterations(&mut self)
        requires
            old(self).dims_ok(),
            grid_wf(old(self).grid()),
        ensures
            final(self).width == old(self).width,
            final(self).height == old(self).height,
            final(self).pixels == old(self).pixels,
            final(self).scale == old(self).scale,
            final(self).dims_ok(),
            final(self).iteration_count@.len() == hist_len(),
            forall|k: int|
                0 <= k < hist_len() ==> (#[trigger] final(self).iteration_count@[k]) as int
                    == histogram_of(old(self).grid())[k],
            final(self).total_iterations as int == sum_of(histogram_of(old(self).grid())),
            final(self).total_iterations as int == old(self).height as int * old(
                self,
            ).width as int,
    {
        let ghost g = self.grid();
        let ghost w = self.width as int;
        let ghost h = self.height as int;
        let cap: usize = (MAX_ITERATIONS as usize) + 1;
        let mut counts: Vec<i64> = Vec::new();
        while counts.len() < cap
            invariant
                cap == 101,
                counts@.len() <= cap,
                forall|k: int| 0 <= k < counts@.len() ==> (#[trigger] counts@[k]) == 0,
            decreases cap - counts.len(),
        {
            counts.push(0);
        }
        proof {
            assert(g.take(0) =~= Seq::<Seq<MandelbrotResult>>::empty());
            assert(hist_of_grid(zero_hist(), g.take(0)) == zero_hist());
            lemma_sum_all_zero(zero_hist());
            assert forall|k: int| 0 <= k < hist_len() implies (#[trigger] counts@[k]) as int
                == zero_hist()[k] by {
                assert(zero_hist()[k] == 0);
            }
        }
        let mut y: usize = 0;
        while y < self.height
            invariant
                self.dims_ok(),
                grid_wf(g),
                g == self.grid(),
                w == self.width as int,
                h == self.height as int,
                y <= self.height,
                counts@.len() == hist_len(),
                forall|k: int|
                    0 <= k < hist_len() ==> (#[trigger] counts@[k]) as int == hist_of_grid(
                        zero_hist(),
                        g.take(y as int),
                    )[k],
                sum_of(hist_of_grid(zero_hist(), g.take(y as int))) == y as int * w,
            decreases self.height - y,
        {
            proof {
                assert forall|yy: int| 0 <= yy < g.take(y as int + 1).len() implies row_wf(
                    #[trigger] g.take(y as int + 1)[yy],
                ) by {
                    assert(g.take(y as int + 1)[yy] == g[yy]);
                }
            }
            let mut x: usize = 0;
            while x < self.width
                invariant
                    self.dims_ok(),
                    grid_wf(g),
                    g == self.grid(),
                    w == self.width as int,
                    h == self.height as int,
                    y < self.height,
                    x <= self.width,
                    counts@.len() == hist_len(),
                    forall|k: int|
                        0 <= k < hist_len() ==> (#[trigger] counts@[k]) as int == hist_of_row(
                            hist_of_grid(zero_hist(), g.take(y as int)),
                            g[y as int].take(x as int),
                        )[k],
                    sum_of(
                        hist_of_row(
                            hist_of_grid(zero_hist(), g.take(y as int)),
                            g[y as int].take(x as int),
                        ),
                    ) == y as int * w + x as int,
                decreases self.width - x,
            {
                let ghost base = hist_of_grid(zero_hist(), g.take(y as int));
                let ghost cur = hist_of_row(base, g[y as int].take(x as int));
                let cell = self.pixels[y][x];
                let b: usize = match cell {
                    MandelbrotResult::Escapes(i) => i as usize,
                    MandelbrotResult::Bounded => 0,
                    MandelbrotResult::Uninitialized => 0,
                };
                proof {
                    assert(row_wf(g[y as int]));
                    assert(g[y as int][x as int] == cell);
                    assert(cell_wf(cell));
                    assert(b as int == bucket_of(cell));
                    assert forall|yy: int| 0 <= yy < g.take(y as int).len() implies row_wf(
                        #[trigger] g.take(y as int)[yy],
                    ) by {
                        assert(g.take(y as int)[yy] == g[yy]);
                    }
                    assert forall|xx: int|
                        0 <= xx < g[y as int].take(x as int).len() implies cell_wf(
                        #[trigger] g[y as int].take(x as int)[xx],
                    ) by {
                        assert(g[y as int].take(x as int)[xx] == g[y as int][xx]);
                    }
                    lemma_hist_of_grid_facts(zero_hist(), g.take(y as int));
                    lemma_hist_of_row_facts(base, g[y as int].take(x as int));
                    assert forall|k: int| 0 <= k < hist_len() implies cur[k] >= 0 by {
                        assert(zero_hist()[k] == 0);
                    }
                    lemma_entry_le_sum(cur, b as int);
                    assert((y as int) * w + (x as int) < 10_000_000_000) by (nonlinear_arith)
                        requires
                            0 <= y as int,
                            (y as int) < h,
                            0 <= x as int,
                            (x as int) < w,
                            w <= 100_000,
                            h <= 100_000,
                    ;
                }
                let v = counts[b];
                counts.set(b, v + 1);
                proof {
                    let row = g[y as int];
                    assert(row.take(x as int + 1).drop_last() =~= row.take(x as int));
                    assert(row.take(x as int + 1).last() == cell);
                    let nxt = hist_of_row(base, row.take(x as int + 1));
                    assert(nxt == cur.update(b as int, cur[b as int] + 1));
                    lemma_sum_update(cur, b as int, cur[b as int] + 1);
                    assert forall|k: int| 0 <= k < hist_len() implies (#[trigger] counts@[k]) as int
                        == nxt[k] by {
                        if k == b as int {
                            assert(counts@[k] == v + 1);
                        }
                    }
                }
                x = x + 1;
            }
            proof {
                assert(g[y as int].take(w) =~= g[y as int]);
                assert(g.take(y as int + 1).drop_last() =~= g.take(y as int));
                assert(g.take(y as int + 1).last() == g[y as int]);
                assert((y as int) * w + w == (y as int + 1) * w) by (nonlinear_arith);
            }
            y = y + 1;
        }
        proof {
            assert(g.take(h) =~= g);
        }
        let ghost hist = histogram_of(g);
        proof {
            lemma_histogram_facts(g);
            assert forall|yy: int| 0 <= yy < g.len() implies (#[trigger] g[yy]).len() == w by {}
            lemma_total_cells_uniform(g, w);
            assert(h * w <= 10_000_000_000) by (nonlinear_arith)
                requires
                    0 <= h <= 100_000,
                    0 <= w <= 100_000,
            ;
        }
        let mut tot: i64 = 0;
        let mut k: usize = 0;
        while k < cap
            invariant
                cap == 101,
                k <= cap,
                counts@.len() == hist_len(),
                hist == histogram_of(g),
                hist.len() == hist_len(),
                forall|j: int| 0 <= j < hist_len() ==> (#[trigger] counts@[j]) as int == hist[j],
                forall|j: int| 0 <= j < hist_len() ==> hist[j] >= 0,
                sum_of(hist) == h * w,
                h * w <= 10_000_000_000,
                tot as int == sum_of(hist.take(k as int)),
            decreases cap - k,
        {
            proof {
                lemma_sum_take_succ(hist, k as int);
                lemma_sum_take_ordered(hist, 0, k as int);
                lemma_sum_take_ordered(hist, k as int + 1, hist.len() as int);
                lemma_sum_take_all(hist);
                assert(sum_of(hist.take(0)) == 0);
            }
            tot = tot + counts[k];
            k = k + 1;
        }
        proof {
            assert(hist.take(101int) =~= hist);
        }
        self.iteration_count = counts;
        self.total_iterations = tot;
    }

    /// Renders the picture: for each cell in row order its luminance
    /// character (an escaping cell by the cumulative share of earlier
    /// escapes, a bounded cell a space, an uninitialized cell nothing),
    /// with a line break after each row.
    pub fn render(&self) -> (r: String)
        requires
            self.dims_ok(),
            grid_wf(self.grid()),
            self.iteration_count@.len() == hist_len(),
            forall|k: int|
                0 <= k < hist_len() ==> (#[trigger] self.iteration_count@[k]) as int
                    == histogram_of(self.grid())[k],
            self.total_iterations as int == sum_of(histogram_of(self.grid())),
        ensures
            r@ == grid_chars(
                self.grid(),
                histogram_of(self.grid()),
                self.total_iterations as int,
            ),
    {
        let ghost g = self.grid();
        let ghost w = self.width as int;
        let ghost hh = self.height as int;
        let ghost h = histogram_of(g);
        let ghost total = self.total_iterations as int;
        proof {
            lemma_histogram_facts(g);
            assert forall|yy: int| 0 <= yy < g.len() implies (#[trigger] g[yy]).len() == w by {}
            lemma_total_cells_uniform(g, w);
            assert(hh * w <= 10_000_000_000) by (nonlinear_arith)
                requires
                    0 <= hh <= 100_000,
                    0 <= w <= 100_000,
            ;
        }
        let mut buffer = String::new();
        let mut y: usize = 0;
        proof {
            assert(g.take(0) =~= Seq::<Seq<MandelbrotResult>>::empty());
            assert(buffer@ =~= grid_chars(g.take(0), h, total));
        }
        while y < self.height
            invariant
                self.dims_ok(),
                grid_wf(g),
                g == self.grid(),
                w == self.width as int,
                hh == self.height as int,
                h == histogram_of(g),
                h.len() == hist_len(),
                forall|j: int| 0 <= j < hist_len() ==> h[j] >= 0,
                self.iteration_count@.len() == hist_len(),
                forall|j: int|
                    0 <= j < hist_len() ==> (#[trigger] self.iteration_count@[j]) as int == h[j],
                total == self.total_iterations as int,
                total == sum_of(h),
                0 <= total <= 10_000_000_000,
                y <= self.height,
                buffer@ == grid_chars(g.take(y as int), h, total),
            decreases self.height - y,
        {
            let mut x: usize = 0;
            proof {
                assert(g[y as int].take(0) =~= Seq::<MandelbrotResult>::empty());
            }
            while x < self.width
                invariant
                    self.dims_ok(),
                    grid_wf(g),
                    g == self.grid(),
                    w == self.width as int,
                    hh == self.height as int,
                    h == histogram_of(g),
                    h.len() == hist_len(),
                    forall|j: int| 0 <= j < hist_len() ==> h[j] >= 0,
                    self.iteration_count@.len() == hist_len(),
                    forall|j: int|
                        0 <= j < hist_len() ==> (#[trigger] self.iteration_count@[j]) as int == h[j],
                    total == self.total_iterations as int,
                    total == sum_of(h),
                    0 <= total <= 10_000_000_000,
                    y < self.height,
                    x <= self.width,
                    buffer@ == grid_chars(g.take(y as int), h, total) + row_chars(
                        g[y as int].take(x as int),
                        h,
                        total,
                    ),
                decreases self.width - x,
            {
                let ghost row_done = g[y as int].take(x as int);
                let cell = self.pixels[y][x];
                proof {
                    assert(row_wf(g[y as int]));
                    assert(g[y as int][x as int] == cell);
                    assert(cell_wf(cell));
                }
                match cell {
                    MandelbrotResult::Escapes(i) => {
                        let idx_cap: usize = i as usize;
                        proof {
                            assert(idx_cap as int == bucket_of(cell));
                        }
                        let mut prefix: i64 = 0;
                        let mut k: usize = 0;
                        proof {
                            assert(h.take(0) =~= Seq::<int>::empty());
                        }
                        while k < idx_cap
                            invariant
                                h.len() == hist_len(),
                                forall|j: int| 0 <= j < hist_len() ==> h[j] >= 0,
                                self.iteration_count@.len() == hist_len(),
                                forall|j: int|
                                    0 <= j < hist_len() ==> (
                                    #[trigger] self.iteration_count@[j]) as int == h[j],
                                total == sum_of(h),
                                0 <= total <= 10_000_000_000,
                                k <= idx_cap,
                                idx_cap < hist_len(),
                                prefix as int == sum_of(h.take(k as int)),
                                0 <= prefix as int <= total,
                            decreases idx_cap - k,
                        {
                            proof {
                                lemma_sum_take_succ(h, k as int);
                                lemma_sum_take_ordered(h, k as int + 1, h.len() as int);
                                lemma_sum_take_all(h);
                                lemma_sum_take_ordered(h, 0, k as int + 1);
                                assert(h.take(0) =~= Seq::<int>::empty());
                            }
                            prefix = prefix + self.iteration_count[k];
                            k = k + 1;
                        }
                        proof {
                            lemma_luminance_index_in_range(g, h, total, y as int, x as int);
                        }
                        let num: u64 = (prefix as u64) * 11;
                        let idx: u64 = num / (self.total_iterations as u64);
                        proof {
                            assert(idx as int == luminance_index(h, total, idx_cap as int));
                            assert(0 <= idx as int && (idx as int) < luminance_len());
                        }
                        let s = luminance_str(idx as usize);
                        buffer.append(s);
                        proof {
                            assert(s@ =~= cell_chars(cell, h, total));
                        }
                    },
                    MandelbrotResult::Bounded => {
                        let s = " ";
                        proof {
                            reveal_strlit(" ");
                            assert(s@ =~= cell_chars(cell, h, total));
                        }
                        buffer.append(s);
                    },
                    MandelbrotResult::Uninitialized => {
                        proof {
                            assert(cell_chars(cell, h, total) =~= Seq::<char>::empty());
                        }
                    },
                }
                proof {
                    assert(g[y as int].take(x as int + 1).drop_last() =~= row_done);
                    assert(g[y as int].take(x as int + 1).last() == cell);
                    assert(row_chars(g[y as int].take(x as int + 1), h, total) == row_chars(
                        row_done,
                        h,
                        total,
                    ) + cell_chars(cell, h, total));
                    assert(buffer@ =~= grid_chars(g.take(y as int), h, total) + row_chars(
                        g[y as int].take(x as int + 1),
                        h,
                        total,
                    ));
                }
                x = x + 1;
            }
            let nl = "\n";
            proof {
                reveal_strlit("\n");
            }
            buffer.append(nl);
            proof {
                assert(nl@ =~= seq!['\n']);
                assert(g[y as int].take(w) =~= g[y as int]);
                assert(g.take(y as int + 1).drop_last() =~= g.take(y as int));
                assert(g.take(y as int + 1).last() == g[y as int]);
                assert(buffer@ =~= grid_chars(g.take(y as int + 1), h, total));
            }
            y = y + 1;
        }
        proof {
            assert(g.take(hh) =~= g);
        }
        buffer
    }
}

/// The text of the whole computation as a function of the configuration
/// alone: the computed grid, its histogram and its total decide every
/// character.
pub open spec fn rendered_output(w: int, h: int, scale: int) -> Seq<char> {
    grid_chars(
        computed_grid(w, h, scale),
        histogram_of(computed_grid(w, h, scale)),
        sum_of(histogram_of(computed_grid(w, h, scale))),
    )
}

/// Idempotence: the passes rewrite every cell, counter and character
/// from the width, height and scale alone — `calculate_set` leaves the
/// computed grid whatever the cells held, `calculate_iterations` builds
/// its counters afresh, and `render` reads nothing else.  So a second
/// run of the three passes on the same initialized screen yields the
/// same text as the first: both equal `rendered_output` of the same
/// configuration.
pub proof fn lemma_pipeline_idempotent(
    w: int,
    h: int,
    scale: int,
    first: Seq<char>,
    second: Seq<char>,
)
    requires
        first == rendered_output(w, h, scale),
        second == rendered_output(w, h, scale),
    ensures
        first == second,
{
}

} // verus!
