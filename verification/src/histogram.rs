//! The escape-count histogram.
//!
//! Every grid cell lands in exactly one bucket: an escaping cell in the
//! bucket of its escape index, a bounded or still uninitialized cell in
//! bucket zero (that conflation is a deliberately kept quirk of the
//! renderer).  The histogram is the basis of the luminance normalization.

use vstd::prelude::*;
use crate::mandel::{MandelbrotResult, MAX_ITERATIONS};

verus! {

/// Number of buckets: one per possible escape index, plus one.
pub open spec fn hist_len() -> int {
    MAX_ITERATIONS as int + 1
}

/// The bucket a cell falls into.
pub open spec fn bucket_of(r: MandelbrotResult) -> int {
    match r {
        MandelbrotResult::Escapes(i) => i as int,
        MandelbrotResult::Bounded => 0,
        MandelbrotResult::Uninitialized => 0,
    }
}

/// A cell whose bucket lies within the histogram.
pub open spec fn cell_wf(r: MandelbrotResult) -> bool {
    0 <= bucket_of(r) < hist_len()
}

/// A row of cells whose buckets all lie within the histogram.
pub open spec fn row_wf(row: Seq<MandelbrotResult>) -> bool {
    forall|x: int| 0 <= x < row.len() ==> cell_wf(#[trigger] row[x])
}

/// A grid of cells whose buckets all lie within the histogram.
pub open spec fn grid_wf(g: Seq<Seq<MandelbrotResult>>) -> bool {
    forall|y: int| 0 <= y < g.len() ==> row_wf(#[trigger] g[y])
}

/// One cell added to a histogram.
pub open spec fn hist_add(h: Seq<int>, r: MandelbrotResult) -> Seq<int> {
    h.update(bucket_of(r), h[bucket_of(r)] + 1)
}

/// A row of cells folded into a histogram, left to right.
pub open spec fn hist_of_row(h: Seq<int>, row: Seq<MandelbrotResult>) -> Seq<int>
    decreases row.len(),
{
    if row.len() == 0 {
        h
    } else {
        hist_add(hist_of_row(h, row.drop_last()), row.last())
    }
}

/// A grid of cells folded into a histogram, row by row.
pub open spec fn hist_of_grid(h: Seq<int>, g: Seq<Seq<MandelbrotResult>>) -> Seq<int>
    decreases g.len(),
{
    if g.len() == 0 {
        h
    } else {
        hist_of_row(hist_of_grid(h, g.drop_last()), g.last())
    }
}

/// The all-zero histogram.
pub open spec fn zero_hist() -> Seq<int> {
    Seq::new(hist_len() as nat, |i: int| 0)
}

/// The histogram of a computed grid.
pub open spec fn histogram_of(g: Seq<Seq<MandelbrotResult>>) -> Seq<int> {
    hist_of_grid(zero_hist(), g)
}

/// Sum of a sequence of counters.
pub open spec fn sum_of(s: Seq<int>) -> int
    decreases s.len(),
{
    if s.len() == 0 {
        0
    } else {
        sum_of(s.drop_last()) + s.last()
    }
}

/// Number of cells of a grid.
pub open spec fn total_cells(g: Seq<Seq<MandelbrotResult>>) -> int
    decreases g.len(),
{
    if g.len() == 0 {
        0
    } else {
        total_cells(g.drop_last()) + g.last().len()
    }
}

/// Updating one entry changes the sum by the difference at that entry.
pub proof fn lemma_sum_update(s: Seq<int>, i: int, v: int)
    requires
        0 <= i < s.len(),
    ensures
        sum_of(s.update(i, v)) == sum_of(s) - s[i] + v,
    decreases s.len(),
{
    let t = s.update(i, v);
    if i == s.len() - 1 {
        assert(t.drop_last() =~= s.drop_last());
    } else {
        assert(t.drop_last() =~= s.drop_last().update(i, v));
        lemma_sum_update(s.drop_last(), i, v);
    }
}

/// A sequence of zeroes sums to zero.
pub proof fn lemma_sum_all_zero(s: Seq<int>)
    requires
        forall|k: int| 0 <= k < s.len() ==> s[k] == 0,
    ensures
        sum_of(s) == 0,
    decreases s.len(),
{
    if s.len() > 0 {
        assert forall|k: int| 0 <= k < s.drop_last().len() implies s.drop_last()[k] == 0 by {
            assert(s.drop_last()[k] == s[k]);
        }
        lemma_sum_all_zero(s.drop_last());
    }
}

/// Folding a row keeps the histogram's length, adds one to the sum per
/// cell, and never decreases an entry.
pub proof fn lemma_hist_of_row_facts(h: Seq<int>, row: Seq<MandelbrotResult>)
    requires
        h.len() == hist_len(),
        row_wf(row),
    ensures
        hist_of_row(h, row).len() == hist_len(),
        sum_of(hist_of_row(h, row)) == sum_of(h) + row.len(),
        forall|k: int| 0 <= k < hist_len() ==> hist_of_row(h, row)[k] >= h[k],
    decreases row.len(),
{
    if row.len() > 0 {
        assert forall|x: int| 0 <= x < row.drop_last().len() implies cell_wf(
            #[trigger] row.drop_last()[x],
        ) by {
            assert(row.drop_last()[x] == row[x]);
        }
        lemma_hist_of_row_facts(h, row.drop_last());
        let inner = hist_of_row(h, row.drop_last());
        let b = bucket_of(row.last());
        assert(cell_wf(row[row.len() - 1]));
        lemma_sum_update(inner, b, inner[b] + 1);
    }
}

/// Folding a grid keeps the histogram's length, adds one to the sum per
/// cell, and never decreases an entry.
pub proof fn lemma_hist_of_grid_facts(h: Seq<int>, g: Seq<Seq<MandelbrotResult>>)
    requires
        h.len() == hist_len(),
        grid_wf(g),
    ensures
        hist_of_grid(h, g).len() == hist_len(),
        sum_of(hist_of_grid(h, g)) == sum_of(h) + total_cells(g),
        forall|k: int| 0 <= k < hist_len() ==> hist_of_grid(h, g)[k] >= h[k],
    decreases g.len(),
{
    if g.len() > 0 {
        assert forall|y: int| 0 <= y < g.drop_last().len() implies row_wf(
            #[trigger] g.drop_last()[y],
        ) by {
            assert(g.drop_last()[y] == g[y]);
        }
        lemma_hist_of_grid_facts(h, g.drop_last());
        assert(row_wf(g[g.len() - 1]));
        lemma_hist_of_row_facts(hist_of_grid(h, g.drop_last()), g.last());
    }
}

/// A cell's own bucket gains at least one while its row is folded in.
pub proof fn lemma_hist_of_row_counts_cell(h: Seq<int>, row: Seq<MandelbrotResult>, j: int)
    requires
        h.len() == hist_len(),
        row_wf(row),
        0 <= j < row.len(),
    ensures
        hist_of_row(h, row)[bucket_of(row[j])] >= h[bucket_of(row[j])] + 1,
    decreases row.len(),
{
    assert forall|x: int| 0 <= x < row.drop_last().len() implies cell_wf(
        #[trigger] row.drop_last()[x],
    ) by {
        assert(row.drop_last()[x] == row[x]);
    }
    lemma_hist_of_row_facts(h, row.drop_last());
    let inner = hist_of_row(h, row.drop_last());
    let b = bucket_of(row[j]);
    assert(cell_wf(row[j]));
    assert(cell_wf(row[row.len() - 1]));
    if j == row.len() - 1 {
    } else {
        lemma_hist_of_row_counts_cell(h, row.drop_last(), j);
        assert(row.drop_last()[j] == row[j]);
    }
}

/// A cell's own bucket gains at least one while its grid is folded in.
pub proof fn lemma_hist_of_grid_counts_cell(
    h: Seq<int>,
    g: Seq<Seq<MandelbrotResult>>,
    y: int,
    x: int,
)
    requires
        h.len() == hist_len(),
        grid_wf(g),
        0 <= y < g.len(),
        0 <= x < g[y].len(),
    ensures
        hist_of_grid(h, g)[bucket_of(g[y][x])] >= h[bucket_of(g[y][x])] + 1,
    decreases g.len(),
{
    assert forall|yy: int| 0 <= yy < g.drop_last().len() implies row_wf(
        #[trigger] g.drop_last()[yy],
    ) by {
        assert(g.drop_last()[yy] == g[yy]);
    }
    lemma_hist_of_grid_facts(h, g.drop_last());
    let inner = hist_of_grid(h, g.drop_last());
    let b = bucket_of(g[y][x]);
    assert(row_wf(g[y]));
    assert(cell_wf(g[y][x]));
    if y == g.len() - 1 {
        lemma_hist_of_row_counts_cell(inner, g.last(), x);
    } else {
        lemma_hist_of_grid_counts_cell(h, g.drop_last(), y, x);
        assert(g.drop_last()[y] == g[y]);
        assert(row_wf(g[g.len() - 1]));
        lemma_hist_of_row_facts(inner, g.last());
    }
}

/// A uniform grid of rows of `w` cells has `rows * w` cells.
pub proof fn lemma_total_cells_uniform(g: Seq<Seq<MandelbrotResult>>, w: int)
    requires
        forall|y: int| 0 <= y < g.len() ==> (#[trigger] g[y]).len() == w,
    ensures
        total_cells(g) == g.len() * w,
    decreases g.len(),
{
    if g.len() > 0 {
        assert forall|y: int| 0 <= y < g.drop_last().len() implies (#[trigger] g.drop_last()[y]).len()
            == w by {
            assert(g.drop_last()[y] == g[y]);
        }
        lemma_total_cells_uniform(g.drop_last(), w);
        assert((g.len() - 1) * w + w == g.len() * w) by (nonlinear_arith);
    }
}

/// Basic facts about a grid's histogram: its length, that every entry is
/// a nonnegative count, and that the entries sum to the number of cells.
pub proof fn lemma_histogram_facts(g: Seq<Seq<MandelbrotResult>>)
    requires
        grid_wf(g),
    ensures
        histogram_of(g).len() == hist_len(),
        sum_of(histogram_of(g)) == total_cells(g),
        forall|k: int| 0 <= k < hist_len() ==> histogram_of(g)[k] >= 0,
{
    lemma_hist_of_grid_facts(zero_hist(), g);
    lemma_sum_all_zero(zero_hist());
    assert forall|k: int| 0 <= k < hist_len() implies histogram_of(g)[k] >= 0 by {
        assert(zero_hist()[k] == 0);
        assert(hist_of_grid(zero_hist(), g)[k] >= zero_hist()[k]);
    }
}

/// Histogram invariant: every cell of a `rows` by `w` grid lands in
/// exactly one bucket, so the histogram's entries sum to `rows * w`.
pub proof fn lemma_histogram_sum(g: Seq<Seq<MandelbrotResult>>, w: int)
    requires
        grid_wf(g),
        forall|y: int| 0 <= y < g.len() ==> (#[trigger] g[y]).len() == w,
    ensures
        sum_of(histogram_of(g)) == g.len() * w,
{
    lemma_histogram_facts(g);
    lemma_total_cells_uniform(g, w);
}

/// Sums of longer prefixes of a sequence of nonnegative entries are at
/// least the sums of shorter ones.
pub proof fn lemma_sum_take_ordered(s: Seq<int>, i: int, j: int)
    requires
        0 <= i <= j <= s.len(),
        forall|k: int| 0 <= k < s.len() ==> s[k] >= 0,
    ensures
        sum_of(s.take(i)) <= sum_of(s.take(j)),
    decreases j - i,
{
    if i < j {
        lemma_sum_take_ordered(s, i, j - 1);
        assert(s.take(j).drop_last() =~= s.take(j - 1));
        assert(s.take(j).last() == s[j - 1]);
    }
}

/// Extending a prefix by one entry adds that entry to its sum.
pub proof fn lemma_sum_take_succ(s: Seq<int>, i: int)
    requires
        0 <= i < s.len(),
    ensures
        sum_of(s.take(i + 1)) == sum_of(s.take(i)) + s[i],
{
    assert(s.take(i + 1).drop_last() =~= s.take(i));
    assert(s.take(i + 1).last() == s[i]);
}

/// No entry of a sequence of nonnegative entries exceeds the sum.
pub proof fn lemma_entry_le_sum(s: Seq<int>, k: int)
    requires
        0 <= k < s.len(),
        forall|j: int| 0 <= j < s.len() ==> s[j] >= 0,
    ensures
        0 <= s[k] <= sum_of(s),
{
    lemma_sum_take_succ(s, k);
    lemma_sum_take_ordered(s, 0, k);
    lemma_sum_take_ordered(s, k + 1, s.len() as int);
    lemma_sum_take_all(s);
    assert(sum_of(s.take(0)) == 0);
}

/// The full-length prefix sums to the whole.
pub proof fn lemma_sum_take_all(s: Seq<int>)
    ensures
        sum_of(s.take(s.len() as int)) == sum_of(s),
{
    assert(s.take(s.len() as int) =~= s);
}

} // verus!
