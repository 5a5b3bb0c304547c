//! Histogram-normalized luminance.
//!
//! An escaping cell is shaded by the share of cells that escaped strictly
//! earlier: the cumulative histogram below its escape index, divided by
//! the total cell count and scaled to the palette.  Spreading characters
//! by this empirical distribution gives far more contrast than scaling
//! the raw iteration count.

use vstd::prelude::*;
use vstd::arithmetic::div_mod::{lemma_div_pos_is_pos, lemma_multiply_divide_lt};
use crate::histogram::{
    bucket_of, cell_wf, grid_wf, histogram_of, lemma_hist_of_grid_counts_cell,
    lemma_histogram_facts, lemma_sum_take_all, lemma_sum_take_ordered, lemma_sum_take_succ, sum_of,
    zero_hist,
};
use crate::mandel::MandelbrotResult;

verus! {

/// Length of the luminance palette.
pub open spec fn luminance_len() -> int {
    12
}

/// The ordered luminance palette, darkest first: `.,-~:;=!*#$@`.
pub open spec fn luminance_char(i: int) -> char {
    if i == 0 {
        '.'
    } else if i == 1 {
        ','
    } else if i == 2 {
        '-'
    } else if i == 3 {
        '~'
    } else if i == 4 {
        ':'
    } else if i == 5 {
        ';'
    } else if i == 6 {
        '='
    } else if i == 7 {
        '!'
    } else if i == 8 {
        '*'
    } else if i == 9 {
        '#'
    } else if i == 10 {
        '$'
    } else {
        '@'
    }
}

/// The palette slot of a cell with escape index `i`: the number of cells
/// in buckets strictly below `i`, scaled to the last palette slot and
/// divided by the total cell count, truncated.
pub open spec fn luminance_index(h: Seq<int>, total: int, i: int) -> int {
    sum_of(h.take(i)) * (luminance_len() - 1) / total
}

/// One palette character, as a one-character string slice.
pub fn luminance_str(i: usize) -> (r: &'static str)
    requires
        i < luminance_len(),
    ensures
        r@.len() == 1,
        r@[0] == luminance_char(i as int),
{
    if i == 0 {
        let s = ".";
        proof {
            reveal_strlit(".");
        }
        s
    } else if i == 1 {
        let s = ",";
        proof {
            reveal_strlit(",");
        }
        s
    } else if i == 2 {
        let s = "-";
        proof {
            reveal_strlit("-");
        }
        s
    } else if i == 3 {
        let s = "~";
        proof {
            reveal_strlit("~");
        }
        s
    } else if i == 4 {
        let s = ":";
        proof {
            reveal_strlit(":");
        }
        s
    } else if i == 5 {
        let s = ";";
        proof {
            reveal_strlit(";");
        }
        s
    } else if i == 6 {
        let s = "=";
        proof {
            reveal_strlit("=");
        }
        s
    } else if i == 7 {
        let s = "!";
        proof {
            reveal_strlit("!");
        }
        s
    } else if i == 8 {
        let s = "*";
        proof {
            reveal_strlit("*");
        }
        s
    } else if i == 9 {
        let s = "#";
        proof {
            reveal_strlit("#");
        }
        s
    } else if i == 10 {
        let s = "$";
        proof {
            reveal_strlit("$");
        }
        s
    } else {
        let s = "@";
        proof {
            reveal_strlit("@");
        }
        s
    }
}

/// Luminance index invariant: for an escaping cell of a grid whose
/// histogram and total are the computed ones, the palette index lies
/// within the palette, whatever the distribution of escape counts.
pub proof fn lemma_luminance_index_in_range(
    g: Seq<Seq<MandelbrotResult>>,
    h: Seq<int>,
    total: int,
    y: int,
    x: int,
)
    requires
        grid_wf(g),
        h == histogram_of(g),
        total == sum_of(h),
        0 <= y < g.len(),
        0 <= x < g[y].len(),
    ensures
        total >= 1,
        0 <= luminance_index(h, total, bucket_of(g[y][x])) < luminance_len(),
{
    let b = bucket_of(g[y][x]);
    assert(cell_wf(g[y][x]));
    lemma_histogram_facts(g);
    lemma_hist_of_grid_counts_cell(zero_hist(), g, y, x);
    assert(zero_hist()[b] == 0);
    let p = sum_of(h.take(b));
    lemma_sum_take_succ(h, b);
    lemma_sum_take_ordered(h, b + 1, h.len() as int);
    lemma_sum_take_all(h);
    lemma_sum_take_ordered(h, 0, b);
    assert(p <= total - 1);
    assert(p >= 0);
    assert(total >= 1);
    lemma_div_pos_is_pos(p * (luminance_len() - 1), total);
    assert(p * (luminance_len() - 1) < total * (luminance_len() - 1)) by (nonlinear_arith)
        requires
            p <= total - 1,
            total >= 1,
            luminance_len() == 12,
    ;
    lemma_multiply_divide_lt(p * (luminance_len() - 1), total, luminance_len() - 1);
}

/// The characters one cell contributes to the picture: an escaping cell
/// its palette character, a bounded cell a space, an uninitialized cell
/// nothing.
pub open spec fn cell_chars(r: MandelbrotResult, h: Seq<int>, total: int) -> Seq<char> {
    match r {
        MandelbrotResult::Escapes(i) => seq![luminance_char(luminance_index(h, total, i as int))],
        MandelbrotResult::Bounded => seq![' '],
        MandelbrotResult::Uninitialized => Seq::empty(),
    }
}

/// The characters of one row, left to right.
pub open spec fn row_chars(row: Seq<MandelbrotResult>, h: Seq<int>, total: int) -> Seq<char>
    decreases row.len(),
{
    if row.len() == 0 {
        Seq::empty()
    } else {
        row_chars(row.drop_last(), h, total) + cell_chars(row.last(), h, total)
    }
}

/// The whole picture: the rows top to bottom, each closed by a line
/// break.
pub open spec fn grid_chars(g: Seq<Seq<MandelbrotResult>>, h: Seq<int>, total: int) -> Seq<char>
    decreases g.len(),
{
    if g.len() == 0 {
        Seq::empty()
    } else {
        grid_chars(g.drop_last(), h, total) + row_chars(g.last(), h, total) + seq!['\n']
    }
}

/// A row without uninitialized cells contributes exactly one character
/// per cell.
pub proof fn lemma_row_chars_len(row: Seq<MandelbrotResult>, h: Seq<int>, total: int)
    requires
        forall|x: int| 0 <= x < row.len() ==> (#[trigger] row[x]) != MandelbrotResult::Uninitialized,
    ensures
        row_chars(row, h, total).len() == row.len(),
    decreases row.len(),
{
    if row.len() > 0 {
        assert forall|x: int| 0 <= x < row.drop_last().len() implies (#[trigger] row.drop_last()[x])
            != MandelbrotResult::Uninitialized by {
            assert(row.drop_last()[x] == row[x]);
        }
        lemma_row_chars_len(row.drop_last(), h, total);
        assert(row[row.len() - 1] != MandelbrotResult::Uninitialized);
    }
}

/// A fully computed grid of rows of `w` cells renders as one line of `w`
/// characters per row, each closed by a line break.
pub proof fn lemma_grid_chars_len(g: Seq<Seq<MandelbrotResult>>, h: Seq<int>, total: int, w: int)
    requires
        forall|y: int| 0 <= y < g.len() ==> (#[trigger] g[y]).len() == w,
        forall|y: int, x: int|
            0 <= y < g.len() && 0 <= x < w ==> (#[trigger] g[y][x])
                != MandelbrotResult::Uninitialized,
    ensures
        grid_chars(g, h, total).len() == g.len() * (w + 1),
    decreases g.len(),
{
    if g.len() > 0 {
        assert forall|y: int| 0 <= y < g.drop_last().len() implies (#[trigger] g.drop_last()[y]).len()
            == w by {
            assert(g.drop_last()[y] == g[y]);
        }
        assert forall|y: int, x: int|
            0 <= y < g.drop_last().len() && 0 <= x < w implies (#[trigger] g.drop_last()[y][x])
            != MandelbrotResult::Uninitialized by {
            assert(g.drop_last()[y] == g[y]);
        }
        lemma_grid_chars_len(g.drop_last(), h, total, w);
        assert forall|x: int| 0 <= x < g.last().len() implies (#[trigger] g.last()[x])
            != MandelbrotResult::Uninitialized by {
            assert(g.last() == g[g.len() - 1]);
        }
        lemma_row_chars_len(g.last(), h, total);
        assert((g.len() - 1) * (w + 1) + (w + 1) == g.len() * (w + 1)) by (nonlinear_arith);
    }
}

} // verus!
