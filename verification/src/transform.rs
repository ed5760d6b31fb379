//! Value-preserving grid transformations.
//!
//! Each transformation permutes the cells of a raw 81-cell grid (or, for
//! [`shift`], relabels its digits cyclically) and so carries a solved grid
//! to another solved grid.  Every function states exactly which source
//! cell each target cell is read from.

use vstd::prelude::*;

use crate::model::{col_of, grid_consistent, grid_full, grid_wf, lemma_axis_perm_consistent,
    lemma_cell_decomp, lemma_div3_parts, lemma_mod9_distinct, lemma_perm_consistent,
    lemma_relabel_consistent, lemma_rowcol, lemma_sector_eq, row_of, same_unit, sector_of};

verus! {

/// `a` and `b` exchanged, everything else in place.
pub open spec fn swap2(x: int, a: int, b: int) -> int {
    if x == a {
        b
    } else if x == b {
        a
    } else {
        x
    }
}

/// First column (or row) that `swap_columns`/`swap_rows` exchanges within
/// sector band `sc`, given `pivot`.
pub open spec fn swap_lane_a(sc: int, pivot: int) -> int {
    (pivot + 1) % 3 + sc * 3
}

/// Second column (or row) that `swap_columns`/`swap_rows` exchanges within
/// sector band `sc`, given `pivot`.
pub open spec fn swap_lane_b(sc: int, pivot: int) -> int {
    (pivot + 2) % 3 + sc * 3
}

/// Cyclically shift every digit of the grid forward by `amount`, leaving
/// empty cells empty.  A digit relabelling keeps a grid consistent.
pub fn shift(board: &mut [u8; 81], amount: u8)
    requires
        forall|i: int| 0 <= i < 81 ==> old(board)@[i] + amount <= 255,
    ensures
        forall|i: int| 0 <= i < 81 ==> #[trigger] final(board)@[i] == (
            if old(board)@[i] == 0 {
                0
            } else {
                ((old(board)@[i] + amount - 1) % 9 + 1) as u8
            }
        ),
        grid_wf(old(board)@) ==> grid_wf(final(board)@),
        grid_full(old(board)@) ==> grid_full(final(board)@),
        grid_wf(old(board)@) && grid_consistent(old(board)@) ==> grid_consistent(final(board)@),
{
    let other = *board;
    for p in 0..81usize
        invariant
            other@ == old(board)@,
            forall|i: int| p <= i < 81 ==> board@[i] == other@[i],
            forall|i: int| 0 <= i < 81 ==> other@[i] + amount <= 255,
            forall|i: int| 0 <= i < p ==> #[trigger] board@[i] == (
                if other@[i] == 0 {
                    0
                } else {
                    ((other@[i] + amount - 1) % 9 + 1) as u8
                }
            ),
    {
        let v = other[p];
        if v != 0 {
            board[p] = (v + amount - 1) % 9 + 1;
        }
    }
    proof {
        let g1 = old(board)@;
        let g2 = board@;
        if grid_wf(g1) && grid_consistent(g1) {
            assert forall|i: int, j: int| #![trigger g2[i], g2[j]]
                0 <= i < 81 && 0 <= j < 81 && g1[i] != 0 && g1[i] != g1[j]
                implies g2[i] != g2[j] by {
                if g1[j] != 0 {
                    lemma_mod9_distinct(g1[i] + amount - 1, g1[j] + amount - 1);
                }
            }
            lemma_relabel_consistent(g1, g2);
        }
    }
}

/// Transpose the grid: target cell `(r, c)` reads source cell `(c, r)`.
pub fn rotate(board: &mut [u8; 81])
    ensures
        forall|i: int| 0 <= i < 81
            ==> #[trigger] final(board)@[i] == old(board)@[col_of(i) * 9 + row_of(i)],
        grid_wf(old(board)@) ==> grid_wf(final(board)@),
        grid_full(old(board)@) ==> grid_full(final(board)@),
        grid_consistent(old(board)@) ==> grid_consistent(final(board)@),
{
    let other = *board;
    for p in 0..81usize
        invariant
            other@ == old(board)@,
            forall|i: int| 0 <= i < p
                ==> #[trigger] board@[i] == other@[col_of(i) * 9 + row_of(i)],
    {
        proof {
            lemma_cell_decomp(p as int);
            lemma_rowcol(col_of(p as int), row_of(p as int));
        }
        board[p] = other[(p % 9) * 9 + p / 9];
    }
    proof {
        lemma_src_bounds();
        if grid_consistent(old(board)@) {
            let sigma = |i: int| col_of(i) * 9 + row_of(i);
            assert forall|i: int| 0 <= i < 81
                implies 0 <= #[trigger] sigma(i) < 81 && board@[i] == old(board)@[sigma(i)] by {
                lemma_cell_decomp(i);
                lemma_rowcol(col_of(i), row_of(i));
            }
            assert forall|i: int, j: int| #![trigger sigma(i), sigma(j)]
                0 <= i < 81 && 0 <= j < 81 && i != j implies sigma(i) != sigma(j) by {
                lemma_cell_decomp(i);
                lemma_cell_decomp(j);
                lemma_rowcol(col_of(i), row_of(i));
                lemma_rowcol(col_of(j), row_of(j));
            }
            assert forall|i: int, j: int| #![trigger sigma(i), sigma(j)]
                0 <= i < 81 && 0 <= j < 81 && same_unit(i, j)
                implies same_unit(sigma(i), sigma(j)) by {
                lemma_cell_decomp(i);
                lemma_cell_decomp(j);
                lemma_rowcol(col_of(i), row_of(i));
                lemma_rowcol(col_of(j), row_of(j));
                if sector_of(i) == sector_of(j) {
                    lemma_sector_eq(i, j);
                    assert(sector_of(sigma(i)) == sector_of(sigma(j)));
                }
            }
            lemma_perm_consistent(old(board)@, board@, sigma);
        }
    }
}

/// Mirror the grid left to right: target column `c` reads source column
/// `8 - c`.
pub fn mirror_columns(board: &mut [u8; 81])
    ensures
        forall|i: int| 0 <= i < 81
            ==> #[trigger] final(board)@[i] == old(board)@[row_of(i) * 9 + (8 - col_of(i))],
        grid_wf(old(board)@) ==> grid_wf(final(board)@),
        grid_full(old(board)@) ==> grid_full(final(board)@),
        grid_consistent(old(board)@) ==> grid_consistent(final(board)@),
{
    let other = *board;
    for p in 0..81usize
        invariant
            other@ == old(board)@,
            forall|i: int| 0 <= i < p
                ==> #[trigger] board@[i] == other@[row_of(i) * 9 + (8 - col_of(i))],
    {
        proof {
            lemma_cell_decomp(p as int);
            lemma_rowcol(row_of(p as int), 8 - col_of(p as int));
        }
        board[p] = other[(p / 9) * 9 + (8 - p % 9)];
    }
    proof {
        lemma_src_bounds();
        if grid_consistent(old(board)@) {
            let fr = |r: int| r;
            let fc = |c: int| 8 - c;
            assert forall|c: int| 0 <= c < 9 implies #[trigger] fc(c) / 3 == 2 - c / 3 by {
                lemma_div3_parts(2 - c / 3, 2 - c % 3);
            }
            assert forall|i: int| 0 <= i < 81
                implies #[trigger] board@[i] == old(board)@[fr(row_of(i)) * 9 + fc(col_of(i))]
                by {}
            lemma_axis_perm_consistent(old(board)@, board@, fr, fc);
        }
    }
}

/// Mirror the grid top to bottom: target row `r` reads source row `8 - r`.
pub fn mirror_rows(board: &mut [u8; 81])
    ensures
        forall|i: int| 0 <= i < 81
            ==> #[trigger] final(board)@[i] == old(board)@[(8 - row_of(i)) * 9 + col_of(i)],
        grid_wf(old(board)@) ==> grid_wf(final(board)@),
        grid_full(old(board)@) ==> grid_full(final(board)@),
        grid_consistent(old(board)@) ==> grid_consistent(final(board)@),
{
    let other = *board;
    for p in 0..81usize
        invariant
            other@ == old(board)@,
            forall|i: int| 0 <= i < p
                ==> #[trigger] board@[i] == other@[(8 - row_of(i)) * 9 + col_of(i)],
    {
        proof {
            lemma_cell_decomp(p as int);
            lemma_rowcol(8 - row_of(p as int), col_of(p as int));
        }
        board[p] = other[(8 - p / 9) * 9 + p % 9];
    }
    proof {
        lemma_src_bounds();
        if grid_consistent(old(board)@) {
            let fr = |r: int| 8 - r;
            let fc = |c: int| c;
            assert forall|r: int| 0 <= r < 9 implies #[trigger] fr(r) / 3 == 2 - r / 3 by {
                lemma_div3_parts(2 - r / 3, 2 - r % 3);
            }
            assert forall|i: int| 0 <= i < 81
                implies #[trigger] board@[i] == old(board)@[fr(row_of(i)) * 9 + fc(col_of(i))]
                by {}
            lemma_axis_perm_consistent(old(board)@, board@, fr, fc);
        }
    }
}

/// Exchange two columns of one sector stack: the columns other than
/// `pivot` within stack `sector_column` swap places.
pub fn swap_columns(board: &mut [u8; 81], sector_column: usize, pivot: usize)
    requires
        sector_column < 3,
        pivot < 3,
    ensures
        forall|i: int| 0 <= i < 81 ==> #[trigger] final(board)@[i] == old(board)@[row_of(i) * 9
            + swap2(col_of(i), swap_lane_a(sector_column as int, pivot as int),
                swap_lane_b(sector_column as int, pivot as int))],
        grid_wf(old(board)@) ==> grid_wf(final(board)@),
        grid_full(old(board)@) ==> grid_full(final(board)@),
        grid_consistent(old(board)@) ==> grid_consistent(final(board)@),
{
    let other = *board;
    let col1 = (pivot + 1) % 3 + sector_column * 3;
    let col2 = (pivot + 2) % 3 + sector_column * 3;
    for p in 0..81usize
        invariant
            other@ == old(board)@,
            col1 == swap_lane_a(sector_column as int, pivot as int),
            col2 == swap_lane_b(sector_column as int, pivot as int),
            col1 < 9,
            col2 < 9,
            forall|i: int| 0 <= i < p ==> #[trigger] board@[i] == other@[row_of(i) * 9
                + swap2(col_of(i), col1 as int, col2 as int)],
    {
        let c = p % 9;
        let src_col = if c == col1 {
            col2
        } else if c == col2 {
            col1
        } else {
            c
        };
        proof {
            lemma_cell_decomp(p as int);
            lemma_rowcol(row_of(p as int), src_col as int);
        }
        board[p] = other[(p / 9) * 9 + src_col];
    }
    proof {
        lemma_src_bounds();
        if grid_consistent(old(board)@) {
            let a = swap_lane_a(sector_column as int, pivot as int);
            let b = swap_lane_b(sector_column as int, pivot as int);
            let fr = |r: int| r;
            let fc = |c: int| swap2(c, a, b);
            assert(a / 3 == sector_column && b / 3 == sector_column) by {
                lemma_div3_parts(sector_column as int, (pivot + 1) % 3);
                lemma_div3_parts(sector_column as int, (pivot + 2) % 3);
            }
            assert forall|c: int| 0 <= c < 9
                implies 0 <= #[trigger] fc(c) < 9 && fc(c) / 3 == c / 3 by {}
            assert forall|i: int| 0 <= i < 81
                implies #[trigger] board@[i] == old(board)@[fr(row_of(i)) * 9 + fc(col_of(i))]
                by {}
            lemma_axis_perm_consistent(old(board)@, board@, fr, fc);
        }
    }
}

/// Exchange two rows of one sector band: the rows other than `pivot`
/// within band `sector_row` swap places.
pub fn swap_rows(board: &mut [u8; 81], sector_row: usize, pivot: usize)
    requires
        sector_row < 3,
        pivot < 3,
    ensures
        forall|i: int| 0 <= i < 81 ==> #[trigger] final(board)@[i] == old(board)@[swap2(row_of(i),
            swap_lane_a(sector_row as int, pivot as int),
            swap_lane_b(sector_row as int, pivot as int)) * 9 + col_of(i)],
        grid_wf(old(board)@) ==> grid_wf(final(board)@),
        grid_full(old(board)@) ==> grid_full(final(board)@),
        grid_consistent(old(board)@) ==> grid_consistent(final(board)@),
{
    let other = *board;
    let row1 = (pivot + 1) % 3 + sector_row * 3;
    let row2 = (pivot + 2) % 3 + sector_row * 3;
    for p in 0..81usize
        invariant
            other@ == old(board)@,
            row1 == swap_lane_a(sector_row as int, pivot as int),
            row2 == swap_lane_b(sector_row as int, pivot as int),
            row1 < 9,
            row2 < 9,
            forall|i: int| 0 <= i < p ==> #[trigger] board@[i] == other@[swap2(row_of(i),
                row1 as int, row2 as int) * 9 + col_of(i)],
    {
        let r = p / 9;
        let src_row = if r == row1 {
            row2
        } else if r == row2 {
            row1
        } else {
            r
        };
        proof {
            lemma_cell_decomp(p as int);
            lemma_rowcol(src_row as int, col_of(p as int));
        }
        board[p] = other[src_row * 9 + p % 9];
    }
    proof {
        lemma_src_bounds();
        if grid_consistent(old(board)@) {
            let a = swap_lane_a(sector_row as int, pivot as int);
            let b = swap_lane_b(sector_row as int, pivot as int);
            let fr = |r: int| swap2(r, a, b);
            let fc = |c: int| c;
            assert(a / 3 == sector_row && b / 3 == sector_row) by {
                lemma_div3_parts(sector_row as int, (pivot + 1) % 3);
                lemma_div3_parts(sector_row as int, (pivot + 2) % 3);
            }
            assert forall|r: int| 0 <= r < 9
                implies 0 <= #[trigger] fr(r) < 9 && fr(r) / 3 == r / 3 by {}
            assert forall|i: int| 0 <= i < 81
                implies #[trigger] board@[i] == old(board)@[fr(row_of(i)) * 9 + fc(col_of(i))]
                by {}
            lemma_axis_perm_consistent(old(board)@, board@, fr, fc);
        }
    }
}

/// Exchange two whole sector stacks of columns: the stacks other than
/// `pivot` swap places.
pub fn swap_column_sector(board: &mut [u8; 81], pivot: usize)
    requires
        pivot < 3,
    ensures
        forall|i: int| 0 <= i < 81 ==> #[trigger] final(board)@[i] == old(board)@[row_of(i) * 9
            + swap2(col_of(i) / 3, (pivot + 1) % 3, (pivot + 2) % 3) * 3 + col_of(i) % 3],
        grid_wf(old(board)@) ==> grid_wf(final(board)@),
        grid_full(old(board)@) ==> grid_full(final(board)@),
        grid_consistent(old(board)@) ==> grid_consistent(final(board)@),
{
    let other = *board;
    let stack1 = (pivot + 1) % 3;
    let stack2 = (pivot + 2) % 3;
    for p in 0..81usize
        invariant
            other@ == old(board)@,
            stack1 == (pivot + 1) % 3 < 3,
            stack2 == (pivot + 2) % 3 < 3,
            forall|i: int| 0 <= i < p ==> #[trigger] board@[i] == other@[row_of(i) * 9
                + swap2(col_of(i) / 3, stack1 as int, stack2 as int) * 3 + col_of(i) % 3],
    {
        let c = p % 9;
        let stack = c / 3;
        let src_stack = if stack == stack1 {
            stack2
        } else if stack == stack2 {
            stack1
        } else {
            stack
        };
        let src_col = src_stack * 3 + c % 3;
        proof {
            lemma_cell_decomp(p as int);
            lemma_rowcol(row_of(p as int), src_col as int);
        }
        board[p] = other[(p / 9) * 9 + src_col];
    }
    proof {
        lemma_src_bounds();
        if grid_consistent(old(board)@) {
            let a = ((pivot + 1) % 3) as int;
            let b = ((pivot + 2) % 3) as int;
            let fr = |r: int| r;
            let fc = |c: int| swap2(c / 3, a, b) * 3 + c % 3;
            assert forall|c: int| 0 <= c < 9
                implies 0 <= #[trigger] fc(c) < 9 && fc(c) / 3 == swap2(c / 3, a, b)
                    && fc(c) % 3 == c % 3 by {
                lemma_div3_parts(swap2(c / 3, a, b), c % 3);
            }
            assert forall|c: int, c2: int| #![trigger fc(c), fc(c2)]
                0 <= c < 9 && 0 <= c2 < 9 && c != c2 implies fc(c) != fc(c2) by {
                lemma_div3_parts(swap2(c / 3, a, b), c % 3);
                lemma_div3_parts(swap2(c2 / 3, a, b), c2 % 3);
            }
            assert forall|i: int| 0 <= i < 81
                implies #[trigger] board@[i] == old(board)@[fr(row_of(i)) * 9 + fc(col_of(i))]
                by {}
            lemma_axis_perm_consistent(old(board)@, board@, fr, fc);
        }
    }
}

/// Exchange two whole sector bands of rows: the bands other than `pivot`
/// swap places.
pub fn swap_row_sector(board: &mut [u8; 81], pivot: usize)
    requires
        pivot < 3,
    ensures
        forall|i: int| 0 <= i < 81 ==> #[trigger] final(board)@[i] == old(board)@[(swap2(
            row_of(i) / 3, (pivot + 1) % 3, (pivot + 2) % 3) * 3 + row_of(i) % 3) * 9 + col_of(i)],
        grid_wf(old(board)@) ==> grid_wf(final(board)@),
        grid_full(old(board)@) ==> grid_full(final(board)@),
        grid_consistent(old(board)@) ==> grid_consistent(final(board)@),
{
    let other = *board;
    let band1 = (pivot + 1) % 3;
    let band2 = (pivot + 2) % 3;
    for p in 0..81usize
        invariant
            other@ == old(board)@,
            band1 == (pivot + 1) % 3 < 3,
            band2 == (pivot + 2) % 3 < 3,
            forall|i: int| 0 <= i < p ==> #[trigger] board@[i] == other@[(swap2(row_of(i) / 3,
                band1 as int, band2 as int) * 3 + row_of(i) % 3) * 9 + col_of(i)],
    {
        let r = p / 9;
        let band = r / 3;
        let src_band = if band == band1 {
            band2
        } else if band == band2 {
            band1
        } else {
            band
        };
        let src_row = src_band * 3 + r % 3;
        proof {
            lemma_cell_decomp(p as int);
            lemma_rowcol(src_row as int, col_of(p as int));
        }
        board[p] = other[src_row * 9 + p % 9];
    }
    proof {
        lemma_src_bounds();
        if grid_consistent(old(board)@) {
            let a = ((pivot + 1) % 3) as int;
            let b = ((pivot + 2) % 3) as int;
            let fr = |r: int| swap2(r / 3, a, b) * 3 + r % 3;
            let fc = |c: int| c;
            assert forall|r: int| 0 <= r < 9
                implies 0 <= #[trigger] fr(r) < 9 && fr(r) / 3 == swap2(r / 3, a, b)
                    && fr(r) % 3 == r % 3 by {
                lemma_div3_parts(swap2(r / 3, a, b), r % 3);
            }
            assert forall|r: int, r2: int| #![trigger fr(r), fr(r2)]
                0 <= r < 9 && 0 <= r2 < 9 && r != r2 implies fr(r) != fr(r2) by {
                lemma_div3_parts(swap2(r / 3, a, b), r % 3);
                lemma_div3_parts(swap2(r2 / 3, a, b), r2 % 3);
            }
            assert forall|i: int| 0 <= i < 81
                implies #[trigger] board@[i] == old(board)@[fr(row_of(i)) * 9 + fc(col_of(i))]
                by {}
            lemma_axis_perm_consistent(old(board)@, board@, fr, fc);
        }
    }
}

/// The source index that any of the permuting transformations reads for a
/// target cell lies on the grid; packaged for the well-formedness and
/// fullness clauses.
proof fn lemma_src_bounds()
    ensures
        forall|r: int, c: int| 0 <= r < 9 && 0 <= c < 9 ==> 0 <= #[trigger] (r * 9 + c) < 81,
{
    assert forall|r: int, c: int| 0 <= r < 9 && 0 <= c < 9
        implies 0 <= #[trigger] (r * 9 + c) < 81 by {
        lemma_rowcol(r, c);
    }
}

} // verus!
