//! The mathematical model of a sudoku grid.
//!
//! A grid is modelled as a `Seq<u8>` of length 81 in row-major order, where
//! `0` stands for an empty cell and `1..=9` for a placed digit.  Cell `i`
//! lies in row `i / 9`, column `i % 9`, and one of the nine non-overlapping
//! 3x3 sectors.  A grid is consistent when no digit occurs twice within a
//! row, a column, or a sector.

use vstd::prelude::*;

verus! {

/// Row of the cell with linear index `i`.
pub open spec fn row_of(i: int) -> int {
    i / 9
}

/// Column of the cell with linear index `i`.
pub open spec fn col_of(i: int) -> int {
    i % 9
}

/// Sector (3x3 box) of the cell with linear index `i`.
pub open spec fn sector_of(i: int) -> int {
    (i / 9 / 3) * 3 + (i % 9) / 3
}

/// Position of the cell with linear index `i` within its sector,
/// in row-major order.
pub open spec fn sector_slot_of(i: int) -> int {
    (i / 9 % 3) * 3 + (i % 9) % 3
}

/// Linear index of the `k`-th cell of row `r`.
pub open spec fn row_cell(r: int, k: int) -> int {
    r * 9 + k
}

/// Linear index of the `k`-th cell of column `c`.
pub open spec fn col_cell(c: int, k: int) -> int {
    k * 9 + c
}

/// Linear index of the `k`-th cell of sector `s`, in row-major order.
pub open spec fn sector_cell(s: int, k: int) -> int {
    (s / 3) * 27 + (s % 3) * 3 + (k / 3) * 9 + k % 3
}

/// Two cells share a unit when they lie in the same row, column, or sector.
/// A digit may occur at most once within any unit.
pub open spec fn same_unit(i: int, j: int) -> bool {
    row_of(i) == row_of(j) || col_of(i) == col_of(j) || sector_of(i) == sector_of(j)
}

/// A well-formed grid: 81 cells, each holding 0 (empty) or a digit 1..=9.
pub open spec fn grid_wf(g: Seq<u8>) -> bool {
    &&& g.len() == 81
    &&& forall|i: int| 0 <= i < 81 ==> g[i] <= 9
}

/// Placing value `v` at cell `i` would clash with no other cell of `i`'s
/// row, column, or sector.  An empty value never clashes.
pub open spec fn placement_consistent(g: Seq<u8>, i: int, v: u8) -> bool {
    v == 0 || forall|j: int| 0 <= j < 81 && j != i && #[trigger] same_unit(i, j) ==> g[j] != v
}

/// The value held at cell `i` clashes with no other cell of its units.
pub open spec fn cell_consistent(g: Seq<u8>, i: int) -> bool {
    placement_consistent(g, i, g[i])
}

/// Every cell of the grid is consistent: no digit occurs twice in any row,
/// column, or sector.
pub open spec fn grid_consistent(g: Seq<u8>) -> bool {
    forall|i: int| 0 <= i < 81 ==> #[trigger] cell_consistent(g, i)
}

/// No cell of the grid is empty.
pub open spec fn grid_full(g: Seq<u8>) -> bool {
    forall|i: int| 0 <= i < 81 ==> g[i] != 0
}

/// `s` agrees with `p` on every cell that is filled in `p`.
pub open spec fn extends(s: Seq<u8>, p: Seq<u8>) -> bool {
    &&& s.len() == 81
    &&& forall|i: int| 0 <= i < 81 && p[i] != 0 ==> s[i] == p[i]
}

/// `s` is a solution of the puzzle `p`: a well-formed, full, consistent
/// grid that keeps every clue of `p`.
pub open spec fn solves(s: Seq<u8>, p: Seq<u8>) -> bool {
    &&& grid_wf(s)
    &&& grid_full(s)
    &&& grid_consistent(s)
    &&& extends(s, p)
}

/// `p` arises from `s` by clearing some cells and touching nothing else.
pub open spec fn cleared_from(p: Seq<u8>, s: Seq<u8>) -> bool {
    &&& p.len() == 81
    &&& s.len() == 81
    &&& forall|i: int| 0 <= i < 81 ==> p[i] == s[i] || p[i] == 0
}

/// The puzzle `p` admits exactly one solution, namely `s`.
pub open spec fn unique_solution(p: Seq<u8>, s: Seq<u8>) -> bool {
    &&& solves(s, p)
    &&& forall|t: Seq<u8>| #[trigger] solves(t, p) ==> t == s
}

/// Decomposing a linear index into row and column and recombining them is
/// the identity, and both parts are in range.
pub proof fn lemma_cell_decomp(i: int)
    requires
        0 <= i < 81,
    ensures
        i == row_of(i) * 9 + col_of(i),
        0 <= row_of(i) < 9,
        0 <= col_of(i) < 9,
{
}

/// A row/column pair maps to a linear index that decomposes back into the
/// same pair.
pub proof fn lemma_rowcol(r: int, c: int)
    by (nonlinear_arith)
    requires
        0 <= r < 9,
        0 <= c < 9,
    ensures
        0 <= r * 9 + c < 81,
        row_of(r * 9 + c) == r,
        col_of(r * 9 + c) == c,
{
}

/// The cells of one row decompose as expected.
pub proof fn lemma_row_cell(r: int, k: int)
    by (nonlinear_arith)
    requires
        0 <= r < 9,
        0 <= k < 9,
    ensures
        0 <= row_cell(r, k) < 81,
        row_of(row_cell(r, k)) == r,
        col_of(row_cell(r, k)) == k,
{
}

/// The cells of one column decompose as expected.
pub proof fn lemma_col_cell(c: int, k: int)
    by (nonlinear_arith)
    requires
        0 <= c < 9,
        0 <= k < 9,
    ensures
        0 <= col_cell(c, k) < 81,
        row_of(col_cell(c, k)) == k,
        col_of(col_cell(c, k)) == c,
{
}

/// The cells of one sector decompose as expected.
pub proof fn lemma_sector_cell(s: int, k: int)
    by (nonlinear_arith)
    requires
        0 <= s < 9,
        0 <= k < 9,
    ensures
        0 <= sector_cell(s, k) < 81,
        sector_of(sector_cell(s, k)) == s,
        sector_slot_of(sector_cell(s, k)) == k,
{
}

/// Every cell is reached by the enumeration of its own sector.
pub proof fn lemma_sector_decomp(i: int)
    by (nonlinear_arith)
    requires
        0 <= i < 81,
    ensures
        0 <= sector_of(i) < 9,
        0 <= sector_slot_of(i) < 9,
        sector_cell(sector_of(i), sector_slot_of(i)) == i,
{
}

/// Grids sharing the values of two clashing cells share the clash: placing
/// equal digits on two distinct cells of one unit makes both inconsistent.
pub proof fn lemma_duplicate_inconsistent(g: Seq<u8>, i: int, j: int)
    requires
        g.len() == 81,
        0 <= i < 81,
        0 <= j < 81,
        i != j,
        same_unit(i, j),
        g[i] == g[j],
        g[i] != 0,
    ensures
        !cell_consistent(g, i),
        !cell_consistent(g, j),
{
    assert(same_unit(j, i));
}

/// A grid without duplicated digits in any unit passes the consistency
/// check everywhere.
pub proof fn lemma_no_duplicate_consistent(g: Seq<u8>)
    requires
        g.len() == 81,
        forall|i: int, j: int| #![trigger g[i], g[j]]
            0 <= i < 81 && 0 <= j < 81 && i != j && same_unit(i, j) && g[i] != 0 ==> g[i] != g[j],
    ensures
        grid_consistent(g),
{
    assert forall|i: int| 0 <= i < 81 implies #[trigger] cell_consistent(g, i) by {
        if g[i] != 0 {
            assert forall|j: int| 0 <= j < 81 && j != i && #[trigger] same_unit(i, j)
                implies g[j] != g[i] by {
                assert(g[i] != g[j]);
            }
        }
    }
}

/// A grid with an inconsistent cell has no solution: the clash stands among
/// filled cells, and every solution must keep them.
pub proof fn lemma_inconsistent_unsolvable(g: Seq<u8>, i: int)
    requires
        g.len() == 81,
        0 <= i < 81,
        !cell_consistent(g, i),
    ensures
        forall|s: Seq<u8>| !solves(s, g),
{
    let j = choose|j: int| 0 <= j < 81 && j != i && #[trigger] same_unit(i, j) && g[j] == g[i];
    assert forall|s: Seq<u8>| !solves(s, g) by {
        if solves(s, g) {
            assert(s[i] == g[i] && s[j] == g[j]);
            assert(same_unit(i, j));
            assert(!cell_consistent(s, i));
            assert(cell_consistent(s, i));
        }
    }
}

/// Changing one cell to a value that clashes nowhere preserves consistency
/// of the whole grid.
pub proof fn lemma_update_consistent(g: Seq<u8>, i: int, v: u8)
    requires
        g.len() == 81,
        0 <= i < 81,
        grid_consistent(g),
        placement_consistent(g, i, v),
    ensures
        grid_consistent(g.update(i, v)),
{
    let g2 = g.update(i, v);
    assert forall|k: int| 0 <= k < 81 implies #[trigger] cell_consistent(g2, k) by {
        if k == i {
            assert forall|j: int| 0 <= j < 81 && j != k && #[trigger] same_unit(k, j)
                implies g2[j] != g2[k] || g2[k] == 0 by {}
        } else {
            assert(cell_consistent(g, k));
            if g2[k] != 0 {
                assert forall|j: int| 0 <= j < 81 && j != k && #[trigger] same_unit(k, j)
                    implies g2[j] != g2[k] by {
                    if j == i {
                        // a clash with the fresh value would contradict the
                        // consistency of the placement at i
                        assert(same_unit(i, k));
                    } else {
                        assert(g[j] != g[k]);
                    }
                }
            }
        }
    }
}

/// A puzzle derived from a consistent grid by clearing cells stays
/// consistent: clearing never introduces a clash.
pub proof fn lemma_cleared_consistent(p: Seq<u8>, s: Seq<u8>)
    requires
        cleared_from(p, s),
        grid_consistent(s),
    ensures
        grid_consistent(p),
{
    assert forall|i: int| 0 <= i < 81 implies #[trigger] cell_consistent(p, i) by {
        if p[i] != 0 {
            assert(cell_consistent(s, i));
            assert forall|j: int| 0 <= j < 81 && j != i && #[trigger] same_unit(i, j)
                implies p[j] != p[i] by {
                if p[j] != 0 {
                    assert(s[j] != s[i]);
                }
            }
        }
    }
}

/// Cells of one sector agree on both band and stack.
pub proof fn lemma_sector_eq(i: int, j: int)
    requires
        0 <= i < 81,
        0 <= j < 81,
        sector_of(i) == sector_of(j),
    ensures
        row_of(i) / 3 == row_of(j) / 3,
        col_of(i) / 3 == col_of(j) / 3,
{
    lemma_cell_decomp(i);
    lemma_cell_decomp(j);
}

/// Division and remainder of a number given as `3 q + r`.
pub proof fn lemma_div3_parts(q: int, r: int)
    by (nonlinear_arith)
    requires
        0 <= q,
        0 <= r < 3,
    ensures
        (3 * q + r) / 3 == q,
        (3 * q + r) % 3 == r,
{
}

/// Rearranging the cells by a permutation that carries units into units
/// keeps a grid consistent.
pub proof fn lemma_perm_consistent(g1: Seq<u8>, g2: Seq<u8>, sigma: spec_fn(int) -> int)
    requires
        g1.len() == 81,
        g2.len() == 81,
        forall|i: int| 0 <= i < 81 ==> 0 <= #[trigger] sigma(i) < 81,
        forall|i: int| 0 <= i < 81 ==> g2[i] == g1[#[trigger] sigma(i)],
        forall|i: int, j: int| #![trigger sigma(i), sigma(j)]
            0 <= i < 81 && 0 <= j < 81 && i != j ==> sigma(i) != sigma(j),
        forall|i: int, j: int| #![trigger sigma(i), sigma(j)]
            0 <= i < 81 && 0 <= j < 81 && same_unit(i, j) ==> same_unit(sigma(i), sigma(j)),
        grid_consistent(g1),
    ensures
        grid_consistent(g2),
{
    assert forall|i: int| 0 <= i < 81 implies #[trigger] cell_consistent(g2, i) by {
        if g2[i] != 0 {
            assert forall|j: int| 0 <= j < 81 && j != i && #[trigger] same_unit(i, j)
                implies g2[j] != g2[i] by {
                assert(same_unit(sigma(i), sigma(j)));
                assert(cell_consistent(g1, sigma(i)));
                assert(same_unit(sigma(i), sigma(j)) && sigma(j) != sigma(i)
                    ==> g1[sigma(j)] != g1[sigma(i)]);
            }
        }
    }
}

/// Rearranging rows and columns independently keeps a grid consistent,
/// provided rows (and columns) of one band (stack) stay together: rows map
/// to rows, columns to columns, and sectors to sectors.
pub proof fn lemma_axis_perm_consistent(
    g1: Seq<u8>,
    g2: Seq<u8>,
    fr: spec_fn(int) -> int,
    fc: spec_fn(int) -> int,
)
    requires
        g1.len() == 81,
        g2.len() == 81,
        forall|r: int| 0 <= r < 9 ==> 0 <= #[trigger] fr(r) < 9,
        forall|c: int| 0 <= c < 9 ==> 0 <= #[trigger] fc(c) < 9,
        forall|r: int, r2: int| #![trigger fr(r), fr(r2)]
            0 <= r < 9 && 0 <= r2 < 9 && r != r2 ==> fr(r) != fr(r2),
        forall|c: int, c2: int| #![trigger fc(c), fc(c2)]
            0 <= c < 9 && 0 <= c2 < 9 && c != c2 ==> fc(c) != fc(c2),
        forall|r: int, r2: int| #![trigger fr(r), fr(r2)]
            0 <= r < 9 && 0 <= r2 < 9 && r / 3 == r2 / 3 ==> fr(r) / 3 == fr(r2) / 3,
        forall|c: int, c2: int| #![trigger fc(c), fc(c2)]
            0 <= c < 9 && 0 <= c2 < 9 && c / 3 == c2 / 3 ==> fc(c) / 3 == fc(c2) / 3,
        forall|i: int| 0 <= i < 81
            ==> #[trigger] g2[i] == g1[fr(row_of(i)) * 9 + fc(col_of(i))],
        grid_consistent(g1),
    ensures
        grid_consistent(g2),
{
    let sigma = |i: int| fr(row_of(i)) * 9 + fc(col_of(i));
    assert forall|i: int| 0 <= i < 81 implies 0 <= #[trigger] sigma(i) < 81 by {
        lemma_cell_decomp(i);
        lemma_rowcol(fr(row_of(i)), fc(col_of(i)));
    }
    assert forall|i: int, j: int| #![trigger sigma(i), sigma(j)]
        0 <= i < 81 && 0 <= j < 81 && i != j implies sigma(i) != sigma(j) by {
        lemma_cell_decomp(i);
        lemma_cell_decomp(j);
        lemma_rowcol(fr(row_of(i)), fc(col_of(i)));
        lemma_rowcol(fr(row_of(j)), fc(col_of(j)));
        if sigma(i) == sigma(j) {
            assert(fr(row_of(i)) == fr(row_of(j)) && fc(col_of(i)) == fc(col_of(j)));
            assert(row_of(i) == row_of(j) && col_of(i) == col_of(j));
        }
    }
    assert forall|i: int, j: int| #![trigger sigma(i), sigma(j)]
        0 <= i < 81 && 0 <= j < 81 && same_unit(i, j)
        implies same_unit(sigma(i), sigma(j)) by {
        lemma_cell_decomp(i);
        lemma_cell_decomp(j);
        lemma_rowcol(fr(row_of(i)), fc(col_of(i)));
        lemma_rowcol(fr(row_of(j)), fc(col_of(j)));
        if sector_of(i) == sector_of(j) && row_of(i) != row_of(j) && col_of(i) != col_of(j) {
            lemma_sector_eq(i, j);
            assert(fr(row_of(i)) / 3 == fr(row_of(j)) / 3);
            assert(fc(col_of(i)) / 3 == fc(col_of(j)) / 3);
            assert(sector_of(sigma(i)) == sector_of(sigma(j)));
        }
    }
    lemma_perm_consistent(g1, g2, sigma);
}

/// Relabelling the digits of a grid injectively, empties kept empty, keeps
/// the grid consistent.
pub proof fn lemma_relabel_consistent(g1: Seq<u8>, g2: Seq<u8>)
    requires
        g1.len() == 81,
        g2.len() == 81,
        forall|i: int| 0 <= i < 81 ==> ((#[trigger] g2[i] == 0) <==> g1[i] == 0),
        forall|i: int, j: int| #![trigger g2[i], g2[j]]
            0 <= i < 81 && 0 <= j < 81 && g1[i] != 0 && g1[i] != g1[j] ==> g2[i] != g2[j],
        grid_consistent(g1),
    ensures
        grid_consistent(g2),
{
    assert forall|i: int| 0 <= i < 81 implies #[trigger] cell_consistent(g2, i) by {
        if g2[i] != 0 {
            assert(cell_consistent(g1, i));
            assert forall|j: int| 0 <= j < 81 && j != i && #[trigger] same_unit(i, j)
                implies g2[j] != g2[i] by {
                assert(g1[j] != g1[i]);
            }
        }
    }
}

/// Pigeonhole over the digits: at most nine pairwise distinct values fit
/// in 1 to 9.
proof fn lemma_digit_pigeonhole(vals: Seq<int>)
    requires
        vals.no_duplicates(),
        forall|k: int| 0 <= k < vals.len() ==> 1 <= #[trigger] vals[k] <= 9,
    ensures
        vals.len() <= 9,
{
    vals.unique_seq_to_set();
    assert forall|x: int| #[trigger] vals.to_set().contains(x)
        implies vstd::set_lib::set_int_range(1, 10).contains(x) by {
        let k = choose|k: int| 0 <= k < vals.len() && vals[k] == x;
    }
    assert(vals.to_set().subset_of(vstd::set_lib::set_int_range(1, 10)));
    vstd::set_lib::lemma_int_range(1, 10);
    vstd::set_lib::lemma_len_subset(vals.to_set(), vstd::set_lib::set_int_range(1, 10));
}

/// Every row of a full consistent grid holds all nine digits, so clearing
/// a single cell of such a grid admits only the cleared value back: the
/// other eight cells of the row use up every alternative.
pub proof fn lemma_full_grid_forced(g: Seq<u8>, c: int)
    requires
        grid_wf(g),
        grid_full(g),
        grid_consistent(g),
        0 <= c < 81,
    ensures
        forall|s: Seq<u8>| #[trigger] solves(s, g.update(c, 0u8)) ==> s[c] == g[c],
{
    let r = row_of(c);
    lemma_cell_decomp(c);
    assert forall|s: Seq<u8>| #[trigger] solves(s, g.update(c, 0u8)) implies s[c] == g[c] by {
        if s[c] != g[c] {
            // the nine row values of g and s's value at c would be ten
            // pairwise distinct digits
            let vals = Seq::new(9, |k: int| g[row_cell(r, k)] as int).push(s[c] as int);
            assert forall|k: int| 0 <= k < vals.len() implies 1 <= #[trigger] vals[k] <= 9 by {
                if k < 9 {
                    lemma_row_cell(r, k);
                }
            }
            assert forall|k1: int, k2: int|
                0 <= k1 < vals.len() && 0 <= k2 < vals.len() && k1 != k2
                implies vals[k1] != vals[k2] by {
                if k1 < 9 {
                    lemma_row_cell(r, k1);
                }
                if k2 < 9 {
                    lemma_row_cell(r, k2);
                }
                if k1 < 9 && k2 < 9 {
                    // two cells of one row never share a digit
                    assert(same_unit(row_cell(r, k1), row_cell(r, k2)));
                    assert(cell_consistent(g, row_cell(r, k1)));
                } else {
                    // s's value at c differs from every row value of g:
                    // from g[c] by assumption, and from each other cell j
                    // because s keeps g there and is consistent at c
                    let k = if k1 < 9 {
                        k1
                    } else {
                        k2
                    };
                    lemma_row_cell(r, k);
                    let j = row_cell(r, k);
                    if j != c {
                        assert(g.update(c, 0u8)[j] == g[j]);
                        assert(s[j] == g[j]);
                        assert(same_unit(c, j));
                        assert(cell_consistent(s, c));
                        assert(s[j] != s[c]);
                    }
                }
            }
            lemma_digit_pigeonhole(vals);
        }
    }
}

/// A puzzle obtained from a solved grid by clearing cells is solvable: the
/// solved grid itself is a solution.  Since the solver returns `Some`
/// whenever a solution exists, it always completes such a puzzle.
pub proof fn lemma_cleared_solvable(sol: Seq<u8>, puz: Seq<u8>)
    requires
        grid_wf(sol),
        grid_full(sol),
        grid_consistent(sol),
        cleared_from(puz, sol),
    ensures
        solves(sol, puz),
{
}

/// A grid with equal digits on two distinct cells of one unit has no
/// solution, so the solver reports failure on it.
pub proof fn lemma_conflict_unsolvable(g: Seq<u8>, i: int, j: int)
    requires
        g.len() == 81,
        0 <= i < 81,
        0 <= j < 81,
        i != j,
        same_unit(i, j),
        g[i] == g[j],
        g[i] != 0,
    ensures
        forall|s: Seq<u8>| !solves(s, g),
{
    lemma_duplicate_inconsistent(g, i, j);
    lemma_inconsistent_unsolvable(g, i);
}

/// The pruner's guarantee at every cleared cell of a finished puzzle:
/// substituting any value other than the one the unique solution holds
/// there leaves a grid that no completion of the remaining cleared cells
/// solves.
pub proof fn lemma_pruned_substitution(p: Seq<u8>, sol: Seq<u8>, i: int, v: u8)
    requires
        p.len() == 81,
        unique_solution(p, sol),
        0 <= i < 81,
        p[i] == 0,
        v != 0,
        v != sol[i],
    ensures
        forall|t: Seq<u8>| !solves(t, p.update(i, v)),
{
    assert forall|t: Seq<u8>| !solves(t, p.update(i, v)) by {
        if solves(t, p.update(i, v)) {
            assert(t[i] == v);
            assert forall|k: int| 0 <= k < 81 && p[k] != 0 implies t[k] == p[k] by {
                assert(p.update(i, v)[k] == p[k]);
            }
            assert(solves(t, p));
            assert(t == sol);
        }
    }
}

/// The number of empty cells among the first `n` cells of the grid.
pub open spec fn empty_count(g: Seq<u8>, n: int) -> int
    decreases n,
{
    if n <= 0 {
        0
    } else {
        empty_count(g, n - 1) + if g[n - 1] == 0 {
            1int
        } else {
            0int
        }
    }
}

/// Grids agreeing on their first `n` cells have the same count of empties
/// among them.
pub proof fn lemma_empty_count_agree(g1: Seq<u8>, g2: Seq<u8>, n: int)
    requires
        forall|i: int| 0 <= i < n ==> g1[i] == g2[i],
    ensures
        empty_count(g1, n) == empty_count(g2, n),
    decreases n,
{
    if n > 0 {
        lemma_empty_count_agree(g1, g2, n - 1);
    }
}

/// Clearing one filled cell raises the count of empties by one.
pub proof fn lemma_empty_count_clear(g: Seq<u8>, i: int, n: int)
    requires
        0 <= i < n <= g.len(),
        g[i] != 0,
    ensures
        empty_count(g.update(i, 0u8), n) == empty_count(g, n) + 1,
    decreases n,
{
    let g2 = g.update(i, 0u8);
    if i == n - 1 {
        lemma_empty_count_agree(g, g2, n - 1);
    } else {
        lemma_empty_count_clear(g, i, n - 1);
    }
}

/// A grid filled up to `n` has no empties among its first `n` cells.
pub proof fn lemma_empty_count_none(g: Seq<u8>, n: int)
    requires
        forall|i: int| 0 <= i < n ==> g[i] != 0,
    ensures
        empty_count(g, n) == 0,
    decreases n,
{
    if n > 0 {
        lemma_empty_count_none(g, n - 1);
    }
}

/// Slot drawn by row `r` and column `c` in the cyclic base pattern.
pub open spec fn slot_rc(r: int, c: int) -> int {
    (c + (r % 3) * 3 + r / 3) % 9
}

/// Slot of cell `i` in the cyclic base pattern.
pub open spec fn pattern_slot(i: int) -> int {
    slot_rc(row_of(i), col_of(i))
}

/// The grid that places `tokens[pattern_slot(i)]` at every cell `i`.  For
/// any nine pairwise distinct digits this yields a full consistent grid
/// whose first row reads `tokens` in order.
pub open spec fn pattern_grid(tokens: Seq<u8>) -> Seq<u8> {
    Seq::new(81, |i: int| tokens[pattern_slot(i)])
}

/// The canonical solved grid: the pattern grid of the digits 1 to 9 in
/// their natural order.
pub open spec fn base_grid() -> Seq<u8> {
    Seq::new(81, |i: int| (pattern_slot(i) + 1) as u8)
}

/// Numbers less than 9 apart fall on distinct residues modulo 9.
pub proof fn lemma_mod9_distinct(x: int, y: int)
    by (nonlinear_arith)
    requires
        0 <= x,
        0 <= y,
        x != y,
        -9 < x - y < 9,
    ensures
        x % 9 != y % 9,
{
}

/// Within any one unit, the cyclic base pattern never repeats a slot.
pub proof fn lemma_slot_distinct(r1: int, c1: int, r2: int, c2: int)
    requires
        0 <= r1 < 9,
        0 <= c1 < 9,
        0 <= r2 < 9,
        0 <= c2 < 9,
        !(r1 == r2 && c1 == c2),
        r1 == r2 || c1 == c2 || (r1 / 3 == r2 / 3 && c1 / 3 == c2 / 3),
    ensures
        slot_rc(r1, c1) != slot_rc(r2, c2),
{
    let x1 = c1 + (r1 % 3) * 3 + r1 / 3;
    let x2 = c2 + (r2 % 3) * 3 + r2 / 3;
    assert(0 <= r1 % 3 < 3 && 0 <= r1 / 3 < 3);
    assert(0 <= r2 % 3 < 3 && 0 <= r2 / 3 < 3);
    if r1 == r2 {
        assert(x1 - x2 == c1 - c2);
    } else if c1 == c2 {
        // the row offset (r % 3) * 3 + r / 3 is injective in r
        assert(r1 == (r1 / 3) * 3 + r1 % 3);
        assert(r2 == (r2 / 3) * 3 + r2 % 3);
        assert(x1 != x2);
    } else {
        // same sector: row offsets share r / 3, columns share c / 3
        assert(c1 == (c1 / 3) * 3 + c1 % 3);
        assert(c2 == (c2 / 3) * 3 + c2 % 3);
        assert(r1 == (r1 / 3) * 3 + r1 % 3);
        assert(r2 == (r2 / 3) * 3 + r2 % 3);
        assert(x1 - x2 == (c1 % 3 - c2 % 3) + 3 * (r1 % 3 - r2 % 3));
        assert(x1 != x2);
    }
    lemma_mod9_distinct(x1, x2);
}

/// The pattern grid of nine pairwise distinct digits is a full, consistent,
/// well-formed grid whose first row reads the digits in order.
pub proof fn lemma_pattern_grid(tokens: Seq<u8>)
    requires
        tokens.len() == 9,
        tokens.no_duplicates(),
        forall|k: int| 0 <= k < 9 ==> 1 <= #[trigger] tokens[k] <= 9,
    ensures
        grid_wf(pattern_grid(tokens)),
        grid_full(pattern_grid(tokens)),
        grid_consistent(pattern_grid(tokens)),
        forall|c: int| 0 <= c < 9 ==> #[trigger] pattern_grid(tokens)[c] == tokens[c],
{
    let g = pattern_grid(tokens);
    assert forall|i: int| 0 <= i < 81 implies 0 <= #[trigger] pattern_slot(i) < 9 by {
        lemma_cell_decomp(i);
    }
    assert forall|i: int| 0 <= i < 81 implies #[trigger] cell_consistent(g, i) by {
        assert forall|j: int| 0 <= j < 81 && j != i && #[trigger] same_unit(i, j)
            implies g[j] != g[i] by {
            lemma_cell_decomp(i);
            lemma_cell_decomp(j);
            if sector_of(i) == sector_of(j) && row_of(i) != row_of(j) && col_of(i) != col_of(j) {
                assert(row_of(i) / 3 == row_of(j) / 3 && col_of(i) / 3 == col_of(j) / 3);
            }
            lemma_slot_distinct(row_of(i), col_of(i), row_of(j), col_of(j));
        }
    }
    assert forall|c: int| 0 <= c < 9 implies #[trigger] pattern_grid(tokens)[c] == tokens[c] by {
        lemma_cell_decomp(c);
        assert(row_of(c) == 0 && col_of(c) == c);
        assert(pattern_slot(c) == c % 9);
    }
}

/// The canonical grid is the pattern grid of the digits 1 to 9.
pub proof fn lemma_base_grid()
    ensures
        grid_wf(base_grid()),
        grid_full(base_grid()),
        grid_consistent(base_grid()),
{
    let tokens = Seq::new(9, |k: int| (k + 1) as u8);
    assert(base_grid() =~= pattern_grid(tokens)) by {
        assert forall|i: int| 0 <= i < 81 implies 0 <= #[trigger] pattern_slot(i) < 9 by {
            lemma_cell_decomp(i);
        }
    }
    lemma_pattern_grid(tokens);
}

} // verus!
