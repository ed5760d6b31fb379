//! The consistency scan shared by every grid representation.
//!
//! One pass over the cell's row, one over its column, and one over its
//! sector decide whether a value may stand at a cell; the scan is proved
//! equivalent to [`crate::model::placement_consistent`].

use vstd::prelude::*;

use crate::model::{col_cell, col_of, lemma_cell_decomp, lemma_col_cell, lemma_row_cell,
    lemma_sector_cell, lemma_sector_decomp, placement_consistent, row_cell, row_of, same_unit,
    sector_cell, sector_of, sector_slot_of};

verus! {

/// Would value `v` stand at cell `i` without clashing in `i`'s row, column,
/// or sector?  The cell `i` itself is never compared against.
pub(crate) fn scan_consistent(cells: &[u8; 81], i: usize, v: u8) -> (r: bool)
    requires
        i < 81,
        1 <= v,
    ensures
        r == placement_consistent(cells@, i as int, v),
{
    let row = i / 9;
    let col = i % 9;
    proof {
        lemma_cell_decomp(i as int);
    }

    for k in 0..9usize
        invariant
            i < 81,
            1 <= v,
            row == i / 9,
            col == i % 9,
            forall|k2: int|
                0 <= k2 < k ==> cells@[#[trigger] row_cell(row as int, k2)] != v
                    || row_cell(row as int, k2) == i,
    {
        proof {
            lemma_row_cell(row as int, k as int);
        }
        let j = row * 9 + k;
        if j != i && cells[j] == v {
            proof {
                assert(row_of(j as int) == row_of(i as int));
                assert(same_unit(i as int, j as int));
            }
            return false;
        }
    }

    for k in 0..9usize
        invariant
            i < 81,
            1 <= v,
            row == i / 9,
            col == i % 9,
            forall|k2: int|
                0 <= k2 < k ==> cells@[#[trigger] col_cell(col as int, k2)] != v
                    || col_cell(col as int, k2) == i,
    {
        proof {
            lemma_col_cell(col as int, k as int);
        }
        let j = k * 9 + col;
        if j != i && cells[j] == v {
            proof {
                assert(col_of(j as int) == col_of(i as int));
                assert(same_unit(i as int, j as int));
            }
            return false;
        }
    }

    let sec = (row / 3) * 3 + col / 3;
    proof {
        lemma_sector_decomp(i as int);
        assert(sec as int == sector_of(i as int));
    }
    for k in 0..9usize
        invariant
            i < 81,
            1 <= v,
            sec as int == sector_of(i as int),
            sec < 9,
            forall|k2: int|
                0 <= k2 < k ==> cells@[#[trigger] sector_cell(sec as int, k2)] != v
                    || sector_cell(sec as int, k2) == i,
    {
        proof {
            lemma_sector_cell(sec as int, k as int);
        }
        let j = (sec / 3) * 27 + (sec % 3) * 3 + (k / 3) * 9 + k % 3;
        proof {
            assert(j as int == sector_cell(sec as int, k as int));
        }
        if j != i && cells[j] == v {
            proof {
                assert(sector_of(j as int) == sector_of(i as int));
                assert(same_unit(i as int, j as int));
            }
            return false;
        }
    }

    proof {
        assert forall|j: int| 0 <= j < 81 && j != i as int && #[trigger] same_unit(i as int, j)
            implies cells@[j] != v by {
            lemma_cell_decomp(j);
            let rj = row_of(j);
            let cj = col_of(j);
            if rj == row_of(i as int) {
                assert(row_cell(row as int, cj) == j);
                assert(cells@[row_cell(row as int, cj)] != v || row_cell(row as int, cj) == i as int);
            } else if cj == col_of(i as int) {
                assert(col_cell(col as int, rj) == j);
                assert(cells@[col_cell(col as int, rj)] != v || col_cell(col as int, rj) == i as int);
            } else {
                assert(sector_of(j) == sector_of(i as int));
                lemma_sector_decomp(j);
                let k2 = sector_slot_of(j);
                assert(sector_cell(sec as int, k2) == j);
                assert(cells@[sector_cell(sec as int, k2)] != v
                    || sector_cell(sec as int, k2) == i as int);
            }
        }
    }
    true
}

} // verus!
