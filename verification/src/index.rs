//! Walkers over the cells of one row, one column, or one sector.
//!
//! Each indexer hands out the nine cells of its unit in canonical order:
//! rows left to right, columns top to bottom, sectors row-major within the
//! 3x3 block.

use vstd::prelude::*;

use crate::game::Cell;
use crate::model::{col_cell, lemma_col_cell, lemma_row_cell, lemma_sector_cell, row_cell,
    sector_cell};

verus! {

/// Hands out the cells of one row, left to right.
pub struct RowIndexer {
    row: usize,
    k: usize,
}

impl RowIndexer {
    /// The row being walked.
    pub closed spec fn spec_row(self) -> int {
        self.row as int
    }

    /// How many cells have been handed out.
    pub closed spec fn pos(self) -> int {
        self.k as int
    }

    /// The walker's state is sound.
    pub open spec fn wf(self) -> bool {
        0 <= self.spec_row() < 9 && 0 <= self.pos() <= 9
    }

    /// A walker over row `row`.
    pub fn new(row: usize) -> (it: RowIndexer)
        requires
            row < 9,
        ensures
            it.wf(),
            it.spec_row() == row,
            it.pos() == 0,
    {
        RowIndexer { row, k: 0 }
    }

    /// The next cell of the row, if any is left.
    pub fn next(&mut self) -> (c: Option<Cell>)
        requires
            old(self).wf(),
        ensures
            final(self).wf(),
            final(self).spec_row() == old(self).spec_row(),
            old(self).pos() < 9 ==> c is Some && final(self).pos() == old(self).pos() + 1
                && (c->0).linear() == row_cell(old(self).spec_row(), old(self).pos())
                && (c->0).in_bounds(),
            old(self).pos() == 9 ==> c is None && final(self).pos() == old(self).pos(),
    {
        if self.k < 9 {
            proof {
                lemma_row_cell(self.row as int, self.k as int);
            }
            let cell = Cell::from_index(self.row * 9 + self.k);
            self.k = self.k + 1;
            Some(cell)
        } else {
            None
        }
    }
}

/// Hands out the cells of one column, top to bottom.
pub struct ColumnIndexer {
    col: usize,
    k: usize,
}

impl ColumnIndexer {
    /// The column being walked.
    pub closed spec fn spec_col(self) -> int {
        self.col as int
    }

    /// How many cells have been handed out.
    pub closed spec fn pos(self) -> int {
        self.k as int
    }

    /// The walker's state is sound.
    pub open spec fn wf(self) -> bool {
        0 <= self.spec_col() < 9 && 0 <= self.pos() <= 9
    }

    /// A walker over column `column`.
    pub fn new(column: usize) -> (it: ColumnIndexer)
        requires
            column < 9,
        ensures
            it.wf(),
            it.spec_col() == column,
            it.pos() == 0,
    {
        ColumnIndexer { col: column, k: 0 }
    }

    /// The next cell of the column, if any is left.
    pub fn next(&mut self) -> (c: Option<Cell>)
        requires
            old(self).wf(),
        ensures
            final(self).wf(),
            final(self).spec_col() == old(self).spec_col(),
            old(self).pos() < 9 ==> c is Some && final(self).pos() == old(self).pos() + 1
                && (c->0).linear() == col_cell(old(self).spec_col(), old(self).pos())
                && (c->0).in_bounds(),
            old(self).pos() == 9 ==> c is None && final(self).pos() == old(self).pos(),
    {
        if self.k < 9 {
            proof {
                lemma_col_cell(self.col as int, self.k as int);
            }
            let cell = Cell::from_index(self.k * 9 + self.col);
            self.k = self.k + 1;
            Some(cell)
        } else {
            None
        }
    }
}

/// Hands out the cells of one sector, row-major within the 3x3 block.
pub struct SectorIndexer {
    sector: usize,
    k: usize,
}

impl SectorIndexer {
    /// The sector being walked.
    pub closed spec fn spec_sector(self) -> int {
        self.sector as int
    }

    /// How many cells have been handed out.
    pub closed spec fn pos(self) -> int {
        self.k as int
    }

    /// The walker's state is sound.
    pub open spec fn wf(self) -> bool {
        0 <= self.spec_sector() < 9 && 0 <= self.pos() <= 9
    }

    /// A walker over sector `sector`.
    pub fn new(sector: usize) -> (it: SectorIndexer)
        requires
            sector < 9,
        ensures
            it.wf(),
            it.spec_sector() == sector,
            it.pos() == 0,
    {
        SectorIndexer { sector, k: 0 }
    }

    /// The next cell of the sector, if any is left.
    pub fn next(&mut self) -> (c: Option<Cell>)
        requires
            old(self).wf(),
        ensures
            final(self).wf(),
            final(self).spec_sector() == old(self).spec_sector(),
            old(self).pos() < 9 ==> c is Some && final(self).pos() == old(self).pos() + 1
                && (c->0).linear() == sector_cell(old(self).spec_sector(), old(self).pos())
                && (c->0).in_bounds(),
            old(self).pos() == 9 ==> c is None && final(self).pos() == old(self).pos(),
    {
        if self.k < 9 {
            proof {
                lemma_sector_cell(self.sector as int, self.k as int);
            }
            let s = self.sector;
            let k = self.k;
            let cell = Cell::from_index((s / 3) * 27 + (s % 3) * 3 + (k / 3) * 9 + k % 3);
            self.k = self.k + 1;
            Some(cell)
        } else {
            None
        }
    }
}

} // verus!
