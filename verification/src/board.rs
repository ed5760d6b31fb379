//! A grid held as a flat array of raw digit values.
//!
//! [`Board`] stores 81 bytes in row-major order, `0` for an empty cell.
//! It offers cell access, the consistency check, and the value-preserving
//! transformations used to vary a solved grid.

use vstd::prelude::*;

use crate::consistency::scan_consistent;
use crate::model::{base_grid, cell_consistent, col_of, grid_consistent, grid_full, grid_wf,
    lemma_axis_perm_consistent, lemma_base_grid, lemma_cell_decomp, lemma_div3_parts,
    lemma_mod9_distinct, lemma_relabel_consistent, lemma_rowcol, pattern_slot, row_of, slot_rc};
use crate::rng::{new_rng, rand_below};
use crate::transform;

verus! {

/// One of the ten values a cell can hold: empty, or a digit 1 to 9.
#[derive(Copy, Clone, PartialEq, Eq, Structural, Debug)]
pub enum Token {
    Empty,
    One,
    Two,
    Three,
    Four,
    Five,
    Six,
    Seven,
    Eight,
    Nine,
}

impl Token {
    /// The digit value of the token; 0 for an empty cell.
    pub open spec fn spec_value(self) -> u8 {
        match self {
            Token::Empty => 0,
            Token::One => 1,
            Token::Two => 2,
            Token::Three => 3,
            Token::Four => 4,
            Token::Five => 5,
            Token::Six => 6,
            Token::Seven => 7,
            Token::Eight => 8,
            Token::Nine => 9,
        }
    }

    /// The digit value of the token; 0 for an empty cell.
    pub fn value(self) -> (v: u8)
        ensures
            v == self.spec_value(),
    {
        match self {
            Token::Empty => 0,
            Token::One => 1,
            Token::Two => 2,
            Token::Three => 3,
            Token::Four => 4,
            Token::Five => 5,
            Token::Six => 6,
            Token::Seven => 7,
            Token::Eight => 8,
            Token::Nine => 9,
        }
    }

    /// The token holding the digit `v`.
    pub fn from_value(v: u8) -> (t: Token)
        requires
            v <= 9,
        ensures
            t.spec_value() == v,
    {
        match v {
            0 => Token::Empty,
            1 => Token::One,
            2 => Token::Two,
            3 => Token::Three,
            4 => Token::Four,
            5 => Token::Five,
            6 => Token::Six,
            7 => Token::Seven,
            8 => Token::Eight,
            _ => Token::Nine,
        }
    }

    /// The nine digit tokens, in ascending order.
    pub fn iter() -> (r: Vec<Token>)
        ensures
            r@.len() == 9,
            forall|k: int| 0 <= k < 9 ==> (#[trigger] r@[k]).spec_value() == k + 1,
    {
        let mut r: Vec<Token> = Vec::new();
        r.push(Token::One);
        r.push(Token::Two);
        r.push(Token::Three);
        r.push(Token::Four);
        r.push(Token::Five);
        r.push(Token::Six);
        r.push(Token::Seven);
        r.push(Token::Eight);
        r.push(Token::Nine);
        r
    }
}

/// A position on the grid, as a row and a column, both counted from 0.
#[derive(Copy, Clone, Debug, PartialEq, Eq, Structural)]
pub struct Cell {
    pub row: u8,
    pub col: u8,
}

impl Cell {
    /// The linear, row-major index of the cell.
    pub open spec fn linear(self) -> int {
        self.row as int * 9 + self.col as int
    }

    /// Both coordinates lie on the grid.
    pub open spec fn in_bounds(self) -> bool {
        self.row < 9 && self.col < 9
    }

    /// A cell from its coordinates.
    pub fn new(row: u8, col: u8) -> (c: Cell)
        requires
            row < 9,
            col < 9,
        ensures
            c.row == row,
            c.col == col,
    {
        Cell { row, col }
    }

    /// The linear index, as an array offset.
    pub fn as_linear(self) -> (i: usize)
        requires
            self.in_bounds(),
        ensures
            i == self.linear(),
            i < 81,
    {
        self.row as usize * 9 + self.col as usize
    }
}

/// An 81-cell grid of raw digit values, row-major, `0` meaning empty.
#[derive(Copy, Clone)]
pub struct Board(pub(crate) [u8; 81]);

impl View for Board {
    type V = Seq<u8>;

    closed spec fn view(&self) -> Seq<u8> {
        self.0@
    }
}

impl Board {
    /// The canonical solved grid, from which shuffled grids are derived.
    pub fn initialize_base() -> (b: Board)
        ensures
            b@ == base_grid(),
    {
        let mut cells: [u8; 81] = [0; 81];
        for r in 0..9usize
            invariant
                forall|p: int| 0 <= p < r * 9 ==> cells@[p] == base_grid()[p],
        {
            for c in 0..9usize
                invariant
                    r < 9,
                    forall|p: int| 0 <= p < r * 9 + c ==> cells@[p] == base_grid()[p],
            {
                proof {
                    lemma_rowcol(r as int, c as int);
                }
                let j = r * 9 + c;
                cells[j] = ((c + (r % 3) * 3 + r / 3) % 9 + 1) as u8;
                proof {
                    assert(pattern_slot(j as int) == slot_rc(r as int, c as int));
                    assert(cells@[j as int] == base_grid()[j as int]);
                }
            }
        }
        let b = Board(cells);
        proof {
            assert(b@ =~= base_grid());
        }
        b
    }

    /// The grid holding 0, 1, ..., 80: raw material for transformation
    /// tests, not a sudoku position.
    pub fn sequential() -> (b: Board)
        ensures
            b@.len() == 81,
            forall|i: int| 0 <= i < 81 ==> b@[i] == i,
    {
        let mut cells: [u8; 81] = [0; 81];
        for i in 0..81usize
            invariant
                forall|p: int| 0 <= p < i ==> cells@[p] == p,
        {
            cells[i] = i as u8;
        }
        Board(cells)
    }

    /// The raw cell values, row-major.
    pub fn to_array(&self) -> (a: [u8; 81])
        ensures
            a@ == self@,
    {
        self.0
    }

    /// The token at `cell`.
    pub fn get(&self, cell: Cell) -> (t: Token)
        requires
            cell.in_bounds(),
            self@[cell.linear()] <= 9,
        ensures
            t.spec_value() == self@[cell.linear()],
    {
        Token::from_value(self.0[cell.as_linear()])
    }

    /// Place `token` at `cell` and report whether the new value stands
    /// without clashing in its row, column, and sector.
    pub fn set(&mut self, cell: Cell, token: Token) -> (ok: bool)
        requires
            cell.in_bounds(),
        ensures
            final(self)@ == old(self)@.update(cell.linear(), token.spec_value()),
            ok == cell_consistent(final(self)@, cell.linear()),
    {
        let i = cell.as_linear();
        let v = token.value();
        self.0[i] = v;
        if v == 0 {
            true
        } else {
            scan_consistent(&self.0, i, v)
        }
    }

    /// Does the value at `cell` stand without clashing in its row, column,
    /// and sector?  An empty cell never clashes.
    pub fn consistent(&self, cell: Cell) -> (r: bool)
        requires
            cell.in_bounds(),
        ensures
            r == cell_consistent(self@, cell.linear()),
    {
        let i = cell.as_linear();
        let v = self.0[i];
        if v == 0 {
            true
        } else {
            scan_consistent(&self.0, i, v)
        }
    }

    /// A solved grid in fresh random guise: the canonical grid under 128
    /// random value-preserving transformations, each of which keeps the
    /// grid full, well-formed, and consistent by its contract.
    pub fn new() -> (b: Board)
        ensures
            grid_wf(b@),
            grid_full(b@),
            grid_consistent(b@),
    {
        let mut board = Board::initialize_base();
        proof {
            lemma_base_grid();
        }
        let mut rng = new_rng();
        for _t in 0..128usize
            invariant
                grid_wf(board@),
                grid_full(board@),
                grid_consistent(board@),
        {
            let choice = rand_below(&mut rng, 7);
            if choice == 0 {
                board.reverse();
            } else if choice == 1 {
                board.rotate();
            } else if choice == 2 {
                board.mirror_columns();
            } else if choice == 3 {
                board.mirror_rows();
            } else if choice == 4 {
                let sector = rand_below(&mut rng, 3);
                let pivot = rand_below(&mut rng, 3);
                board.swap_columns(sector, pivot);
            } else if choice == 5 {
                let sector = rand_below(&mut rng, 3);
                let pivot = rand_below(&mut rng, 3);
                board.swap_rows(sector, pivot);
            } else {
                let amount = rand_below(&mut rng, 7);
                board.shift(amount);
            }
        }
        let check = board.list_inconsistencies();
        assert(check.len() == 0);
        board
    }

    /// Reverse the cells: target cell `i` reads source cell `80 - i`.
    pub fn reverse(&mut self)
        ensures
            forall|i: int| 0 <= i < 81 ==> #[trigger] final(self)@[i] == old(self)@[80 - i],
            grid_wf(old(self)@) ==> grid_wf(final(self)@),
            grid_full(old(self)@) ==> grid_full(final(self)@),
            grid_consistent(old(self)@) ==> grid_consistent(final(self)@),
    {
        let other = self.0;
        let mut cells = self.0;
        for p in 0..81usize
            invariant
                other@ == old(self)@,
                forall|i: int| 0 <= i < p ==> #[trigger] cells@[i] == other@[80 - i],
        {
            cells[p] = other[80 - p];
        }
        self.0 = cells;
        proof {
            if grid_consistent(old(self)@) {
                let fr = |r: int| 8 - r;
                let fc = |c: int| 8 - c;
                assert forall|r: int| 0 <= r < 9 implies #[trigger] fr(r) / 3 == 2 - r / 3 by {
                    lemma_div3_parts(2 - r / 3, 2 - r % 3);
                }
                assert forall|c: int| 0 <= c < 9 implies #[trigger] fc(c) / 3 == 2 - c / 3 by {
                    lemma_div3_parts(2 - c / 3, 2 - c % 3);
                }
                assert forall|i: int| 0 <= i < 81
                    implies #[trigger] self@[i] == old(self)@[fr(row_of(i)) * 9 + fc(col_of(i))]
                    by {
                    lemma_cell_decomp(i);
                }
                lemma_axis_perm_consistent(old(self)@, self@, fr, fc);
            }
        }
    }

    /// Transpose the grid.
    pub fn rotate(&mut self)
        ensures
            forall|i: int| 0 <= i < 81
                ==> #[trigger] final(self)@[i] == old(self)@[col_of(i) * 9 + row_of(i)],
            grid_wf(old(self)@) ==> grid_wf(final(self)@),
            grid_full(old(self)@) ==> grid_full(final(self)@),
            grid_consistent(old(self)@) ==> grid_consistent(final(self)@),
    {
        transform::rotate(&mut self.0);
    }

    /// Mirror the grid left to right.
    pub fn mirror_columns(&mut self)
        ensures
            forall|i: int| 0 <= i < 81
                ==> #[trigger] final(self)@[i] == old(self)@[row_of(i) * 9 + (8 - col_of(i))],
            grid_wf(old(self)@) ==> grid_wf(final(self)@),
            grid_full(old(self)@) ==> grid_full(final(self)@),
            grid_consistent(old(self)@) ==> grid_consistent(final(self)@),
    {
        transform::mirror_columns(&mut self.0);
    }

    /// Mirror the grid top to bottom.
    pub fn mirror_rows(&mut self)
        ensures
            forall|i: int| 0 <= i < 81
                ==> #[trigger] final(self)@[i] == old(self)@[(8 - row_of(i)) * 9 + col_of(i)],
            grid_wf(old(self)@) ==> grid_wf(final(self)@),
            grid_full(old(self)@) ==> grid_full(final(self)@),
            grid_consistent(old(self)@) ==> grid_consistent(final(self)@),
    {
        transform::mirror_rows(&mut self.0);
    }

    /// Exchange the two columns other than `pivot` within the sector stack
    /// `cluster_column`.
    pub fn swap_columns(&mut self, cluster_column: u8, pivot: u8)
        requires
            cluster_column < 3,
            pivot < 3,
        ensures
            forall|i: int| 0 <= i < 81 ==> #[trigger] final(self)@[i] == old(self)@[row_of(i) * 9
                + transform::swap2(col_of(i),
                    transform::swap_lane_a(cluster_column as int, pivot as int),
                    transform::swap_lane_b(cluster_column as int, pivot as int))],
            grid_wf(old(self)@) ==> grid_wf(final(self)@),
            grid_full(old(self)@) ==> grid_full(final(self)@),
            grid_consistent(old(self)@) ==> grid_consistent(final(self)@),
    {
        transform::swap_columns(&mut self.0, cluster_column as usize, pivot as usize);
    }

    /// Exchange the two rows other than `pivot` within the sector band
    /// `cluster_row`.
    pub fn swap_rows(&mut self, cluster_row: u8, pivot: u8)
        requires
            cluster_row < 3,
            pivot < 3,
        ensures
            forall|i: int| 0 <= i < 81 ==> #[trigger] final(self)@[i] == old(self)@[
                transform::swap2(row_of(i),
                    transform::swap_lane_a(cluster_row as int, pivot as int),
                    transform::swap_lane_b(cluster_row as int, pivot as int)) * 9 + col_of(i)],
            grid_wf(old(self)@) ==> grid_wf(final(self)@),
            grid_full(old(self)@) ==> grid_full(final(self)@),
            grid_consistent(old(self)@) ==> grid_consistent(final(self)@),
    {
        transform::swap_rows(&mut self.0, cluster_row as usize, pivot as usize);
    }

    /// Cyclically relabel every cell: each raw value `v` becomes
    /// `(v + amount) % 9 + 1`, so the result is always full.
    pub fn shift(&mut self, amount: u8)
        requires
            amount <= 7,
            forall|i: int| 0 <= i < 81 ==> old(self)@[i] + amount <= 255,
        ensures
            forall|i: int| 0 <= i < 81
                ==> #[trigger] final(self)@[i] == ((old(self)@[i] + amount) % 9 + 1) as u8,
            grid_wf(final(self)@),
            grid_full(final(self)@),
            grid_wf(old(self)@) && grid_full(old(self)@) && grid_consistent(old(self)@)
                ==> grid_consistent(final(self)@),
    {
        let other = self.0;
        let mut cells = self.0;
        for p in 0..81usize
            invariant
                other@ == old(self)@,
                forall|i: int| 0 <= i < 81 ==> other@[i] + amount <= 255,
                forall|i: int| 0 <= i < p
                    ==> #[trigger] cells@[i] == ((other@[i] + amount) % 9 + 1) as u8,
        {
            cells[p] = (other[p] + amount) % 9 + 1;
        }
        self.0 = cells;
        proof {
            let g1 = old(self)@;
            let g2 = self@;
            if grid_wf(g1) && grid_full(g1) && grid_consistent(g1) {
                assert forall|i: int, j: int| #![trigger g2[i], g2[j]]
                    0 <= i < 81 && 0 <= j < 81 && g1[i] != 0 && g1[i] != g1[j]
                    implies g2[i] != g2[j] by {
                    lemma_mod9_distinct(g1[i] + amount, g1[j] + amount);
                }
                lemma_relabel_consistent(g1, g2);
            }
        }
    }

    /// Every cell whose value clashes within one of its units, in row-major
    /// ascending order, each named once.  The grid is consistent exactly
    /// when the answer is empty.
    pub fn list_inconsistencies(&self) -> (r: Vec<Cell>)
        ensures
            forall|k: int| 0 <= k < r@.len() ==> (#[trigger] r@[k]).in_bounds()
                && !cell_consistent(self@, r@[k].linear()),
            forall|i: int| 0 <= i < 81 && !cell_consistent(self@, i)
                ==> exists|k: int| 0 <= k < r@.len() && (#[trigger] r@[k]).linear() == i,
            forall|k1: int, k2: int| #![trigger r@[k1], r@[k2]]
                0 <= k1 < k2 < r@.len() ==> r@[k1].linear() < r@[k2].linear(),
            r@.len() == 0 <==> grid_consistent(self@),
    {
        let mut r: Vec<Cell> = Vec::new();
        for row in 0..9u8
            invariant
                forall|k: int| 0 <= k < r@.len() ==> (#[trigger] r@[k]).in_bounds()
                    && !cell_consistent(self@, r@[k].linear()),
                forall|i: int| 0 <= i < row * 9 && !cell_consistent(self@, i)
                    ==> exists|k: int| 0 <= k < r@.len() && (#[trigger] r@[k]).linear() == i,
                forall|k: int| 0 <= k < r@.len() ==> (#[trigger] r@[k]).linear() < row * 9,
                forall|k1: int, k2: int| #![trigger r@[k1], r@[k2]]
                    0 <= k1 < k2 < r@.len() ==> r@[k1].linear() < r@[k2].linear(),
        {
            for col in 0..9u8
                invariant
                    row < 9,
                    forall|k: int| 0 <= k < r@.len() ==> (#[trigger] r@[k]).in_bounds()
                        && !cell_consistent(self@, r@[k].linear()),
                    forall|i: int| 0 <= i < row * 9 + col && !cell_consistent(self@, i)
                        ==> exists|k: int| 0 <= k < r@.len() && (#[trigger] r@[k]).linear() == i,
                    forall|k: int| 0 <= k < r@.len()
                        ==> (#[trigger] r@[k]).linear() < row * 9 + col,
                    forall|k1: int, k2: int| #![trigger r@[k1], r@[k2]]
                        0 <= k1 < k2 < r@.len() ==> r@[k1].linear() < r@[k2].linear(),
            {
                let cell = Cell::new(row, col);
                let ghost before = r@;
                if !self.consistent(cell) {
                    r.push(cell);
                }
                proof {
                    assert(cell.linear() == row * 9 + col);
                    assert forall|i: int| 0 <= i < row * 9 + col + 1
                        && !cell_consistent(self@, i)
                        implies exists|k: int| 0 <= k < r@.len()
                            && (#[trigger] r@[k]).linear() == i by {
                        if i == row * 9 + col {
                            assert(r@[r@.len() - 1].linear() == i);
                        } else {
                            let k = choose|k: int| 0 <= k < before.len()
                                && (#[trigger] before[k]).linear() == i;
                            assert(r@[k].linear() == i);
                        }
                    }
                }
            }
        }
        proof {
            if r@.len() == 0 {
                assert forall|i: int| 0 <= i < 81 implies #[trigger] cell_consistent(self@, i) by {
                    if !cell_consistent(self@, i) {
                        let k = choose|k: int| 0 <= k < r@.len()
                            && (#[trigger] r@[k]).linear() == i;
                    }
                }
            }
            if grid_consistent(self@) && r@.len() > 0 {
                assert(!cell_consistent(self@, r@[0].linear()));
                assert(0 <= r@[0].linear() < 81);
                assert(cell_consistent(self@, r@[0].linear()));
            }
        }
        r
    }
}

} // verus!
