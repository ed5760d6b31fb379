//! The playing grid used by the solver, the generator, and the pruner.
//!
//! [`Game`] keeps the 81 cells as raw digit values and exposes checked
//! access by [`Cell`] and [`Token`].  Search and pruning over a `Game` live
//! in [`crate::ops`].

use vstd::prelude::*;

use crate::model::{cell_consistent, col_of, grid_wf, row_of, sector_of, sector_slot_of};
use crate::ops;

verus! {

/// One of the ten values a cell can hold: empty, or a digit 1 to 9.
#[derive(Copy, Clone, PartialEq, Eq, Structural, Debug)]
pub enum Token {
    Empty,
    One,
    Two,
    Three,
    Four,
    Five,
    Six,
    Seven,
    Eight,
    Nine,
}

impl Token {
    /// The digit value of the token; 0 for an empty cell.
    pub open spec fn spec_value(self) -> u8 {
        match self {
            Token::Empty => 0,
            Token::One => 1,
            Token::Two => 2,
            Token::Three => 3,
            Token::Four => 4,
            Token::Five => 5,
            Token::Six => 6,
            Token::Seven => 7,
            Token::Eight => 8,
            Token::Nine => 9,
        }
    }

    /// The digit value of the token; 0 for an empty cell.
    pub fn value(self) -> (v: u8)
        ensures
            v == self.spec_value(),
    {
        match self {
            Token::Empty => 0,
            Token::One => 1,
            Token::Two => 2,
            Token::Three => 3,
            Token::Four => 4,
            Token::Five => 5,
            Token::Six => 6,
            Token::Seven => 7,
            Token::Eight => 8,
            Token::Nine => 9,
        }
    }

    /// The token holding the digit `v`.
    pub fn from_value(v: u8) -> (t: Token)
        requires
            v <= 9,
        ensures
            t.spec_value() == v,
    {
        match v {
            0 => Token::Empty,
            1 => Token::One,
            2 => Token::Two,
            3 => Token::Three,
            4 => Token::Four,
            5 => Token::Five,
            6 => Token::Six,
            7 => Token::Seven,
            8 => Token::Eight,
            _ => Token::Nine,
        }
    }

    /// The nine digit tokens, in ascending order.
    pub fn list() -> (r: Vec<Token>)
        ensures
            r@.len() == 9,
            forall|k: int| 0 <= k < 9 ==> (#[trigger] r@[k]).spec_value() == k + 1,
    {
        let mut r: Vec<Token> = Vec::new();
        r.push(Token::One);
        r.push(Token::Two);
        r.push(Token::Three);
        r.push(Token::Four);
        r.push(Token::Five);
        r.push(Token::Six);
        r.push(Token::Seven);
        r.push(Token::Eight);
        r.push(Token::Nine);
        r
    }
}

/// A position on the grid, held as its linear row-major index.
#[derive(Copy, Clone, Debug, PartialEq, Eq, Structural)]
pub struct Cell(usize);

impl Cell {
    /// The linear, row-major index of the cell.
    pub closed spec fn linear(self) -> int {
        self.0 as int
    }

    /// The index lies on the grid.
    pub open spec fn in_bounds(self) -> bool {
        0 <= self.linear() < 81
    }

    /// A cell from its coordinates.
    pub fn new(row: u8, column: u8) -> (c: Cell)
        requires
            row < 9,
            column < 9,
        ensures
            c.linear() == row * 9 + column,
            c.in_bounds(),
    {
        Cell(row as usize * 9 + column as usize)
    }

    /// A cell from its linear index.
    pub fn from_index(index: usize) -> (c: Cell)
        requires
            index < 81,
        ensures
            c.linear() == index,
            c.in_bounds(),
    {
        Cell(index)
    }

    /// The linear index, as an array offset.
    pub fn index(self) -> (i: usize)
        requires
            self.in_bounds(),
        ensures
            i == self.linear(),
            i < 81,
    {
        self.0
    }

    /// The row the cell lies in.
    pub fn row(self) -> (r: usize)
        requires
            self.in_bounds(),
        ensures
            r == row_of(self.linear()),
            r < 9,
    {
        self.0 / 9
    }

    /// The column the cell lies in.
    pub fn column(self) -> (c: usize)
        requires
            self.in_bounds(),
        ensures
            c == col_of(self.linear()),
            c < 9,
    {
        self.0 % 9
    }

    /// The 3x3 sector the cell lies in.
    pub fn sector(self) -> (s: usize)
        requires
            self.in_bounds(),
        ensures
            s == sector_of(self.linear()),
            s < 9,
    {
        let row = self.0 / 9;
        let col = self.0 % 9;
        (row / 3) * 3 + col / 3
    }

    /// The cell's position within its sector, in row-major order.
    pub fn sector_index(self) -> (s: usize)
        requires
            self.in_bounds(),
        ensures
            s == sector_slot_of(self.linear()),
            s < 9,
    {
        let row = self.0 / 9;
        let col = self.0 % 9;
        (row % 3) * 3 + col % 3
    }
}

/// How sparse a pruned puzzle is asked to be, as a target count of cleared
/// cells.  This crate prunes by gap count, the deterministic of the two
/// policies the algorithm admits.
#[derive(Copy, Clone, Debug, PartialEq, Eq, Structural)]
pub enum Difficulty {
    Easy,
    Medium,
    Hard,
}

impl Difficulty {
    /// The number of cells the pruner aims to clear for this difficulty.
    pub open spec fn spec_gaps(self) -> int {
        match self {
            Difficulty::Easy => 40,
            Difficulty::Medium => 50,
            Difficulty::Hard => 60,
        }
    }

    /// The number of cells the pruner aims to clear for this difficulty.
    pub fn to_gaps(self) -> (n: usize)
        ensures
            n == self.spec_gaps(),
    {
        match self {
            Difficulty::Easy => 40,
            Difficulty::Medium => 50,
            Difficulty::Hard => 60,
        }
    }
}

/// A 9x9 grid of digit values, the subject of solving and pruning.
#[derive(Copy, Clone)]
pub struct Game {
    cells: [u8; 81],
}

impl View for Game {
    type V = Seq<u8>;

    closed spec fn view(&self) -> Seq<u8> {
        self.cells@
    }
}

impl Game {
    /// Every cell holds a digit 0 to 9.
    pub open spec fn wf(self) -> bool {
        grid_wf(self@)
    }

    /// The grid with every cell empty.
    pub fn new_empty() -> (g: Game)
        ensures
            g.wf(),
            forall|i: int| 0 <= i < 81 ==> g@[i] == 0,
    {
        Game { cells: [0; 81] }
    }

    /// A grid holding the given raw values, row-major.
    pub fn from_array(values: [u8; 81]) -> (g: Game)
        requires
            forall|i: int| 0 <= i < 81 ==> values@[i] <= 9,
        ensures
            g@ == values@,
            g.wf(),
    {
        Game { cells: values }
    }

    /// The raw cell values, row-major.
    pub fn to_array(&self) -> (a: [u8; 81])
        ensures
            a@ == self@,
    {
        self.cells
    }

    /// A borrow of the raw cell values, for the consistency scan.
    pub(crate) fn raw(&self) -> (a: &[u8; 81])
        ensures
            a@ == self@,
    {
        &self.cells
    }

    /// The token at `cell`.
    pub fn get(&self, cell: Cell) -> (t: Token)
        requires
            self.wf(),
            cell.in_bounds(),
        ensures
            t.spec_value() == self@[cell.linear()],
    {
        Token::from_value(self.cells[cell.index()])
    }

    /// Place `token` at `cell` and report whether the new value stands
    /// without clashing in its row, column, and sector.
    #[must_use]
    pub fn set(&mut self, cell: Cell, token: Token) -> (ok: bool)
        requires
            cell.in_bounds(),
        ensures
            final(self)@ == old(self)@.update(cell.linear(), token.spec_value()),
            ok == cell_consistent(final(self)@, cell.linear()),
            old(self).wf() ==> final(self).wf(),
    {
        self.set_internal(cell, token);
        ops::consistent(self, cell, token)
    }

    /// A freshly generated, fully solved grid.
    pub fn new_solved() -> (g: Game)
        ensures
            g.wf(),
            crate::model::grid_full(g@),
            crate::model::grid_consistent(g@),
    {
        ops::generate_solved()
    }

    /// Solve the grid: `Some` holds a full consistent completion of the
    /// filled cells and comes back exactly when one exists.
    pub fn solve(&self) -> (r: Option<Game>)
        requires
            self.wf(),
        ensures
            r is Some ==> (r->0).wf() && crate::model::solves((r->0)@, self@),
            r is None ==> forall|s: Seq<u8>| !crate::model::solves(s, self@),
            (r is Some) == exists|s: Seq<u8>| crate::model::solves(s, self@),
    {
        ops::solve(self)
    }

    /// Derive puzzles of rising difficulty from this solved grid by
    /// clearing cells, each puzzle still solved uniquely by this grid.
    /// At least one puzzle always comes back, and no slot above
    /// `max_difficulty` is ever filled.
    pub fn prune_per_gaps(&self, max_difficulty: Difficulty) -> (r: [Option<Game>; 3])
        requires
            self.wf(),
            crate::model::grid_full(self@),
            crate::model::grid_consistent(self@),
        ensures
            ops::prune_slots_ok(r@, self@),
            r@[0] is Some || r@[1] is Some || r@[2] is Some,
            max_difficulty == Difficulty::Easy ==> r@[1] is None && r@[2] is None,
            max_difficulty != Difficulty::Hard ==> r@[2] is None,
    {
        ops::prune_per_gaps(self, max_difficulty)
    }

    /// Place `token` at `cell` without any consistency check.  Search and
    /// pruning use this for speculative, revertible assignments.
    pub fn set_internal(&mut self, cell: Cell, token: Token)
        requires
            cell.in_bounds(),
        ensures
            final(self)@ == old(self)@.update(cell.linear(), token.spec_value()),
            old(self).wf() ==> final(self).wf(),
    {
        let i = cell.index();
        self.cells[i] = token.value();
        proof {
            assert(final(self)@ =~= old(self)@.update(cell.linear(), token.spec_value()));
        }
    }
}

} // verus!
