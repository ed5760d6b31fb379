//! Search and pruning over a [`Game`].
//!
//! The solver is depth-first backtracking over a fixed sequence of the
//! empty cells, checking each speculative placement against the cell's row,
//! column, and sector.  It is proved sound -- a returned grid solves the
//! input -- and complete -- `None` comes back only when no solution exists.

use vstd::prelude::*;

use crate::consistency::scan_consistent;
use crate::game::{Cell, Difficulty, Game, Token};
use crate::model::{base_grid, cell_consistent, cleared_from, empty_count, extends, same_unit,
    grid_consistent, grid_full, grid_wf, lemma_base_grid, lemma_cleared_consistent,
    lemma_empty_count_clear, lemma_empty_count_none, lemma_full_grid_forced,
    lemma_inconsistent_unsolvable, lemma_pattern_grid, lemma_update_consistent, pattern_grid,
    placement_consistent, solves, unique_solution};
use crate::rng::{new_rng, shuffle};

verus! {

/// Could `reference` stand at `cell` without clashing in the cell's row,
/// column, or sector?  The value presently held at `cell` itself does not
/// take part in the comparison.
pub fn consistent(game: &Game, cell: Cell, reference: Token) -> (r: bool)
    requires
        cell.in_bounds(),
    ensures
        r == placement_consistent(game@, cell.linear(), reference.spec_value()),
{
    let v = reference.value();
    if v == 0 {
        true
    } else {
        scan_consistent(game.raw(), cell.index(), v)
    }
}

/// Is every cell of the grid consistent?
fn validate(game: &Game) -> (r: bool)
    requires
        game.wf(),
    ensures
        r == grid_consistent(game@),
{
    for i in 0..81usize
        invariant
            game.wf(),
            forall|j: int| 0 <= j < i ==> #[trigger] cell_consistent(game@, j),
    {
        let cell = Cell::from_index(i);
        let token = game.get(cell);
        if !consistent(game, cell, token) {
            proof {
                assert(!cell_consistent(game@, i as int));
            }
            return false;
        }
    }
    true
}

/// The indices 0 to 80, in order.
fn ordered_sequence() -> (r: Vec<u8>)
    ensures
        r@.len() == 81,
        r@.no_duplicates(),
        forall|k: int| 0 <= k < 81 ==> r@[k] < 81,
        forall|x: u8| x < 81 ==> r@.contains(x),
{
    let mut r: Vec<u8> = Vec::new();
    for i in 0..81u8
        invariant
            r@.len() == i as int,
            forall|p: int| 0 <= p < i ==> r@[p] == p,
    {
        r.push(i);
    }
    assert forall|x: u8| x < 81 implies r@.contains(x) by {
        assert(r@[x as int] == x);
    }
    r
}

/// The indices 0 to 80 in a fresh uniformly random order.
pub fn random_sequence() -> (r: Vec<u8>)
    ensures
        r@.len() == 81,
        r@.no_duplicates(),
        forall|k: int| 0 <= k < 81 ==> r@[k] < 81,
        forall|x: u8| x < 81 ==> r@.contains(x),
{
    let mut r = ordered_sequence();
    let mut rng = new_rng();
    shuffle(&mut rng, &mut r);
    assert forall|k: int| 0 <= k < 81 implies r@[k] < 81 by {
        assert(r@.contains(r@[k]));
    }
    r
}

/// The members of a sequence of cells are pairwise distinct positions.
pub open spec fn cells_distinct(q: Seq<Cell>) -> bool {
    forall|a: int, b: int|
        0 <= a < b < q.len() ==> #[trigger] q[a].linear() != #[trigger] q[b].linear()
}

/// Every member of a sequence of cells lies on the grid.
pub open spec fn cells_in_bounds(q: Seq<Cell>) -> bool {
    forall|k: int| 0 <= k < q.len() ==> (#[trigger] q[k]).in_bounds()
}

/// From position `d` on, the sequence holds only cells empty in `g`.
pub open spec fn tail_all_empty(g: Seq<u8>, q: Seq<Cell>, d: int) -> bool {
    forall|k: int| d <= k < q.len() ==> g[(#[trigger] q[k]).linear()] == 0
}

/// Every cell empty in `g` occurs in the sequence from position `d` on.
pub open spec fn tail_covers_empties(g: Seq<u8>, q: Seq<Cell>, d: int) -> bool {
    forall|i: int|
        0 <= i < 81 && g[i] == 0 ==> exists|k: int|
            d <= k < q.len() && (#[trigger] q[k]).linear() == i
}

/// The empty cells of the grid, in a fresh uniformly random order.
pub fn random_empty_sequence(game: &Game) -> (r: Vec<Cell>)
    requires
        game.wf(),
    ensures
        cells_in_bounds(r@),
        cells_distinct(r@),
        tail_all_empty(game@, r@, 0),
        tail_covers_empties(game@, r@, 0),
{
    collect_cells(game, random_sequence(), true)
}

/// The filled cells of the grid, in a fresh uniformly random order; every
/// filled cell occurs exactly once.
pub fn random_filled_sequence(game: &Game) -> (r: Vec<Cell>)
    requires
        game.wf(),
    ensures
        cells_in_bounds(r@),
        cells_distinct(r@),
        forall|k: int| 0 <= k < r@.len() ==> game@[(#[trigger] r@[k]).linear()] != 0,
        forall|i: int|
            0 <= i < 81 && game@[i] != 0 ==> exists|k: int|
                0 <= k < r@.len() && (#[trigger] r@[k]).linear() == i,
{
    collect_cells(game, random_sequence(), false)
}

/// Keep, of the 81 cell indices in `order`, those whose cell is empty
/// (`want_empty`) or filled (otherwise), preserving the order.
fn collect_cells(game: &Game, order: Vec<u8>, want_empty: bool) -> (r: Vec<Cell>)
    requires
        game.wf(),
        order@.len() == 81,
        order@.no_duplicates(),
        forall|k: int| 0 <= k < 81 ==> order@[k] < 81,
        forall|x: u8| x < 81 ==> order@.contains(x),
    ensures
        cells_in_bounds(r@),
        cells_distinct(r@),
        forall|k: int| 0 <= k < r@.len()
            ==> (game@[(#[trigger] r@[k]).linear()] == 0) == want_empty,
        forall|i: int|
            0 <= i < 81 && (game@[i] == 0) == want_empty ==> exists|k: int|
                0 <= k < r@.len() && (#[trigger] r@[k]).linear() == i,
{
    let mut r: Vec<Cell> = Vec::new();
    for n in 0..81usize
        invariant
            game.wf(),
            order@.len() == 81,
            order@.no_duplicates(),
            forall|k: int| 0 <= k < 81 ==> order@[k] < 81,
            cells_in_bounds(r@),
            forall|k: int| 0 <= k < r@.len()
                ==> (game@[(#[trigger] r@[k]).linear()] == 0) == want_empty,
            // what is already collected never recurs later in the order
            forall|a: int, j: int| #![trigger r@[a], order@[j]]
                0 <= a < r@.len() && n <= j < 81 ==> r@[a].linear() != order@[j],
            cells_distinct(r@),
            forall|j: int| 0 <= j < n
                && (game@[#[trigger] order@[j] as int] == 0) == want_empty
                ==> exists|a: int| 0 <= a < r@.len() && (#[trigger] r@[a]).linear() == order@[j],
    {
        let idx = order[n];
        let keep = if want_empty {
            game.raw()[idx as usize] == 0
        } else {
            game.raw()[idx as usize] != 0
        };
        let ghost before = r@;
        if keep {
            r.push(Cell::from_index(idx as usize));
        }
        proof {
            if keep {
                assert(r@[r@.len() - 1].linear() == order@[n as int] as int);
                assert forall|a: int, b: int| 0 <= a < b < r@.len()
                    implies #[trigger] r@[a].linear() != #[trigger] r@[b].linear() by {
                    if b == r@.len() - 1 {
                        assert(before[a].linear() != order@[n as int]);
                    }
                }
                assert forall|a: int, j: int| #![trigger r@[a], order@[j]]
                    0 <= a < r@.len() && n + 1 <= j < 81
                    implies r@[a].linear() != order@[j] by {
                    if a < r@.len() - 1 {
                        assert(before[a].linear() != order@[j]);
                    } else {
                        assert(order@[n as int] != order@[j]);
                    }
                }
            }
            assert forall|j: int| 0 <= j < n + 1
                && (game@[#[trigger] order@[j] as int] == 0) == want_empty
                implies exists|a: int| 0 <= a < r@.len()
                    && (#[trigger] r@[a]).linear() == order@[j] by {
                if j == n {
                    assert(r@[r@.len() - 1].linear() == order@[j] as int);
                } else {
                    let a = choose|a: int|
                        0 <= a < before.len() && (#[trigger] before[a]).linear() == order@[j];
                    assert(r@[a].linear() == order@[j] as int);
                }
            }
        }
    }
    proof {
        assert forall|i: int| 0 <= i < 81 && (game@[i] == 0) == want_empty
            implies exists|k: int| 0 <= k < r@.len()
                && (#[trigger] r@[k]).linear() == i by {
            assert(order@.contains(i as u8));
            let j = choose|j: int| 0 <= j < order@.len() && order@[j] == i as u8;
            assert((game@[order@[j] as int] == 0) == want_empty);
        }
    }
    r
}

/// Depth-first backtracking over `sequence[depth..]`, the empty cells of
/// the grid.  On success the grid holds a solution of its previous value;
/// on failure the grid is unchanged and its previous value has no solution.
pub fn solve_depth(game: &mut Game, sequence: &Vec<Cell>, depth: usize) -> (r: bool)
    requires
        old(game).wf(),
        grid_consistent(old(game)@),
        cells_in_bounds(sequence@),
        cells_distinct(sequence@),
        depth <= sequence@.len(),
        tail_all_empty(old(game)@, sequence@, depth as int),
        tail_covers_empties(old(game)@, sequence@, depth as int),
    ensures
        final(game).wf(),
        r ==> solves(final(game)@, old(game)@),
        !r ==> final(game)@ == old(game)@,
        !r ==> forall|s: Seq<u8>| !solves(s, old(game)@),
    decreases sequence@.len() - depth,
{
    if depth == sequence.len() {
        proof {
            assert forall|i: int| 0 <= i < 81 implies old(game)@[i] != 0 by {
                if old(game)@[i] == 0 {
                    let k = choose|k: int|
                        depth <= k < sequence@.len() && (#[trigger] sequence@[k]).linear() == i;
                }
            }
        }
        return true;
    }

    let cell = sequence[depth];
    let n = sequence.len();
    let ghost g0 = game@;
    proof {
        assert(g0[cell.linear()] == 0);
    }
    let mut v: u8 = 1;
    while v <= 9
        invariant
            game@ == g0,
            g0 == old(game)@,
            game.wf(),
            grid_consistent(g0),
            cells_in_bounds(sequence@),
            cells_distinct(sequence@),
            depth < n == sequence@.len(),
            g0[cell.linear()] == 0,
            tail_all_empty(g0, sequence@, depth as int),
            tail_covers_empties(g0, sequence@, depth as int),
            cell == sequence@[depth as int],
            1 <= v <= 10,
            forall|s: Seq<u8>| #[trigger] solves(s, g0) ==> s[cell.linear()] >= v,
        decreases 10 - v,
    {
        let token = Token::from_value(v);
        if consistent(game, cell, token) {
            game.set_internal(cell, token);
            proof {
                let g1 = game@;
                assert(g1 == g0.update(cell.linear(), v));
                lemma_update_consistent(g0, cell.linear(), v);
                assert forall|k: int| depth + 1 <= k < sequence@.len()
                    implies g1[(#[trigger] sequence@[k]).linear()] == 0 by {
                    assert(sequence@[k].linear() != sequence@[depth as int].linear());
                }
                assert forall|i: int| 0 <= i < 81 && g1[i] == 0
                    implies exists|k: int| depth + 1 <= k < sequence@.len()
                        && (#[trigger] sequence@[k]).linear() == i by {
                    assert(g0[i] == 0);
                    let k = choose|k: int|
                        depth <= k < sequence@.len() && (#[trigger] sequence@[k]).linear() == i;
                    assert(k != depth);
                    assert(sequence@[k].linear() == i);
                }
            }
            let ghost g1 = game@;
            if solve_depth(game, sequence, depth + 1) {
                proof {
                    // a solution of the grid with v placed also solves the
                    // grid before the placement, whose cell was empty
                    assert forall|i: int| 0 <= i < 81 && g0[i] != 0
                        implies game@[i] == g0[i] by {
                        assert(g1[i] == g0[i]);
                    }
                    assert(extends(game@, g0));
                    assert(solves(game@, old(game)@));
                }
                return true;
            }
            game.set_internal(cell, Token::Empty);
            proof {
                assert(game@ =~= g0);
                // no solution of the original grid places v here: it would
                // solve the grid with v placed, which has none
                assert forall|s: Seq<u8>| #[trigger] solves(s, g0)
                    implies s[cell.linear()] >= v + 1 by {
                    if s[cell.linear()] == v {
                        assert forall|i: int| 0 <= i < 81 && g1[i] != 0
                            implies s[i] == g1[i] by {
                            if i != cell.linear() {
                                assert(g1[i] == g0[i]);
                            }
                        }
                        assert(solves(s, g1));
                    }
                }
            }
        } else {
            proof {
                // the placement clashes with a filled cell, which every
                // solution keeps, so no solution places v here
                let i = cell.linear();
                let j = choose|j: int|
                    0 <= j < 81 && j != i && #[trigger] same_unit(i, j)
                        && g0[j] == v;
                assert forall|s: Seq<u8>| #[trigger] solves(s, g0)
                    implies s[cell.linear()] >= v + 1 by {
                    if s[cell.linear()] == v {
                        assert(s[j] == g0[j]);
                        assert(!cell_consistent(s, i));
                        assert(cell_consistent(s, i));
                    }
                }
            }
        }
        v = v + 1;
    }
    proof {
        assert forall|s: Seq<u8>| !solves(s, g0) by {
            if solves(s, g0) {
                assert(s[cell.linear()] <= 9);
            }
        }
    }
    false
}

/// Solve the grid: search for a full consistent completion of its filled
/// cells.  `Some` comes back exactly when a solution exists, and the grid
/// returned is such a solution; `None` comes back exactly when none does,
/// in particular whenever the filled cells already clash.
pub fn solve(game: &Game) -> (r: Option<Game>)
    requires
        game.wf(),
    ensures
        r is Some ==> r->0.wf() && solves(r->0@, game@),
        r is None ==> forall|s: Seq<u8>| !solves(s, game@),
        (r is Some) == exists|s: Seq<u8>| solves(s, game@),
{
    if !validate(game) {
        proof {
            let i = choose|i: int| 0 <= i < 81 && !(#[trigger] cell_consistent(game@, i));
            lemma_inconsistent_unsolvable(game@, i);
        }
        return None;
    }
    let sequence = random_empty_sequence(game);
    let mut copy = *game;
    if solve_depth(&mut copy, &sequence, 0) {
        Some(copy)
    } else {
        None
    }
}

/// Produce a fully solved grid: seed the first row with the nine digits in
/// random order and let the solver fill the rest.  The cyclic pattern grid
/// over the same digits witnesses that a completion always exists, so the
/// search cannot fail.
pub fn generate_solved() -> (g: Game)
    ensures
        g.wf(),
        grid_full(g@),
        grid_consistent(g@),
{
    let mut rng = new_rng();
    let mut tokens: Vec<u8> = Vec::new();
    for i in 0..9u8
        invariant
            tokens@.len() == i as int,
            forall|p: int| 0 <= p < i ==> tokens@[p] == p + 1,
    {
        tokens.push(i + 1);
    }
    assert forall|x: u8| 1 <= x <= 9 implies tokens@.contains(x) by {
        assert(tokens@[x - 1] == x);
    }
    assert(tokens@.no_duplicates());
    let ghost pre = tokens@;
    shuffle(&mut rng, &mut tokens);
    proof {
        assert forall|k: int| 0 <= k < 9 implies 1 <= #[trigger] tokens@[k] <= 9 by {
            assert(tokens@.contains(tokens@[k]));
            assert(pre.contains(tokens@[k]));
            let j = choose|j: int| 0 <= j < pre.len() && #[trigger] pre[j] == tokens@[k];
        }
    }

    let mut game = Game::new_empty();
    for c in 0..9u8
        invariant
            tokens@.len() == 9,
            forall|k: int| 0 <= k < 9 ==> 1 <= #[trigger] tokens@[k] <= 9,
            tokens@.no_duplicates(),
            game.wf(),
            forall|i: int| 0 <= i < c ==> game@[i] == tokens@[i],
            forall|i: int| c <= i < 81 ==> game@[i] == 0,
    {
        let token = Token::from_value(tokens[c as usize]);
        game.set_internal(Cell::new(0, c), token);
    }

    proof {
        let w = pattern_grid(tokens@);
        lemma_pattern_grid(tokens@);
        assert forall|i: int| 0 <= i < 81 && game@[i] != 0 implies w[i] == game@[i] by {
            assert(0 <= i < 9);
        }
        assert(solves(w, game@));
        assert(cleared_from(game@, w));
        lemma_cleared_consistent(game@, w);
    }
    // fill the open cells in row-major order: the visiting order does not
    // touch what the search can find, and a local order keeps the
    // backtracking shallow
    let sequence = collect_cells(&game, ordered_sequence(), true);
    let mut copy = game;
    if solve_depth(&mut copy, &sequence, 0) {
        copy
    } else {
        vstd::pervasive::unreached()
    }
}

/// May `cell` be cleared without opening a second solution?  True exactly
/// when every solution of the grid-with-`cell`-cleared is forced to put the
/// present value back.
pub fn can_remove(game: Game, cell: Cell) -> (r: bool)
    requires
        game.wf(),
        grid_consistent(game@),
        cell.in_bounds(),
        game@[cell.linear()] != 0,
    ensures
        r ==> forall|s: Seq<u8>| #[trigger] solves(s, game@.update(cell.linear(), 0u8))
            ==> s[cell.linear()] == game@[cell.linear()],
        !r ==> exists|s: Seq<u8>| #[trigger] solves(s, game@.update(cell.linear(), 0u8))
            && s[cell.linear()] != game@[cell.linear()],
{
    let original = game.get(cell).value();
    let ghost g0 = game@;
    let ghost cleared = game@.update(cell.linear(), 0u8);
    let mut work = game;
    let mut v: u8 = 1;
    while v <= 9
        invariant
            work@ == g0,
            g0 == game@,
            cleared == g0.update(cell.linear(), 0u8),
            work.wf(),
            grid_consistent(g0),
            cell.in_bounds(),
            original == g0[cell.linear()],
            original != 0,
            1 <= v <= 10,
            forall|s: Seq<u8>| #[trigger] solves(s, cleared) && s[cell.linear()] < v
                ==> s[cell.linear()] == original,
        decreases 10 - v,
    {
        if v != original {
            let token = Token::from_value(v);
            if consistent(&work, cell, token) {
                work.set_internal(cell, token);
                let ghost gv = work@;
                proof {
                    lemma_update_consistent(g0, cell.linear(), v);
                }
                // the visiting order cannot touch what the search finds,
                // so the uniqueness test searches in row-major order
                let sequence = collect_cells(&work, ordered_sequence(), true);
                let mut search = work;
                let found = solve_depth(&mut search, &sequence, 0);
                work.set_internal(cell, Token::from_value(original));
                proof {
                    assert(work@ =~= g0);
                }
                if found {
                    proof {
                        // the alternate completion also solves the
                        // cleared grid, away from the original value
                        let s = search@;
                        assert(s[cell.linear()] == v);
                        assert forall|i: int| 0 <= i < 81 && cleared[i] != 0
                            implies s[i] == cleared[i] by {
                            assert(i != cell.linear());
                            assert(gv[i] == cleared[i]);
                        }
                        assert(solves(s, cleared) && s[cell.linear()] != original);
                    }
                    return false;
                } else {
                    proof {
                        assert forall|s: Seq<u8>| #[trigger] solves(s, cleared)
                            && s[cell.linear()] < v + 1
                            implies s[cell.linear()] == original by {
                            if s[cell.linear()] == v {
                                assert forall|i: int| 0 <= i < 81 && gv[i] != 0
                                    implies s[i] == gv[i] by {
                                    if i != cell.linear() {
                                        assert(cleared[i] == gv[i]);
                                    }
                                }
                                assert(solves(s, gv));
                            }
                        }
                    }
                }
            } else {
                proof {
                    // v clashes with a filled cell, which the cleared grid
                    // keeps, so no solution of it places v here
                    let i = cell.linear();
                    let j = choose|j: int|
                        0 <= j < 81 && j != i && #[trigger] same_unit(i, j)
                            && g0[j] == v;
                    assert forall|s: Seq<u8>| #[trigger] solves(s, cleared)
                        && s[cell.linear()] < v + 1
                        implies s[cell.linear()] == original by {
                        if s[cell.linear()] == v {
                            assert(cleared[j] == g0[j]);
                            assert(s[j] == g0[j]);
                            assert(!cell_consistent(s, i));
                            assert(cell_consistent(s, i));
                        }
                    }
                }
            }
        }
        v = v + 1;
    }
    proof {
        assert forall|s: Seq<u8>| #[trigger] solves(s, cleared)
            implies s[cell.linear()] == original by {
            assert(s[cell.linear()] <= 9);
        }
    }
    true
}

/// Clear cells of a solved grid in random order, keeping only clearings
/// after which the puzzle still forces the cleared value back, until the
/// target gap count of `max_difficulty` is reached.  Snapshots are taken
/// as the easier difficulties' targets are passed; every returned puzzle
/// has exactly one solution, the input grid.  At least one puzzle always
/// comes back -- the first visited cell of a full consistent grid can
/// always be cleared -- and no slot above `max_difficulty` is ever filled.
pub fn prune_per_gaps(game: &Game, max_difficulty: Difficulty) -> (r: [Option<Game>; 3])
    requires
        game.wf(),
        grid_full(game@),
        grid_consistent(game@),
    ensures
        prune_slots_ok(r@, game@),
        r@[0] is Some || r@[1] is Some || r@[2] is Some,
        max_difficulty == Difficulty::Easy ==> r@[1] is None && r@[2] is None,
        max_difficulty != Difficulty::Hard ==> r@[2] is None,
{
    let sequence = random_filled_sequence(game);
    let n = sequence.len();
    let mut current = *game;
    let mut pruned: [Option<Game>; 3] = [None, None, None];
    let mut removed: usize = 0;
    let target = max_difficulty.to_gaps();
    proof {
        lemma_empty_count_none(game@, 81);
        assert(solves(game@, game@));
    }
    let mut k: usize = 0;
    while k < n && removed < target
        invariant
            k <= n,
            n == sequence@.len(),
            game.wf(),
            grid_full(game@),
            grid_consistent(game@),
            cells_in_bounds(sequence@),
            cells_distinct(sequence@),
            forall|j: int| 0 <= j < n ==> game@[(#[trigger] sequence@[j]).linear()] != 0,
            current.wf(),
            cleared_from(current@, game@),
            forall|s: Seq<u8>| #[trigger] solves(s, current@) ==> s == game@,
            // cells not yet visited still hold their solved values
            forall|j: int| k <= j < n
                ==> current@[(#[trigger] sequence@[j]).linear()] == game@[sequence@[j].linear()],
            removed == empty_count(current@, 81),
            removed <= target,
            target == max_difficulty.spec_gaps(),
            prune_slots_ok(pruned@, game@),
            removed == 0 ==> current@ == game@,
            k > 0 ==> removed > 0,
            pruned@[2] is None,
            max_difficulty == Difficulty::Easy ==> pruned@[1] is None,
        decreases n - k,
    {
        let cell = sequence[k];
        proof {
            lemma_cleared_consistent(current@, game@);
        }
        let removable = can_remove(current, cell);
        proof {
            // nothing has been cleared yet: the grid is still full and
            // consistent, so this first cell is forced back once cleared
            if removed == 0 && !removable {
                lemma_full_grid_forced(game@, cell.linear());
            }
        }
        if removable {
            let ghost before = current@;
            current.set_internal(cell, Token::Empty);
            removed = removed + 1;
            proof {
                assert(current@ == before.update(cell.linear(), 0u8));
                lemma_empty_count_clear(before, cell.linear(), 81);
                assert forall|s: Seq<u8>| #[trigger] solves(s, current@) implies s == game@ by {
                    assert(s[cell.linear()] == before[cell.linear()]);
                    assert forall|i: int| 0 <= i < 81 && before[i] != 0
                        implies s[i] == before[i] by {
                        if i != cell.linear() {
                            assert(current@[i] == before[i]);
                        }
                    }
                    assert(solves(s, before));
                }
                assert forall|j: int| k + 1 <= j < n
                    implies current@[(#[trigger] sequence@[j]).linear()]
                        == game@[sequence@[j].linear()] by {
                    assert(sequence@[j].linear() != sequence@[k as int].linear());
                }
            }
            if removed == Difficulty::Easy.to_gaps() {
                pruned[0] = Some(current);
                proof {
                    assert(solves(game@, current@));
                }
            } else if removed == Difficulty::Medium.to_gaps() {
                pruned[1] = Some(current);
                proof {
                    assert(solves(game@, current@));
                }
            }
        }
        k = k + 1;
    }

    proof {
        // the sequence visits every filled cell of a full grid, so the
        // loop ran and the first visited cell was cleared
        assert(game@[0] != 0);
        assert(sequence@.len() >= 1);
        assert(removed > 0);
        assert(solves(game@, current@));
    }
    if removed > Difficulty::Medium.to_gaps() {
        pruned[2] = Some(current);
    } else if removed > Difficulty::Easy.to_gaps() {
        pruned[1] = Some(current);
    } else if removed > 0 {
        pruned[0] = Some(current);
    }
    pruned
}

/// Every snapshot taken so far is a faithfully pruned puzzle of its slot's
/// difficulty band, uniquely solved by `solution`.
pub open spec fn prune_slots_ok(slots: Seq<Option<Game>>, solution: Seq<u8>) -> bool {
    forall|d: int| #![trigger slots[d]] 0 <= d < 3 && slots[d] is Some ==> {
        &&& (slots[d]->0).wf()
        &&& cleared_from((slots[d]->0)@, solution)
        &&& unique_solution((slots[d]->0)@, solution)
        &&& (d == 0 ==> 0 < empty_count((slots[d]->0)@, 81) <= 40)
        &&& (d == 1 ==> 40 < empty_count((slots[d]->0)@, 81) <= 50)
        &&& (d == 2 ==> 50 < empty_count((slots[d]->0)@, 81) <= 60)
    }
}

/// The canonical filled grid used throughout the tests.
pub fn consistent_board() -> (r: [u8; 81])
    ensures
        r@ == base_grid(),
        grid_wf(r@),
        grid_full(r@),
        grid_consistent(r@),
{
    proof {
        lemma_base_grid();
    }
    crate::board::Board::initialize_base().to_array()
}

/// Every cell of a consistent grid passes the consistency check; stated as
/// an executable walk whose checks are discharged statically.
pub fn assert_consistent(game: &Game)
    requires
        game.wf(),
        grid_consistent(game@),
{
    for i in 0..81usize
        invariant
            game.wf(),
            grid_consistent(game@),
    {
        let cell = Cell::from_index(i);
        let ok = consistent(game, cell, game.get(cell));
        proof {
            assert(cell_consistent(game@, i as int));
        }
        assert(ok);
    }
}

} // verus!
