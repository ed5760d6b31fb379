use rudoku::game::{Cell, Difficulty, Game, Token};
use rudoku::ops;

#[test]
fn full_consistency() {
    let board = ops::consistent_board();
    ops::assert_consistent(&Game::from_array(board));
}

#[test]
fn row_inconsistency() {
    let jig = Game::from_array([
        0, 0, 0, 0, 0, 0, 0, 0, 0,
        0, 0, 0, 0, 0, 0, 0, 0, 0,
        0, 0, 0, 0, 0, 0, 0, 0, 0,
        2, 3, 4, 5, 1, 7, 8, 9, 1,
        0, 0, 0, 0, 0, 0, 0, 0, 0,
        0, 0, 0, 0, 0, 0, 0, 0, 0,
        0, 0, 0, 0, 0, 0, 0, 0, 0,
        0, 0, 0, 0, 0, 0, 0, 0, 0,
        0, 0, 0, 0, 0, 0, 0, 0, 0,
    ]);

    assert!(!ops::consistent(&jig, Cell::new(3, 4), Token::One));
}

#[test]
fn column_inconsistency() {
    let jig = Game::from_array([
        0, 0, 0, 4, 0, 0, 0, 0, 0,
        0, 0, 0, 7, 0, 0, 0, 0, 0,
        0, 0, 0, 1, 0, 0, 0, 0, 0,
        0, 0, 0, 9, 0, 0, 0, 0, 0,
        0, 0, 0, 8, 0, 0, 0, 0, 0,
        0, 0, 0, 2, 0, 0, 0, 0, 0,
        0, 0, 0, 6, 0, 0, 0, 0, 0,
        0, 0, 0, 9, 0, 0, 0, 0, 0,
        0, 0, 0, 3, 0, 0, 0, 0, 0,
    ]);

    assert!(!ops::consistent(&jig, Cell::new(3, 3), Token::Nine));
}

#[test]
fn sector_inconsistency() {
    let jig = Game::from_array([
        0, 0, 0, 0, 0, 0, 0, 0, 0,
        0, 0, 0, 0, 0, 0, 0, 0, 0,
        0, 0, 0, 0, 0, 0, 0, 0, 0,
        0, 0, 0, 5, 6, 7, 0, 0, 0,
        0, 0, 0, 8, 2, 1, 0, 0, 0,
        0, 0, 0, 2, 3, 4, 0, 0, 0,
        0, 0, 0, 0, 0, 0, 0, 0, 0,
        0, 0, 0, 0, 0, 0, 0, 0, 0,
        0, 0, 0, 0, 0, 0, 0, 0, 0,
    ]);

    assert!(!ops::consistent(&jig, Cell::new(4, 4), Token::Two));
}

#[test]
fn solve() {
    let mut game = Game::from_array(ops::consistent_board());
    for index in ops::random_sequence().iter().take(10) {
        game.set_internal(Cell::from_index(*index as usize), Token::Empty);
    }

    let solved = ops::solve(&game);
    assert!(solved.is_some());

    let solved = solved.unwrap();
    for index in 0..81 {
        let cell = Cell::from_index(index);
        assert_ne!(solved.get(cell), Token::Empty);
        assert!(ops::consistent(&game, cell, game.get(cell)));
    }
}

#[test]
fn generate_solved_is_full_and_consistent() {
    let game = ops::generate_solved();
    for index in 0..81 {
        let cell = Cell::from_index(index);
        assert_ne!(game.get(cell).value(), 0);
        assert!(ops::consistent(&game, cell, game.get(cell)));
    }
}

#[test]
fn solve_rejects_conflicting_clues() {
    // two 5s in the first row: no completion exists
    let jig = Game::from_array([
        5, 0, 0, 0, 0, 0, 0, 0, 5,
        0, 0, 0, 0, 0, 0, 0, 0, 0,
        0, 0, 0, 0, 0, 0, 0, 0, 0,
        0, 0, 0, 0, 0, 0, 0, 0, 0,
        0, 0, 0, 0, 0, 0, 0, 0, 0,
        0, 0, 0, 0, 0, 0, 0, 0, 0,
        0, 0, 0, 0, 0, 0, 0, 0, 0,
        0, 0, 0, 0, 0, 0, 0, 0, 0,
        0, 0, 0, 0, 0, 0, 0, 0, 0,
    ]);
    assert!(jig.solve().is_none());
}

#[test]
fn solve_restores_cleared_cell() {
    // clearing the third row's fourth cell of the canonical grid leaves 1
    // the only value fitting its row, column, and sector
    let mut game = Game::from_array(ops::consistent_board());
    assert_eq!(game.get(Cell::new(2, 3)).value(), 1);
    game.set_internal(Cell::new(2, 3), Token::Empty);

    let solved = game.solve().expect("the puzzle has a solution");
    assert_eq!(solved.get(Cell::new(2, 3)).value(), 1);
    for index in 0..81 {
        let cell = Cell::from_index(index);
        if index != 2 * 9 + 3 {
            assert_eq!(solved.get(cell).value(), game.get(cell).value());
        }
    }
}

#[test]
fn random_sequence_is_a_permutation() {
    let sequence = ops::random_sequence();
    assert_eq!(sequence.len(), 81);
    let mut seen = [false; 81];
    for index in sequence.iter() {
        assert!(!seen[*index as usize]);
        seen[*index as usize] = true;
    }
    assert!(seen.iter().all(|s| *s));
}

#[test]
fn pruned_alternate_values_do_not_solve() {
    let solved = Game::from_array(ops::consistent_board());
    let pruned = solved.prune_per_gaps(Difficulty::Easy);
    let puzzle = pruned[0].expect("an easy puzzle is produced");

    let mut cleared = None;
    for index in 0..81 {
        if puzzle.get(Cell::from_index(index)).value() == 0 {
            cleared = Some(index);
            break;
        }
    }
    let target = Cell::from_index(cleared.expect("the puzzle has cleared cells"));
    let correct = solved.get(target).value();

    // any other value at a cleared cell leaves an unsolvable grid
    for value in 1..=9u8 {
        if value == correct {
            continue;
        }
        let mut altered = puzzle;
        altered.set_internal(target, Token::from_value(value));
        assert!(altered.solve().is_none());
    }
}

#[test]
fn prune_keeps_a_unique_solution() {
    let solved = Game::from_array(ops::consistent_board());
    let pruned = solved.prune_per_gaps(Difficulty::Easy);
    let puzzle = pruned[0].expect("an easy puzzle is produced");
    // no slot above the asked difficulty is filled
    assert!(pruned[1].is_none());
    assert!(pruned[2].is_none());

    let mut gaps = 0;
    for index in 0..81 {
        let cell = Cell::from_index(index);
        let value = puzzle.get(cell).value();
        if value == 0 {
            gaps += 1;
        } else {
            assert_eq!(value, solved.get(cell).value());
        }
    }
    assert_eq!(gaps, 40);

    // the puzzle leads back to the grid it was pruned from
    let answer = puzzle.solve().expect("the puzzle stays solvable");
    for index in 0..81 {
        let cell = Cell::from_index(index);
        assert_eq!(answer.get(cell).value(), solved.get(cell).value());
    }
}
