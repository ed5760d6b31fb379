use rand::Rng;

use rudoku::board::{Board, Cell, Token};

fn linear(cell: Cell) -> usize {
    cell.row as usize * 9 + cell.col as usize
}

#[test]
fn get() {
    let board = Board::initialize_base();
    let raw = board.to_array();

    for row in 0..9 {
        for col in 0..9 {
            assert_eq!(
                board.get(Cell::new(row, col)).value(),
                raw[usize::from(row * 9 + col)]
            );
        }
    }
}

#[test]
fn set() {
    let mut board = Board::initialize_base();
    let before = board.to_array();
    assert!(board.set(Cell::new(4, 5), Token::One));

    for row in 0..9 {
        for col in 0..9 {
            if row == 4 && col == 5 {
                assert_eq!(board.get(Cell::new(row, col)), Token::One);
            } else {
                assert_eq!(
                    board.get(Cell::new(row, col)).value(),
                    before[usize::from(row * 9 + col)]
                );
            }
        }
    }

    assert!(!board.set(Cell::new(2, 0), Token::One));
}

#[test]
fn reverse() {
    let mut board = Board::sequential();
    board.reverse();

    let raw = board.to_array();
    for i in 0..81 {
        assert_eq!(raw[usize::from(i)], 80 - i);
    }
}

#[test]
fn board_rotate() {
    let mut board = Board::sequential();
    board.rotate();

    let raw = board.to_array();
    for row in 0..9 {
        for col in 0..9 {
            assert_eq!(raw[usize::from(row * 9 + col)], col * 9 + row);
        }
    }
}

#[test]
fn board_mirror_columns() {
    let mut board = Board::sequential();
    board.mirror_columns();

    let raw = board.to_array();
    for row in 0..9 {
        for col in 0..9 {
            assert_eq!(raw[usize::from(row * 9 + col)], row * 9 + (8 - col));
        }
    }
}

#[test]
fn board_mirror_rows() {
    let mut board = Board::sequential();
    board.mirror_rows();

    let raw = board.to_array();
    for row in 0..9 {
        for col in 0..9 {
            assert_eq!(raw[usize::from(row * 9 + col)], (8 - row) * 9 + col);
        }
    }
}

#[test]
fn board_swap_columns() {
    let mut board = Board::initialize_base();
    board.swap_columns(0, 2);
    let expected = Board::initialize_base();

    for row in 0..9 {
        for col in 0..9 {
            if col == 0 {
                assert_eq!(
                    board.get(Cell::new(row, col)),
                    expected.get(Cell::new(row, col + 1))
                );
            } else if col == 1 {
                assert_eq!(
                    board.get(Cell::new(row, col)),
                    expected.get(Cell::new(row, col - 1))
                );
            } else {
                assert_eq!(
                    board.get(Cell::new(row, col)),
                    expected.get(Cell::new(row, col))
                );
            }
        }
    }
}

#[test]
fn board_swap_rows() {
    let mut board = Board::initialize_base();
    board.swap_rows(0, 2);
    let expected = Board::initialize_base();

    for row in 0..9 {
        for col in 0..9 {
            if row == 0 {
                assert_eq!(
                    board.get(Cell::new(row, col)),
                    expected.get(Cell::new(row + 1, col))
                );
            } else if row == 1 {
                assert_eq!(
                    board.get(Cell::new(row, col)),
                    expected.get(Cell::new(row - 1, col))
                );
            } else {
                assert_eq!(
                    board.get(Cell::new(row, col)),
                    expected.get(Cell::new(row, col))
                );
            }
        }
    }
}

#[test]
fn board_shift() {
    let mut board = Board::sequential();
    board.shift(1);

    let raw = board.to_array();
    for i in 0..81 {
        assert_eq!(raw[usize::from(i)], (i + 1) % 9 + 1);
    }
}

#[test]
fn token_iterator() {
    for (index, token) in Token::iter().iter().enumerate() {
        println!("Left: {}, Right: {}", index, token.value());
        assert_eq!((index + 1) as u8, token.value());
    }
}

#[test]
fn cell_as_linear() {
    for row in 0..9 {
        for col in 0..9 {
            assert_eq!(Cell::new(row, col).as_linear(), usize::from(row * 9 + col));
        }
    }
}

#[test]
fn consistent() {
    let mut board = Board::initialize_base();
    assert_eq!(board.list_inconsistencies().len(), 0);
    board.reverse();
    assert_eq!(board.list_inconsistencies().len(), 0);
    board.rotate();
    assert_eq!(board.list_inconsistencies().len(), 0);
    board.mirror_columns();
    assert_eq!(board.list_inconsistencies().len(), 0);
    board.mirror_rows();
    assert_eq!(board.list_inconsistencies().len(), 0);
    board.swap_columns(2, 1);
    assert_eq!(board.list_inconsistencies().len(), 0);
    board.swap_rows(1, 2);
    assert_eq!(board.list_inconsistencies().len(), 0);
    board.shift(1);
    assert_eq!(board.list_inconsistencies().len(), 0);

    let lucky_index = rand::thread_rng().gen::<u8>() % 81;
    let lucky_cell = Cell::new(lucky_index / 9, lucky_index % 9);
    let value = board.get(lucky_cell).value();
    board.set(lucky_cell, Token::from_value(((value + 1) % 9) + 1));
    assert!(!board.consistent(lucky_cell));
    assert!(!board.list_inconsistencies().is_empty());
}

#[test]
fn new_board_is_solved() {
    let board = Board::new();
    assert!(board.list_inconsistencies().is_empty());
    let raw = board.to_array();
    for i in 0..81 {
        assert!(raw[i] >= 1 && raw[i] <= 9);
    }
}

#[test]
fn list_inconsistencies_names_both_cells() {
    let mut board = Board::initialize_base();
    // duplicate the value of (0, 0) at (0, 5)
    let value = board.get(Cell::new(0, 0));
    board.set(Cell::new(0, 5), value);
    let bad = board.list_inconsistencies();
    assert!(bad.iter().any(|c| linear(*c) == 0));
    assert!(bad.iter().any(|c| linear(*c) == 5));
    // the answer comes in row-major ascending order, each cell once
    for pair in bad.windows(2) {
        assert!(linear(pair[0]) < linear(pair[1]));
    }
}
