use rudoku::game::{Cell, Game};
use rudoku::index::{ColumnIndexer, RowIndexer, SectorIndexer};
use rudoku::{ops, transform};

#[test]
fn game_from_array() {
    let reference = ops::consistent_board();
    let game = Game::from_array(reference);

    for i in 0..9 {
        let mut rows = RowIndexer::new(i);
        while let Some(cell) = rows.next() {
            assert_eq!(game.get(cell).value(), reference[cell.index()]);
        }

        let mut columns = ColumnIndexer::new(i);
        while let Some(cell) = columns.next() {
            assert_eq!(game.get(cell).value(), reference[cell.index()]);
        }

        let mut sectors = SectorIndexer::new(i);
        while let Some(cell) = sectors.next() {
            assert_eq!(game.get(cell).value(), reference[cell.index()]);
        }
    }
}

#[test]
fn cell_sector() {
    let jig: [usize; 81] = [
        0,0,0,1,1,1,2,2,2,
        0,0,0,1,1,1,2,2,2,
        0,0,0,1,1,1,2,2,2,
        3,3,3,4,4,4,5,5,5,
        3,3,3,4,4,4,5,5,5,
        3,3,3,4,4,4,5,5,5,
        6,6,6,7,7,7,8,8,8,
        6,6,6,7,7,7,8,8,8,
        6,6,6,7,7,7,8,8,8,
    ];

    for index in 0..81 {
        let cell = Cell::from_index(index);
        assert_eq!(cell.sector(), jig[cell.index()]);
    }
}

#[test]
fn cell_sector_index() {
    let jig: [usize; 81] = [
        0,1,2,0,1,2,0,1,2,
        3,4,5,3,4,5,3,4,5,
        6,7,8,6,7,8,6,7,8,
        0,1,2,0,1,2,0,1,2,
        3,4,5,3,4,5,3,4,5,
        6,7,8,6,7,8,6,7,8,
        0,1,2,0,1,2,0,1,2,
        3,4,5,3,4,5,3,4,5,
        6,7,8,6,7,8,6,7,8,
    ];

    for index in 0..81 {
        let cell = Cell::from_index(index);
        assert_eq!(cell.sector_index(), jig[cell.index()]);
    }
}

#[test]
fn transform_consistency() {
    let mut board = ops::consistent_board();
    transform::shift(&mut board, 2);
    ops::assert_consistent(&Game::from_array(board));
    transform::rotate(&mut board);
    ops::assert_consistent(&Game::from_array(board));
    transform::mirror_columns(&mut board);
    ops::assert_consistent(&Game::from_array(board));
    transform::mirror_rows(&mut board);
    ops::assert_consistent(&Game::from_array(board));
    transform::swap_columns(&mut board, 1, 1);
    ops::assert_consistent(&Game::from_array(board));
    transform::swap_rows(&mut board, 1, 1);
    ops::assert_consistent(&Game::from_array(board));
    transform::swap_column_sector(&mut board, 1);
    ops::assert_consistent(&Game::from_array(board));
    transform::swap_row_sector(&mut board, 1);
    ops::assert_consistent(&Game::from_array(board));
}

#[test]
fn transforms_leave_no_inconsistency() {
    let mut board = ops::consistent_board();
    transform::shift(&mut board, 2);
    transform::rotate(&mut board);
    transform::swap_columns(&mut board, 2, 0);
    transform::swap_row_sector(&mut board, 0);
    let game = Game::from_array(board);
    for index in 0..81 {
        let cell = Cell::from_index(index);
        assert!(ops::consistent(&game, cell, game.get(cell)));
        assert_ne!(game.get(cell).value(), 0);
    }
}
