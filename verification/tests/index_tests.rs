use rudoku::index::{ColumnIndexer, RowIndexer, SectorIndexer};

#[test]
fn row_low() {
    let jig: [usize; 81] = [
        0,1,2,3,4,5,6,7,8,
        0,0,0,0,0,0,0,0,0,
        0,0,0,0,0,0,0,0,0,
        0,0,0,0,0,0,0,0,0,
        0,0,0,0,0,0,0,0,0,
        0,0,0,0,0,0,0,0,0,
        0,0,0,0,0,0,0,0,0,
        0,0,0,0,0,0,0,0,0,
        0,0,0,0,0,0,0,0,0,
    ];

    let mut iter = RowIndexer::new(0);
    let mut index = 0;
    while let Some(cell) = iter.next() {
        assert_eq!(index, jig[cell.index()]);
        index += 1;
    }
    assert_eq!(index, 9);
}

#[test]
fn row_high() {
    let jig: [usize; 81] = [
        0,0,0,0,0,0,0,0,0,
        0,0,0,0,0,0,0,0,0,
        0,0,0,0,0,0,0,0,0,
        0,0,0,0,0,0,0,0,0,
        0,0,0,0,0,0,0,0,0,
        0,0,0,0,0,0,0,0,0,
        0,0,0,0,0,0,0,0,0,
        0,0,0,0,0,0,0,0,0,
        0,1,2,3,4,5,6,7,8,
    ];

    let mut iter = RowIndexer::new(8);
    let mut index = 0;
    while let Some(cell) = iter.next() {
        assert_eq!(index, jig[cell.index()]);
        index += 1;
    }
    assert_eq!(index, 9);
}

#[test]
fn column_low() {
    let jig: [usize; 81] = [
        0,0,0,0,0,0,0,0,0,
        1,0,0,0,0,0,0,0,0,
        2,0,0,0,0,0,0,0,0,
        3,0,0,0,0,0,0,0,0,
        4,0,0,0,0,0,0,0,0,
        5,0,0,0,0,0,0,0,0,
        6,0,0,0,0,0,0,0,0,
        7,0,0,0,0,0,0,0,0,
        8,0,0,0,0,0,0,0,0,
    ];

    let mut iter = ColumnIndexer::new(0);
    let mut index = 0;
    while let Some(cell) = iter.next() {
        assert_eq!(index, jig[cell.index()]);
        index += 1;
    }
    assert_eq!(index, 9);
}

#[test]
fn column_high() {
    let jig: [usize; 81] = [
        0,0,0,0,0,0,0,0,0,
        0,0,0,0,0,0,0,0,1,
        0,0,0,0,0,0,0,0,2,
        0,0,0,0,0,0,0,0,3,
        0,0,0,0,0,0,0,0,4,
        0,0,0,0,0,0,0,0,5,
        0,0,0,0,0,0,0,0,6,
        0,0,0,0,0,0,0,0,7,
        0,0,0,0,0,0,0,0,8,
    ];

    let mut iter = ColumnIndexer::new(8);
    let mut index = 0;
    while let Some(cell) = iter.next() {
        assert_eq!(index, jig[cell.index()]);
        index += 1;
    }
    assert_eq!(index, 9);
}

#[test]
fn sector_low() {
    let jig: [usize; 81] = [
        0,1,2,0,0,0,0,0,0,
        3,4,5,0,0,0,0,0,0,
        6,7,8,0,0,0,0,0,0,
        0,0,0,0,0,0,0,0,0,
        0,0,0,0,0,0,0,0,0,
        0,0,0,0,0,0,0,0,0,
        0,0,0,0,0,0,0,0,0,
        0,0,0,0,0,0,0,0,0,
        0,0,0,0,0,0,0,0,0,
    ];

    let mut iter = SectorIndexer::new(0);
    let mut index = 0;
    while let Some(cell) = iter.next() {
        assert_eq!(index, jig[cell.index()]);
        index += 1;
    }
    assert_eq!(index, 9);
}

#[test]
fn sector_high() {
    let jig: [usize; 81] = [
        0,0,0,0,0,0,0,0,0,
        0,0,0,0,0,0,0,0,0,
        0,0,0,0,0,0,0,0,0,
        0,0,0,0,0,0,0,0,0,
        0,0,0,0,0,0,0,0,0,
        0,0,0,0,0,0,0,0,0,
        0,0,0,0,0,0,0,1,2,
        0,0,0,0,0,0,3,4,5,
        0,0,0,0,0,0,6,7,8,
    ];

    let mut iter = SectorIndexer::new(8);
    let mut index = 0;
    while let Some(cell) = iter.next() {
        assert_eq!(index, jig[cell.index()]);
        index += 1;
    }
    assert_eq!(index, 9);
}
