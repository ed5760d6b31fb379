use rudoku::transform;

#[test]
fn transform_shift() {
    let mut jig: [u8; 81] = [
        0,1,2,3,4,5,6,7,8,
        9,0,1,2,3,4,5,6,7,
        8,9,0,1,2,3,4,5,6,
        7,8,9,0,1,2,3,4,5,
        6,7,8,9,0,1,2,3,4,
        5,6,7,8,9,0,1,2,3,
        4,5,6,7,8,9,0,1,2,
        3,4,5,6,7,8,9,0,1,
        2,3,4,5,6,7,8,9,0,
    ];

    let expected: [u8; 81] = [
        0,3,4,5,6,7,8,9,1,
        2,0,3,4,5,6,7,8,9,
        1,2,0,3,4,5,6,7,8,
        9,1,2,0,3,4,5,6,7,
        8,9,1,2,0,3,4,5,6,
        7,8,9,1,2,0,3,4,5,
        6,7,8,9,1,2,0,3,4,
        5,6,7,8,9,1,2,0,3,
        4,5,6,7,8,9,1,2,0,
    ];

    transform::shift(&mut jig, 2);
    for i in 0..81 {
        assert_eq!(jig[i], expected[i]);
    }
}

#[test]
fn transform_rotate() {
    let mut jig: [u8; 81] = [
        0,0,0,0,0,0,0,0,0,
        1,1,1,1,1,1,1,1,1,
        2,2,2,2,2,2,2,2,2,
        3,3,3,3,3,3,3,3,3,
        4,4,4,4,4,4,4,4,4,
        5,5,5,5,5,5,5,5,5,
        6,6,6,6,6,6,6,6,6,
        7,7,7,7,7,7,7,7,7,
        8,8,8,8,8,8,8,8,8,
    ];

    let expected: [u8; 81] = [
        0,1,2,3,4,5,6,7,8,
        0,1,2,3,4,5,6,7,8,
        0,1,2,3,4,5,6,7,8,
        0,1,2,3,4,5,6,7,8,
        0,1,2,3,4,5,6,7,8,
        0,1,2,3,4,5,6,7,8,
        0,1,2,3,4,5,6,7,8,
        0,1,2,3,4,5,6,7,8,
        0,1,2,3,4,5,6,7,8,
    ];

    transform::rotate(&mut jig);
    for i in 0..81 {
        assert_eq!(jig[i], expected[i]);
    }
}

#[test]
fn transform_mirror_columns() {
    let mut jig: [u8; 81] = [
        8,7,6,5,4,3,2,1,0,
        8,7,6,5,4,3,2,1,0,
        8,7,6,5,4,3,2,1,0,
        8,7,6,5,4,3,2,1,0,
        8,7,6,5,4,3,2,1,0,
        8,7,6,5,4,3,2,1,0,
        8,7,6,5,4,3,2,1,0,
        8,7,6,5,4,3,2,1,0,
        8,7,6,5,4,3,2,1,0,
    ];

    let expected: [u8; 81] = [
        0,1,2,3,4,5,6,7,8,
        0,1,2,3,4,5,6,7,8,
        0,1,2,3,4,5,6,7,8,
        0,1,2,3,4,5,6,7,8,
        0,1,2,3,4,5,6,7,8,
        0,1,2,3,4,5,6,7,8,
        0,1,2,3,4,5,6,7,8,
        0,1,2,3,4,5,6,7,8,
        0,1,2,3,4,5,6,7,8,
    ];

    transform::mirror_columns(&mut jig);
    for i in 0..81 {
        assert_eq!(jig[i], expected[i]);
    }
}

#[test]
fn transform_mirror_rows() {
    let mut jig: [u8; 81] = [
        0,0,0,0,0,0,0,0,0,
        1,1,1,1,1,1,1,1,1,
        2,2,2,2,2,2,2,2,2,
        3,3,3,3,3,3,3,3,3,
        4,4,4,4,4,4,4,4,4,
        5,5,5,5,5,5,5,5,5,
        6,6,6,6,6,6,6,6,6,
        7,7,7,7,7,7,7,7,7,
        8,8,8,8,8,8,8,8,8,
    ];

    let expected: [u8; 81] = [
        8,8,8,8,8,8,8,8,8,
        7,7,7,7,7,7,7,7,7,
        6,6,6,6,6,6,6,6,6,
        5,5,5,5,5,5,5,5,5,
        4,4,4,4,4,4,4,4,4,
        3,3,3,3,3,3,3,3,3,
        2,2,2,2,2,2,2,2,2,
        1,1,1,1,1,1,1,1,1,
        0,0,0,0,0,0,0,0,0,
    ];

    transform::mirror_rows(&mut jig);
    for i in 0..81 {
        assert_eq!(jig[i], expected[i]);
    }
}

#[test]
fn transform_swap_columns() {
    let mut jig: [u8; 81] = [
        0,1,2,3,4,5,6,7,8,
        9,0,1,2,3,4,5,6,7,
        8,9,0,1,2,3,4,5,6,
        7,8,9,0,1,2,3,4,5,
        6,7,8,9,0,1,2,3,4,
        5,6,7,8,9,0,1,2,3,
        4,5,6,7,8,9,0,1,2,
        3,4,5,6,7,8,9,0,1,
        2,3,4,5,6,7,8,9,0,
    ];

    let expected: [u8; 81] = [
        0,1,2,5,4,3,6,7,8,
        9,0,1,4,3,2,5,6,7,
        8,9,0,3,2,1,4,5,6,
        7,8,9,2,1,0,3,4,5,
        6,7,8,1,0,9,2,3,4,
        5,6,7,0,9,8,1,2,3,
        4,5,6,9,8,7,0,1,2,
        3,4,5,8,7,6,9,0,1,
        2,3,4,7,6,5,8,9,0,
    ];

    transform::swap_columns(&mut jig, 1, 1);
    for i in 0..81 {
        assert_eq!(jig[i], expected[i]);
    }
}

#[test]
fn transform_swap_rows() {
    let mut jig: [u8; 81] = [
        0,1,2,3,4,5,6,7,8,
        9,0,1,2,3,4,5,6,7,
        8,9,0,1,2,3,4,5,6,
        7,8,9,0,1,2,3,4,5,
        6,7,8,9,0,1,2,3,4,
        5,6,7,8,9,0,1,2,3,
        4,5,6,7,8,9,0,1,2,
        3,4,5,6,7,8,9,0,1,
        2,3,4,5,6,7,8,9,0,
    ];

    let expected: [u8; 81] = [
        0,1,2,3,4,5,6,7,8,
        8,9,0,1,2,3,4,5,6,
        9,0,1,2,3,4,5,6,7,
        7,8,9,0,1,2,3,4,5,
        6,7,8,9,0,1,2,3,4,
        5,6,7,8,9,0,1,2,3,
        4,5,6,7,8,9,0,1,2,
        3,4,5,6,7,8,9,0,1,
        2,3,4,5,6,7,8,9,0,
    ];

    transform::swap_rows(&mut jig, 0, 0);
    for i in 0..81 {
        assert_eq!(jig[i], expected[i]);
    }
}

#[test]
fn transform_swap_column_sector() {
    let mut jig: [u8; 81] = [
        0,1,2,3,4,5,6,7,8,
        9,0,1,2,3,4,5,6,7,
        8,9,0,1,2,3,4,5,6,
        7,8,9,0,1,2,3,4,5,
        6,7,8,9,0,1,2,3,4,
        5,6,7,8,9,0,1,2,3,
        4,5,6,7,8,9,0,1,2,
        3,4,5,6,7,8,9,0,1,
        2,3,4,5,6,7,8,9,0,
    ];

    let expected: [u8; 81] = [
        6,7,8,3,4,5,0,1,2,
        5,6,7,2,3,4,9,0,1,
        4,5,6,1,2,3,8,9,0,
        3,4,5,0,1,2,7,8,9,
        2,3,4,9,0,1,6,7,8,
        1,2,3,8,9,0,5,6,7,
        0,1,2,7,8,9,4,5,6,
        9,0,1,6,7,8,3,4,5,
        8,9,0,5,6,7,2,3,4,
    ];

    transform::swap_column_sector(&mut jig, 1);
    for i in 0..81 {
        assert_eq!(jig[i], expected[i]);
    }
}

#[test]
fn transform_swap_row_sector() {
    let mut jig: [u8; 81] = [
        0,1,2,3,4,5,6,7,8,
        9,0,1,2,3,4,5,6,7,
        8,9,0,1,2,3,4,5,6,
        7,8,9,0,1,2,3,4,5,
        6,7,8,9,0,1,2,3,4,
        5,6,7,8,9,0,1,2,3,
        4,5,6,7,8,9,0,1,2,
        3,4,5,6,7,8,9,0,1,
        2,3,4,5,6,7,8,9,0,
    ];

    let expected: [u8; 81] = [
        0,1,2,3,4,5,6,7,8,
        9,0,1,2,3,4,5,6,7,
        8,9,0,1,2,3,4,5,6,
        4,5,6,7,8,9,0,1,2,
        3,4,5,6,7,8,9,0,1,
        2,3,4,5,6,7,8,9,0,
        7,8,9,0,1,2,3,4,5,
        6,7,8,9,0,1,2,3,4,
        5,6,7,8,9,0,1,2,3,
    ];

    transform::swap_row_sector(&mut jig, 0);
    for i in 0..81 {
        assert_eq!(jig[i], expected[i]);
    }
}
