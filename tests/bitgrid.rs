use bitvideo::BitGrid;

#[test]
fn check_get_set() {
    let mut grid = BitGrid::new(16, 16);
    assert!(grid.is_empty());

    for y in 0..grid.height() {
        for x in 0..grid.width() {
            assert!(grid.is_empty());
            assert_eq!(grid.get(x, y), false);

            grid.set(x, y, true);
            assert!(!grid.is_empty());
            assert_eq!(grid.get(x, y), true);

            grid.set(x, y, false);
            assert_eq!(grid.get(x, y), false);
        }
    }
}

#[test]
fn check_flip() {
    let mut grid = BitGrid::new(16, 16);
    assert!(grid.is_empty());

    for y in 0..grid.height() {
        for x in 0..grid.width() {
            grid.flip(x, y);
        }
    }

    assert_eq!(grid.is_empty(), false);
    for y in 0..grid.height() {
        for x in 0..grid.width() {
            assert_eq!(grid.get(x, y), true);
        }
    }
}

#[test]
fn check_byte_layout() {
    let mut grid = BitGrid::new(16, 16);

    for y in 0..grid.height() {
        for x in 0..grid.width() {
            let (idx, bit) = grid.idx(x, y);
            println!("Checking setting bit at ({x}, {y}) ~= idx={idx}, bit={bit}");
            assert_eq!(grid.get(x, y), false, "Failed to get bit at ({x}, {y})");
            grid.set(x, y, true);
        }
    }

    let byte_len = (grid.width() * grid.height() / 8) as usize;
    assert_eq!(grid.as_bytes().len(), byte_len);
    assert_eq!(grid.as_bytes(), vec![0b1111_1111; byte_len]);
}

#[test]
fn idx_along_a_row() {
    let grid = BitGrid::new(32, 1);
    let cases: [(i16, (usize, u8)); 14] = [
        (0, (0, 0)),
        (1, (0, 1)),
        (4, (0, 4)),
        (8, (1, 0)),
        (12, (1, 4)),
        (16, (2, 0)),
        (17, (2, 1)),
        (0 + 32, (0, 0)),
        (1 + 32, (0, 1)),
        (4 + 32, (0, 4)),
        (8 + 32, (1, 0)),
        (12 + 32, (1, 4)),
        (16 + 32, (2, 0)),
        (17 + 32, (2, 1)),
    ];
    for (x, expected) in cases {
        assert_eq!(grid.idx(x, 0), expected, "x={x}");
        let _ = grid.get(x, 0);
    }
}

#[test]
fn idx_along_a_column() {
    let grid = BitGrid::new(1, 32);
    let cases: [(i16, (usize, u8)); 14] = [
        (0, (0, 0)),
        (1, (1, 0)),
        (4, (4, 0)),
        (8, (8, 0)),
        (12, (12, 0)),
        (16, (16, 0)),
        (17, (17, 0)),
        (0 + 32, (0, 0)),
        (1 + 32, (1, 0)),
        (4 + 32, (4, 0)),
        (8 + 32, (8, 0)),
        (12 + 32, (12, 0)),
        (16 + 32, (16, 0)),
        (17 + 32, (17, 0)),
    ];
    for (y, expected) in cases {
        assert_eq!(grid.idx(0, y), expected, "y={y}");
        let _ = grid.get(0, y);
    }
}

#[test]
fn negative_coordinates_wrap() {
    let mut grid = BitGrid::new(10, 3);
    assert_eq!(grid.set(-1, -1, true), false);
    assert_eq!(grid.get(9, 2), true);
    assert_eq!(grid.idx(-1, -1), (1 + 2 * 2, 1));
    assert_eq!(grid.idx(-21, 0), grid.idx(9, 0));
    assert_eq!(grid.idx(i16::MIN, i16::MIN), grid.idx(2, 1));
}

#[test]
fn set_and_flip_return_previous_value() {
    let mut grid = BitGrid::new(9, 2);
    assert_eq!(grid.set(8, 1, true), false);
    assert_eq!(grid.set(8, 1, true), true);
    assert_eq!(grid.flip(8, 1), true);
    assert_eq!(grid.get(8, 1), false);
    assert_eq!(grid.flip(8, 1), false);
    assert_eq!(grid.as_bytes(), &[0, 0, 0, 1]);
}

#[test]
fn new_grid_size_and_clear() {
    let mut grid = BitGrid::new(9, 3);
    assert_eq!(grid.dims(), (9, 3));
    assert_eq!(grid.as_bytes().len(), 2 * 3);
    grid.set(3, 2, true);
    assert_eq!(grid.as_bytes(), &[0, 0, 0, 0, 0b0000_1000, 0]);
    grid.clear();
    assert!(grid.is_empty());
    assert_eq!(grid.as_bytes().len(), 6);

    let empty = BitGrid::new(0, 0);
    assert!(empty.is_empty());
    assert_eq!(empty.as_bytes().len(), 0);
}

#[test]
fn mutable_bytes_write_through() {
    let mut grid = BitGrid::new(16, 1);
    grid.as_mut_bytes().copy_from_slice(&[0b1111_1111, 0b0000_0001]);
    assert_eq!(grid.get(7, 0), true);
    assert_eq!(grid.get(8, 0), true);
    assert_eq!(grid.get(9, 0), false);
}
