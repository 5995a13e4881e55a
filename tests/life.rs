use bitvideo::Life;

#[test]
fn check_square_lives() {
    let mut life = Life::new();

    // ....
    // .OO.
    // .OO.
    // ....
    for (x, y) in [(1, 1), (2, 1), (1, 2), (2, 2)] {
        life.set(x, y, true);
    }

    let updated = life.step();

    // Nothing changes; this pattern is stable
    assert_eq!(updated, 0);
}

#[test]
fn check_spinner_spins() {
    let mut life = Life::new();

    // ...
    // .O.
    // .O.
    // .O.
    // ...
    for (x, y) in [(1, 1), (1, 2), (1, 3)] {
        life.set(x, y, true);
    }

    let updated = life.step();

    // The two ends die and two new side cells are born.
    assert_eq!(updated, 4);
    assert!(life.get(0, 2) && life.get(1, 2) && life.get(2, 2));
    assert!(!life.get(1, 1) && !life.get(1, 3));
}

#[test]
fn set_returns_previous_state() {
    let mut life = Life::new();
    assert_eq!(life.set(0, 0, true), false);
    assert_eq!(life.set(0, 0, true), true);
    assert_eq!(life.set(0, 0, false), true);
    assert_eq!(life.set(0, 0, false), false);
}

#[test]
fn off_board_cells_are_dead() {
    let mut life = Life::new();
    life.set(15, 11, true);
    assert!(life.get(15, 11));
    assert!(!life.get(16, 11));
    assert!(!life.get(15, 12));
}

#[test]
fn gliders_and_set_cells() {
    let mut life = Life::new();
    life.write_right_glider(0, 0);
    let right = [(1, 0), (2, 1), (0, 2), (1, 2), (2, 2)];
    for y in 0..3 {
        for x in 0..3 {
            assert_eq!(life.get(x, y), right.contains(&(x, y)), "({x}, {y})");
        }
    }

    let mut other = Life::default();
    other.write_left_glider(10, 5);
    let left = [(1, 0), (0, 1), (0, 2), (1, 2), (2, 2)];
    for y in 0..3 {
        for x in 0..3 {
            assert_eq!(other.get(10 + x, 5 + y), left.contains(&(x, y)), "({x}, {y})");
        }
    }

    let mut cells = Life::new();
    cells.set_cells(&[(3, 4), (5, 6)]);
    assert!(cells.get(3, 4) && cells.get(5, 6));
    assert!(!cells.get(4, 4));
}

#[test]
fn glider_moves() {
    let mut life = Life::new();
    life.write_right_glider(0, 0);
    for _ in 0..4 {
        life.step();
    }
    // After four generations the glider has moved one cell right and down.
    let right = [(1, 0), (2, 1), (0, 2), (1, 2), (2, 2)];
    for y in 0..5 {
        for x in 0..5 {
            let expected = x >= 1 && y >= 1 && right.contains(&(x - 1, y - 1));
            assert_eq!(life.get(x, y), expected, "({x}, {y})");
        }
    }
}
