use bitvideo::frames::{frame_id_gaps, select_frames, threshold_luma};

#[test]
fn threshold_marks_bright_samples() {
    let luma = [0x00, 0x80, 0x81, 0xff, 0x10, 0x90, 0x7f, 0x80, 0xc0, 0x00];
    let grid = threshold_luma(5, 2, &luma);
    assert_eq!(grid.dims(), (5, 2));
    let expected = [false, false, true, true, false, true, false, false, true, false];
    for y in 0..2i16 {
        for x in 0..5i16 {
            assert_eq!(grid.get(x, y), expected[(y * 5 + x) as usize], "({x}, {y})");
        }
    }
    assert_eq!(grid.as_bytes(), &[0b0_1100, 0b0_1001]);
}

#[test]
fn frame_selection() {
    assert_eq!(select_frames(10, 0, 1, None), (0..10).collect::<Vec<_>>());
    assert_eq!(select_frames(10, 3, 1, None), (3..10).collect::<Vec<_>>());
    assert_eq!(select_frames(10, 1, 3, None), vec![1, 4, 7]);
    assert_eq!(select_frames(10, 1, 3, Some(2)), vec![1, 4]);
    assert_eq!(select_frames(10, 10, 2, None), Vec::<usize>::new());
    assert_eq!(select_frames(10, 0, 4, Some(0)), Vec::<usize>::new());
    assert_eq!(select_frames(9, 0, 4, Some(100)), vec![0, 4, 8]);
}

#[test]
fn frame_numbering_gaps() {
    assert_eq!(frame_id_gaps(&[]), Ok(vec![]));
    assert_eq!(frame_id_gaps(&[1, 2, 3, 4]), Ok(vec![]));
    assert_eq!(frame_id_gaps(&[1, 3, 6, 7, 8]), Ok(vec![2, 4]));
    assert_eq!(frame_id_gaps(&[0, 2, 5]), Ok(vec![1]));
    assert_eq!(frame_id_gaps(&[1, 2, 2, 3, 3]), Err(2));
}
