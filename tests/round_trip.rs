use bitvideo::decoder::Frame;
use bitvideo::encoder::EncodeError;
use bitvideo::{encode, BitGrid, VideoDecoder, VideoEncoder};

/// A left-facing glider with its top left corner at the origin.
fn left_glider(width: usize, height: usize) -> BitGrid {
    let mut grid = BitGrid::new(width, height);
    for (x, y) in [(1, 0), (0, 1), (0, 2), (1, 2), (2, 2)] {
        grid.set(x, y, true);
    }
    grid
}

/// A right-facing glider with its top left corner at the origin.
fn right_glider(width: usize, height: usize) -> BitGrid {
    let mut grid = BitGrid::new(width, height);
    for (x, y) in [(1, 0), (2, 1), (0, 2), (1, 2), (2, 2)] {
        grid.set(x, y, true);
    }
    grid
}

#[test]
fn check_zero_frames() {
    // ## Encode
    let mut encoder = VideoEncoder::new();
    let bytes = encoder.encode_to_vec().expect("Failed to encode");

    // ## Decode
    let mut decoder = VideoDecoder::new(&bytes);

    let header = decoder.header();
    assert_eq!(header.n_frames, 0);
    assert_eq!(header.width, 0);
    assert_eq!(header.height, 0);

    // Reserved are always set to 0
    assert_eq!(header.reserved, vec![0_u32; header.reserved.len()].as_slice());

    // Decoding zero frames should result in no frames
    assert_eq!(decoder.next_frame(), None);
    assert_eq!(decoder.next_frame(), None);
    assert_eq!(decoder.next_frame(), None);
    assert_eq!(decoder.next_frame(), None);
}

#[test]
fn check_one_frame() {
    // ## Encode
    let mut encoder = VideoEncoder::new();

    // Encode a lone glider
    let left = left_glider(9, 4);
    encoder.push(left.clone());

    let bytes = encoder.encode_to_vec().expect("Failed to encode");

    // ## Decode
    let mut decoder = VideoDecoder::new(&bytes);

    let header = decoder.header();
    assert_eq!(header.n_frames, 1);
    assert_eq!(header.width, 9);
    assert_eq!(header.height, 4);

    // Reserved are always set to 0
    assert_eq!(header.reserved, vec![0_u32; header.reserved.len()].as_slice());

    let frame = decoder.next_frame();
    assert_eq!(frame, Some(Frame { id: 1, bitmap: &left, background_set: false }));

    // No more frames
    assert_eq!(decoder.next_frame(), None);
    assert_eq!(decoder.next_frame(), None);
    assert_eq!(decoder.next_frame(), None);
    assert_eq!(decoder.next_frame(), None);
}

#[test]
fn check_two_frames() {
    // ## Encode
    let mut encoder = VideoEncoder::new();

    let left = left_glider(20, 10);
    let right = right_glider(20, 10);

    encoder.push(left.clone());
    encoder.push(right.clone());

    let bytes = encoder.encode_to_vec().expect("Failed to encode");

    // ## Decode
    let mut decoder = VideoDecoder::new(&bytes);

    let header = decoder.header();
    assert_eq!(header.n_frames, 2);
    assert_eq!(header.width, 20);
    assert_eq!(header.height, 10);

    // Reserved are always set to 0
    assert_eq!(header.reserved, vec![0_u32; header.reserved.len()].as_slice());

    let frame = decoder.next_frame();
    assert_eq!(frame, Some(Frame { id: 1, bitmap: &left, background_set: false }));

    let frame = decoder.next_frame();
    assert_eq!(frame, Some(Frame { id: 2, bitmap: &right, background_set: false }));

    // No more frames
    assert_eq!(decoder.next_frame(), None);
    assert_eq!(decoder.next_frame(), None);
    assert_eq!(decoder.next_frame(), None);
    assert_eq!(decoder.next_frame(), None);
}

#[test]
fn check_two_frames_with_reset() {
    // ## Encode
    let mut encoder = VideoEncoder::new();

    let left = left_glider(20, 10);
    let right = right_glider(20, 10);

    encoder.push(left.clone());
    encoder.push(right.clone());

    let bytes = encoder.encode_to_vec().expect("Failed to encode");

    // ## Decode
    let mut decoder = VideoDecoder::new(&bytes);

    for i in 0..2 {
        println!("i={i}");

        let header = decoder.header();
        assert_eq!(header.n_frames, 2);
        assert_eq!(header.width, 20);
        assert_eq!(header.height, 10);

        // Reserved are always set to 0
        assert_eq!(header.reserved, vec![0_u32; header.reserved.len()].as_slice());

        let frame = decoder.next_frame();
        assert_eq!(frame, Some(Frame { id: 1, bitmap: &left, background_set: false }));

        let frame = decoder.next_frame();
        assert_eq!(frame, Some(Frame { id: 2, bitmap: &right, background_set: false }));

        // No more frames
        assert_eq!(decoder.next_frame(), None);
        assert_eq!(decoder.next_frame(), None);
        assert_eq!(decoder.next_frame(), None);
        assert_eq!(decoder.next_frame(), None);

        decoder.reset();
    }
}

#[test]
fn check_one_frame_runlength_1() {
    // ## Encode
    let mut encoder = VideoEncoder::new();

    // Encode something simple
    let mut bitmap = BitGrid::new(2, 2);
    // Should look like:
    //    ..
    //    .#
    bitmap.set(1, 1, true);

    encoder.push(bitmap.clone());

    let bytes = encoder.encode_to_vec().expect("Failed to encode");

    // ## Decode
    let mut decoder = VideoDecoder::new(&bytes);

    let frame = decoder.next_frame();
    if let Some(frame) = &frame {
        assert_eq!(frame.bitmap.as_bytes(), bitmap.as_bytes());
    }

    assert_eq!(frame, Some(Frame { id: 1, bitmap: &bitmap, background_set: false }));

    // No more frames
    assert_eq!(decoder.next_frame(), None);
    assert_eq!(decoder.next_frame(), None);
    assert_eq!(decoder.next_frame(), None);
    assert_eq!(decoder.next_frame(), None);
}

#[test]
fn empty_stream_bytes() {
    let bytes = VideoEncoder::new().encode_to_vec().expect("Failed to encode");
    assert_eq!(bytes.len(), 128);
    assert_eq!(&bytes[..12], b"BITVIDEO\xF0\x9F\x8D\x8E");
    assert_eq!(&bytes[12..16], &[2, 0, 0, 0]);
    assert!(bytes[16..].iter().all(|&b| b == 0));
    let mut decoder = VideoDecoder::new(&bytes);
    assert!(decoder.is_finished());
    assert_eq!(decoder.next_frame(), None);
    assert!(decoder.is_finished());
}

#[test]
fn mostly_blank_frame_is_run_length_encoded() {
    let mut grid = BitGrid::new(64, 64);
    grid.set(10, 10, true);
    let bytes = encode(vec![grid.clone()]).expect("Failed to encode");
    // Chunk header right after the stream header: kind 1, then the size.
    assert_eq!(&bytes[128..130], &[1, 0]);
    assert_eq!(bytes[132], 1, "run-length compression expected");
    // 10 * 64 + 10 unset cells = 650 = 255 + 255 + 140, split into runs.
    let payload = &bytes[134..];
    assert_eq!(
        payload,
        &[255, 0, 255, 0, 140, 1, 255, 0, 255, 0, 255, 0, 255, 0, 255, 0, 255, 0, 255, 0, 255, 0, 255, 0, 255, 0, 255, 0, 255, 0, 255, 0, 130][..]
    );
    assert_eq!(&bytes[130..132], &[payload.len() as u8, 0]);
    assert!(bytes.len() < 128 + 6 + 64 * 64 / 8);

    let mut decoder = VideoDecoder::new(&bytes);
    assert_eq!(decoder.next_frame(), Some(Frame { id: 1, bitmap: &grid, background_set: false }));
}

#[test]
fn tie_prefers_uncompressed() {
    // One byte either way: the raw byte, or a single run of eight unset cells.
    let grid = BitGrid::new(8, 1);
    let bytes = encode(vec![grid.clone()]).expect("Failed to encode");
    assert_eq!(&bytes[128..], &[1, 0, 1, 0, 0, 0, 0]);

    // A busy row is smaller uncompressed.
    let mut busy = BitGrid::new(8, 1);
    for x in [0, 2, 4, 6] {
        busy.set(x, 0, true);
    }
    let bytes = encode(vec![busy.clone()]).expect("Failed to encode");
    assert_eq!(&bytes[128..], &[1, 0, 1, 0, 0, 0, 0b0101_0101]);
    let mut decoder = VideoDecoder::new(&bytes);
    assert_eq!(decoder.next_frame(), Some(Frame { id: 1, bitmap: &busy, background_set: false }));
}

#[test]
fn first_cell_set_starts_with_empty_run() {
    let mut grid = BitGrid::new(40, 1);
    for x in 0..40 {
        grid.set(x, 0, true);
    }
    let bytes = encode(vec![grid.clone()]).expect("Failed to encode");
    assert_eq!(&bytes[128..], &[1, 0, 2, 0, 1, 0, 0, 40]);
    let mut decoder = VideoDecoder::new(&bytes);
    assert_eq!(decoder.next_frame(), Some(Frame { id: 1, bitmap: &grid, background_set: false }));
}

#[test]
fn runs_of_255_and_256_round_trip() {
    for width in [255usize, 256, 600] {
        let mut grid = BitGrid::new(width, 1);
        for x in 0..width as i16 {
            grid.set(x, 0, true);
        }
        let bytes = encode(vec![grid.clone()]).expect("Failed to encode");
        let mut decoder = VideoDecoder::new(&bytes);
        assert_eq!(
            decoder.next_frame(),
            Some(Frame { id: 1, bitmap: &grid, background_set: false }),
            "width {width}"
        );
        assert_eq!(decoder.next_frame(), None);
    }
    let mut grid = BitGrid::new(256, 1);
    for x in 0..256 {
        grid.set(x, 0, true);
    }
    let bytes = encode(vec![grid]).expect("Failed to encode");
    assert_eq!(&bytes[134..], &[0, 255, 0, 1]);
}

#[test]
fn many_frames_replay_identically() {
    let mut frames = Vec::new();
    for i in 0..5i16 {
        let mut grid = BitGrid::new(13, 7);
        for k in 0..=i {
            grid.set(k * 2, k, true);
            grid.set(12 - k, 6 - k, true);
        }
        frames.push(grid);
    }
    let bytes = encode(frames.clone()).expect("Failed to encode");
    let mut decoder = VideoDecoder::new(&bytes);
    for _round in 0..3 {
        for (i, expected) in frames.iter().enumerate() {
            let frame = decoder.next_frame().expect("frame");
            assert_eq!(frame.id, i + 1);
            assert_eq!(frame.bitmap, expected);
            assert!(!frame.background_set);
        }
        assert_eq!(decoder.next_frame(), None);
        assert!(decoder.is_finished());
        assert_eq!(decoder.next_frame(), None);
        decoder.reset();
        assert!(!decoder.is_finished());
    }
}

#[test]
fn encoder_counts_and_empties_queue() {
    let mut encoder = VideoEncoder::new();
    assert_eq!(encoder.frame_count(), 0);
    encoder.push(BitGrid::new(3, 3));
    encoder.push(BitGrid::new(3, 3));
    assert_eq!(encoder.frame_count(), 2);
    let bytes = encoder.encode_to_vec().expect("Failed to encode");
    assert_eq!(encoder.frame_count(), 0);
    // Each blank 3 x 3 frame is one run of nine cells: one payload byte
    // against three raw bytes.
    assert_eq!(bytes.len(), 128 + 2 * (6 + 1));
}

#[test]
fn oversized_frame_is_refused() {
    let mut grid = BitGrid::new(2048, 300);
    grid.as_mut_bytes().fill(0b0101_0101);
    let mut encoder = VideoEncoder::new();
    encoder.push(BitGrid::new(8, 8));
    encoder.push(grid);
    assert_eq!(encoder.encode_to_vec(), Err(EncodeError::FrameTooLarge { index: 1 }));
    assert_eq!(encoder.frame_count(), 2);
}

#[test]
fn truncated_stream_ends_early() {
    let bytes = encode(vec![left_glider(9, 4), right_glider(9, 4)]).expect("Failed to encode");
    let cut = &bytes[..bytes.len() - 1];
    let mut decoder = VideoDecoder::new(cut);
    assert!(decoder.next_frame().is_some());
    assert_eq!(decoder.next_frame(), None);
    assert!(decoder.is_finished());
    assert_eq!(decoder.next_frame(), None);
}

#[test]
fn try_new_checks_the_stream() {
    let bytes = encode(vec![left_glider(9, 4)]).expect("Failed to encode");
    assert!(VideoDecoder::try_new(&bytes).is_some());
    assert!(VideoDecoder::try_new(&bytes[..127]).is_none());

    let mut wrong_version = bytes.clone();
    wrong_version[12] = 3;
    assert!(VideoDecoder::try_new(&wrong_version).is_none());

    let mut unknown_compression = bytes.clone();
    unknown_compression[132] = 7;
    assert!(VideoDecoder::try_new(&unknown_compression).is_none());

    // A raw chunk whose size does not match the grid.
    let mut raw = encode(vec![BitGrid::new(8, 1)]).expect("Failed to encode");
    assert_eq!(raw[132], 0);
    raw[130] = 2;
    raw.push(0);
    assert!(VideoDecoder::try_new(&raw).is_none());
}

#[test]
fn diagonal_frame_round_trips() {
    let mut grid = BitGrid::new(9, 4);
    for i in 0..4 {
        grid.set(i, i, true);
    }
    let bytes = encode(vec![grid.clone()]).expect("Failed to encode");
    let mut decoder = VideoDecoder::new(&bytes);
    let header = decoder.header();
    assert_eq!((header.n_frames, header.width, header.height), (1, 9, 4));
    assert_eq!(decoder.next_frame(), Some(Frame { id: 1, bitmap: &grid, background_set: false }));
    assert_eq!(decoder.next_frame(), None);
}
