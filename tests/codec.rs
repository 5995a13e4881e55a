use bitvideo::codec::{
    CodecChunkCompressedFrame, CodecHeader, FrameCompressionKind, CHUNK_HEADER_SIZE, HEADER_SIZE,
    VERSION,
};

#[test]
fn header_bytes_and_read_back() {
    let header = CodecHeader::new(3, 300, 0x1_0005);
    assert_eq!(header.version, VERSION);
    assert_eq!(header.width, 300);
    // Dimensions keep their low 16 bits.
    assert_eq!(header.height, 5);
    let bytes = header.to_bytes();
    assert_eq!(bytes.len(), HEADER_SIZE);
    assert_eq!(&bytes[..12], "BITVIDEO\u{1F34E}".as_bytes());
    assert_eq!(&bytes[12..24], &[2, 0, 0, 0, 3, 0, 0, 0, 0x2c, 0x01, 5, 0]);
    assert!(bytes[24..].iter().all(|&b| b == 0));
    assert_eq!(CodecHeader::read(&bytes), Some(header));
    assert_eq!(CodecHeader::read(&bytes[..HEADER_SIZE - 1]), None);
}

#[test]
fn header_read_keeps_reserved_words() {
    let mut bytes = CodecHeader::new(0, 0, 0).to_bytes();
    bytes[24] = 0x78;
    bytes[27] = 0x12;
    bytes[127] = 0xff;
    bytes.push(9);
    let header = CodecHeader::read(&bytes).expect("header");
    assert_eq!(header.reserved[0], 0x1200_0078);
    assert_eq!(header.reserved[25], 0xff00_0000);
    assert_eq!(header.to_bytes(), bytes[..HEADER_SIZE].to_vec());
}

#[test]
fn chunk_header_bytes_and_read_back() {
    let mut chunk = CodecChunkCompressedFrame::new(0x0102);
    assert_eq!(chunk.compression, FrameCompressionKind::uncompressed());
    chunk.compression = FrameCompressionKind::run_length_encoding();
    chunk.background_set = 1;
    let bytes = chunk.to_bytes();
    assert_eq!(bytes, vec![1, 0, 0x02, 0x01, 1, 1]);
    assert_eq!(CodecChunkCompressedFrame::read(&bytes), Some(chunk));
    assert_eq!(CodecChunkCompressedFrame::read(&bytes[..CHUNK_HEADER_SIZE - 1]), None);
}
