//! Byte layout of an encoded stream: one fixed-size header, then one chunk
//! per frame. Every multi-byte field is little-endian.

use vstd::prelude::*;

verus! {

/// Size in bytes of the stream header.
pub const HEADER_SIZE: usize = 128;

/// Size in bytes of the header in front of every frame chunk.
pub const CHUNK_HEADER_SIZE: usize = 6;

/// The one stream version this library reads and writes.
pub const VERSION: u32 = 2;

/// Tag of a chunk that holds one compressed frame.
pub const CHUNK_COMPRESSED_FRAME: u16 = 1;

/// Compression tag: the frame's packed bytes, as they are.
pub const COMPRESSION_UNCOMPRESSED: u8 = 0;

/// Compression tag: alternating run lengths of unset and set cells.
pub const COMPRESSION_RUN_LENGTH: u8 = 1;

/// The magic tag, `BITVIDEO` followed by the UTF-8 encoding of an apple emoji.
pub open spec fn magic_bytes() -> Seq<u8> {
    seq![0x42u8, 0x49, 0x54, 0x56, 0x49, 0x44, 0x45, 0x4f, 0xf0, 0x9f, 0x8d, 0x8e]
}

/// Byte `k` (0 = least significant) of `v`.
pub open spec fn byte_at(v: int, k: int) -> u8 {
    if k == 0 {
        (v % 256) as u8
    } else if k == 1 {
        ((v / 256) % 256) as u8
    } else if k == 2 {
        ((v / 65536) % 256) as u8
    } else {
        ((v / 16777216) % 256) as u8
    }
}

/// Little-endian encoding of a 16-bit value.
pub open spec fn le16(v: int) -> Seq<u8> {
    seq![byte_at(v, 0), byte_at(v, 1)]
}

/// Little-endian encoding of a 32-bit value.
pub open spec fn le32(v: int) -> Seq<u8> {
    seq![byte_at(v, 0), byte_at(v, 1), byte_at(v, 2), byte_at(v, 3)]
}

/// Little-endian encodings of a sequence of 32-bit values, one after another.
pub open spec fn le32_all(s: Seq<u32>) -> Seq<u8> {
    Seq::new(4 * s.len(), |i: int| byte_at(s[i / 4] as int, i % 4))
}

/// The 16-bit little-endian value at `off`.
pub open spec fn read_le16(b: Seq<u8>, off: int) -> int {
    b[off] + 256 * b[off + 1]
}

/// The 32-bit little-endian value at `off`.
pub open spec fn read_le32(b: Seq<u8>, off: int) -> int {
    b[off] + 256 * b[off + 1] + 65536 * b[off + 2] + 16777216 * b[off + 3]
}

pub proof fn lemma_le16_read(v: int)
    requires
        0 <= v < 0x10000,
    ensures
        read_le16(le16(v), 0) == v,
{
}

pub proof fn lemma_le32_read(v: int)
    requires
        0 <= v < 0x1_0000_0000,
    ensures
        read_le32(le32(v), 0) == v,
{
}

pub(crate) fn read_u16_at(bytes: &[u8], off: usize) -> (r: u16)
    requires
        off + 2 <= bytes@.len(),
    ensures
        r == read_le16(bytes@, off as int),
{
    bytes[off] as u16 + 256 * (bytes[off + 1] as u16)
}

pub(crate) fn read_u32_at(bytes: &[u8], off: usize) -> (r: u32)
    requires
        off + 4 <= bytes@.len(),
    ensures
        r == read_le32(bytes@, off as int),
{
    bytes[off] as u32 + 256 * (bytes[off + 1] as u32) + 65536 * (bytes[off + 2] as u32)
        + 16777216 * (bytes[off + 3] as u32)
}

fn push_u16(out: &mut Vec<u8>, v: u16)
    ensures
        final(out)@ == old(out)@ + le16(v as int),
{
    out.push((v % 256) as u8);
    out.push((v / 256) as u8);
}

fn push_u32(out: &mut Vec<u8>, v: u32)
    ensures
        final(out)@ == old(out)@ + le32(v as int),
{
    out.push((v % 256) as u8);
    out.push(((v / 256) % 256) as u8);
    out.push(((v / 65536) % 256) as u8);
    out.push((v / 16777216) as u8);
}

/// The stream header: magic tag, version, frame count and frame dimensions,
/// followed by a reserved region that is written as zeros.
#[derive(Copy, Clone, Debug, PartialEq, Eq)]
pub struct CodecHeader {
    pub magic: [u8; 12],
    /// Version of the format the stream was written in.
    pub version: u32,
    /// Number of frames (and so of chunks) in the stream.
    pub n_frames: u32,
    pub width: u16,
    pub height: u16,
    /// Reserved; zero when written, ignored when read.
    pub reserved: [u32; 26],
}

impl CodecHeader {
    /// The header's 128 bytes as they stand in a stream.
    pub open spec fn spec_bytes(self) -> Seq<u8> {
        self.magic@ + le32(self.version as int) + le32(self.n_frames as int) + le16(
            self.width as int,
        ) + le16(self.height as int) + le32_all(self.reserved@)
    }

    /// Whether the header carries the magic tag and the supported version.
    pub open spec fn is_supported(self) -> bool {
        self.magic@ == magic_bytes() && self.version == VERSION
    }

    /// Whether the header starts with the magic tag.
    pub fn has_magic(&self) -> (r: bool)
        ensures
            r == (self.magic@ == magic_bytes()),
    {
        let expected: [u8; 12] = [0x42, 0x49, 0x54, 0x56, 0x49, 0x44, 0x45, 0x4f, 0xf0, 0x9f, 0x8d, 0x8e];
        assert(expected@ =~= magic_bytes());
        let mut i: usize = 0;
        while i < 12
            invariant
                i <= 12,
                expected@ == magic_bytes(),
                forall|j: int| 0 <= j < i ==> self.magic@[j] == expected@[j],
            decreases 12 - i,
        {
            if self.magic[i] != expected[i] {
                return false;
            }
            i += 1;
        }
        assert(self.magic@ =~= magic_bytes());
        true
    }

    /// The header that `bytes` starts with, field by field.
    pub open spec fn parsed_from(self, bytes: Seq<u8>) -> bool {
        &&& self.magic@ == bytes.subrange(0, 12)
        &&& self.version == read_le32(bytes, 12)
        &&& self.n_frames == read_le32(bytes, 16)
        &&& self.width == read_le16(bytes, 20)
        &&& self.height == read_le16(bytes, 22)
        &&& forall|i: int| 0 <= i < 26 ==> #[trigger] self.reserved@[i] == read_le32(bytes, 24 + 4 * i)
    }

    /// A header with the magic tag, the supported version and a zeroed
    /// reserved region. The count and dimensions keep their low 32 and 16 bits.
    pub fn new(n_frames: usize, width: u32, height: u32) -> (r: Self)
        ensures
            r.is_supported(),
            r.n_frames == n_frames as u32,
            r.width == width as u16,
            r.height == height as u16,
            forall|i: int| 0 <= i < 26 ==> #[trigger] r.reserved@[i] == 0,
    {
        let magic: [u8; 12] = [0x42, 0x49, 0x54, 0x56, 0x49, 0x44, 0x45, 0x4f, 0xf0, 0x9f, 0x8d, 0x8e];
        assert(magic@ =~= magic_bytes());
        let reserved: [u32; 26] = [0u32; 26];
        CodecHeader {
            magic,
            version: VERSION,
            n_frames: n_frames as u32,
            width: width as u16,
            height: height as u16,
            reserved,
        }
    }

    /// Reads a header from the first 128 bytes; `None` if there are fewer.
    /// Checks neither the magic tag nor the version.
    pub fn read(bytes: &[u8]) -> (r: Option<Self>)
        ensures
            r.is_some() == (bytes@.len() >= HEADER_SIZE),
            r.is_some() ==> r.unwrap().parsed_from(bytes@),
    {
        if bytes.len() < HEADER_SIZE {
            return None;
        }
        let magic: [u8; 12] = [
            bytes[0],
            bytes[1],
            bytes[2],
            bytes[3],
            bytes[4],
            bytes[5],
            bytes[6],
            bytes[7],
            bytes[8],
            bytes[9],
            bytes[10],
            bytes[11],
        ];
        assert(magic@ =~= bytes@.subrange(0, 12));
        let mut reserved: [u32; 26] = [0u32; 26];
        let mut i: usize = 0;
        while i < 26
            invariant
                i <= 26,
                bytes@.len() >= HEADER_SIZE,
                forall|j: int| 0 <= j < i ==> #[trigger] reserved@[j] == read_le32(bytes@, 24 + 4 * j),
            decreases 26 - i,
        {
            let v = read_u32_at(bytes, 24 + 4 * i);
            reserved[i] = v;
            i += 1;
        }
        Some(
            CodecHeader {
                magic,
                version: read_u32_at(bytes, 12),
                n_frames: read_u32_at(bytes, 16),
                width: read_u16_at(bytes, 20),
                height: read_u16_at(bytes, 22),
                reserved,
            },
        )
    }

    /// The header's 128 bytes as they stand in a stream.
    pub fn to_bytes(&self) -> (r: Vec<u8>)
        ensures
            r@ == self.spec_bytes(),
            r@.len() == HEADER_SIZE,
    {
        let mut out: Vec<u8> = Vec::new();
        let mut i: usize = 0;
        while i < 12
            invariant
                i <= 12,
                out@ == self.magic@.subrange(0, i as int),
            decreases 12 - i,
        {
            out.push(self.magic[i]);
            assert(out@ =~= self.magic@.subrange(0, i + 1));
            i += 1;
        }
        push_u32(&mut out, self.version);
        push_u32(&mut out, self.n_frames);
        push_u16(&mut out, self.width);
        push_u16(&mut out, self.height);
        let ghost prefix = out@;
        let mut j: usize = 0;
        while j < 26
            invariant
                j <= 26,
                out@ == prefix + le32_all(self.reserved@.subrange(0, j as int)),
            decreases 26 - j,
        {
            push_u32(&mut out, self.reserved[j]);
            assert(le32_all(self.reserved@.subrange(0, j + 1)) =~= le32_all(
                self.reserved@.subrange(0, j as int),
            ) + le32(self.reserved@[j as int] as int));
            j += 1;
        }
        assert(self.reserved@.subrange(0, 26) =~= self.reserved@);
        out
    }
}

/// How a frame's payload is compressed.
#[derive(Copy, Clone, Debug, PartialEq, Eq, Structural)]
pub struct FrameCompressionKind(pub u8);

impl FrameCompressionKind {
    /// The payload is the frame's packed bytes, as they are.
    pub fn uncompressed() -> (r: Self)
        ensures
            r.0 == COMPRESSION_UNCOMPRESSED,
    {
        FrameCompressionKind(COMPRESSION_UNCOMPRESSED)
    }

    /// The payload is a sequence of run lengths, one byte each, alternating
    /// between unset and set cells and starting with unset.
    pub fn run_length_encoding() -> (r: Self)
        ensures
            r.0 == COMPRESSION_RUN_LENGTH,
    {
        FrameCompressionKind(COMPRESSION_RUN_LENGTH)
    }
}

/// What a chunk holds.
#[derive(Copy, Clone, Debug, PartialEq, Eq, Structural)]
pub struct ChunkKind(pub u16);

impl ChunkKind {
    pub fn compressed_frame() -> (r: Self)
        ensures
            r.0 == CHUNK_COMPRESSED_FRAME,
    {
        ChunkKind(CHUNK_COMPRESSED_FRAME)
    }
}

/// The part of a chunk header that every kind of chunk shares.
#[derive(Copy, Clone, Debug, PartialEq, Eq, Structural)]
pub struct CodecChunkCommon {
    pub kind: ChunkKind,
    /// Number of bytes that follow the whole chunk header and belong to
    /// this chunk.
    pub size: u16,
}

/// Header of a chunk that holds one compressed frame.
#[derive(Copy, Clone, Debug, PartialEq, Eq, Structural)]
pub struct CodecChunkCompressedFrame {
    pub common: CodecChunkCommon,
    pub compression: FrameCompressionKind,
    /// Which color a player should take as background: 0 for unset, 1 for
    /// set; other values are reserved.
    pub background_set: u8,
}

impl CodecChunkCompressedFrame {
    /// The chunk header's 6 bytes as they stand in a stream.
    pub open spec fn spec_bytes(self) -> Seq<u8> {
        le16(self.common.kind.0 as int) + le16(self.common.size as int) + seq![
            self.compression.0,
            self.background_set,
        ]
    }

    /// The chunk header that `bytes` holds at `off`, field by field.
    pub open spec fn parsed_from(self, bytes: Seq<u8>, off: int) -> bool {
        &&& self.common.kind.0 == read_le16(bytes, off)
        &&& self.common.size == read_le16(bytes, off + 2)
        &&& self.compression.0 == bytes[off + 4]
        &&& self.background_set == bytes[off + 5]
    }

    /// A frame chunk header for a payload of `size` bytes, uncompressed,
    /// with an unset background.
    pub fn new(size: u16) -> (r: Self)
        ensures
            r.common.kind.0 == CHUNK_COMPRESSED_FRAME,
            r.common.size == size,
            r.compression.0 == COMPRESSION_UNCOMPRESSED,
            r.background_set == 0,
    {
        CodecChunkCompressedFrame {
            common: CodecChunkCommon { kind: ChunkKind::compressed_frame(), size },
            compression: FrameCompressionKind::uncompressed(),
            background_set: 0,
        }
    }

    /// Reads a chunk header from the first 6 bytes; `None` if there are fewer.
    pub fn read(bytes: &[u8]) -> (r: Option<Self>)
        ensures
            r.is_some() == (bytes@.len() >= CHUNK_HEADER_SIZE),
            r.is_some() ==> r.unwrap().parsed_from(bytes@, 0),
    {
        if bytes.len() < CHUNK_HEADER_SIZE {
            return None;
        }
        Some(
            CodecChunkCompressedFrame {
                common: CodecChunkCommon {
                    kind: ChunkKind(read_u16_at(bytes, 0)),
                    size: read_u16_at(bytes, 2),
                },
                compression: FrameCompressionKind(bytes[4]),
                background_set: bytes[5],
            },
        )
    }

    /// The chunk header's 6 bytes as they stand in a stream.
    pub fn to_bytes(&self) -> (r: Vec<u8>)
        ensures
            r@ == self.spec_bytes(),
    {
        let mut out: Vec<u8> = Vec::new();
        push_u16(&mut out, self.common.kind.0);
        push_u16(&mut out, self.common.size);
        out.push(self.compression.0);
        out.push(self.background_set);
        assert(out@ =~= self.spec_bytes());
        out
    }
}

/// A chunk header reads back as the header that was written.
pub proof fn lemma_chunk_header_read(c: CodecChunkCompressedFrame, rest: Seq<u8>)
    ensures
        (c.spec_bytes() + rest).len() >= CHUNK_HEADER_SIZE,
        c.parsed_from(c.spec_bytes() + rest, 0),
{
    lemma_le16_read(c.common.kind.0 as int);
    lemma_le16_read(c.common.size as int);
    let b = c.spec_bytes() + rest;
    assert(read_le16(b, 0) == read_le16(le16(c.common.kind.0 as int), 0));
    assert(read_le16(b, 2) == read_le16(le16(c.common.size as int), 0));
}

/// A stream header reads back as the header that was written.
pub proof fn lemma_header_read(h: CodecHeader, rest: Seq<u8>)
    ensures
        (h.spec_bytes() + rest).len() >= HEADER_SIZE,
        h.parsed_from(h.spec_bytes() + rest),
{
    let b = h.spec_bytes() + rest;
    lemma_le32_read(h.version as int);
    lemma_le32_read(h.n_frames as int);
    lemma_le16_read(h.width as int);
    lemma_le16_read(h.height as int);
    assert(b.subrange(0, 12) =~= h.magic@);
    assert(read_le32(b, 12) == read_le32(le32(h.version as int), 0));
    assert(read_le32(b, 16) == read_le32(le32(h.n_frames as int), 0));
    assert(read_le16(b, 20) == read_le16(le16(h.width as int), 0));
    assert(read_le16(b, 22) == read_le16(le16(h.height as int), 0));
    assert forall|i: int| 0 <= i < 26 implies #[trigger] h.reserved@[i] == read_le32(b, 24 + 4 * i) by {
        lemma_le32_read(h.reserved@[i] as int);
        assert(read_le32(b, 24 + 4 * i) == read_le32(le32(h.reserved@[i] as int), 0));
    }
}

} // verus!
