//! What holds of a stream that the encoder wrote and the decoder plays back.

use vstd::prelude::*;

use crate::bitgrid::{bit_of, stride_of, GridView};
use crate::codec::{
    le16, le32, lemma_le16_read, lemma_le32_read, magic_bytes, read_le16, read_le32,
    COMPRESSION_RUN_LENGTH, COMPRESSION_UNCOMPRESSED, HEADER_SIZE, VERSION,
};
use crate::decoder::{
    chunk_compression, chunk_end, chunk_payload, chunk_size, chunks_supported, decodable,
    has_chunk, rle_at, shows_chunk, stream_height, stream_width,
};
use crate::encoder::{
    chunk_bytes, frame_chunk, frame_chunks, frame_fits, header_bytes, run_length_chunk,
    stream_bytes, uncompressed_chunk, MAX_PAYLOAD,
};
use crate::runlength::{lemma_rle_round_trip, rle_encode};

verus! {

/// Offset at which the chunk of frame `k` starts in the stream of `frames`.
pub open spec fn chunk_offset(frames: Seq<GridView>, k: int) -> int {
    HEADER_SIZE + frame_chunks(frames.take(k)).len()
}

/// All frames are well formed, `width` x `height`, and small enough to be
/// written.
pub open spec fn uniform_frames(frames: Seq<GridView>, width: int, height: int) -> bool {
    forall|i: int|
        0 <= i < frames.len() ==> {
            &&& (#[trigger] frames[i]).wf()
            &&& frames[i].width == width
            &&& frames[i].height == height
            &&& frame_fits(frames[i])
        }
}

/// The chunks of the first `k` frames begin the chunks of all of them, and
/// the chunk of frame `k` comes next.
proof fn lemma_chunks_prefix(frames: Seq<GridView>, k: int)
    requires
        0 <= k < frames.len(),
    ensures
        frame_chunks(frames.take(k + 1)) == frame_chunks(frames.take(k)) + frame_chunk(frames[k]),
        frame_chunks(frames).len() >= frame_chunks(frames.take(k + 1)).len(),
        frame_chunks(frames).subrange(0, frame_chunks(frames.take(k + 1)).len() as int)
            == frame_chunks(frames.take(k + 1)),
    decreases frames.len(),
{
    assert(frames.take(k + 1).drop_last() =~= frames.take(k));
    if k + 1 == frames.len() {
        assert(frames.take(k + 1) =~= frames);
        assert(frame_chunks(frames).subrange(0, frame_chunks(frames).len() as int) =~= frame_chunks(
            frames,
        ));
    } else {
        let p = frames.drop_last();
        lemma_chunks_prefix(p, k);
        assert(p.take(k + 1) =~= frames.take(k + 1));
        assert(p.take(k) =~= frames.take(k));
        let whole = frame_chunks(frames);
        let n = frame_chunks(frames.take(k + 1)).len() as int;
        assert(whole == frame_chunks(p) + frame_chunk(frames.last()));
        assert(whole.subrange(0, n) =~= frame_chunks(p).subrange(0, n));
    }
}

/// The chunk of frame `k` stands whole at its offset, declares its payload
/// correctly, and ends where the next one starts.
proof fn lemma_chunk_in_stream(frames: Seq<GridView>, width: int, height: int, k: int)
    requires
        uniform_frames(frames, width, height),
        0 <= k < frames.len(),
    ensures
        ({
            let b = stream_bytes(frames, Some((width, height)));
            let off = chunk_offset(frames, k);
            let g = frames[k];
            &&& has_chunk(b, off)
            &&& chunk_end(b, off) == chunk_offset(frames, k + 1)
            &&& chunk_offset(frames, k + 1) <= b.len()
            &&& b.subrange(off, chunk_end(b, off)) == frame_chunk(g)
            &&& chunk_compression(b, off) == COMPRESSION_UNCOMPRESSED ==> chunk_payload(b, off)
                == g.bytes
            &&& chunk_compression(b, off) != COMPRESSION_UNCOMPRESSED ==> {
                &&& chunk_compression(b, off) == COMPRESSION_RUN_LENGTH
                &&& chunk_payload(b, off) == rle_encode(g.cells())
            }
            &&& chunk_compression(b, off) == COMPRESSION_UNCOMPRESSED ==> chunk_size(b, off)
                == stride_of(width) * height
        }),
{
    let b = stream_bytes(frames, Some((width, height)));
    let off = chunk_offset(frames, k);
    let g = frames[k];
    let head = header_bytes(frames.len() as u32 as int, width as u16 as int, height as u16 as int);
    lemma_chunks_prefix(frames, k);
    let c = frame_chunk(g);
    let all = frame_chunks(frames);
    let before = frame_chunks(frames.take(k));
    assert(head.len() == HEADER_SIZE);
    assert(b == head + all);
    assert(all.subrange(before.len() as int, (before.len() + c.len()) as int) =~= c) by {
        assert(all.subrange(0, (before + c).len() as int) == before + c);
        assert forall|i: int| 0 <= i < c.len() implies all.subrange(
            before.len() as int,
            (before.len() + c.len()) as int,
        )[i] == c[i] by {
            assert(all[before.len() + i] == all.subrange(0, (before + c).len() as int)[before.len()
                + i]);
        }
    }
    assert(b.subrange(off, off + c.len()) =~= c);
    let payload = if uncompressed_chunk(g).len() <= run_length_chunk(g).len() {
        g.bytes
    } else {
        rle_encode(g.cells())
    };
    let comp = if uncompressed_chunk(g).len() <= run_length_chunk(g).len() {
        COMPRESSION_UNCOMPRESSED
    } else {
        COMPRESSION_RUN_LENGTH
    };
    assert(c == chunk_bytes(comp, payload));
    assert(payload.len() <= MAX_PAYLOAD);
    lemma_le16_read(payload.len() as int);
    assert(b[off + 2] == c[2]);
    assert(b[off + 3] == c[3]);
    assert(read_le16(b, off + 2) == read_le16(le16(payload.len() as u16 as int), 0));
    assert(chunk_size(b, off) == payload.len());
    assert(b[off + 4] == c[4]);
    assert(chunk_payload(b, off) =~= payload) by {
        assert forall|i: int| 0 <= i < payload.len() implies chunk_payload(b, off)[i] == payload[i] by {
            assert(b[off + 6 + i] == c[6 + i]);
        }
    }
}

/// The header of the stream of `frames` declares the supported version,
/// the frame count and the dimensions.
proof fn lemma_stream_header(frames: Seq<GridView>, dims: Option<(int, int)>)
    ensures
        ({
            let b = stream_bytes(frames, dims);
            let (w, h) = match dims {
                Some(d) => d,
                None => (0, 0),
            };
            &&& b.len() >= HEADER_SIZE
            &&& b.subrange(0, 12) == magic_bytes()
            &&& read_le32(b, 12) == VERSION
            &&& read_le32(b, 16) == if dims.is_some() { frames.len() as u32 as int } else { 0 }
            &&& stream_width(b) == w as u16 as int
            &&& stream_height(b) == h as u16 as int
            &&& forall|i: int| 0 <= i < 26 ==> #[trigger] read_le32(b, 24 + 4 * i) == 0
        }),
{
    let b = stream_bytes(frames, dims);
    let (w, h) = match dims {
        Some(d) => d,
        None => (0, 0),
    };
    let n = if dims.is_some() { frames.len() as u32 as int } else { 0 };
    let head = header_bytes(n, w as u16 as int, h as u16 as int);
    assert(b.subrange(0, 12) =~= magic_bytes());
    lemma_le32_read(VERSION as int);
    lemma_le32_read(n);
    lemma_le16_read(w as u16 as int);
    lemma_le16_read(h as u16 as int);
    assert(read_le32(b, 12) == read_le32(le32(VERSION as int), 0));
    assert(read_le32(b, 16) == read_le32(le32(n), 0));
    assert(read_le16(b, 20) == read_le16(le16(w as u16 as int), 0));
    assert(read_le16(b, 22) == read_le16(le16(h as u16 as int), 0));
    assert forall|i: int| 0 <= i < 26 implies #[trigger] read_le32(b, 24 + 4 * i) == 0 by {
        assert(b[24 + 4 * i] == head[24 + 4 * i]);
        assert(b[25 + 4 * i] == head[25 + 4 * i]);
        assert(b[26 + 4 * i] == head[26 + 4 * i]);
        assert(b[27 + 4 * i] == head[27 + 4 * i]);
    }
}

/// Every chunk from that of frame `k` on can be decoded.
proof fn lemma_chunks_supported_from(frames: Seq<GridView>, width: int, height: int, k: int)
    requires
        uniform_frames(frames, width, height),
        0 <= k <= frames.len(),
    ensures
        chunks_supported(
            stream_bytes(frames, Some((width, height))),
            chunk_offset(frames, k),
            width,
            height,
        ),
    decreases frames.len() - k,
{
    let b = stream_bytes(frames, Some((width, height)));
    if k == frames.len() {
        assert(frames.take(k) =~= frames);
        assert(!has_chunk(b, chunk_offset(frames, k)));
    } else {
        lemma_chunk_in_stream(frames, width, height, k);
        lemma_chunks_supported_from(frames, width, height, k + 1);
    }
}

/// A frame decoded from the chunk of frame `k` has the cells of frame `k`.
proof fn lemma_chunk_decodes_to_frame(
    frames: Seq<GridView>,
    width: int,
    height: int,
    k: int,
    g: GridView,
)
    requires
        uniform_frames(frames, width, height),
        0 <= k < frames.len(),
        0 <= width <= i16::MAX,
        0 <= height <= i16::MAX,
        shows_chunk(g, stream_bytes(frames, Some((width, height))), chunk_offset(frames, k)),
    ensures
        g.cells() == frames[k].cells(),
{
    let b = stream_bytes(frames, Some((width, height)));
    let off = chunk_offset(frames, k);
    let f = frames[k];
    lemma_chunk_in_stream(frames, width, height, k);
    lemma_stream_header(frames, Some((width, height)));
    if chunk_compression(b, off) == COMPRESSION_UNCOMPRESSED {
        assert(g == f);
    } else {
        lemma_rle_round_trip(f.cells());
        assert forall|q: int| 0 <= q < g.cells().len() implies g.cells()[q] == f.cells()[q] by {
            assert(rle_at(chunk_payload(b, off), q) == f.cells()[q]);
        }
        assert(g.cells() =~= f.cells());
    }
}

/// Round trip: the stream written for equally sized frames can be played;
/// its chunks follow one another from the end of the header to the end of
/// the stream, one per frame, and the chunk of frame `k` decodes to a grid
/// with exactly the cells of frame `k`.
pub proof fn lemma_round_trip(frames: Seq<GridView>, width: int, height: int)
    requires
        uniform_frames(frames, width, height),
        0 <= width <= i16::MAX,
        0 <= height <= i16::MAX,
    ensures
        ({
            let b = stream_bytes(frames, Some((width, height)));
            &&& decodable(b)
            &&& stream_width(b) == width
            &&& stream_height(b) == height
            &&& read_le32(b, 16) == frames.len() as u32
            &&& chunk_offset(frames, 0) == HEADER_SIZE
            &&& chunk_offset(frames, frames.len() as int) == b.len()
            &&& forall|k: int|
                0 <= k < frames.len() ==> {
                    &&& #[trigger] has_chunk(b, chunk_offset(frames, k))
                    &&& chunk_end(b, chunk_offset(frames, k)) == chunk_offset(frames, k + 1)
                }
            &&& forall|k: int, g: GridView|
                0 <= k < frames.len() && #[trigger] shows_chunk(g, b, chunk_offset(frames, k))
                    ==> g.cells() == frames[k].cells()
        }),
{
    let b = stream_bytes(frames, Some((width, height)));
    lemma_stream_header(frames, Some((width, height)));
    assert(frames.take(0) =~= Seq::<GridView>::empty());
    assert(frames.take(frames.len() as int) =~= frames);
    lemma_chunks_supported_from(frames, width, height, 0);
    assert forall|k: int| 0 <= k < frames.len() implies {
        &&& #[trigger] has_chunk(b, chunk_offset(frames, k))
        &&& chunk_end(b, chunk_offset(frames, k)) == chunk_offset(frames, k + 1)
    } by {
        lemma_chunk_in_stream(frames, width, height, k);
    }
    assert forall|k: int, g: GridView|
        0 <= k < frames.len() && #[trigger] shows_chunk(g, b, chunk_offset(frames, k)) implies g.cells()
        == frames[k].cells() by {
        lemma_chunk_decodes_to_frame(frames, width, height, k, g);
    }
}

/// Empty stream: with no frames the stream is a bare header of the supported
/// version with frame count, width and height zero and a zeroed reserved
/// region; it can be played and holds no chunk.
pub proof fn lemma_empty_stream()
    ensures
        ({
            let b = stream_bytes(Seq::<GridView>::empty(), None);
            &&& b.len() == HEADER_SIZE
            &&& decodable(b)
            &&& read_le32(b, 16) == 0
            &&& stream_width(b) == 0
            &&& stream_height(b) == 0
            &&& forall|i: int| 0 <= i < 26 ==> #[trigger] read_le32(b, 24 + 4 * i) == 0
            &&& !has_chunk(b, HEADER_SIZE as int)
        }),
{
    let b = stream_bytes(Seq::<GridView>::empty(), None);
    lemma_stream_header(Seq::<GridView>::empty(), None);
    assert(frame_chunks(Seq::<GridView>::empty()) == Seq::<u8>::empty());
    assert(!has_chunk(b, HEADER_SIZE as int));
}

/// Exhaustion: no chunk stands at the end of a stream. `next_frame` leaves
/// the cursor there when it returns `None`, so every later call returns
/// `None` as well, until a reset.
pub proof fn lemma_exhausted(b: Seq<u8>)
    ensures
        !has_chunk(b, b.len() as int),
{
}

/// Two bytes with the same eight bits are the same byte.
proof fn lemma_byte_from_bits(a: u8, c: u8)
    requires
        forall|k: int| 0 <= k < 8 ==> #[trigger] bit_of(a, k) == bit_of(c, k),
    ensures
        a == c,
{
    assert(bit_of(a, 0) == bit_of(c, 0));
    assert(bit_of(a, 1) == bit_of(c, 1));
    assert(bit_of(a, 2) == bit_of(c, 2));
    assert(bit_of(a, 3) == bit_of(c, 3));
    assert(bit_of(a, 4) == bit_of(c, 4));
    assert(bit_of(a, 5) == bit_of(c, 5));
    assert(bit_of(a, 6) == bit_of(c, 6));
    assert(bit_of(a, 7) == bit_of(c, 7));
    assert(a == c) by (bit_vector)
        requires
            (a & (1u8 << 0u8) != 0) == (c & (1u8 << 0u8) != 0),
            (a & (1u8 << 1u8) != 0) == (c & (1u8 << 1u8) != 0),
            (a & (1u8 << 2u8) != 0) == (c & (1u8 << 2u8) != 0),
            (a & (1u8 << 3u8) != 0) == (c & (1u8 << 3u8) != 0),
            (a & (1u8 << 4u8) != 0) == (c & (1u8 << 4u8) != 0),
            (a & (1u8 << 5u8) != 0) == (c & (1u8 << 5u8) != 0),
            (a & (1u8 << 6u8) != 0) == (c & (1u8 << 6u8) != 0),
            (a & (1u8 << 7u8) != 0) == (c & (1u8 << 7u8) != 0),
    ;
}

/// Two well-formed grids of the same size, with the same cells and no
/// padding bit set, are the same grid.
proof fn lemma_same_cells_same_grid(g1: GridView, g2: GridView)
    requires
        g1.wf(),
        g2.wf(),
        g1.width == g2.width,
        g1.height == g2.height,
        g1.padding_clear(),
        g2.padding_clear(),
        g1.cells() == g2.cells(),
    ensures
        g1 == g2,
{
    let s = g1.stride();
    let w = g1.width;
    assert forall|i: int| 0 <= i < g1.bytes.len() implies g1.bytes[i] == g2.bytes[i] by {
        assert(s > 0) by (nonlinear_arith)
            requires g1.bytes.len() == s * g1.height, 0 <= i < g1.bytes.len(), 0 <= g1.height, 0 <= s;
        assert forall|k: int| 0 <= k < 8 implies #[trigger] bit_of(g1.bytes[i], k) == bit_of(
            g2.bytes[i],
            k,
        ) by {
            let x = (i % s) * 8 + k;
            if x < w {
                let y = i / s;
                vstd::arithmetic::div_mod::lemma_fundamental_div_mod(i, s);
                vstd::arithmetic::div_mod::lemma_div_pos_is_pos(i, s);
                assert(s * y == y * s) by (nonlinear_arith);
                if y >= g1.height {
                    assert(y * s >= g1.height * s) by (nonlinear_arith)
                        requires y >= g1.height, s > 0;
                    assert(false);
                }
                assert(x / 8 == i % s);
                assert(x % 8 == k);
                assert(g1.byte_index(x, y) == i);
                crate::bitgrid::lemma_cell_position(g1, x, y);
                crate::bitgrid::lemma_cell_position(g2, x, y);
                assert(g1.cell(x, y) == g2.cell(x, y));
            }
        }
        lemma_byte_from_bits(g1.bytes[i], g2.bytes[i]);
    }
    assert(g1.bytes =~= g2.bytes);
}

/// Replay: a chunk decodes to one grid only. `reset` puts a decoder back in
/// the state `new` left it in, and from one state `next_frame` hands out
/// the same id and the same grid, so playing a stream again after a reset
/// gives the same frames, as many times as it is done.
pub proof fn lemma_decoded_frame_unique(b: Seq<u8>, off: int, g1: GridView, g2: GridView)
    requires
        shows_chunk(g1, b, off),
        shows_chunk(g2, b, off),
    ensures
        g1 == g2,
{
    if chunk_compression(b, off) != COMPRESSION_UNCOMPRESSED {
        assert(g1.cells() =~= g2.cells()) by {
            assert forall|q: int| 0 <= q < g1.cells().len() implies g1.cells()[q] == g2.cells()[q] by {
                assert(g1.cells()[q] == rle_at(chunk_payload(b, off), q));
                assert(g2.cells()[q] == rle_at(chunk_payload(b, off), q));
            }
        }
        lemma_same_cells_same_grid(g1, g2);
    }
}

/// Compression choice: the chunk written for a frame is never longer than
/// either encoding of it, and it is the uncompressed one whenever that is
/// not longer than the run-length one.
pub proof fn lemma_compression_choice(g: GridView)
    ensures
        frame_chunk(g).len() <= uncompressed_chunk(g).len(),
        frame_chunk(g).len() <= run_length_chunk(g).len(),
        uncompressed_chunk(g).len() <= run_length_chunk(g).len() ==> frame_chunk(g)
            == uncompressed_chunk(g),
        uncompressed_chunk(g).len() > run_length_chunk(g).len() ==> frame_chunk(g)
            == run_length_chunk(g),
{
}

} // verus!
