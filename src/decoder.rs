//! Streams frames back out of an encoded stream into one reusable grid.

use vstd::prelude::*;

use crate::bitgrid::{lemma_position_split, stride_of, BitGrid, GridView};
use crate::codec::{
    magic_bytes, read_le16, read_le32, CodecChunkCompressedFrame, CodecHeader, CHUNK_HEADER_SIZE,
    COMPRESSION_RUN_LENGTH, COMPRESSION_UNCOMPRESSED, HEADER_SIZE, VERSION,
};
use crate::runlength::{rle_cells, run, run_color};

verus! {

/// Declared width of the stream in `b`.
pub open spec fn stream_width(b: Seq<u8>) -> int {
    read_le16(b, 20)
}

/// Declared height of the stream in `b`.
pub open spec fn stream_height(b: Seq<u8>) -> int {
    read_le16(b, 22)
}

/// Payload size declared by the chunk header at `off`.
pub open spec fn chunk_size(b: Seq<u8>, off: int) -> int {
    read_le16(b, off + 2)
}

/// Compression tag of the chunk header at `off`.
pub open spec fn chunk_compression(b: Seq<u8>, off: int) -> u8 {
    b[off + 4]
}

/// Offset just past the chunk at `off`.
pub open spec fn chunk_end(b: Seq<u8>, off: int) -> int {
    off + CHUNK_HEADER_SIZE + chunk_size(b, off)
}

/// Whether a whole chunk, header and payload, stands at `off`.
pub open spec fn has_chunk(b: Seq<u8>, off: int) -> bool {
    &&& 0 <= off
    &&& off + CHUNK_HEADER_SIZE <= b.len()
    &&& chunk_end(b, off) <= b.len()
}

/// Payload of the chunk at `off`.
pub open spec fn chunk_payload(b: Seq<u8>, off: int) -> Seq<u8> {
    b.subrange(off + CHUNK_HEADER_SIZE, chunk_end(b, off))
}

/// Whether the chunk at `off` can be decoded into a `width` x `height` grid:
/// run-length encoded, or uncompressed with exactly the grid's byte count.
pub open spec fn chunk_supported(b: Seq<u8>, off: int, width: int, height: int) -> bool {
    ||| chunk_compression(b, off) == COMPRESSION_RUN_LENGTH
    ||| (chunk_compression(b, off) == COMPRESSION_UNCOMPRESSED && chunk_size(b, off) == stride_of(
        width,
    ) * height)
}

/// Whether every whole chunk from `off` on can be decoded.
pub open spec fn chunks_supported(b: Seq<u8>, off: int, width: int, height: int) -> bool
    decreases b.len() - off,
{
    if has_chunk(b, off) {
        chunk_supported(b, off, width, height) && chunks_supported(
            b,
            chunk_end(b, off),
            width,
            height,
        )
    } else {
        true
    }
}

/// Whether `b` is a stream this decoder can play: a whole header with the
/// magic tag and the supported version, dimensions that fit a grid, and only
/// chunks it can decode. A stream may end in a partial chunk, which reads as
/// its end.
pub open spec fn decodable(b: Seq<u8>) -> bool {
    &&& b.len() >= HEADER_SIZE
    &&& b.subrange(0, 12) == magic_bytes()
    &&& read_le32(b, 12) == VERSION
    &&& stream_width(b) <= i16::MAX
    &&& stream_height(b) <= i16::MAX
    &&& chunks_supported(b, HEADER_SIZE as int, stream_width(b), stream_height(b))
}

/// Value of the cell at row-major position `p` in a run-length payload:
/// set only if a set run covers it.
pub open spec fn rle_at(payload: Seq<u8>, p: int) -> bool {
    p < rle_cells(payload).len() && rle_cells(payload)[p]
}

/// `g` shows the run-length payload: each cell as the runs give it, and no
/// padding bit set.
pub open spec fn shows_runs(g: GridView, payload: Seq<u8>) -> bool {
    &&& g.padding_clear()
    &&& forall|q: int| 0 <= q < g.width * g.height ==> #[trigger] g.cells()[q] == rle_at(payload, q)
}

/// `g` is the frame that the chunk at `off` of `b` decodes to.
pub open spec fn shows_chunk(g: GridView, b: Seq<u8>, off: int) -> bool {
    &&& g.wf()
    &&& g.width == stream_width(b)
    &&& g.height == stream_height(b)
    &&& if chunk_compression(b, off) == COMPRESSION_UNCOMPRESSED {
        g.bytes == chunk_payload(b, off)
    } else {
        shows_runs(g, chunk_payload(b, off))
    }
}

/// What a decoder holds.
pub struct DecoderView {
    pub bytes: Seq<u8>,
    /// Offset of the next chunk.
    pub curr: int,
    /// The reusable output grid.
    pub bitmap: GridView,
    /// Number of frames handed out since the start or the last reset.
    pub frame_num: int,
}

impl DecoderView {
    /// The state right after construction or a reset.
    pub open spec fn initial(bytes: Seq<u8>) -> DecoderView {
        DecoderView {
            bytes,
            curr: HEADER_SIZE as int,
            bitmap: GridView::blank(stream_width(bytes), stream_height(bytes)),
            frame_num: 0,
        }
    }

    pub open spec fn wf(self) -> bool {
        &&& decodable(self.bytes)
        &&& HEADER_SIZE <= self.curr <= self.bytes.len()
        &&& self.bitmap.wf()
        &&& self.bitmap.width == stream_width(self.bytes)
        &&& self.bitmap.height == stream_height(self.bytes)
        &&& chunks_supported(self.bytes, self.curr, self.bitmap.width, self.bitmap.height)
        &&& 0 <= self.frame_num
        &&& self.frame_num * CHUNK_HEADER_SIZE <= self.curr - HEADER_SIZE
    }
}

/// One decoded frame: its 1-based position in the stream and a view of the
/// decoder's grid, valid until the decoder moves on.
#[derive(Clone, Debug, PartialEq, Eq)]
pub struct Frame<'a> {
    pub id: usize,
    pub bitmap: &'a BitGrid,
    /// Always `false`: the chunk's background byte is not passed on.
    pub background_set: bool,
}

/// Plays a stream frame by frame, decoding every frame into the same grid.
#[derive(Clone)]
pub struct VideoDecoder<'a> {
    bytes: &'a [u8],
    curr: usize,
    bitmap: BitGrid,
    frame_num: usize,
}

impl<'a> View for VideoDecoder<'a> {
    type V = DecoderView;

    closed spec fn view(&self) -> DecoderView {
        DecoderView {
            bytes: self.bytes@,
            curr: self.curr as int,
            bitmap: self.bitmap@,
            frame_num: self.frame_num as int,
        }
    }
}

/// Copies the payload over the grid's packed bytes.
fn expand_uncompressed(bitmap: &mut BitGrid, in_bytes: &[u8])
    requires
        in_bytes@.len() == old(bitmap)@.bytes.len(),
    ensures
        final(bitmap)@ == (GridView { bytes: in_bytes@, ..old(bitmap)@ }),
{
    let dst = bitmap.as_mut_bytes();
    let mut i: usize = 0;
    while i < in_bytes.len()
        invariant
            dst@.len() == in_bytes@.len(),
            0 <= i <= in_bytes@.len(),
            forall|j: int| 0 <= j < i ==> dst@[j] == in_bytes@[j],
        decreases in_bytes@.len() - i,
    {
        dst[i] = in_bytes[i];
        i += 1;
    }
    assert(dst@ =~= in_bytes@);
}

/// Sets the cells that the run-length payload marks as set, row-major from
/// the top left; cells past the end of the grid are dropped.
fn expand_runlength(bitmap: &mut BitGrid, in_bytes: &[u8])
    requires
        old(bitmap)@.wf(),
        old(bitmap)@.is_blank(),
        in_bytes@.len() <= 0xffff,
    ensures
        final(bitmap)@.wf(),
        final(bitmap)@.width == old(bitmap)@.width,
        final(bitmap)@.height == old(bitmap)@.height,
        shows_runs(final(bitmap)@, in_bytes@),
{
    proof {
        crate::bitgrid::lemma_blank_padding(bitmap@);
    }
    let width = bitmap.width();
    let height = bitmap.height();
    if width == 0 || height == 0 {
        assert(bitmap@.width * bitmap@.height == 0) by (nonlinear_arith)
            requires bitmap@.width == 0 || bitmap@.height == 0;
        return;
    }
    let w = width as usize;
    let h = height as usize;
    assert(w * h <= 32767 * 32767) by (nonlinear_arith)
        requires w <= 32767, h <= 32767;
    let total: usize = w * h;
    let ghost payload = in_bytes@;
    let mut pos: usize = 0;
    let mut i: usize = 0;
    assert(payload.take(0) =~= Seq::<u8>::empty());
    proof {
        let g = bitmap@;
        assert forall|q: int| 0 <= q < total implies !#[trigger] g.cells()[q] by {
            lemma_position_split(q, w as int, h as int);
            crate::bitgrid::lemma_byte_index_in_range(g, q % (w as int), q / (w as int));
            crate::bitgrid::lemma_bits(0u8, 0, q % (w as int) % 8, false);
        }
    }
    while i < in_bytes.len()
        invariant
            payload == in_bytes@,
            payload.len() <= 0xffff,
            bitmap@.wf(),
            bitmap@.padding_clear(),
            bitmap@.width == width,
            bitmap@.height == height,
            w == width,
            h == height,
            0 < w,
            0 < h,
            total == w * h,
            0 <= i <= payload.len(),
            pos == rle_cells(payload.take(i as int)).len(),
            pos <= 255 * i,
            forall|q: int|
                0 <= q < total ==> #[trigger] bitmap@.cells()[q] == (q < pos && rle_cells(
                    payload.take(i as int),
                )[q]),
        decreases payload.len() - i,
    {
        let n = in_bytes[i];
        let set_run = i % 2 == 1;
        let ghost prev = rle_cells(payload.take(i as int));
        let mut j: u8 = 0;
        while j < n
            invariant
                payload == in_bytes@,
                bitmap@.wf(),
                bitmap@.padding_clear(),
                bitmap@.width == width,
                bitmap@.height == height,
                w == width,
                h == height,
                0 < w,
                0 < h,
                total == w * h,
                0 <= i < payload.len(),
                payload.len() <= 0xffff,
                n == payload[i as int],
                set_run == run_color(i as int),
                j <= n,
                pos == prev.len() + j,
                pos <= 255 * i + j,
                forall|q: int|
                    0 <= q < total ==> #[trigger] bitmap@.cells()[q] == (q < pos && (prev + run(
                        set_run,
                        j as int,
                    ))[q]),
            decreases n - j,
        {
            let ghost before = bitmap@;
            if set_run && pos < total {
                proof {
                    lemma_position_split(pos as int, w as int, h as int);
                }
                let x = (pos % w) as i16;
                let y = (pos / w) as i16;
                proof {
                    vstd::arithmetic::div_mod::lemma_small_mod(x as nat, w as nat);
                    vstd::arithmetic::div_mod::lemma_small_mod(y as nat, h as nat);
                }
                bitmap.set(x, y, true);
                proof {
                    assert forall|q: int| 0 <= q < total implies #[trigger] bitmap@.cells()[q] == (
                    q < pos + 1 && (prev + run(set_run, j + 1))[q]) by {
                        lemma_position_split(q, w as int, h as int);
                        assert(bitmap@.cells()[q] == bitmap@.cell(q % (w as int), q / (w as int)));
                        assert(before.cells()[q] == before.cell(q % (w as int), q / (w as int)));
                        if q != pos {
                            assert(!(q % (w as int) == x && q / (w as int) == y));
                        }
                    }
                }
            } else {
                proof {
                    assert forall|q: int| 0 <= q < total implies #[trigger] bitmap@.cells()[q] == (
                    q < pos + 1 && (prev + run(set_run, j + 1))[q]) by {
                        assert(bitmap@.cells()[q] == before.cells()[q]);
                    }
                }
            }
            pos += 1;
            j += 1;
        }
        proof {
            assert(payload.take(i + 1).drop_last() =~= payload.take(i as int));
            assert(rle_cells(payload.take(i + 1)) == prev + run(set_run, n as int));
        }
        i += 1;
    }
    proof {
        assert(payload.take(payload.len() as int) =~= payload);
        assert forall|q: int| 0 <= q < bitmap@.width * bitmap@.height implies #[trigger] bitmap@.cells()[q]
            == rle_at(payload, q) by {
        }
    }
}

/// Whether every whole chunk from the first on can be decoded into a
/// `width` x `height` grid.
fn check_chunks(bytes: &[u8], width: u16, height: u16) -> (r: bool)
    requires
        bytes@.len() >= HEADER_SIZE,
        width <= i16::MAX,
        height <= i16::MAX,
    ensures
        r == chunks_supported(bytes@, HEADER_SIZE as int, width as int, height as int),
{
    let stride: usize = (width as usize + 7) / 8;
    assert(stride * (height as usize) <= 4096 * 32767) by (nonlinear_arith)
        requires stride <= 4096, height <= 32767;
    let frame_bytes: usize = stride * (height as usize);
    let mut off: usize = HEADER_SIZE;
    loop
        invariant
            HEADER_SIZE <= off <= bytes@.len(),
            frame_bytes == stride_of(width as int) * height,
            chunks_supported(bytes@, HEADER_SIZE as int, width as int, height as int)
                == chunks_supported(bytes@, off as int, width as int, height as int),
        decreases bytes@.len() - off,
    {
        if bytes.len() - off < CHUNK_HEADER_SIZE {
            return true;
        }
        let size = crate::codec::read_u16_at(bytes, off + 2) as usize;
        if bytes.len() - off - CHUNK_HEADER_SIZE < size {
            return true;
        }
        let compression = bytes[off + 4];
        let supported = compression == COMPRESSION_RUN_LENGTH || (compression
            == COMPRESSION_UNCOMPRESSED && size == frame_bytes);
        if !supported {
            return false;
        }
        off = off + CHUNK_HEADER_SIZE + size;
    }
}

impl<'a> VideoDecoder<'a> {
    pub open spec fn wf(&self) -> bool {
        self@.wf()
    }

    /// A decoder positioned at the first frame, with a blank grid of the
    /// stream's dimensions. The stream must be one this decoder can play.
    pub fn new(bytes: &'a [u8]) -> (r: Self)
        requires
            decodable(bytes@),
        ensures
            r.wf(),
            r@ == DecoderView::initial(bytes@),
    {
        let header = CodecHeader::read(bytes).unwrap();
        let bitmap = BitGrid::new(header.width as usize, header.height as usize);
        VideoDecoder { bytes, curr: HEADER_SIZE, bitmap, frame_num: 0 }
    }

    /// A decoder for `bytes`, or `None` when it is not a stream this decoder
    /// can play.
    pub fn try_new(bytes: &'a [u8]) -> (r: Option<Self>)
        ensures
            r.is_some() == decodable(bytes@),
            r.is_some() ==> r.unwrap().wf() && r.unwrap()@ == DecoderView::initial(bytes@),
    {
        let header = match CodecHeader::read(bytes) {
            Some(h) => h,
            None => return None,
        };
        if !header.has_magic() || header.version != VERSION || header.width > 0x7fff
            || header.height > 0x7fff {
            return None;
        }
        if !check_chunks(bytes, header.width, header.height) {
            return None;
        }
        Some(VideoDecoder::new(bytes))
    }

    /// The stream's header.
    pub fn header(&self) -> (r: CodecHeader)
        requires
            self.wf(),
        ensures
            r.parsed_from(self@.bytes),
    {
        CodecHeader::read(self.bytes).unwrap()
    }

    /// Whether every byte of the stream has been consumed.
    pub fn is_finished(&self) -> (r: bool)
        ensures
            r == (self@.curr == self@.bytes.len()),
    {
        self.curr == self.bytes.len()
    }

    /// Rewinds to the first frame, blanks the grid and restarts the frame
    /// count, without allocating.
    pub fn reset(&mut self)
        requires
            old(self).wf(),
        ensures
            final(self).wf(),
            final(self)@ == DecoderView::initial(old(self)@.bytes),
    {
        self.curr = HEADER_SIZE;
        self.bitmap.clear();
        self.frame_num = 0;
        assert(self@.bitmap.bytes =~= DecoderView::initial(self@.bytes).bitmap.bytes);
    }

    /// The next `n` bytes, consumed; or `None`, with the rest of the stream
    /// consumed, if fewer remain.
    fn next(&mut self, n: usize) -> (r: Option<&'a [u8]>)
        requires
            old(self)@.curr <= old(self)@.bytes.len(),
        ensures
            final(self)@.bytes == old(self)@.bytes,
            final(self)@.bitmap == old(self)@.bitmap,
            final(self)@.frame_num == old(self)@.frame_num,
            match r {
                Some(s) => {
                    &&& old(self)@.curr + n <= old(self)@.bytes.len()
                    &&& s@ == old(self)@.bytes.subrange(old(self)@.curr, old(self)@.curr + n)
                    &&& final(self)@.curr == old(self)@.curr + n
                },
                None => {
                    &&& old(self)@.curr + n > old(self)@.bytes.len()
                    &&& final(self)@.curr == old(self)@.bytes.len()
                },
            },
    {
        if n <= self.bytes.len() - self.curr {
            let s = vstd::slice::slice_subrange(self.bytes, self.curr, self.curr + n);
            self.curr = self.curr + n;
            Some(s)
        } else {
            self.curr = self.bytes.len();
            None
        }
    }

    /// Decodes the next chunk into the grid and returns it as the next
    /// frame; `None` at the end of the stream, which a partial chunk also
    /// marks. Once `None`, it stays `None` until a reset.
    pub fn next_frame(&mut self) -> (r: Option<Frame<'_>>)
        requires
            old(self).wf(),
        ensures
            final(self).wf(),
            final(self)@.bytes == old(self)@.bytes,
            r.is_some() == has_chunk(old(self)@.bytes, old(self)@.curr),
            match r {
                Some(f) => {
                    &&& f.id == old(self)@.frame_num + 1
                    &&& !f.background_set
                    &&& f.bitmap@ == final(self)@.bitmap
                    &&& shows_chunk(final(self)@.bitmap, old(self)@.bytes, old(self)@.curr)
                    &&& final(self)@.curr == chunk_end(old(self)@.bytes, old(self)@.curr)
                    &&& final(self)@.frame_num == f.id
                },
                None => {
                    &&& final(self)@.curr == old(self)@.bytes.len()
                    &&& final(self)@.bitmap == old(self)@.bitmap
                    &&& final(self)@.frame_num == old(self)@.frame_num
                },
            },
    {
        let ghost start = self@;
        let header_bytes = match self.next(CHUNK_HEADER_SIZE) {
            Some(b) => b,
            None => return None,
        };
        let chunk = CodecChunkCompressedFrame::read(header_bytes).unwrap();
        assert(chunk.common.size == chunk_size(start.bytes, start.curr));
        let payload = match self.next(chunk.common.size as usize) {
            Some(p) => p,
            None => return None,
        };
        assert(payload@ == chunk_payload(start.bytes, start.curr));
        self.bitmap.clear();
        if chunk.compression.0 == COMPRESSION_UNCOMPRESSED {
            expand_uncompressed(&mut self.bitmap, payload);
        } else {
            expand_runlength(&mut self.bitmap, payload);
        }
        self.frame_num = self.frame_num + 1;
        Some(Frame { id: self.frame_num, bitmap: &self.bitmap, background_set: false })
    }
}

} // verus!
