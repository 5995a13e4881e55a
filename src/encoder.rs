//! Serializes a sequence of frames into a stream.

use vstd::prelude::*;

use crate::bitgrid::{lemma_cell_position, BitGrid, GridView};
use crate::codec::{
    le16, le32, magic_bytes, CodecChunkCompressedFrame, CodecHeader, FrameCompressionKind,
    CHUNK_COMPRESSED_FRAME, COMPRESSION_RUN_LENGTH, COMPRESSION_UNCOMPRESSED, VERSION,
};
use crate::runlength::{rle_encode, rle_scan};

verus! {

/// Largest payload a chunk can declare.
pub const MAX_PAYLOAD: usize = 0xffff;

/// A frame chunk: chunk header, then `payload`.
pub open spec fn chunk_bytes(compression: u8, payload: Seq<u8>) -> Seq<u8> {
    le16(CHUNK_COMPRESSED_FRAME as int) + le16(payload.len() as u16 as int) + seq![
        compression,
        0u8,
    ] + payload
}

/// The chunk that holds `g`'s packed bytes as they are.
pub open spec fn uncompressed_chunk(g: GridView) -> Seq<u8> {
    chunk_bytes(COMPRESSION_UNCOMPRESSED, g.bytes)
}

/// The chunk that holds `g`'s cells run-length encoded.
pub open spec fn run_length_chunk(g: GridView) -> Seq<u8> {
    chunk_bytes(COMPRESSION_RUN_LENGTH, rle_encode(g.cells()))
}

/// The chunk written for `g`: the smaller of the two, uncompressed on a tie.
pub open spec fn frame_chunk(g: GridView) -> Seq<u8> {
    if uncompressed_chunk(g).len() <= run_length_chunk(g).len() {
        uncompressed_chunk(g)
    } else {
        run_length_chunk(g)
    }
}

/// Whether the chunk written for `g` can declare its payload's size.
pub open spec fn frame_fits(g: GridView) -> bool {
    frame_chunk(g).len() <= MAX_PAYLOAD + 6
}

/// The chunks of `frames`, one after another.
pub open spec fn frame_chunks(frames: Seq<GridView>) -> Seq<u8>
    decreases frames.len(),
{
    if frames.len() == 0 {
        Seq::empty()
    } else {
        frame_chunks(frames.drop_last()) + frame_chunk(frames.last())
    }
}

/// The bytes of a stream header with the given count and dimensions.
pub open spec fn header_bytes(n_frames: int, width: int, height: int) -> Seq<u8> {
    magic_bytes() + le32(VERSION as int) + le32(n_frames) + le16(width) + le16(height) + Seq::new(
        104,
        |_i: int| 0u8,
    )
}

/// A whole stream: header, then one chunk per frame. Without `dims` (no
/// frame was ever queued) the header declares no frames and zero dimensions.
pub open spec fn stream_bytes(frames: Seq<GridView>, dims: Option<(int, int)>) -> Seq<u8> {
    let (w, h) = match dims {
        Some(d) => d,
        None => (0, 0),
    };
    let n = if dims.is_some() { frames.len() as u32 as int } else { 0 };
    header_bytes(n, w as u16 as int, h as u16 as int) + frame_chunks(frames)
}

/// Why a stream could not be written.
#[derive(Clone, Copy, Debug, PartialEq, Eq, Structural)]
pub enum EncodeError {
    /// Frame `index` (0-based) needs more payload than a chunk can declare.
    FrameTooLarge { index: usize },
}

/// The chunk holding `frame`'s packed bytes as they are.
fn compress_uncompressed(frame: &BitGrid) -> (r: Vec<u8>)
    ensures
        r@ == uncompressed_chunk(frame@),
{
    let bytes = frame.as_bytes();
    let mut chunk = CodecChunkCompressedFrame::new(bytes.len() as u16);
    chunk.compression = FrameCompressionKind::uncompressed();
    chunk.background_set = 0;
    let mut buf = chunk.to_bytes();
    let mut payload = vstd::slice::slice_to_vec(bytes);
    buf.append(&mut payload);
    assert(buf@ =~= uncompressed_chunk(frame@));
    buf
}

/// The chunk holding `frame`'s cells run-length encoded, scanned row-major.
fn compress_runlength(frame: &BitGrid) -> (r: Vec<u8>)
    requires
        frame@.wf(),
    ensures
        r@ == run_length_chunk(frame@),
{
    let ghost g = frame@;
    let ghost c = g.cells();
    let width = frame.width();
    let height = frame.height();
    let mut runs: Vec<u8> = Vec::new();
    let mut color: bool = false;
    let mut count: u8 = 0;
    let mut y: i16 = 0;
    proof {
        assert(c.take(0) =~= Seq::<bool>::empty());
    }
    while y < height
        invariant
            g == frame@,
            c == g.cells(),
            g.wf(),
            width == g.width,
            height == g.height,
            0 <= y <= height,
            rle_scan(c.take(y * width)) == (runs@, color, count as int),
        decreases height - y,
    {
        let mut x: i16 = 0;
        while x < width
            invariant
                g == frame@,
                c == g.cells(),
                g.wf(),
                width == g.width,
                height == g.height,
                0 <= y < height,
                0 <= x <= width,
                rle_scan(c.take(y * width + x)) == (runs@, color, count as int),
            decreases width - x,
        {
            let b = frame.get(x, y);
            proof {
                lemma_cell_position(g, x as int, y as int);
                let p = y * width + x;
                assert(c.take(p + 1).drop_last() =~= c.take(p));
                assert(c.take(p + 1).last() == b);
                crate::runlength::lemma_rle_scan(c.take(p));
            }
            if b != color {
                runs.push(count);
                color = b;
                count = 1;
            } else if count == 255 {
                runs.push(255);
                runs.push(0);
                count = 1;
            } else {
                count += 1;
            }
            x += 1;
        }
        proof {
            assert(y * width + width == (y + 1) * width) by (nonlinear_arith);
        }
        y += 1;
    }
    proof {
        assert(height * width == width * height) by (nonlinear_arith);
        assert(c.take(height * width) =~= c);
    }
    if count > 0 {
        runs.push(count);
    }
    assert(runs@ == rle_encode(c));
    let mut chunk = CodecChunkCompressedFrame::new(runs.len() as u16);
    chunk.compression = FrameCompressionKind::run_length_encoding();
    chunk.background_set = 0;
    let mut buf = chunk.to_bytes();
    buf.append(&mut runs);
    assert(buf@ =~= run_length_chunk(frame@));
    buf
}

/// A fresh header with a zeroed reserved region is written as the header
/// bytes of its count and dimensions.
proof fn lemma_new_header_bytes(h: CodecHeader)
    requires
        h.is_supported(),
        forall|i: int| 0 <= i < 26 ==> #[trigger] h.reserved@[i] == 0,
    ensures
        h.spec_bytes() == header_bytes(h.n_frames as int, h.width as int, h.height as int),
{
    assert(crate::codec::le32_all(h.reserved@) =~= Seq::new(104, |_i: int| 0u8));
}

/// What an encoder holds: the queued frames and the stream's dimensions.
pub struct EncoderView {
    pub frames: Seq<GridView>,
    pub dims: Option<(int, int)>,
}

/// Accumulates frames and writes them out as one stream.
///
/// The first frame pushed fixes the stream's dimensions; later frames are
/// expected to share them.
#[derive(Clone)]
pub struct VideoEncoder {
    frames: Vec<BitGrid>,
    dims: Option<(i16, i16)>,
}

impl View for VideoEncoder {
    type V = EncoderView;

    closed spec fn view(&self) -> EncoderView {
        EncoderView {
            frames: self.frames@.map_values(|g: BitGrid| g@),
            dims: match self.dims {
                Some((w, h)) => Some((w as int, h as int)),
                None => None,
            },
        }
    }
}

impl VideoEncoder {
    /// Every queued frame is well formed, and the dimensions are not negative.
    pub open spec fn wf(&self) -> bool {
        &&& forall|i: int| 0 <= i < self@.frames.len() ==> (#[trigger] self@.frames[i]).wf()
        &&& match self@.dims {
            Some((w, h)) => 0 <= w && 0 <= h,
            None => true,
        }
    }

    pub fn new() -> (r: Self)
        ensures
            r.wf(),
            r@.frames == Seq::<GridView>::empty(),
            r@.dims.is_none(),
    {
        let r = VideoEncoder { frames: Vec::new(), dims: None };
        assert(r@.frames =~= Seq::<GridView>::empty());
        r
    }

    /// Number of queued frames.
    pub fn frame_count(&self) -> (r: usize)
        ensures
            r == self@.frames.len(),
    {
        self.frames.len()
    }

    /// Queues `frame`; the first frame queued fixes the dimensions.
    pub fn push(&mut self, frame: BitGrid)
        requires
            old(self).wf(),
            frame@.wf(),
        ensures
            final(self).wf(),
            final(self)@.frames == old(self)@.frames.push(frame@),
            final(self)@.dims == match old(self)@.dims {
                Some(d) => Some(d),
                None => Some((frame@.width, frame@.height)),
            },
    {
        if self.dims.is_none() {
            self.dims = Some(frame.dims());
        }
        self.frames.push(frame);
        assert(self@.frames =~= old(self)@.frames.push(frame@));
    }

    /// Writes the header and one chunk per queued frame, each chunk the
    /// smaller of its two encodings, and empties the queue.
    ///
    /// Fails, leaving the encoder as it was, when a frame needs more payload
    /// than a chunk can declare.
    pub fn encode_to_vec(&mut self) -> (r: Result<Vec<u8>, EncodeError>)
        requires
            old(self).wf(),
        ensures
            final(self).wf(),
            final(self)@.dims == old(self)@.dims,
            r.is_ok() == (forall|i: int|
                0 <= i < old(self)@.frames.len() ==> frame_fits(#[trigger] old(self)@.frames[i])),
            r.is_ok() ==> r.unwrap()@ == stream_bytes(old(self)@.frames, old(self)@.dims),
            r.is_ok() ==> final(self)@.frames.len() == 0,
            match r {
                Ok(_) => true,
                Err(EncodeError::FrameTooLarge { index }) => {
                    &&& index < old(self)@.frames.len()
                    &&& !frame_fits(old(self)@.frames[index as int])
                    &&& forall|j: int| 0 <= j < index ==> frame_fits(#[trigger] old(self)@.frames[j])
                    &&& final(self)@ == old(self)@
                },
            },
    {
        let ghost frames = self@.frames;
        let header = match self.dims {
            Some((width, height)) => CodecHeader::new(
                self.frame_count(),
                width as u32,
                height as u32,
            ),
            None => CodecHeader::new(0, 0, 0),
        };
        proof {
            lemma_new_header_bytes(header);
        }
        let mut out = header.to_bytes();
        let ghost head = out@;
        assert(frames.take(0) =~= Seq::<GridView>::empty());
        let mut i: usize = 0;
        while i < self.frames.len()
            invariant
                self.wf(),
                self@ == old(self)@,
                frames == self@.frames,
                0 <= i <= frames.len(),
                out@ == head + frame_chunks(frames.take(i as int)),
                forall|j: int| 0 <= j < i ==> frame_fits(#[trigger] frames[j]),
            decreases frames.len() - i,
        {
            let frame = &self.frames[i];
            assert(frame@ == frames[i as int]);
            let uncompressed = compress_uncompressed(frame);
            let runlength = compress_runlength(frame);
            let mut chunk = if uncompressed.len() <= runlength.len() {
                uncompressed
            } else {
                runlength
            };
            if chunk.len() > MAX_PAYLOAD + 6 {
                return Err(EncodeError::FrameTooLarge { index: i });
            }
            out.append(&mut chunk);
            assert(frames.take(i + 1).drop_last() =~= frames.take(i as int));
            i += 1;
        }
        assert(frames.take(frames.len() as int) =~= frames);
        self.frames.clear();
        assert(self@.frames.len() == 0);
        Ok(out)
    }
}

impl Default for VideoEncoder {
    fn default() -> (r: Self)
        ensures
            r.wf(),
            r@.frames == Seq::<GridView>::empty(),
            r@.dims.is_none(),
    {
        VideoEncoder::new()
    }
}

} // verus!
