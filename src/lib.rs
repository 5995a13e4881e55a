//! Storage and replay of short monochrome bitmap animations.
//!
//! A stream is a fixed-size header followed by one chunk per frame; each chunk
//! holds a packed bit-grid, either raw or run-length encoded.

use vstd::prelude::*;

pub mod bitgrid;
pub mod codec;
pub mod decoder;
pub mod encoder;
pub mod frames;
pub mod life;
pub mod playback;
pub mod runlength;

pub use bitgrid::BitGrid;
pub use decoder::VideoDecoder;
pub use encoder::VideoEncoder;
pub use life::Life;

use encoder::{frame_fits, stream_bytes, EncodeError};

verus! {

/// Writes `frames` as one stream, the first frame giving the dimensions.
///
/// Fails when a frame needs more payload than a chunk can declare.
pub fn encode(frames: Vec<BitGrid>) -> (r: Result<Vec<u8>, EncodeError>)
    requires
        forall|i: int| 0 <= i < frames@.len() ==> (#[trigger] frames@[i])@.wf(),
    ensures
        r.is_ok() == (forall|i: int|
            0 <= i < frames@.len() ==> frame_fits(#[trigger] frames@[i]@)),
        r.is_ok() ==> r.unwrap()@ == stream_bytes(
            frames@.map_values(|g: BitGrid| g@),
            if frames@.len() == 0 {
                None
            } else {
                Some((frames@[0]@.width, frames@[0]@.height))
            },
        ),
{
    let ghost views = frames@.map_values(|g: BitGrid| g@);
    let ghost orig = frames@;
    assert forall|i: int| 0 <= i < orig.len() implies #[trigger] orig[i]@ == views[i] by {}
    let mut encoder = VideoEncoder::new();
    let mut rest = frames;
    let ghost total = rest@.len();
    while rest.len() > 0
        invariant
            encoder.wf(),
            views.len() == total,
            rest@.len() <= total,
            forall|i: int| 0 <= i < rest@.len() ==> #[trigger] rest@[i]@ == views[total - rest@.len() + i],
            forall|i: int| 0 <= i < views.len() ==> (#[trigger] views[i]).wf(),
            encoder@.frames == views.take(total - rest@.len()),
            encoder@.dims == if total == rest@.len() {
                None
            } else {
                Some((views[0].width, views[0].height))
            },
        decreases rest@.len(),
    {
        let frame = rest.remove(0);
        let ghost k = total - rest@.len() - 1;
        assert(frame@ == views[k]);
        encoder.push(frame);
        assert(encoder@.frames =~= views.take(k + 1));
    }
    assert(views.take(total as int) =~= views);
    encoder.encode_to_vec()
}

} // verus!
