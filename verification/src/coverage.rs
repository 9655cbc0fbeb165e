//! Coverage samples, as a glyph rasterizer reports them, and what a run of
//! them does to a buffer.

use vstd::prelude::*;
use crate::blend::blended;
use crate::blend::lemma_blended_elsewhere;
use crate::blend::lemma_pixel_aligned;
use crate::color::Color;

verus! {

/// One report of the rasterizer: a block of `w` by `h` pixels whose top
/// left pixel is `(x, y)`, covered by `color`, whose alpha is the coverage.
/// The position may lie outside the canvas.
#[derive(Clone, Copy, Debug, PartialEq, Eq, Structural)]
pub struct CoverageSample {
    pub x: i32,
    pub y: i32,
    pub w: u32,
    pub h: u32,
    pub color: Color,
}

impl CoverageSample {
    /// Whether a canvas of `width` by `height` pixels draws the sample: it
    /// covers something, it is a single pixel, and that pixel is one of the
    /// canvas's.
    pub open spec fn taken(self, width: int, height: int) -> bool {
        &&& self.color.a != 0
        &&& 0 <= self.x < width
        &&& 0 <= self.y < height
        &&& self.w == 1
        &&& self.h == 1
    }
}

/// The buffer of a canvas of `width` by `height` pixels after one sample:
/// blended where the sample is taken, unchanged where it is not.
pub open spec fn sampled(bytes: Seq<u8>, width: int, height: int, sample: CoverageSample) -> Seq<
    u8,
> {
    if sample.taken(width, height) {
        blended(bytes, width * 4, sample.color, sample.x as int, sample.y as int)
    } else {
        bytes
    }
}

/// The buffer after a run of samples, each applied to what the ones before
/// it left.
pub open spec fn composited(
    bytes: Seq<u8>,
    width: int,
    height: int,
    samples: Seq<CoverageSample>,
) -> Seq<u8>
    decreases samples.len(),
{
    if samples.len() == 0 {
        bytes
    } else {
        sampled(
            composited(bytes, width, height, samples.drop_last()),
            width,
            height,
            samples.last(),
        )
    }
}

/// Whatever the samples, the buffer keeps its length and the alpha byte of
/// every pixel.
pub proof fn lemma_composited_keeps_alpha(
    bytes: Seq<u8>,
    width: int,
    height: int,
    samples: Seq<CoverageSample>,
)
    ensures
        composited(bytes, width, height, samples).len() == bytes.len(),
        forall|i: int|
            0 <= i < bytes.len() && i % 4 == 3 ==> #[trigger] composited(
                bytes,
                width,
                height,
                samples,
            )[i] == bytes[i],
    decreases samples.len(),
{
    if samples.len() > 0 {
        let before = composited(bytes, width, height, samples.drop_last());
        let last = samples.last();
        lemma_composited_keeps_alpha(bytes, width, height, samples.drop_last());
        lemma_blended_elsewhere(before, width * 4, last.color, last.x as int, last.y as int);
        lemma_pixel_aligned(width, last.x as int, last.y as int);
    }
}

} // verus!
