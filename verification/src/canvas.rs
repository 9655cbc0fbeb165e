//! A view of a borrowed pixel buffer.

use vstd::prelude::*;
use crate::blend::blend_channel;
use crate::blend::blended;
use crate::blend::holds_pixel;
use crate::blend::lemma_pixel_aligned;
use crate::blend::lemma_pixel_in_row;
use crate::blend::lemma_row_range;
use crate::blend::pixel_offset;
use crate::color::Color;
use crate::coverage::composited;
use crate::coverage::lemma_composited_keeps_alpha;
use crate::coverage::CoverageSample;

verus! {

/// The buffer after every whole pixel was overwritten with `color`: each
/// group of four bytes holds blue, green, red, alpha. Bytes after the last
/// whole group stay.
pub open spec fn filled(bytes: Seq<u8>, color: Color) -> Seq<u8> {
    Seq::new(
        bytes.len(),
        |i: int|
            if i < bytes.len() - bytes.len() % 4 {
                color.bgra()[i % 4]
            } else {
                bytes[i]
            },
    )
}

/// After a fill, each pixel of a canvas whose buffer holds all its rows
/// reads as the color's bytes: blue, green, red, alpha.
pub proof fn lemma_filled_reads_back(
    bytes: Seq<u8>,
    color: Color,
    width: int,
    height: int,
    x: int,
    y: int,
)
    requires
        0 <= x < width,
        0 <= y < height,
        width * 4 * height <= bytes.len(),
    ensures
        filled(bytes, color).subrange(
            pixel_offset(width * 4, x, y),
            pixel_offset(width * 4, x, y) + 4,
        ) == color.bgra(),
{
    let stride = width * 4;
    let at = pixel_offset(stride, x, y);
    lemma_pixel_in_row(stride, width, x, y);
    lemma_pixel_aligned(width, x, y);
    assert((y + 1) * stride <= stride * height) by (nonlinear_arith)
        requires
            y + 1 <= height,
            0 <= stride,
    ;
    assert(at + 4 <= bytes.len() - bytes.len() % 4);
}

/// A pixel buffer borrowed for one drawing operation, with its dimensions.
///
/// Nothing is asked of the buffer's length: what a too short buffer cannot
/// hold is clipped.
pub struct Canvas<'a> {
    canvas_buffer: &'a mut [u8],
    height: u32,
    width: u32,
}

impl<'a> Canvas<'a> {
    /// The borrowed buffer.
    pub closed spec fn buffer(&self) -> &'a mut [u8] {
        self.canvas_buffer
    }

    /// The bytes that the buffer holds now.
    pub open spec fn bytes(&self) -> Seq<u8> {
        self.buffer()@
    }

    /// Pixels per row.
    pub closed spec fn spec_width(&self) -> u32 {
        self.width
    }

    /// Rows.
    pub closed spec fn spec_height(&self) -> u32 {
        self.height
    }

    /// Bytes per row.
    pub open spec fn stride(&self) -> int {
        self.width() * 4
    }

    /// The byte at which pixel `(x, y)` starts.
    pub open spec fn offset_of(&self, x: int, y: int) -> int {
        pixel_offset(self.stride(), x, y)
    }

    /// Whether all four bytes of pixel `(x, y)` lie inside the buffer.
    pub open spec fn holds(&self, x: int, y: int) -> bool {
        holds_pixel(self.bytes().len() as int, self.offset_of(x, y))
    }

    /// Whether the buffer holds all of row `row`.
    pub open spec fn holds_row(&self, row: int) -> bool {
        (row + 1) * self.stride() <= self.bytes().len()
    }

    /// Whether the buffer holds every row of the canvas.
    pub open spec fn holds_all_rows(&self) -> bool {
        self.stride() * self.height() <= self.bytes().len()
    }

    /// A buffer that holds every row holds each row and each pixel of the
    /// canvas, so that no sample that the canvas draws is clipped.
    pub proof fn lemma_all_rows_hold(self, x: int, y: int)
        requires
            self.holds_all_rows(),
            0 <= x < self.width(),
            0 <= y < self.height(),
        ensures
            self.holds_row(y),
            self.holds(x, y),
    {
        let stride = self.stride();
        lemma_pixel_in_row(stride, self.width() as int, x, y);
        assert((y + 1) * stride <= stride * self.height()) by (nonlinear_arith)
            requires
                y + 1 <= self.height(),
                0 <= stride,
        ;
    }

    /// Once the canvas is no longer used, the buffer it borrowed holds what
    /// the canvas held last.
    pub proof fn lemma_settled(self)
        requires
            has_resolved(self),
        ensures
            final(self.buffer())@ == self.bytes(),
    {
    }

    /// Wraps `canvas_buffer` as a canvas of `width` by `height` pixels. The
    /// buffer is not copied: what is drawn on the canvas is drawn on it.
    pub fn new(canvas_buffer: &'a mut [u8], width: u32, height: u32) -> (canvas: Self)
        ensures
            canvas.bytes() == old(canvas_buffer)@,
            final(canvas.buffer())@ == final(canvas_buffer)@,
            canvas.width() == width,
            canvas.height() == height,
    {
        Canvas { canvas_buffer, height, width }
    }

    /// Pixels per row.
    #[verifier::when_used_as_spec(spec_width)]
    pub fn width(&self) -> (width: u32)
        ensures
            width == self.spec_width(),
    {
        self.width
    }

    /// Rows.
    #[verifier::when_used_as_spec(spec_height)]
    pub fn height(&self) -> (height: u32)
        ensures
            height == self.spec_height(),
    {
        self.height
    }

    fn row_bytes(&self) -> (stride: u64)
        ensures
            stride == self.stride(),
    {
        self.width as u64 * 4
    }

    /// The four bytes of the pixel in row `row` and column `column`, to read
    /// or to write.
    pub fn get_pixel(&'a mut self, row: u32, column: u32) -> (pixel: &'a mut [u8])
        requires
            row < old(self).height(),
            column < old(self).width(),
            old(self).holds_row(row as int),
        ensures
            pixel@ == old(self).bytes().subrange(
                old(self).offset_of(column as int, row as int),
                old(self).offset_of(column as int, row as int) + 4,
            ),
            final(self).bytes() == old(self).bytes().subrange(
                0,
                old(self).offset_of(column as int, row as int),
            ) + final(pixel)@ + old(self).bytes().subrange(
                old(self).offset_of(column as int, row as int) + 4,
                old(self).bytes().len() as int,
            ),
            final(self).width() == old(self).width(),
            final(self).height() == old(self).height(),
            final(final(self).buffer())@ == final(old(self).buffer())@,
    {
        let stride: u64 = self.row_bytes();
        proof {
            lemma_pixel_in_row(stride as int, self.width as int, column as int, row as int);
            assert((row + 1) * self.stride() == (row + 1) * stride);
            assert(self.canvas_buffer@.len() == vstd::slice::spec_slice_len(self.canvas_buffer));
            assert((row + 1) * stride <= usize::MAX);
        }
        let at: usize = (row as u64 * stride + column as u64 * 4) as usize;
        let (_, tail) = self.canvas_buffer.split_at_mut(at);
        let (pixel, _) = tail.split_at_mut(4);
        pixel
    }

    /// Blends `color` onto the pixel at `(x, y)`, with the color's alpha as
    /// coverage. A pixel whose bytes do not all lie inside the buffer is
    /// skipped.
    pub fn set_pixel_color(&mut self, color: Color, x: i32, y: i32)
        ensures
            final(self).bytes() == blended(
                old(self).bytes(),
                old(self).stride(),
                color,
                x as int,
                y as int,
            ),
            color.a == 0 ==> final(self).bytes() == old(self).bytes(),
            color.a == 255 && old(self).holds(x as int, y as int) ==> final(self).bytes().subrange(
                old(self).offset_of(x as int, y as int),
                old(self).offset_of(x as int, y as int) + 3,
            ) == seq![color.b, color.g, color.r],
            !old(self).holds(x as int, y as int) ==> final(self).bytes() == old(self).bytes(),
            final(self).bytes().len() == old(self).bytes().len(),
            final(self).width() == old(self).width(),
            final(self).height() == old(self).height(),
            final(final(self).buffer())@ == final(old(self).buffer())@,
    {
        let stride: i128 = self.row_bytes() as i128;
        assert(-0x2_0000_0000_0000_0000 <= (y as i128) * stride <= 0x2_0000_0000_0000_0000)
            by (nonlinear_arith)
            requires
                -0x8000_0000 <= y <= 0x7fff_ffff,
                0 <= stride <= 0x4_0000_0000,
        ;
        let offset: i128 = x as i128 * 4 + y as i128 * stride;
        let len: usize = self.canvas_buffer.len();
        if offset < 0 || offset + 4 > len as i128 {
            return ;
        }
        let at: usize = offset as usize;
        let blue: u8 = blend_channel(self.canvas_buffer[at], color.b, color.a);
        let green: u8 = blend_channel(self.canvas_buffer[at + 1], color.g, color.a);
        let red: u8 = blend_channel(self.canvas_buffer[at + 2], color.r, color.a);
        self.canvas_buffer[at] = blue;
        self.canvas_buffer[at + 1] = green;
        self.canvas_buffer[at + 2] = red;
    }

    /// Whether the canvas draws `sample`.
    pub fn accepts(&self, sample: &CoverageSample) -> (taken: bool)
        ensures
            taken == sample.taken(self.width() as int, self.height() as int),
    {
        sample.color.a != 0 && 0 <= sample.x && (sample.x as i64) < self.width as i64 && 0
            <= sample.y && (sample.y as i64) < self.height as i64 && sample.w == 1 && sample.h
            == 1
    }

    /// Writes text of which `samples` is the coverage, as the rasterizer
    /// reported it for the laid-out glyphs: blends every sample that the
    /// canvas draws, in order, and skips the others. Nothing fails: what
    /// cannot be drawn is left out. Text without glyphs has no samples and
    /// leaves the canvas as it is.
    pub fn write_text(&mut self, samples: &[CoverageSample])
        ensures
            final(self).bytes() == composited(
                old(self).bytes(),
                old(self).width() as int,
                old(self).height() as int,
                samples@,
            ),
            samples@.len() == 0 ==> final(self).bytes() == old(self).bytes(),
            final(self).bytes().len() == old(self).bytes().len(),
            forall|i: int|
                0 <= i < old(self).bytes().len() && i % 4 == 3 ==> #[trigger] final(self).bytes()[i]
                    == old(self).bytes()[i],
            final(self).width() == old(self).width(),
            final(self).height() == old(self).height(),
            final(final(self).buffer())@ == final(old(self).buffer())@,
    {
        let mut done: usize = 0;
        while done < samples.len()
            invariant
                done <= samples@.len(),
                self.bytes() == composited(
                    old(self).bytes(),
                    old(self).width() as int,
                    old(self).height() as int,
                    samples@.subrange(0, done as int),
                ),
                self.width() == old(self).width(),
                self.height() == old(self).height(),
                final(self.buffer())@ == final(old(self).buffer())@,
            decreases samples@.len() - done,
        {
            let sample: &CoverageSample = &samples[done];
            proof {
                assert(samples@.subrange(0, done + 1).drop_last() == samples@.subrange(
                    0,
                    done as int,
                ));
            }
            if self.accepts(sample) {
                self.set_pixel_color(sample.color, sample.x, sample.y);
            }
            done = done + 1;
        }
        proof {
            assert(samples@.subrange(0, done as int) == samples@);
            lemma_composited_keeps_alpha(
                old(self).bytes(),
                old(self).width() as int,
                old(self).height() as int,
                samples@,
            );
        }
    }

    /// Overwrites every pixel with `color`, whatever the buffer held.
    pub fn set_background(&mut self, color: Color) -> (canvas: &mut Self)
        ensures
            canvas.bytes() == filled(old(self).bytes(), color),
            forall|p: int|
                0 <= p < old(self).bytes().len() / 4 ==> #[trigger] canvas.bytes().subrange(
                    4 * p,
                    4 * p + 4,
                ) == color.bgra(),
            canvas.width() == old(self).width(),
            canvas.height() == old(self).height(),
            final(canvas.buffer())@ == final(old(self).buffer())@,
            *final(self) == *final(canvas),
    {
        let len: usize = self.canvas_buffer.len();
        let whole: usize = len - len % 4;
        let mut at: usize = 0;
        while at < whole
            invariant
                whole == len - len % 4,
                len == old(self).bytes().len(),
                at <= whole,
                at % 4 == 0,
                self.bytes().len() == len,
                forall|i: int| 0 <= i < at ==> self.bytes()[i] == color.bgra()[i % 4],
                forall|i: int| at <= i < len ==> self.bytes()[i] == old(self).bytes()[i],
                self.width() == old(self).width(),
                self.height() == old(self).height(),
                final(self.buffer())@ == final(old(self).buffer())@,
            decreases whole - at,
        {
            self.canvas_buffer[at] = color.b;
            self.canvas_buffer[at + 1] = color.g;
            self.canvas_buffer[at + 2] = color.r;
            self.canvas_buffer[at + 3] = color.a;
            at = at + 4;
        }
        self
    }
}

impl<'a> vstd::std_specs::core::IndexSpecImpl<u32> for Canvas<'a> {
    /// A row can be taken where it is one of the canvas's rows and the
    /// buffer holds all of it.
    open spec fn index_req(&self, index: &u32) -> bool {
        *index < self.height() && self.holds_row(*index as int)
    }
}

impl<'a> std::ops::Index<u32> for Canvas<'a> {
    type Output = [u8];

    /// The bytes of row `index`.
    fn index(&self, index: u32) -> (row: &[u8])
        ensures
            row@ == self.bytes().subrange(index * self.stride(), (index + 1) * self.stride()),
    {
        let stride: u64 = self.row_bytes();
        proof {
            lemma_row_range(stride as int, index as int);
            assert((index + 1) * self.stride() == (index + 1) * stride);
            assert(self.canvas_buffer@.len() == vstd::slice::spec_slice_len(self.canvas_buffer));
        }
        let start: usize = (index as u64 * stride) as usize;
        let end: usize = (index as u64 * stride + stride) as usize;
        vstd::slice::slice_subrange(self.canvas_buffer, start, end)
    }
}

impl<'a> std::ops::IndexMut<u32> for Canvas<'a> {
    /// The bytes of row `index`, to write.
    fn index_mut(&mut self, index: u32) -> (row: &mut [u8])
        requires
            index < old(self).height(),
            old(self).holds_row(index as int),
        ensures
            row@ == old(self).bytes().subrange(
                index * old(self).stride(),
                (index + 1) * old(self).stride(),
            ),
            final(self).bytes() == old(self).bytes().subrange(0, index * old(self).stride())
                + final(row)@ + old(self).bytes().subrange(
                (index + 1) * old(self).stride(),
                old(self).bytes().len() as int,
            ),
            final(self).width() == old(self).width(),
            final(self).height() == old(self).height(),
            final(final(self).buffer())@ == final(old(self).buffer())@,
    {
        let stride: u64 = self.row_bytes();
        proof {
            lemma_row_range(stride as int, index as int);
            assert((index + 1) * self.stride() == (index + 1) * stride);
            assert(self.canvas_buffer@.len() == vstd::slice::spec_slice_len(self.canvas_buffer));
        }
        let start: usize = (index as u64 * stride) as usize;
        let (_, tail) = self.canvas_buffer.split_at_mut(start);
        let (row, _) = tail.split_at_mut(stride as usize);
        row
    }
}

} // verus!
