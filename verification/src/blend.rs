//! The arithmetic of alpha compositing: one channel, then one pixel of a
//! buffer.

use vstd::prelude::*;
use crate::color::Color;

verus! {

/// One channel after blending: `dst * (1 - alpha/255) + src * alpha/255`,
/// rounded down.
///
/// Both terms are taken over the common denominator 255, so the value is
/// exact before it is rounded. The source term `src * alpha / 255` never
/// leaves `0..=255`, which makes clamping it the identity.
pub open spec fn mix(dst: int, src: int, alpha: int) -> int {
    (dst * (255 - alpha) + src * alpha) / 255
}

/// A blended channel lies between the two channels it was blended from,
/// and so fits a byte.
pub proof fn lemma_mix_between(dst: u8, src: u8, alpha: u8)
    ensures
        dst <= src ==> dst <= mix(dst as int, src as int, alpha as int) <= src,
        src <= dst ==> src <= mix(dst as int, src as int, alpha as int) <= dst,
        0 <= mix(dst as int, src as int, alpha as int) <= 255,
{
    let d = dst as int;
    let s = src as int;
    let a = alpha as int;
    let total = d * (255 - a) + s * a;
    if d <= s {
        assert(d * 255 <= total <= s * 255) by (nonlinear_arith)
            requires
                total == d * (255 - a) + s * a,
                0 <= a <= 255,
                d <= s,
        ;
    } else {
        assert(s * 255 <= total <= d * 255) by (nonlinear_arith)
            requires
                total == d * (255 - a) + s * a,
                0 <= a <= 255,
                s <= d,
        ;
    }
}

/// Blends one channel of a source color onto the same channel of a pixel.
pub fn blend_channel(dst: u8, src: u8, alpha: u8) -> (out: u8)
    ensures
        out == mix(dst as int, src as int, alpha as int),
        alpha == 0 ==> out == dst,
        alpha == 255 ==> out == src,
{
    let keep: u32 = 255 - alpha as u32;
    assert(dst as u32 * keep <= 255 * 255) by (nonlinear_arith)
        requires
            dst <= 255,
            keep <= 255,
    ;
    assert(src as u32 * alpha as u32 <= 255 * 255) by (nonlinear_arith)
        requires
            src <= 255,
            alpha <= 255,
    ;
    let total: u32 = dst as u32 * keep + src as u32 * alpha as u32;
    proof {
        lemma_mix_between(dst, src, alpha);
        if alpha == 255 {
            assert(dst as int * 0 == 0);
            assert(total == src * 255);
        }
        if alpha == 0 {
            assert(src as int * 0 == 0);
            assert(total == dst * 255);
        }
    }
    (total / 255) as u8
}

/// Blending the same color twice at less than full coverage onto a black
/// channel gives strictly less than blending it once at full coverage,
/// which gives the source channel itself. Half coverage, 127 or 128, is
/// one such case. A source channel of 0 is left out: both sides are 0
/// there.
pub proof fn lemma_twice_partial_below_once_full(src: u8, alpha: u8)
    requires
        src > 0,
        alpha < 255,
    ensures
        mix(mix(0, src as int, alpha as int), src as int, alpha as int) < mix(
            0,
            src as int,
            255,
        ),
        mix(0, src as int, 255) == src,
{
    let s = src as int;
    let a = alpha as int;
    let once = mix(0, s, a);
    assert(0 * (255 - a) == 0);
    assert(0 <= s * a < s * 255) by (nonlinear_arith)
        requires
            0 < s,
            0 <= a < 255,
    ;
    assert(0 <= once < s);
    assert(once * (255 - a) + s * a < s * 255) by (nonlinear_arith)
        requires
            0 <= once < s,
            0 <= a < 255,
    ;
    assert(0 <= once * (255 - a) + s * a) by (nonlinear_arith)
        requires
            0 <= once,
            0 <= s,
            0 <= a < 255,
    ;
}

/// Blending a second time with the same color changes nothing, whatever
/// the pixel and the color, exactly where the coverage is 0 or 255.
pub proof fn lemma_idempotent_only_at_extremes(alpha: u8)
    ensures
        (forall|dst: u8, src: u8|
            mix(#[trigger] mix(dst as int, src as int, alpha as int), src as int, alpha as int)
                == mix(dst as int, src as int, alpha as int)) <==> (alpha == 0 || alpha == 255),
{
    let a = alpha as int;
    if alpha == 0 || alpha == 255 {
        assert forall|dst: u8, src: u8|
            mix(#[trigger] mix(dst as int, src as int, a), src as int, a) == mix(
                dst as int,
                src as int,
                a,
            ) by {
            let once = mix(dst as int, src as int, a);
            if alpha == 0 {
                assert(src as int * 0 == 0);
                assert(once == dst);
            } else {
                assert(dst as int * 0 == 0);
                assert(once == src);
                assert(once * 0 == 0);
            }
        }
    } else {
        let once = mix(255, 0, a);
        assert(0 * a == 0);
        assert(once == 255 - a);
        assert(0 <= once * (255 - a) < once * 255) by (nonlinear_arith)
            requires
                0 < once,
                0 < a < 255,
        ;
        assert(mix(once, 0, a) < once);
        let white: u8 = 255;
        let black: u8 = 0;
        assert(mix(mix(white as int, black as int, a), black as int, a) != mix(
            white as int,
            black as int,
            a,
        ));
    }
}

/// The byte offset of pixel `(x, y)` in a buffer whose rows are `stride`
/// bytes apart.
pub open spec fn pixel_offset(stride: int, x: int, y: int) -> int {
    x * 4 + y * stride
}

/// Whether the four bytes from `offset` on lie inside a buffer of `len`
/// bytes.
pub open spec fn holds_pixel(len: int, offset: int) -> bool {
    0 <= offset && offset + 4 <= len
}

/// Row `y` starts at `y * stride` and ends where the next row starts.
pub proof fn lemma_row_range(stride: int, y: int)
    requires
        0 <= stride,
        0 <= y,
    ensures
        0 <= y * stride <= (y + 1) * stride,
        (y + 1) * stride == y * stride + stride,
{
    assert((y + 1) * stride == y * stride + stride) by (nonlinear_arith);
    assert(0 <= y * stride) by (nonlinear_arith)
        requires
            0 <= y,
            0 <= stride,
    ;
}

/// A pixel of row `y` lies inside the bytes of that row.
pub proof fn lemma_pixel_in_row(stride: int, width: int, x: int, y: int)
    requires
        stride == width * 4,
        0 <= x < width,
        0 <= y,
    ensures
        0 <= y * stride <= pixel_offset(stride, x, y),
        pixel_offset(stride, x, y) + 4 <= (y + 1) * stride,
{
    lemma_row_range(stride, y);
}

/// The buffer after `color` was blended onto the pixel that starts at byte
/// `at`: blue, green and red are mixed, the pixel's alpha byte stays.
pub open spec fn blend_at(bytes: Seq<u8>, at: int, color: Color) -> Seq<u8> {
    bytes.update(at, mix(bytes[at] as int, color.b as int, color.a as int) as u8).update(
        at + 1,
        mix(bytes[at + 1] as int, color.g as int, color.a as int) as u8,
    ).update(at + 2, mix(bytes[at + 2] as int, color.r as int, color.a as int) as u8)
}

/// The buffer after `color` was blended at `(x, y)`: unchanged where the
/// pixel's bytes do not all lie inside it.
pub open spec fn blended(bytes: Seq<u8>, stride: int, color: Color, x: int, y: int) -> Seq<u8> {
    let at = pixel_offset(stride, x, y);
    if holds_pixel(bytes.len() as int, at) {
        blend_at(bytes, at, color)
    } else {
        bytes
    }
}

/// Blending keeps the buffer's length and every byte but the blue, green
/// and red bytes of the one pixel.
pub proof fn lemma_blended_elsewhere(bytes: Seq<u8>, stride: int, color: Color, x: int, y: int)
    ensures
        blended(bytes, stride, color, x, y).len() == bytes.len(),
        forall|i: int|
            0 <= i < bytes.len() && !(pixel_offset(stride, x, y) <= i < pixel_offset(stride, x, y)
                + 3) ==> #[trigger] blended(bytes, stride, color, x, y)[i] == bytes[i],
{
}

/// Where the rows are whole pixels apart, a pixel starts at a multiple of
/// four bytes.
pub proof fn lemma_pixel_aligned(width: int, x: int, y: int)
    ensures
        pixel_offset(width * 4, x, y) % 4 == 0,
{
    assert(x * 4 + y * (width * 4) == 4 * (x + y * width)) by (nonlinear_arith);
}

} // verus!
