//! Colours and "over" compositing of one colour onto another.

use crate::geometry::Triangle;
use vstd::prelude::*;

verus! {

/// Red, green, blue and opacity, eight bits each. On a candidate the fourth
/// channel is the opacity with which it is blended.
#[derive(Clone, Copy, Debug, PartialEq, Eq, Structural)]
pub struct Color {
    pub r: u8,
    pub g: u8,
    pub b: u8,
    pub a: u8,
}

/// One of the colour's channels by number: red, green, blue, then opacity.
pub open spec fn channel(color: Color, k: int) -> int {
    if k == 0 {
        color.r as int
    } else if k == 1 {
        color.g as int
    } else if k == 2 {
        color.b as int
    } else {
        color.a as int
    }
}

/// A triangle with the colour it is painted in: the unit of the vector
/// output.
#[derive(Clone, Copy, Debug, PartialEq, Eq, Structural)]
pub struct ColoredTriangle {
    pub triangle: Triangle,
    pub color: Color,
}

/// What `image` computes when it blends a source that is neither fully
/// transparent nor fully opaque over a destination. It works this out in
/// single-precision floating point, so this library only names it.
pub uninterp spec fn mixed(dst: Color, src: Color) -> Color;

/// The result of compositing `src` over `dst`: a fully transparent source
/// changes nothing, a fully opaque one replaces the destination, anything
/// between is mixed.
pub open spec fn blended(dst: Color, src: Color) -> Color {
    if src.a == 0 {
        dst
    } else if src.a == 255 {
        src
    } else {
        mixed(dst, src)
    }
}

/// Calls `image::Pixel::blend` on two `Rgba<u8>` pixels. Trusted: the result
/// is the destination when the source's opacity is 0, the source when it is
/// 255, and otherwise the value that `image` computes from the two pixels
/// alone.
#[verifier::external_body]
pub(crate) fn blend_pixels(dst: Color, src: Color) -> (out: Color)
    ensures
        out == blended(dst, src),
        0 < src.a < 255 ==> out == mixed(dst, src),
{
    let mut pixel = image::Rgba([dst.r, dst.g, dst.b, dst.a]);
    image::Pixel::blend(&mut pixel, &image::Rgba([src.r, src.g, src.b, src.a]));
    Color { r: pixel.0[0], g: pixel.0[1], b: pixel.0[2], a: pixel.0[3] }
}

} // verus!
