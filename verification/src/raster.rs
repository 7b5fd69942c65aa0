//! Painting coloured triangles onto a canvas, one or a whole list of them.

use crate::canvas::{
    lemma_pixel_index_bound, lemma_pixel_index_injective, pixel_index, uniform, Canvas,
};
use crate::color::{blended, Color, ColoredTriangle};
use crate::geometry::{in_box, on_canvas, Point};
use vstd::arithmetic::div_mod::{
    lemma_div_pos_is_pos, lemma_fundamental_div_mod, lemma_mod_pos_bound,
    lemma_multiply_divide_lt,
};
use vstd::prelude::*;

verus! {

/// The pixels after one triangle is painted onto a `w` by `h` grid: `color`
/// composited over each pixel of the triangle's footprint, every other pixel
/// as it was.
pub open spec fn painted(pixels: Seq<Color>, w: u32, h: u32, ct: ColoredTriangle) -> Seq<Color> {
    Seq::new(
        pixels.len(),
        |i: int|
            if ct.triangle.footprint(w, h, i % (w as int), i / (w as int)) {
                blended(pixels[i], ct.color)
            } else {
                pixels[i]
            },
    )
}

/// The pixels after a list of triangles is painted onto a grid, first to
/// last.
pub open spec fn replayed(
    pixels: Seq<Color>,
    w: u32,
    h: u32,
    triangles: Seq<ColoredTriangle>,
) -> Seq<Color>
    decreases triangles.len(),
{
    if triangles.len() == 0 {
        pixels
    } else {
        painted(replayed(pixels, w, h, triangles.drop_last()), w, h, triangles.last())
    }
}

/// The raster of a vector image: the triangles painted in order onto a
/// `w` by `h` canvas filled with `background`.
pub open spec fn rendered(
    w: u32,
    h: u32,
    background: Color,
    triangles: Seq<ColoredTriangle>,
) -> Seq<Color> {
    replayed(uniform(w * h, background), w, h, triangles)
}

/// Every place below `w * h` is the place of one pixel of the grid: its
/// column is the remainder and its row the quotient by `w`.
pub proof fn lemma_position(w: u32, h: u32, i: int)
    requires
        0 <= i < w * h,
    ensures
        on_canvas(w, h, i % (w as int), i / (w as int)),
        pixel_index(w, i % (w as int), i / (w as int)) == i,
{
    assert(w > 0) by (nonlinear_arith)
        requires
            0 <= i < w * h,
    ;
    let d = w as int;
    lemma_fundamental_div_mod(i, d);
    lemma_mod_pos_bound(i, d);
    lemma_div_pos_is_pos(i, d);
    lemma_multiply_divide_lt(i, d, h as int);
    assert(d * (i / d) == (i / d) * d) by (nonlinear_arith);
}

/// Painting keeps the number of pixels, and says pixel by pixel what the
/// grid then holds.
pub proof fn lemma_painted_at(
    pixels: Seq<Color>,
    w: u32,
    h: u32,
    ct: ColoredTriangle,
    x: int,
    y: int,
)
    requires
        pixels.len() == w * h,
        on_canvas(w, h, x, y),
    ensures
        0 <= pixel_index(w, x, y) < pixels.len(),
        painted(pixels, w, h, ct)[pixel_index(w, x, y)] == if ct.triangle.footprint(w, h, x, y) {
            blended(pixels[pixel_index(w, x, y)], ct.color)
        } else {
            pixels[pixel_index(w, x, y)]
        },
{
    lemma_pixel_index_bound(w, h, x, y);
    let i = pixel_index(w, x, y);
    lemma_position(w, h, i);
    lemma_pixel_index_injective(w, x, y, i % (w as int), i / (w as int));
}

/// Replaying keeps the number of pixels.
pub proof fn lemma_replayed_len(
    pixels: Seq<Color>,
    w: u32,
    h: u32,
    triangles: Seq<ColoredTriangle>,
)
    ensures
        replayed(pixels, w, h, triangles).len() == pixels.len(),
    decreases triangles.len(),
{
    if triangles.len() > 0 {
        lemma_replayed_len(pixels, w, h, triangles.drop_last());
    }
}

/// What the canvas holds at `(u, v)` while a triangle is being painted and
/// the scan stands at `(x, y)`: the composite where the scan has passed a
/// pixel of the footprint, the old colour elsewhere.
spec fn scanned(before: &Canvas, ct: ColoredTriangle, x: int, y: int, u: int, v: int) -> Color {
    if (v < y || (v == y && u < x)) && ct.triangle.footprint(
        before.spec_width(),
        before.spec_height(),
        u,
        v,
    ) {
        blended(before.at(u, v), ct.color)
    } else {
        before.at(u, v)
    }
}

/// Paints one coloured triangle onto the canvas: its colour is composited
/// over every pixel of its footprint, and no other pixel changes.
pub fn rasterize_triangle(image: &mut Canvas, triangle: ColoredTriangle)
    requires
        old(image).wf(),
    ensures
        final(image).wf(),
        final(image).spec_width() == old(image).spec_width(),
        final(image).spec_height() == old(image).spec_height(),
        final(image)@ == painted(
            old(image)@,
            old(image).spec_width(),
            old(image).spec_height(),
            triangle,
        ),
{
    let w: u32 = image.width();
    let h: u32 = image.height();
    let (x0, y0, x1, y1) = triangle.triangle.bounding(w, h);
    let ghost bb = triangle.triangle.bounding_box(w, h);
    let ghost before = *image;
    proof {
        image.lemma_wf();
    }
    if x0 < x1 && y0 < y1 {
        let mut y: i32 = y0;
        while y < y1
            invariant
                y0 <= y <= y1,
                0 <= x0 < x1 <= w,
                0 <= y0 < y1 <= h,
                before.wf(),
                image.wf(),
                w == before.spec_width(),
                h == before.spec_height(),
                image.spec_width() == w,
                image.spec_height() == h,
                bb == triangle.triangle.bounding_box(w, h),
                bb == (x0 as int, y0 as int, x1 as int, y1 as int),
                forall|u: int, v: int| #[trigger]
                    on_canvas(w, h, u, v) ==> image.at(u, v) == scanned(
                        &before,
                        triangle,
                        0,
                        y as int,
                        u,
                        v,
                    ),
            decreases y1 - y,
        {
            let mut x: i32 = x0;
            proof {
                assert forall|u: int, v: int| #[trigger] on_canvas(w, h, u, v) implies image.at(
                    u,
                    v,
                ) == scanned(&before, triangle, x0 as int, y as int, u, v) by {
                    assert(v == y && u < x0 ==> !in_box(bb, u, v));
                }
            }
            while x < x1
                invariant
                    x0 <= x <= x1,
                    y0 <= y < y1,
                    0 <= x0 < x1 <= w,
                    0 <= y0 < y1 <= h,
                    before.wf(),
                    image.wf(),
                    w == before.spec_width(),
                    h == before.spec_height(),
                    image.spec_width() == w,
                    image.spec_height() == h,
                    bb == triangle.triangle.bounding_box(w, h),
                    bb == (x0 as int, y0 as int, x1 as int, y1 as int),
                    forall|u: int, v: int| #[trigger]
                        on_canvas(w, h, u, v) ==> image.at(u, v) == scanned(
                            &before,
                            triangle,
                            x as int,
                            y as int,
                            u,
                            v,
                        ),
                decreases x1 - x,
            {
                let ghost prior = *image;
                assert(on_canvas(w, h, x as int, y as int));
                if triangle.triangle.contains(Point { x, y }) {
                    image.blend_over(x as u32, y as u32, triangle.color);
                }
                proof {
                    assert(in_box(bb, x as int, y as int));
                    assert forall|u: int, v: int| #[trigger] on_canvas(w, h, u, v) implies image.at(
                        u,
                        v,
                    ) == scanned(&before, triangle, x + 1, y as int, u, v) by {
                        assert(prior.at(u, v) == scanned(
                            &before,
                            triangle,
                            x as int,
                            y as int,
                            u,
                            v,
                        ));
                        prior.lemma_wf();
                        lemma_pixel_index_bound(w, h, u, v);
                        lemma_pixel_index_bound(w, h, x as int, y as int);
                        if pixel_index(w, u, v) == pixel_index(w, x as int, y as int) {
                            lemma_pixel_index_injective(w, u, v, x as int, y as int);
                            assert(u == x && v == y);
                            assert(prior.at(u, v) == before.at(u, v));
                            assert(triangle.triangle.footprint(w, h, u, v)
                                == triangle.triangle.covers(Point { x, y }));
                        } else {
                            assert(image.at(u, v) == prior.at(u, v));
                            assert(!(u == x && v == y));
                        }
                    }
                }
                x += 1;
            }
            proof {
                assert forall|u: int, v: int| #[trigger] on_canvas(w, h, u, v) implies image.at(
                    u,
                    v,
                ) == scanned(&before, triangle, 0, y + 1, u, v) by {
                    assert(v == y && u >= x1 ==> !in_box(bb, u, v));
                }
            }
            y += 1;
        }
    }
    proof {
        let after = painted(before@, w, h, triangle);
        image.lemma_wf();
        before.lemma_wf();
        assert forall|i: int| 0 <= i < before@.len() implies image@[i] == after[i] by {
            lemma_position(w, h, i);
            let u = i % (w as int);
            let v = i / (w as int);
            assert(on_canvas(w, h, u, v));
            if x0 < x1 && y0 < y1 {
                assert(image.at(u, v) == scanned(&before, triangle, 0, y1 as int, u, v));
                assert(v >= y1 ==> !in_box(bb, u, v));
            } else {
                assert(!in_box(bb, u, v));
            }
        }
        assert(image@ =~= after);
    }
}

/// Renders a vector image: paints the triangles in order onto a canvas of
/// the given size filled with `background`.
pub fn render(
    width: u32,
    height: u32,
    background: Color,
    triangles: &Vec<ColoredTriangle>,
) -> (canvas: Canvas)
    requires
        4 * width * height <= usize::MAX,
    ensures
        canvas.wf(),
        canvas.spec_width() == width,
        canvas.spec_height() == height,
        canvas@ == rendered(width, height, background, triangles@),
{
    let mut canvas = Canvas::filled(width, height, background);
    let mut i: usize = 0;
    while i < triangles.len()
        invariant
            i <= triangles@.len(),
            canvas.wf(),
            canvas.spec_width() == width,
            canvas.spec_height() == height,
            canvas@ == rendered(width, height, background, triangles@.take(i as int)),
        decreases triangles@.len() - i,
    {
        rasterize_triangle(&mut canvas, triangles[i]);
        proof {
            assert(triangles@.take(i + 1).drop_last() =~= triangles@.take(i as int));
        }
        i += 1;
    }
    assert(triangles@.take(triangles@.len() as int) =~= triangles@);
    canvas
}

} // verus!
