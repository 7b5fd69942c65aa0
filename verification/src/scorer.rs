//! The two error metrics: the mean squared error of a whole canvas, and the
//! change in squared error that one triangle would cause under its
//! footprint.

use crate::canvas::Canvas;
use crate::color::{blend_pixels, blended, Color, ColoredTriangle};
use crate::geometry::{in_box, Point, Triangle};
use crate::raster::{lemma_painted_at, painted};
use crate::sums::{
    grid_sum, lemma_cell_count, lemma_grid_bounds, lemma_grid_difference, lemma_grid_skip,
    lemma_mean_bound, lemma_row_bounds, lemma_row_skip, lemma_scaled_cells, row_sum, PixelFn,
};
use vstd::prelude::*;

verus! {

/// The squared difference of two channel values.
pub open spec fn squared(a: u8, b: u8) -> int {
    (a - b) * (a - b)
}

/// The squared error between two colours over red, green and blue.
pub open spec fn rgb_error(p: Color, q: Color) -> int {
    squared(p.r, q.r) + squared(p.g, q.g) + squared(p.b, q.b)
}

/// The squared error between two colours over all four channels.
pub open spec fn rgba_error(p: Color, q: Color) -> int {
    rgb_error(p, q) + squared(p.a, q.a)
}

/// The largest squared difference of two channel values.
pub const MAX_CHANNEL_ERROR: u32 = 65025;

/// A squared channel difference is at most 255 squared.
pub proof fn lemma_squared_bound(a: u8, b: u8)
    ensures
        0 <= squared(a, b) <= MAX_CHANNEL_ERROR,
{
    let d: int = a - b;
    assert(0 <= d * d <= 65025) by (nonlinear_arith)
        requires
            -255 <= d <= 255,
    ;
}

fn channel_error(a: u8, b: u8) -> (e: u32)
    ensures
        e == squared(a, b),
        e <= MAX_CHANNEL_ERROR,
{
    proof {
        lemma_squared_bound(a, b);
    }
    let d: i32 = a as i32 - b as i32;
    (d * d) as u32
}

/// The squared error between two colours over red, green and blue.
pub fn color_error(p: Color, q: Color) -> (e: u32)
    ensures
        e == rgb_error(p, q),
        e <= 3 * MAX_CHANNEL_ERROR,
{
    channel_error(p.r, q.r) + channel_error(p.g, q.g) + channel_error(p.b, q.b)
}

/// At each pixel, the squared error between two canvases over all four
/// channels.
pub open spec fn rgba_error_at(a: &Canvas, b: &Canvas) -> PixelFn {
    |x: int, y: int| rgba_error(a.at(x, y), b.at(x, y))
}

/// At each pixel, the squared error between two canvases over red, green
/// and blue.
pub open spec fn rgb_error_at(a: &Canvas, b: &Canvas) -> PixelFn {
    |x: int, y: int| rgb_error(a.at(x, y), b.at(x, y))
}

/// The squared error between two canvases, summed over every pixel and all
/// four channels.
pub open spec fn total_error(a: &Canvas, b: &Canvas) -> int {
    grid_sum(rgba_error_at(a, b), a.spec_width() as int, a.spec_height() as int)
}

/// The squared error between two canvases, summed over every pixel and over
/// red, green and blue.
pub open spec fn total_rgb_error(a: &Canvas, b: &Canvas) -> int {
    grid_sum(rgb_error_at(a, b), a.spec_width() as int, a.spec_height() as int)
}

/// The mean squared error per pixel: the total error divided by the number
/// of pixels, rounded down. A canvas without pixels has no error.
pub open spec fn mean_squared_error(a: &Canvas, b: &Canvas) -> int {
    let pixels = a.spec_width() * a.spec_height();
    if pixels == 0 {
        0
    } else {
        total_error(a, b) / pixels
    }
}

/// The full-image metric between two canvases of the same size.
pub fn full_metric(a: &Canvas, b: &Canvas) -> (mse: u32)
    requires
        a.wf(),
        b.wf(),
        a.spec_width() == b.spec_width(),
        a.spec_height() == b.spec_height(),
    ensures
        mse == mean_squared_error(a, b),
        mse <= 4 * MAX_CHANNEL_ERROR,
{
    let w: u32 = a.width();
    let h: u32 = a.height();
    let ghost f = rgba_error_at(a, b);
    let mut total: u128 = 0;
    let mut y: u32 = 0;
    proof {
        a.lemma_wf();
        assert forall|x: int, y: int| 0 <= x < w && 0 <= y < h implies 0 <= #[trigger] f(x, y)
            <= 260100 by {
            lemma_squared_bound(a.at(x, y).r, b.at(x, y).r);
            lemma_squared_bound(a.at(x, y).g, b.at(x, y).g);
            lemma_squared_bound(a.at(x, y).b, b.at(x, y).b);
            lemma_squared_bound(a.at(x, y).a, b.at(x, y).a);
        }
    }
    while y < h
        invariant
            y <= h,
            w == a.spec_width(),
            h == a.spec_height(),
            a.wf(),
            b.wf(),
            a.spec_width() == b.spec_width(),
            a.spec_height() == b.spec_height(),
            f == rgba_error_at(a, b),
            total == grid_sum(f, w as int, y as int),
            forall|x: int, y: int| 0 <= x < w && 0 <= y < h ==> 0 <= #[trigger] f(x, y) <= 260100,
        decreases h - y,
    {
        let mut x: u32 = 0;
        proof {
            lemma_grid_bounds(f, w as int, y as int, 0, 260100);
            lemma_cell_count(w, h, 0, y as int);
        }
        while x < w
            invariant
                x <= w,
                y < h,
                w == a.spec_width(),
                h == a.spec_height(),
                a.wf(),
                b.wf(),
                a.spec_width() == b.spec_width(),
                a.spec_height() == b.spec_height(),
                f == rgba_error_at(a, b),
                total == grid_sum(f, w as int, y as int) + row_sum(f, y as int, x as int),
                0 <= grid_sum(f, w as int, y as int) <= y * w * 260100,
                y * w + w <= 0x1_0000_0000_0000_0000,
                forall|x: int, y: int|
                    0 <= x < w && 0 <= y < h ==> 0 <= #[trigger] f(x, y) <= 260100,
            decreases w - x,
        {
            proof {
                lemma_row_bounds(f, y as int, x as int, 0, 260100);
                lemma_scaled_cells(w, x as int, y as int, 260100);
            }
            let p: Color = a.get(x, y);
            let q: Color = b.get(x, y);
            let e: u32 = color_error(p, q) + channel_error(p.a, q.a);
            assert(e == f(x as int, y as int));
            total = total + e as u128;
            x += 1;
        }
        y += 1;
    }
    if w == 0 || h == 0 {
        assert(w * h == 0) by (nonlinear_arith)
            requires
                w == 0 || h == 0,
        ;
        0
    } else {
        let pixels: u128 = w as u128 * h as u128;
        proof {
            lemma_grid_bounds(f, w as int, h as int, 0, 260100);
            assert(pixels > 0) by (nonlinear_arith)
                requires
                    pixels == w * h,
                    w > 0,
                    h > 0,
            ;
            lemma_mean_bound(total as int, pixels as int, 260100);
            assert(h * w * 260100 == (w * h) * 260100) by (nonlinear_arith);
        }
        (total / pixels) as u32
    }
}

/// At each pixel of the triangle's footprint, the squared error against the
/// target after `color` is composited onto the current canvas, less the
/// squared error before; zero at every other pixel.
pub open spec fn delta_at(
    target: &Canvas,
    current: &Canvas,
    triangle: Triangle,
    color: Color,
) -> PixelFn {
    |x: int, y: int|
        if triangle.footprint(target.spec_width(), target.spec_height(), x, y) {
            rgb_error(target.at(x, y), blended(current.at(x, y), color)) - rgb_error(
                target.at(x, y),
                current.at(x, y),
            )
        } else {
            0
        }
}

/// The incremental delta score of a candidate: the change in squared error
/// over red, green and blue that compositing it would cause, summed over its
/// footprint. A negative score is an improvement.
pub open spec fn delta_score(
    target: &Canvas,
    current: &Canvas,
    triangle: Triangle,
    color: Color,
) -> int {
    grid_sum(
        delta_at(target, current, triangle, color),
        target.spec_width() as int,
        target.spec_height() as int,
    )
}

/// The score changes by less than three times 255 squared per pixel.
pub proof fn lemma_delta_at_bound(
    target: &Canvas,
    current: &Canvas,
    triangle: Triangle,
    color: Color,
    x: int,
    y: int,
)
    ensures
        -195075 <= delta_at(target, current, triangle, color)(x, y) <= 195075,
{
    let t = target.at(x, y);
    let before = current.at(x, y);
    let after = blended(before, color);
    lemma_squared_bound(t.r, before.r);
    lemma_squared_bound(t.g, before.g);
    lemma_squared_bound(t.b, before.b);
    lemma_squared_bound(t.r, after.r);
    lemma_squared_bound(t.g, after.g);
    lemma_squared_bound(t.b, after.b);
}

/// Computes the incremental delta score of painting `triangle` in `color`
/// onto `current`, measured against `target`. Only the pixels of the
/// triangle's bounding box are visited.
pub fn incremental_delta(
    target: &Canvas,
    current: &Canvas,
    triangle: &Triangle,
    color: Color,
) -> (score: i128)
    requires
        target.wf(),
        current.wf(),
        target.spec_width() == current.spec_width(),
        target.spec_height() == current.spec_height(),
    ensures
        score == delta_score(target, current, *triangle, color),
{
    let w: u32 = target.width();
    let h: u32 = target.height();
    let (x0, y0, x1, y1) = triangle.bounding(w, h);
    let ghost f = delta_at(target, current, *triangle, color);
    let ghost bb = triangle.bounding_box(w, h);
    proof {
        assert forall|x: int, y: int| -195075 <= #[trigger] f(x, y) <= 195075 by {
            lemma_delta_at_bound(target, current, *triangle, color, x, y);
        }
    }
    if x0 >= x1 || y0 >= y1 {
        proof {
            lemma_grid_skip(f, w as int, 0, h as int);
        }
        return 0;
    }
    let mut score: i128 = 0;
    let mut y: i32 = y0;
    proof {
        lemma_grid_skip(f, w as int, 0, y0 as int);
    }
    while y < y1
        invariant
            y0 <= y <= y1,
            0 <= x0 < x1 <= w,
            0 <= y0 < y1 <= h,
            w == target.spec_width(),
            h == target.spec_height(),
            target.wf(),
            current.wf(),
            target.spec_width() == current.spec_width(),
            target.spec_height() == current.spec_height(),
            bb == triangle.bounding_box(w, h),
            bb == (x0 as int, y0 as int, x1 as int, y1 as int),
            f == delta_at(target, current, *triangle, color),
            forall|x: int, y: int| -195075 <= #[trigger] f(x, y) <= 195075,
            score == grid_sum(f, w as int, y as int),
        decreases y1 - y,
    {
        let mut x: i32 = x0;
        proof {
            lemma_row_skip(f, y as int, 0, x0 as int);
            lemma_grid_bounds(f, w as int, y as int, -195075, 195075);
            lemma_cell_count(w, h, 0, y as int);
        }
        while x < x1
            invariant
                x0 <= x <= x1,
                y0 <= y < y1,
                0 <= x0 < x1 <= w,
                0 <= y0 < y1 <= h,
                w == target.spec_width(),
                h == target.spec_height(),
                target.wf(),
                current.wf(),
                target.spec_width() == current.spec_width(),
                target.spec_height() == current.spec_height(),
                bb == triangle.bounding_box(w, h),
                bb == (x0 as int, y0 as int, x1 as int, y1 as int),
                f == delta_at(target, current, *triangle, color),
                forall|x: int, y: int| -195075 <= #[trigger] f(x, y) <= 195075,
                score == grid_sum(f, w as int, y as int) + row_sum(f, y as int, x as int),
                y * w * (-195075) <= grid_sum(f, w as int, y as int) <= y * w * 195075,
                y * w + w <= 0x1_0000_0000_0000_0000,
            decreases x1 - x,
        {
            proof {
                lemma_row_bounds(f, y as int, x as int, -195075, 195075);
                lemma_scaled_cells(w, x as int, y as int, 195075);
                assert(y * w * (-195075) + x * (-195075) == -((y * w + x) * 195075))
                    by (nonlinear_arith);
                assert(in_box(bb, x as int, y as int));
            }
            if triangle.contains(Point { x, y }) {
                let t: Color = target.get(x as u32, y as u32);
                let before: Color = current.get(x as u32, y as u32);
                let after: Color = blend_pixels(before, color);
                score = score + color_error(t, after) as i128 - color_error(t, before) as i128;
            }
            x += 1;
        }
        proof {
            lemma_row_skip(f, y as int, x1 as int, w as int);
        }
        y += 1;
    }
    proof {
        lemma_grid_skip(f, w as int, y1 as int, h as int);
    }
    score
}

/// The incremental delta score of a candidate is the change that painting
/// it makes to the squared error of the whole canvas over red, green and
/// blue: the error of the canvas after, less the error of the canvas before.
/// Nothing outside the footprint contributes, since nothing there changes.
pub proof fn lemma_delta_is_error_change(
    target: &Canvas,
    before: &Canvas,
    after: &Canvas,
    triangle: Triangle,
    color: Color,
)
    requires
        target.wf(),
        before.wf(),
        after.wf(),
        target.spec_width() == before.spec_width() == after.spec_width(),
        target.spec_height() == before.spec_height() == after.spec_height(),
        after@ == painted(
            before@,
            before.spec_width(),
            before.spec_height(),
            ColoredTriangle { triangle, color },
        ),
    ensures
        delta_score(target, before, triangle, color) == total_rgb_error(target, after)
            - total_rgb_error(target, before),
{
    let w = target.spec_width();
    let h = target.spec_height();
    let d = delta_at(target, before, triangle, color);
    let f = rgb_error_at(target, after);
    let g = rgb_error_at(target, before);
    before.lemma_wf();
    assert forall|x: int, y: int| 0 <= x < w && 0 <= y < h implies #[trigger] d(x, y) == f(x, y)
        - g(x, y) by {
        lemma_painted_at(before@, w, h, ColoredTriangle { triangle, color }, x, y);
    }
    lemma_grid_difference(f, g, d, w as int, h as int);
}

/// Candidates rank by their incremental delta scores exactly as they rank
/// by the squared error of the canvas that painting them would leave.
pub proof fn lemma_delta_ranks_as_error(
    target: &Canvas,
    before: &Canvas,
    first: ColoredTriangle,
    after_first: &Canvas,
    second: ColoredTriangle,
    after_second: &Canvas,
)
    requires
        target.wf(),
        before.wf(),
        after_first.wf(),
        after_second.wf(),
        target.spec_width() == before.spec_width() == after_first.spec_width()
            == after_second.spec_width(),
        target.spec_height() == before.spec_height() == after_first.spec_height()
            == after_second.spec_height(),
        after_first@ == painted(before@, before.spec_width(), before.spec_height(), first),
        after_second@ == painted(before@, before.spec_width(), before.spec_height(), second),
    ensures
        delta_score(target, before, first.triangle, first.color) <= delta_score(
            target,
            before,
            second.triangle,
            second.color,
        ) <==> total_rgb_error(target, after_first) <= total_rgb_error(target, after_second),
        delta_score(target, before, first.triangle, first.color) < 0 <==> total_rgb_error(
            target,
            after_first,
        ) < total_rgb_error(target, before),
{
    lemma_delta_is_error_change(target, before, after_first, first.triangle, first.color);
    lemma_delta_is_error_change(target, before, after_second, second.triangle, second.color);
}

} // verus!
