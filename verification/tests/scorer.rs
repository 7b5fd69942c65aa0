use triangle_approx::canvas::Canvas;
use triangle_approx::color::{Color, ColoredTriangle};
use triangle_approx::geometry::{Point, Triangle};
use triangle_approx::raster::rasterize_triangle;
use triangle_approx::scorer::{color_error, full_metric, incremental_delta};

fn rgba(r: u8, g: u8, b: u8, a: u8) -> Color {
    Color { r, g, b, a }
}

fn tri(ax: i32, ay: i32, bx: i32, by: i32, cx: i32, cy: i32) -> Triangle {
    Triangle {
        a: Point { x: ax, y: ay },
        b: Point { x: bx, y: by },
        c: Point { x: cx, y: cy },
    }
}

/// The squared error over red, green and blue, summed over every pixel.
fn total_rgb_error(a: &Canvas, b: &Canvas) -> i128 {
    let mut total: i128 = 0;
    for y in 0..a.height() {
        for x in 0..a.width() {
            total += color_error(a.get(x, y), b.get(x, y)) as i128;
        }
    }
    total
}

fn painted(before: &Canvas, triangle: Triangle, color: Color) -> Canvas {
    let mut after = before.clone();
    rasterize_triangle(&mut after, ColoredTriangle { triangle, color });
    after
}

#[test]
fn colour_error_is_the_sum_of_squares() {
    assert_eq!(color_error(rgba(255, 0, 0, 255), rgba(0, 0, 255, 0)), 130050);
    assert_eq!(color_error(rgba(10, 20, 30, 0), rgba(13, 16, 30, 200)), 25);
    assert_eq!(color_error(rgba(1, 2, 3, 4), rgba(1, 2, 3, 99)), 0);
    assert_eq!(color_error(rgba(0, 0, 0, 0), rgba(255, 255, 255, 0)), 195075);
}

#[test]
fn full_metric_of_equal_canvases_is_zero() {
    let a = Canvas::filled(5, 4, rgba(1, 2, 3, 4));
    assert_eq!(full_metric(&a, &a.clone()), 0);
}

#[test]
fn full_metric_is_the_mean_over_pixels() {
    let a = Canvas::filled(2, 1, rgba(0, 0, 0, 0));
    let mut b = Canvas::filled(2, 1, rgba(0, 0, 0, 0));
    b.set(0, 0, rgba(3, 4, 0, 0));
    // (9 + 16) / 2 pixels, rounded down
    assert_eq!(full_metric(&a, &b), 12);
    b.set(1, 0, rgba(0, 0, 0, 5));
    // (25 + 25) / 2
    assert_eq!(full_metric(&a, &b), 25);
}

#[test]
fn full_metric_counts_all_four_channels() {
    let a = Canvas::filled(3, 3, rgba(0, 0, 0, 0));
    let b = Canvas::filled(3, 3, rgba(255, 255, 255, 255));
    assert_eq!(full_metric(&a, &b), 260100);
}

#[test]
fn full_metric_of_empty_canvases_is_zero() {
    assert_eq!(full_metric(&Canvas::new(0, 3), &Canvas::new(0, 3)), 0);
}

#[test]
fn delta_is_zero_without_coverage() {
    let target = Canvas::filled(8, 8, rgba(255, 0, 0, 255));
    let current = Canvas::filled(8, 8, rgba(0, 255, 0, 255));
    let off = tri(20, 20, 30, 20, 20, 30);
    assert_eq!(incremental_delta(&target, &current, &off, rgba(0, 0, 255, 255)), 0);
}

#[test]
fn delta_of_an_opaque_triangle() {
    // The box of this triangle is [0,3) x [0,3); of its nine pixels all but
    // (2,2) lie on or under the hypotenuse x + y = 3, so eight are covered.
    let target = Canvas::filled(8, 8, rgba(255, 0, 0, 255));
    let current = Canvas::filled(8, 8, rgba(0, 255, 0, 255));
    let t = tri(0, 0, 3, 0, 0, 3);
    // before: 255^2 + 255^2 per pixel; after blue: 255^2 + 255^2 per pixel
    assert_eq!(incremental_delta(&target, &current, &t, rgba(0, 0, 255, 255)), 0);
    // after red: 0 per pixel, so each of the eight pixels improves by 130050
    assert_eq!(incremental_delta(&target, &current, &t, rgba(255, 0, 0, 255)), -8 * 130050);
    // after black: 255^2 per pixel, so each improves by 65025
    assert_eq!(incremental_delta(&target, &current, &t, rgba(0, 0, 0, 255)), -8 * 65025);
}

#[test]
fn delta_equals_the_change_of_the_whole_error() {
    let target = Canvas::filled(8, 8, rgba(255, 0, 0, 255));
    let current = Canvas::filled(8, 8, rgba(40, 90, 20, 255));
    let blue = rgba(0, 0, 255, 180);
    let candidates = [
        (tri(0, 0, 3, 0, 0, 3), blue),
        (tri(-2, -2, 12, 3, 2, 12), rgba(250, 10, 10, 230)),
        (tri(1, 1, 6, 2, 3, 7), rgba(128, 128, 128, 90)),
        (tri(7, 0, 0, 7, 7, 7), rgba(255, 0, 0, 255)),
        (tri(0, 0, 8, 0, 4, 8), rgba(9, 9, 9, 0)),
        (tri(20, 20, 30, 20, 20, 30), blue),
    ];
    let before = total_rgb_error(&target, &current);
    for (triangle, color) in candidates {
        let delta = incremental_delta(&target, &current, &triangle, color);
        let after = total_rgb_error(&target, &painted(&current, triangle, color));
        assert_eq!(delta, after - before);
    }
}

#[test]
fn delta_ranks_candidates_as_the_whole_error_does() {
    let target = Canvas::filled(8, 8, rgba(255, 0, 0, 255));
    let current = Canvas::filled(8, 8, rgba(40, 90, 20, 255));
    let candidates = [
        (tri(0, 0, 3, 0, 0, 3), rgba(0, 0, 255, 180)),
        (tri(0, 0, 3, 0, 0, 3), rgba(255, 0, 0, 180)),
        (tri(0, 0, 8, 0, 0, 8), rgba(255, 0, 0, 230)),
        (tri(1, 1, 6, 2, 3, 7), rgba(128, 128, 128, 90)),
    ];
    let before = total_rgb_error(&target, &current);
    for (t1, c1) in candidates {
        for (t2, c2) in candidates {
            let d1 = incremental_delta(&target, &current, &t1, c1);
            let d2 = incremental_delta(&target, &current, &t2, c2);
            let e1 = total_rgb_error(&target, &painted(&current, t1, c1));
            let e2 = total_rgb_error(&target, &painted(&current, t2, c2));
            assert_eq!(d1 < d2, e1 < e2);
            assert_eq!(d1 < 0, e1 < before);
        }
    }
    // blue on green against red is worse, red on green is better
    assert!(incremental_delta(&target, &current, &candidates[0].0, candidates[0].1) > 0);
    assert!(incremental_delta(&target, &current, &candidates[1].0, candidates[1].1) < 0);
}
