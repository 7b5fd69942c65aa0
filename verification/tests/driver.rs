use triangle_approx::canvas::Canvas;
use triangle_approx::color::{Color, ColoredTriangle};
use triangle_approx::driver::{triangulate, Config, Driver, Error, Phase};
use triangle_approx::geometry::{Point, Triangle};
use triangle_approx::raster::{rasterize_triangle, render};
use triangle_approx::scorer::full_metric;

fn rgba(r: u8, g: u8, b: u8, a: u8) -> Color {
    Color { r, g, b, a }
}

fn colored(ax: i32, ay: i32, bx: i32, by: i32, cx: i32, cy: i32, color: Color) -> ColoredTriangle {
    ColoredTriangle {
        triangle: Triangle {
            a: Point { x: ax, y: ay },
            b: Point { x: bx, y: by },
            c: Point { x: cx, y: cy },
        },
        color,
    }
}

fn tiles(w: u32, h: u32) -> Canvas {
    let mut c = Canvas::new(w, h);
    for y in 0..h {
        for x in 0..w {
            let v = if (x / 4 + y / 4) % 2 == 0 { 230 } else { 20 };
            c.set(x, y, rgba(v, (x * 7 % 256) as u8, (y * 11 % 256) as u8, 255));
        }
    }
    c
}

#[test]
fn default_configuration() {
    let config = Config::default();
    assert_eq!(config.triangle_count, 10);
    assert_eq!(config.candidates_per_round, 10_000);
    assert_eq!(config.opacity, 230);
    assert_eq!(config.proxy_size, 64);
}

#[test]
fn rasterize_paints_the_footprint_only() {
    let mut c = Canvas::filled(4, 4, rgba(1, 1, 1, 255));
    rasterize_triangle(&mut c, colored(0, 0, 2, 0, 0, 2, rgba(200, 100, 50, 255)));
    for y in 0..4u32 {
        for x in 0..4u32 {
            let inside = x < 2 && y < 2;
            let expected = if inside { rgba(200, 100, 50, 255) } else { rgba(1, 1, 1, 255) };
            assert_eq!(c.get(x, y), expected, "at {} {}", x, y);
        }
    }
}

#[test]
fn rasterize_blends_translucent_colours() {
    let mut c = Canvas::filled(3, 3, rgba(255, 0, 0, 255));
    rasterize_triangle(&mut c, colored(0, 0, 1, 0, 0, 1, rgba(0, 0, 255, 128)));
    assert_eq!(c.get(0, 0), rgba(127, 0, 128, 254));
    assert_eq!(c.get(1, 0), rgba(255, 0, 0, 255));
    assert_eq!(c.get(0, 1), rgba(255, 0, 0, 255));
}

#[test]
fn rasterize_off_the_canvas_changes_nothing() {
    let mut c = tiles(8, 8);
    let before = c.to_rgba_bytes();
    rasterize_triangle(&mut c, colored(20, 20, 30, 20, 20, 30, rgba(0, 0, 255, 255)));
    rasterize_triangle(&mut c, colored(-9, -9, -1, -9, -9, -1, rgba(0, 0, 255, 255)));
    assert_eq!(c.to_rgba_bytes(), before);
}

#[test]
fn render_paints_in_order() {
    let red = colored(0, 0, 4, 0, 0, 4, rgba(255, 0, 0, 255));
    let blue = colored(0, 0, 2, 0, 0, 2, rgba(0, 0, 255, 255));
    let first = render(4, 4, rgba(0, 0, 0, 255), &vec![red, blue]);
    assert_eq!(first.get(0, 0), rgba(0, 0, 255, 255));
    assert_eq!(first.get(3, 0), rgba(255, 0, 0, 255));
    assert_eq!(first.get(3, 3), rgba(0, 0, 0, 255));
    let second = render(4, 4, rgba(0, 0, 0, 255), &vec![blue, red]);
    assert_eq!(second.get(0, 0), rgba(255, 0, 0, 255));
    let none = render(3, 2, rgba(7, 8, 9, 255), &Vec::new());
    assert_eq!(none.to_rgba_bytes(), Canvas::filled(3, 2, rgba(7, 8, 9, 255)).to_rgba_bytes());
}

#[test]
fn uniform_image_gets_every_triangle_and_no_error() {
    let color = rgba(90, 120, 200, 255);
    let image = Canvas::filled(8, 8, color);
    let config =
        Config { triangle_count: 5, candidates_per_round: 50, opacity: 230, proxy_size: 0 };
    let out = triangulate(&image, &config).unwrap();
    assert_eq!(out.vector.triangles.len(), 5);
    assert_eq!(out.vector.background, color);
    assert_eq!((out.vector.width, out.vector.height), (8, 8));
    for ct in &out.vector.triangles {
        assert_eq!(ct.color, rgba(90, 120, 200, 230));
    }
    assert_eq!(full_metric(&image, &out.raster), 0);
    assert_eq!(out.raster.to_rgba_bytes(), image.to_rgba_bytes());
}

#[test]
fn uniform_image_through_a_proxy() {
    let color = rgba(90, 120, 200, 255);
    let image = Canvas::filled(16, 12, color);
    let config =
        Config { triangle_count: 4, candidates_per_round: 50, opacity: 230, proxy_size: 4 };
    let out = triangulate(&image, &config).unwrap();
    assert_eq!(out.vector.triangles.len(), 4);
    assert_eq!((out.vector.width, out.vector.height), (16, 12));
    assert_eq!((out.raster.width(), out.raster.height()), (16, 12));
    assert_eq!(full_metric(&image, &out.raster), 0);
}

#[test]
fn opaque_triangles_reproduce_a_uniform_image_of_any_colour() {
    // with a translucent source the floating-point blend may come out one
    // below the colour that both pixels share; with an opaque one it cannot
    let color = rgba(27, 54, 79, 255);
    let image = Canvas::filled(8, 8, color);
    let config =
        Config { triangle_count: 6, candidates_per_round: 30, opacity: 255, proxy_size: 0 };
    let out = triangulate(&image, &config).unwrap();
    assert_eq!(out.vector.triangles.len(), 6);
    assert_eq!(full_metric(&image, &out.raster), 0);
}

#[test]
fn no_triangles_asked_for() {
    let image = tiles(8, 8);
    let config = Config { triangle_count: 0, candidates_per_round: 0, opacity: 230, proxy_size: 0 };
    let out = triangulate(&image, &config).unwrap();
    assert!(out.vector.triangles.is_empty());
    let background = image.average_color();
    assert_eq!(out.vector.background, background);
    assert_eq!(out.raster.to_rgba_bytes(), Canvas::filled(8, 8, background).to_rgba_bytes());
}

#[test]
fn a_canvas_too_small_exhausts_the_search() {
    let image = Canvas::filled(1, 1, rgba(5, 5, 5, 255));
    let config =
        Config { triangle_count: 3, candidates_per_round: 20, opacity: 230, proxy_size: 0 };
    assert_eq!(triangulate(&image, &config).err(), Some(Error::SearchExhausted));
    let proxied =
        Config { triangle_count: 3, candidates_per_round: 20, opacity: 230, proxy_size: 1 };
    assert_eq!(triangulate(&tiles(8, 8), &proxied).err(), Some(Error::SearchExhausted));
}

#[test]
fn a_round_without_candidates_exhausts_the_search() {
    let image = tiles(8, 8);
    let config = Config { triangle_count: 1, candidates_per_round: 0, opacity: 230, proxy_size: 0 };
    assert_eq!(triangulate(&image, &config).err(), Some(Error::SearchExhausted));
}

#[test]
fn the_raster_is_the_replay_of_the_triangles() {
    let image = tiles(16, 16);
    let config =
        Config { triangle_count: 8, candidates_per_round: 100, opacity: 200, proxy_size: 0 };
    let out = triangulate(&image, &config).unwrap();
    assert_eq!(out.vector.triangles.len(), 8);
    let replay = render(16, 16, out.vector.background, &out.vector.triangles);
    assert_eq!(replay.to_rgba_bytes(), out.raster.to_rgba_bytes());
}

#[test]
fn a_proxy_of_the_image_size_changes_nothing() {
    let image = tiles(16, 16);
    let config =
        Config { triangle_count: 6, candidates_per_round: 100, opacity: 200, proxy_size: 16 };
    let out = triangulate(&image, &config).unwrap();
    let replay = render(16, 16, out.vector.background, &out.vector.triangles);
    assert_eq!(replay.to_rgba_bytes(), out.raster.to_rgba_bytes());
}

#[test]
fn a_proxy_keeps_the_output_at_full_size() {
    let image = tiles(40, 24);
    let config =
        Config { triangle_count: 5, candidates_per_round: 100, opacity: 230, proxy_size: 8 };
    let out = triangulate(&image, &config).unwrap();
    assert_eq!(out.vector.triangles.len(), 5);
    assert_eq!((out.vector.width, out.vector.height), (40, 24));
    assert_eq!((out.raster.width(), out.raster.height()), (40, 24));
    assert_eq!(out.vector.background, image.average_color());
    for ct in &out.vector.triangles {
        // proxy coordinates lie in [-1, 9); scaled by 40 / 8 and 24 / 8
        for p in [ct.triangle.a, ct.triangle.b, ct.triangle.c] {
            assert!(-5 <= p.x && p.x <= 45);
            assert!(-3 <= p.y && p.y <= 27);
            assert_eq!(p.x % 5, 0);
            assert_eq!(p.y % 3, 0);
        }
        assert_eq!(ct.color.a, 230);
    }
}

#[test]
fn the_search_improves_the_approximation() {
    let image = tiles(16, 16);
    let config =
        Config { triangle_count: 1, candidates_per_round: 300, opacity: 230, proxy_size: 0 };
    let out = triangulate(&image, &config).unwrap();
    let flat = Canvas::filled(16, 16, image.average_color());
    assert!(full_metric(&image, &out.raster) < full_metric(&image, &flat));
}

#[test]
fn driver_steps_through_the_rounds() {
    let image = tiles(8, 8);
    let config = Config { triangle_count: 2, candidates_per_round: 50, opacity: 255, proxy_size: 0 };
    assert!(Driver::fits(&image, &config));
    let mut driver = Driver::start(&image, &config);
    assert_eq!(driver.phase(), Phase::Round);
    let first = colored(0, 0, 4, 0, 0, 4, rgba(255, 0, 0, 255));
    let second = colored(0, 0, 2, 0, 0, 2, rgba(0, 0, 255, 255));
    driver.advance(Some(first));
    assert_eq!(driver.phase(), Phase::Round);
    driver.advance(Some(second));
    assert_eq!(driver.phase(), Phase::Finalize);
    let out = driver.finish().unwrap();
    assert_eq!(out.vector.triangles, vec![first, second]);
    let expected = render(8, 8, image.average_color(), &vec![first, second]);
    assert_eq!(out.raster.to_rgba_bytes(), expected.to_rgba_bytes());
}

#[test]
fn driver_fails_on_a_round_without_selection() {
    let image = tiles(8, 8);
    let config = Config { triangle_count: 3, candidates_per_round: 50, opacity: 255, proxy_size: 0 };
    let mut driver = Driver::start(&image, &config);
    driver.advance(Some(colored(0, 0, 4, 0, 0, 4, rgba(255, 0, 0, 255))));
    driver.advance(None);
    assert_eq!(driver.phase(), Phase::Failed);
    assert_eq!(driver.finish().err(), Some(Error::SearchExhausted));
}

#[test]
fn driver_searches_against_its_own_state() {
    let image = tiles(8, 8);
    let config = Config { triangle_count: 1, candidates_per_round: 80, opacity: 230, proxy_size: 0 };
    let driver = Driver::start(&image, &config);
    let ct = driver.search().unwrap();
    assert_eq!(ct.color.a, 230);
    let (x0, y0, x1, y1) = ct.triangle.bounding(8, 8);
    assert!(x0 < x1 && y0 < y1);
}

#[test]
fn driver_finishes_through_a_proxy() {
    let image = tiles(16, 8);
    let config = Config { triangle_count: 1, candidates_per_round: 50, opacity: 255, proxy_size: 4 };
    let mut driver = Driver::start(&image, &config);
    let placed = colored(-1, 0, 4, 1, 2, 3, rgba(9, 8, 7, 255));
    driver.advance(Some(placed));
    let out = driver.finish().unwrap();
    // x by 16 / 4, y by 8 / 4
    assert_eq!(out.vector.triangles, vec![colored(-4, 0, 16, 2, 8, 6, rgba(9, 8, 7, 255))]);
    let small = render(4, 4, image.average_color(), &vec![placed]);
    assert_eq!(out.raster.to_rgba_bytes(), small.resize(16, 8).to_rgba_bytes());
}

#[test]
fn a_run_fits_unless_the_sizes_are_huge() {
    let image = tiles(8, 8);
    assert!(Driver::fits(&image, &Config::default()));
    let huge = Config { triangle_count: 1, candidates_per_round: 1, opacity: 1, proxy_size: u32::MAX };
    assert!(!Driver::fits(&image, &huge));
    let none = Config { triangle_count: 1, candidates_per_round: 1, opacity: 1, proxy_size: 0 };
    assert!(Driver::fits(&image, &none));
}
