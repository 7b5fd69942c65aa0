use triangle_approx::canvas::{resize_is_possible, Canvas};
use triangle_approx::color::Color;

fn rgba(r: u8, g: u8, b: u8, a: u8) -> Color {
    Color { r, g, b, a }
}

fn sample() -> Canvas {
    let mut c = Canvas::new(2, 2);
    c.set(0, 0, rgba(1, 2, 3, 4));
    c.set(1, 0, rgba(5, 6, 7, 8));
    c.set(0, 1, rgba(9, 10, 11, 12));
    c.set(1, 1, rgba(13, 14, 15, 16));
    c
}

#[test]
fn new_canvas_is_zeroed() {
    let c = Canvas::new(3, 2);
    assert_eq!(c.width(), 3);
    assert_eq!(c.height(), 2);
    for y in 0..2 {
        for x in 0..3 {
            assert_eq!(c.get(x, y), rgba(0, 0, 0, 0));
        }
    }
    assert_eq!(c.to_rgba_bytes(), vec![0u8; 24]);
}

#[test]
fn empty_canvas_has_no_pixels() {
    let c = Canvas::new(0, 5);
    assert_eq!(c.width(), 0);
    assert_eq!(c.height(), 5);
    assert!(c.to_rgba_bytes().is_empty());
}

#[test]
fn set_changes_one_pixel() {
    let mut c = Canvas::filled(3, 2, rgba(9, 9, 9, 9));
    c.set(2, 1, rgba(1, 2, 3, 4));
    for y in 0..2 {
        for x in 0..3 {
            let expected = if (x, y) == (2, 1) { rgba(1, 2, 3, 4) } else { rgba(9, 9, 9, 9) };
            assert_eq!(c.get(x, y), expected);
        }
    }
}

#[test]
fn pixels_are_stored_row_by_row() {
    let c = sample();
    assert_eq!(c.to_rgba_bytes(), vec![1, 2, 3, 4, 5, 6, 7, 8, 9, 10, 11, 12, 13, 14, 15, 16]);
}

#[test]
fn fill_sets_every_pixel() {
    let mut c = sample();
    c.fill(rgba(7, 8, 9, 255));
    for y in 0..2 {
        for x in 0..2 {
            assert_eq!(c.get(x, y), rgba(7, 8, 9, 255));
        }
    }
    assert_eq!((c.width(), c.height()), (2, 2));
}

#[test]
fn blend_with_zero_opacity_changes_nothing() {
    let mut c = sample();
    let before = c.to_rgba_bytes();
    c.blend_over(1, 0, rgba(200, 100, 50, 0));
    assert_eq!(c.to_rgba_bytes(), before);
    let mut one = Canvas::filled(1, 1, rgba(10, 20, 30, 40));
    one.blend_over(0, 0, rgba(200, 100, 50, 0));
    assert_eq!(one.get(0, 0), rgba(10, 20, 30, 40));
}

#[test]
fn blend_with_full_opacity_replaces_the_pixel() {
    let mut c = sample();
    c.blend_over(1, 0, rgba(200, 100, 50, 255));
    assert_eq!(c.get(1, 0), rgba(200, 100, 50, 255));
    assert_eq!(c.get(0, 0), rgba(1, 2, 3, 4));
    assert_eq!(c.get(0, 1), rgba(9, 10, 11, 12));
    assert_eq!(c.get(1, 1), rgba(13, 14, 15, 16));
}

#[test]
fn blend_mixes_a_translucent_colour() {
    let mut c = Canvas::filled(2, 1, rgba(255, 0, 0, 255));
    c.blend_over(0, 0, rgba(0, 0, 255, 128));
    assert_eq!(c.get(0, 0), rgba(127, 0, 128, 254));
    assert_eq!(c.get(1, 0), rgba(255, 0, 0, 255));
    let mut one = Canvas::filled(1, 1, rgba(10, 20, 30, 40));
    one.blend_over(0, 0, rgba(200, 100, 50, 60));
    assert_eq!(one.get(0, 0), rgba(135, 72, 43, 90));
}

#[test]
fn clone_is_a_deep_copy() {
    let source = sample();
    let mut copy = source.clone();
    assert_eq!(copy.to_rgba_bytes(), source.to_rgba_bytes());
    copy.set(0, 0, rgba(99, 99, 99, 99));
    assert_eq!(source.get(0, 0), rgba(1, 2, 3, 4));
    assert_eq!(copy.get(0, 0), rgba(99, 99, 99, 99));
}

#[test]
fn average_colour_is_the_channel_mean() {
    // red: (1 + 5 + 9 + 13) / 4 = 7, green: 8, blue: 9
    assert_eq!(sample().average_color(), rgba(7, 8, 9, 255));
    let mut c = Canvas::filled(3, 1, rgba(0, 0, 0, 0));
    c.set(0, 0, rgba(255, 1, 2, 7));
    c.set(1, 0, rgba(255, 1, 0, 7));
    // red: 510 / 3 = 170, green: 2 / 3 = 0, blue: 2 / 3 = 0
    assert_eq!(c.average_color(), rgba(170, 0, 0, 255));
}

#[test]
fn average_colour_of_an_empty_canvas_is_opaque_black() {
    assert_eq!(Canvas::new(0, 0).average_color(), rgba(0, 0, 0, 255));
    assert_eq!(Canvas::new(4, 0).average_color(), rgba(0, 0, 0, 255));
}

#[test]
fn bytes_round_trip() {
    let bytes: Vec<u8> = (0..24).collect();
    let c = Canvas::from_rgba_bytes(3, 2, &bytes).unwrap();
    assert_eq!(c.get(0, 0), rgba(0, 1, 2, 3));
    assert_eq!(c.get(2, 0), rgba(8, 9, 10, 11));
    assert_eq!(c.get(0, 1), rgba(12, 13, 14, 15));
    assert_eq!(c.get(2, 1), rgba(20, 21, 22, 23));
    assert_eq!(c.to_rgba_bytes(), bytes);
}

#[test]
fn bytes_of_the_wrong_length_are_refused() {
    let bytes: Vec<u8> = (0..24).collect();
    assert!(Canvas::from_rgba_bytes(3, 3, &bytes).is_none());
    assert!(Canvas::from_rgba_bytes(2, 2, &bytes).is_none());
    assert!(Canvas::from_rgba_bytes(0, 0, &bytes).is_none());
    assert!(Canvas::from_rgba_bytes(0, 7, &Vec::new()).is_some());
}

#[test]
fn resize_up_repeats_pixels() {
    let big = sample().resize(4, 4);
    assert_eq!((big.width(), big.height()), (4, 4));
    for y in 0..4 {
        for x in 0..4 {
            assert_eq!(big.get(x, y), sample().get(x / 2, y / 2));
        }
    }
}

#[test]
fn resize_down_picks_pixels() {
    let mut c = Canvas::new(4, 4);
    for y in 0..4u32 {
        for x in 0..4u32 {
            c.set(x, y, rgba(x as u8, y as u8, 0, 255));
        }
    }
    let small = c.resize(2, 2);
    assert_eq!((small.width(), small.height()), (2, 2));
    assert_eq!(small.get(0, 0), rgba(1, 1, 0, 255));
    assert_eq!(small.get(1, 0), rgba(3, 1, 0, 255));
    assert_eq!(small.get(0, 1), rgba(1, 3, 0, 255));
    assert_eq!(small.get(1, 1), rgba(3, 3, 0, 255));
}

#[test]
fn resize_to_another_shape() {
    let odd = sample().resize(3, 1);
    assert_eq!(odd.to_rgba_bytes(), vec![9, 10, 11, 12, 13, 14, 15, 16, 13, 14, 15, 16]);
}

#[test]
fn resize_to_the_same_size_is_a_copy() {
    let same = sample().resize(2, 2);
    assert_eq!(same.to_rgba_bytes(), sample().to_rgba_bytes());
}

#[test]
fn resize_to_nothing() {
    let none = sample().resize(0, 3);
    assert_eq!((none.width(), none.height()), (0, 3));
    assert!(none.to_rgba_bytes().is_empty());
    let from_none = Canvas::new(0, 0).resize(2, 2);
    assert_eq!(from_none.to_rgba_bytes(), vec![0u8; 16]);
}

#[test]
fn resize_limits() {
    assert!(sample().can_resize(64, 64));
    assert!(sample().can_resize(0, 0));
    assert!(!sample().can_resize(u32::MAX, u32::MAX));
    assert!(resize_is_possible(1000, 1000, 64, 64));
    assert!(!resize_is_possible(u32::MAX, 10, 10, u32::MAX));
    assert!(resize_is_possible(0, 10, 10, 10));
}
