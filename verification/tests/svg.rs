use triangle_approx::color::{Color, ColoredTriangle};
use triangle_approx::geometry::{Point, Triangle};
use triangle_approx::svg::{scale_coordinate, scale_point, Svg};

fn rgba(r: u8, g: u8, b: u8, a: u8) -> Color {
    Color { r, g, b, a }
}

fn colored(ax: i32, ay: i32, bx: i32, by: i32, cx: i32, cy: i32, color: Color) -> ColoredTriangle {
    ColoredTriangle {
        triangle: Triangle {
            a: Point { x: ax, y: ay },
            b: Point { x: bx, y: by },
            c: Point { x: cx, y: cy },
        },
        color,
    }
}

fn text(svg: &Svg) -> String {
    String::from_utf8(svg.document()).unwrap()
}

#[test]
fn coordinates_scale_by_a_ratio() {
    assert_eq!(scale_coordinate(3, 4, 1), 12);
    assert_eq!(scale_coordinate(7, 10, 4), 17);
    assert_eq!(scale_coordinate(63, 640, 64), 630);
    assert_eq!(scale_coordinate(5, 100, 64), 7);
    assert_eq!(scale_coordinate(9, 0, 3), 0);
    assert_eq!(scale_coordinate(0, 7, 3), 0);
}

#[test]
fn scaling_rounds_toward_zero() {
    assert_eq!(scale_coordinate(-3, 1, 2), -1);
    assert_eq!(scale_coordinate(3, 1, 2), 1);
    assert_eq!(scale_coordinate(-7, 10, 4), -17);
    assert_eq!(scale_coordinate(-1, 1, 3), 0);
}

#[test]
fn scaling_saturates() {
    assert_eq!(scale_coordinate(i32::MAX, 4, 1), i32::MAX);
    assert_eq!(scale_coordinate(i32::MIN, 4, 1), i32::MIN);
    assert_eq!(scale_coordinate(i32::MIN, u32::MAX, 1), i32::MIN);
    assert_eq!(scale_coordinate(i32::MAX, u32::MAX, u32::MAX), i32::MAX);
    assert_eq!(scale_coordinate(i32::MIN, 1, 1), i32::MIN);
}

#[test]
fn scaling_by_one_changes_nothing() {
    for v in [i32::MIN, -77, -1, 0, 1, 5, 640, i32::MAX] {
        for n in [1u32, 2, 64, 1000, u32::MAX] {
            assert_eq!(scale_coordinate(v, n, n), v);
        }
    }
}

#[test]
fn points_scale_in_each_direction() {
    assert_eq!(scale_point(Point { x: 10, y: -10 }, 3, 2, 1, 4), Point { x: 15, y: -2 });
}

#[test]
fn scale_moves_every_vertex_and_keeps_the_rest() {
    let red = rgba(255, 0, 0, 230);
    let blue = rgba(0, 0, 255, 10);
    let mut svg = Svg {
        background: rgba(1, 2, 3, 255),
        triangles: vec![colored(0, 1, 2, 3, 4, 5, red), colored(-6, 7, 63, -9, 10, 64, blue)],
        width: 640,
        height: 128,
    };
    svg.scale(640, 64, 128, 64);
    assert_eq!(
        svg.triangles,
        vec![colored(0, 2, 20, 6, 40, 10, red), colored(-60, 14, 630, -18, 100, 128, blue)]
    );
    assert_eq!(svg.background, rgba(1, 2, 3, 255));
    assert_eq!((svg.width, svg.height), (640, 128));
}

#[test]
fn document_of_an_image_without_triangles() {
    let svg = Svg { background: rgba(255, 128, 0, 255), triangles: vec![], width: 640, height: 480 };
    let expected = "<?xml version=\"1.0\" standalone=\"no\"?>\n    \
        <svg viewBox = \"0 0 640 480\" version = \"1.1\" xmlns=\"http://www.w3.org/2000/svg\">\n        \
        <rect x=\"0\" y=\"0\" width=\"640\" height=\"480\" fill=\"#ff8000\"/>\n\
        </svg>\n";
    assert_eq!(text(&svg), expected);
}

#[test]
fn document_lists_the_triangles_in_order() {
    let svg = Svg {
        background: rgba(10, 5, 15, 255),
        triangles: vec![
            colored(1, 2, 30, 4, 5, 60, rgba(90, 120, 200, 230)),
            colored(-12, 0, 7, -3, 1000, 2, rgba(0, 255, 9, 255)),
            colored(0, 0, 0, 0, 0, 0, rgba(1, 2, 3, 0)),
        ],
        width: 8,
        height: 9,
    };
    let expected = "<?xml version=\"1.0\" standalone=\"no\"?>\n    \
        <svg viewBox = \"0 0 8 9\" version = \"1.1\" xmlns=\"http://www.w3.org/2000/svg\">\n        \
        <rect x=\"0\" y=\"0\" width=\"8\" height=\"9\" fill=\"#0a050f\"/>\n    \
        <polygon points=\"1 2, 30 4, 5 60\" fill=\"#5a78c8\" fill-opacity=\"0.902\" />\n    \
        <polygon points=\"-12 0, 7 -3, 1000 2\" fill=\"#00ff09\" fill-opacity=\"1.000\" />\n    \
        <polygon points=\"0 0, 0 0, 0 0\" fill=\"#010203\" fill-opacity=\"0.000\" />\n\
        </svg>\n";
    assert_eq!(text(&svg), expected);
}

#[test]
fn document_writes_extreme_numbers() {
    let svg = Svg {
        background: rgba(0, 0, 0, 0),
        triangles: vec![colored(i32::MIN, i32::MAX, 0, 0, 0, 0, rgba(255, 255, 255, 128))],
        width: u32::MAX,
        height: 0,
    };
    let doc = text(&svg);
    assert!(doc.contains("viewBox = \"0 0 4294967295 0\""));
    assert!(doc.contains("width=\"4294967295\" height=\"0\" fill=\"#000000\""));
    assert!(doc.contains("points=\"-2147483648 2147483647, 0 0, 0 0\""));
    assert!(doc.contains("fill=\"#ffffff\" fill-opacity=\"0.502\""));
}
