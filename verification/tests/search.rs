use triangle_approx::canvas::Canvas;
use triangle_approx::color::{Color, ColoredTriangle};
use triangle_approx::geometry::{Point, Triangle};
use triangle_approx::scorer::incremental_delta;
use triangle_approx::search::{
    chosen, evaluate_candidate, evaluate_in_sequence, next_triangle, next_triangle_sequential,
    score_candidate, select_best, SearchResult,
};

fn rgba(r: u8, g: u8, b: u8, a: u8) -> Color {
    Color { r, g, b, a }
}

fn tri(ax: i32, ay: i32, bx: i32, by: i32, cx: i32, cy: i32) -> Triangle {
    Triangle {
        a: Point { x: ax, y: ay },
        b: Point { x: bx, y: by },
        c: Point { x: cx, y: cy },
    }
}

fn result(score: i128, marker: i32) -> Option<SearchResult> {
    Some(SearchResult {
        score,
        candidate: ColoredTriangle { triangle: tri(marker, 0, 0, 0, 0, 0), color: rgba(0, 0, 0, 0) },
    })
}

fn covered(t: &Triangle, w: u32, h: u32) -> Vec<(u32, u32)> {
    let (x0, y0, x1, y1) = t.bounding(w, h);
    let mut pixels = Vec::new();
    for y in y0..y1 {
        for x in x0..x1 {
            if t.contains(Point { x, y }) {
                pixels.push((x as u32, y as u32));
            }
        }
    }
    pixels
}

fn has_random_shape(t: &Triangle, w: i32, h: i32) -> bool {
    let hw = w / 5;
    let hh = h / 5;
    -hw <= t.a.x
        && t.a.x < w - 1
        && -hh <= t.a.y
        && t.a.y < h + hw
        && t.a.x + 1 <= t.b.x
        && t.b.x < w + hw
        && -hh <= t.b.y
        && t.b.y < h - 1
        && t.a.x <= t.c.x
        && t.c.x < t.b.x
        && t.b.y <= t.c.y
        && t.c.y < h
}

#[test]
fn random_triangles_have_the_random_shape() {
    for (w, h) in [(64u32, 48u32), (2, 2), (5, 100), (1000, 3)] {
        for _ in 0..500 {
            let t = Triangle::random(w, h);
            assert!(has_random_shape(&t, w as i32, h as i32), "{:?} on {}x{}", t, w, h);
        }
    }
}

#[test]
fn random_triangles_differ() {
    let first = Triangle::random(1000, 1000);
    let mut different = false;
    for _ in 0..50 {
        if Triangle::random(1000, 1000) != first {
            different = true;
        }
    }
    assert!(different);
}

#[test]
fn a_triangle_off_the_canvas_is_discarded() {
    let target = Canvas::filled(8, 8, rgba(255, 0, 0, 255));
    let current = Canvas::filled(8, 8, rgba(0, 255, 0, 255));
    assert_eq!(score_candidate(&target, &current, tri(20, 20, 30, 20, 20, 30), 230), None);
    assert_eq!(score_candidate(&target, &current, tri(-9, -9, -1, -9, -9, -1), 230), None);
    // a box of no height
    assert_eq!(score_candidate(&target, &current, tri(0, 3, 5, 3, 2, 3), 230), None);
}

#[test]
fn a_candidate_takes_the_average_colour_under_it() {
    let mut target = Canvas::filled(4, 4, rgba(0, 0, 0, 255));
    target.set(0, 0, rgba(100, 10, 1, 255));
    target.set(1, 0, rgba(50, 20, 2, 255));
    target.set(0, 1, rgba(30, 40, 4, 255));
    target.set(1, 1, rgba(200, 200, 200, 255));
    let current = Canvas::filled(4, 4, rgba(9, 9, 9, 255));
    // covers (0,0), (1,0) and (0,1): the hypotenuse is x + y = 2, and the
    // box [0,2) x [0,2) holds (1,1), which lies on it
    let t = tri(0, 0, 2, 0, 0, 2);
    assert_eq!(covered(&t, 4, 4), vec![(0, 0), (1, 0), (0, 1), (1, 1)]);
    let r = score_candidate(&target, &current, t, 255).unwrap();
    // red: (100 + 50 + 30 + 200) / 4 = 95, green: 270 / 4 = 67, blue: 207 / 4 = 51
    assert_eq!(r.candidate.color, rgba(95, 67, 51, 255));
    assert_eq!(r.candidate.triangle, t);
    assert_eq!(r.score, incremental_delta(&target, &current, &t, rgba(95, 67, 51, 255)));
    let translucent = score_candidate(&target, &current, t, 77).unwrap();
    assert_eq!(translucent.candidate.color, rgba(95, 67, 51, 77));
}

#[test]
fn the_score_of_a_candidate_is_its_delta() {
    let target = Canvas::filled(8, 8, rgba(255, 0, 0, 255));
    let current = Canvas::filled(8, 8, rgba(0, 255, 0, 255));
    let t = tri(0, 0, 3, 0, 0, 3);
    let r = score_candidate(&target, &current, t, 255).unwrap();
    assert_eq!(r.candidate.color, rgba(255, 0, 0, 255));
    assert_eq!(r.score, -8 * 130050);
}

#[test]
fn no_candidate_on_a_canvas_too_small_to_draw_on() {
    for (w, h) in [(1u32, 1u32), (1, 50), (50, 1), (0, 0), (0, 9)] {
        let target = Canvas::filled(w, h, rgba(1, 2, 3, 255));
        let current = target.clone();
        for _ in 0..20 {
            assert_eq!(evaluate_candidate(&target, &current, 230), None);
        }
        assert_eq!(next_triangle(&target, &current, 100, 230), None);
        assert_eq!(next_triangle_sequential(&target, &current, 100, 230), None);
    }
}

#[test]
fn every_outcome_is_a_scored_random_triangle() {
    let mut target = Canvas::filled(16, 12, rgba(10, 200, 30, 255));
    target.set(3, 4, rgba(250, 0, 0, 255));
    target.set(9, 2, rgba(0, 0, 250, 255));
    let current = Canvas::filled(16, 12, rgba(90, 90, 90, 255));
    let mut found = 0;
    for _ in 0..200 {
        match evaluate_candidate(&target, &current, 200) {
            None => {}
            Some(r) => {
                found += 1;
                let t = r.candidate.triangle;
                assert!(has_random_shape(&t, 16, 12));
                assert!(!covered(&t, 16, 12).is_empty());
                assert_eq!(Some(r), score_candidate(&target, &current, t, 200));
            }
        }
    }
    assert!(found > 0);
}

#[test]
fn select_best_of_nothing_is_nothing() {
    assert_eq!(select_best(&Vec::new()), None);
    assert_eq!(select_best(&vec![None, None, None]), None);
}

#[test]
fn select_best_takes_the_lowest_score() {
    let outcomes = vec![result(5, 0), None, result(-7, 1), result(3, 2), None, result(-2, 3)];
    assert_eq!(select_best(&outcomes), result(-7, 1));
    assert_eq!(select_best(&vec![None, result(4, 9)]), result(4, 9));
    assert_eq!(select_best(&vec![result(i128::MAX, 1), result(i128::MIN, 2)]), result(i128::MIN, 2));
}

#[test]
fn select_best_takes_the_first_of_equal_scores() {
    let outcomes = vec![result(4, 0), result(-1, 1), None, result(-1, 2), result(-1, 3)];
    assert_eq!(select_best(&outcomes), result(-1, 1));
}

#[test]
fn the_lowest_score_does_not_depend_on_the_order() {
    let target = Canvas::filled(16, 16, rgba(200, 40, 90, 255));
    let current = Canvas::filled(16, 16, rgba(20, 20, 20, 255));
    let outcomes = evaluate_in_sequence(&target, &current, 64, 230);
    assert_eq!(outcomes.len(), 64);
    let best = select_best(&outcomes).map(|r| r.score);
    let mut reversed = outcomes.clone();
    reversed.reverse();
    assert_eq!(select_best(&reversed).map(|r| r.score), best);
    let mut rotated = outcomes.clone();
    rotated.rotate_left(17);
    assert_eq!(select_best(&rotated).map(|r| r.score), best);
    let lowest = outcomes.iter().flatten().map(|r| r.score).min();
    assert_eq!(best, lowest);
}

#[test]
fn chosen_is_the_triangle_of_the_best_outcome() {
    let target = Canvas::filled(16, 16, rgba(200, 40, 90, 255));
    let current = Canvas::filled(16, 16, rgba(20, 20, 20, 255));
    let outcomes = evaluate_in_sequence(&target, &current, 32, 230);
    let best = select_best(&outcomes);
    assert_eq!(chosen(&outcomes), best.map(|r| r.candidate));
    assert_eq!(chosen(&vec![None, None]), None);
}

#[test]
fn no_triangle_without_candidates() {
    let target = Canvas::filled(16, 16, rgba(200, 40, 90, 255));
    let current = Canvas::filled(16, 16, rgba(20, 20, 20, 255));
    assert_eq!(next_triangle(&target, &current, 0, 230), None);
    assert_eq!(next_triangle_sequential(&target, &current, 0, 230), None);
    assert!(evaluate_in_sequence(&target, &current, 0, 230).is_empty());
}

#[test]
fn the_next_triangle_is_a_valid_candidate() {
    let target = Canvas::filled(16, 16, rgba(200, 40, 90, 255));
    let current = Canvas::filled(16, 16, rgba(20, 20, 20, 255));
    for pooled in [true, false] {
        let ct = if pooled {
            next_triangle(&target, &current, 200, 230).unwrap()
        } else {
            next_triangle_sequential(&target, &current, 200, 230).unwrap()
        };
        assert!(has_random_shape(&ct.triangle, 16, 16));
        assert!(!covered(&ct.triangle, 16, 16).is_empty());
        assert_eq!(ct.color, rgba(200, 40, 90, 230));
        let scored = score_candidate(&target, &current, ct.triangle, 230).unwrap();
        assert_eq!(scored.candidate, ct);
        // painting the target's own colour over a darker canvas improves it
        assert!(scored.score < 0);
    }
}
