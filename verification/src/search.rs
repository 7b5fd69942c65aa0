//! Candidate search: random triangles, each coloured and scored against the
//! target, and the choice of the best of them.

use crate::canvas::Canvas;
use crate::color::{channel, Color, ColoredTriangle};
use crate::geometry::{in_box, Point, Triangle};
use crate::scorer::{delta_score, incremental_delta};
use crate::sums::{
    grid_sum, lemma_cell_count, lemma_grid_bounds, lemma_grid_skip, lemma_mean_bound,
    lemma_row_bounds, lemma_row_skip, lemma_scaled_cells, row_sum, PixelFn,
};
use rayon::iter::{IntoParallelIterator, ParallelIterator};
use vstd::prelude::*;

verus! {

/// The gap kept between the first two vertices of a random triangle.
pub const PAD: i32 = 1;

/// The longest canvas side for which triangles are drawn: with the overscan
/// margin added, every coordinate still fits in an `i32`.
pub const MAX_SIDE: u32 = 0x4000_0000;

/// One scored candidate. A lower score is strictly better.
#[derive(Clone, Copy, Debug, PartialEq, Eq, Structural)]
pub struct SearchResult {
    pub score: i128,
    pub candidate: ColoredTriangle,
}

/// One at each pixel of the triangle's footprint, zero elsewhere.
pub open spec fn coverage_at(triangle: Triangle, w: u32, h: u32) -> PixelFn {
    |x: int, y: int|
        if triangle.footprint(w, h, x, y) {
            1int
        } else {
            0int
        }
}

/// The number of pixels that the triangle covers on a `w` by `h` canvas.
pub open spec fn coverage(triangle: Triangle, w: u32, h: u32) -> int {
    grid_sum(coverage_at(triangle, w, h), w as int, h as int)
}

/// A triangle covers no fewer than zero and no more than all pixels.
pub proof fn lemma_coverage_bounds(triangle: Triangle, w: u32, h: u32)
    ensures
        0 <= coverage(triangle, w, h) <= h * w,
{
    lemma_grid_bounds(coverage_at(triangle, w, h), w as int, h as int, 0, 1);
    assert(h * w * 0 == 0 && h * w * 1 == h * w) by (nonlinear_arith);
}

/// Channel `k` of the target at each pixel of the triangle's footprint, zero
/// elsewhere.
pub open spec fn channel_under(target: &Canvas, triangle: Triangle, k: int) -> PixelFn {
    |x: int, y: int|
        if triangle.footprint(target.spec_width(), target.spec_height(), x, y) {
            channel(target.at(x, y), k)
        } else {
            0int
        }
}

/// The sum of channel `k` of the target over the triangle's footprint.
pub open spec fn channel_total(target: &Canvas, triangle: Triangle, k: int) -> int {
    grid_sum(
        channel_under(target, triangle, k),
        target.spec_width() as int,
        target.spec_height() as int,
    )
}

/// The colour of a candidate: channel by channel the mean of the target over
/// the triangle's footprint, rounded down, with the given opacity.
pub open spec fn average_under(target: &Canvas, triangle: Triangle, opacity: u8) -> Color {
    let n = coverage(triangle, target.spec_width(), target.spec_height());
    Color {
        r: (channel_total(target, triangle, 0) / n) as u8,
        g: (channel_total(target, triangle, 1) / n) as u8,
        b: (channel_total(target, triangle, 2) / n) as u8,
        a: opacity,
    }
}

/// What evaluating `triangle` yields: nothing when it covers no pixel, else
/// the triangle in its average colour with its incremental delta score.
pub open spec fn scored(
    target: &Canvas,
    current: &Canvas,
    triangle: Triangle,
    opacity: u8,
) -> Option<SearchResult> {
    if coverage(triangle, target.spec_width(), target.spec_height()) == 0 {
        None
    } else {
        let color = average_under(target, triangle, opacity);
        Some(
            SearchResult {
                score: delta_score(target, current, triangle, color) as i128,
                candidate: ColoredTriangle { triangle, color },
            },
        )
    }
}

/// Colours and scores one given triangle: the part of a candidate's
/// evaluation that follows the random draw. Returns nothing exactly when the
/// triangle covers no pixel of the canvas.
pub fn score_candidate(
    target: &Canvas,
    current: &Canvas,
    triangle: Triangle,
    opacity: u8,
) -> (result: Option<SearchResult>)
    requires
        target.wf(),
        current.wf(),
        target.spec_width() == current.spec_width(),
        target.spec_height() == current.spec_height(),
    ensures
        result == scored(target, current, triangle, opacity),
        result is None <==> coverage(triangle, target.spec_width(), target.spec_height()) == 0,
        result matches Some(r) ==> {
            let n = coverage(triangle, target.spec_width(), target.spec_height());
            &&& r.candidate.triangle == triangle
            &&& r.candidate.color.r == channel_total(target, triangle, 0) / n
            &&& r.candidate.color.g == channel_total(target, triangle, 1) / n
            &&& r.candidate.color.b == channel_total(target, triangle, 2) / n
            &&& r.candidate.color.a == opacity
            &&& r.score == delta_score(target, current, triangle, r.candidate.color)
        },
{
    let w: u32 = target.width();
    let h: u32 = target.height();
    let (x0, y0, x1, y1) = triangle.bounding(w, h);
    let ghost bb = triangle.bounding_box(w, h);
    let ghost cov = coverage_at(triangle, w, h);
    let ghost red = channel_under(target, triangle, 0);
    let ghost green = channel_under(target, triangle, 1);
    let ghost blue = channel_under(target, triangle, 2);
    if x0 >= x1 || y0 >= y1 {
        proof {
            lemma_grid_skip(cov, w as int, 0, h as int);
        }
        return None;
    }
    let mut count: u64 = 0;
    let mut sum_r: u128 = 0;
    let mut sum_g: u128 = 0;
    let mut sum_b: u128 = 0;
    let mut y: i32 = y0;
    proof {
        lemma_grid_skip(cov, w as int, 0, y0 as int);
        lemma_grid_skip(red, w as int, 0, y0 as int);
        lemma_grid_skip(green, w as int, 0, y0 as int);
        lemma_grid_skip(blue, w as int, 0, y0 as int);
    }
    while y < y1
        invariant
            y0 <= y <= y1,
            0 <= x0 < x1 <= w,
            0 <= y0 < y1 <= h,
            w == target.spec_width(),
            h == target.spec_height(),
            target.wf(),
            bb == triangle.bounding_box(w, h),
            bb == (x0 as int, y0 as int, x1 as int, y1 as int),
            cov == coverage_at(triangle, w, h),
            red == channel_under(target, triangle, 0),
            green == channel_under(target, triangle, 1),
            blue == channel_under(target, triangle, 2),
            count == grid_sum(cov, w as int, y as int),
            sum_r == grid_sum(red, w as int, y as int),
            sum_g == grid_sum(green, w as int, y as int),
            sum_b == grid_sum(blue, w as int, y as int),
            sum_r <= 255 * count,
            sum_g <= 255 * count,
            sum_b <= 255 * count,
        decreases y1 - y,
    {
        let mut x: i32 = x0;
        proof {
            lemma_row_skip(cov, y as int, 0, x0 as int);
            lemma_row_skip(red, y as int, 0, x0 as int);
            lemma_row_skip(green, y as int, 0, x0 as int);
            lemma_row_skip(blue, y as int, 0, x0 as int);
            lemma_grid_bounds(cov, w as int, y as int, 0, 1);
        }
        while x < x1
            invariant
                x0 <= x <= x1,
                y0 <= y < y1,
                0 <= x0 < x1 <= w,
                0 <= y0 < y1 <= h,
                w == target.spec_width(),
                h == target.spec_height(),
                target.wf(),
                bb == triangle.bounding_box(w, h),
                bb == (x0 as int, y0 as int, x1 as int, y1 as int),
                cov == coverage_at(triangle, w, h),
                red == channel_under(target, triangle, 0),
                green == channel_under(target, triangle, 1),
                blue == channel_under(target, triangle, 2),
                count == grid_sum(cov, w as int, y as int) + row_sum(cov, y as int, x as int),
                sum_r == grid_sum(red, w as int, y as int) + row_sum(red, y as int, x as int),
                sum_g == grid_sum(green, w as int, y as int) + row_sum(green, y as int, x as int),
                sum_b == grid_sum(blue, w as int, y as int) + row_sum(blue, y as int, x as int),
                0 <= grid_sum(cov, w as int, y as int) <= y * w * 1,
                sum_r <= 255 * count,
                sum_g <= 255 * count,
                sum_b <= 255 * count,
            decreases x1 - x,
        {
            proof {
                lemma_row_bounds(cov, y as int, x as int, 0, 1);
                lemma_cell_count(w, h, x as int, y as int);
                lemma_scaled_cells(w, x as int, y as int, 1);
                assert(in_box(bb, x as int, y as int));
            }
            if triangle.contains(Point { x, y }) {
                let p: Color = target.get(x as u32, y as u32);
                count = count + 1;
                sum_r = sum_r + p.r as u128;
                sum_g = sum_g + p.g as u128;
                sum_b = sum_b + p.b as u128;
            }
            x += 1;
        }
        proof {
            lemma_row_skip(cov, y as int, x1 as int, w as int);
            lemma_row_skip(red, y as int, x1 as int, w as int);
            lemma_row_skip(green, y as int, x1 as int, w as int);
            lemma_row_skip(blue, y as int, x1 as int, w as int);
        }
        y += 1;
    }
    proof {
        lemma_grid_skip(cov, w as int, y1 as int, h as int);
        lemma_grid_skip(red, w as int, y1 as int, h as int);
        lemma_grid_skip(green, w as int, y1 as int, h as int);
        lemma_grid_skip(blue, w as int, y1 as int, h as int);
    }
    if count == 0 {
        return None;
    }
    proof {
        lemma_mean_bound(sum_r as int, count as int, 255);
        lemma_mean_bound(sum_g as int, count as int, 255);
        lemma_mean_bound(sum_b as int, count as int, 255);
    }
    let color = Color {
        r: (sum_r / count as u128) as u8,
        g: (sum_g / count as u128) as u8,
        b: (sum_b / count as u128) as u8,
        a: opacity,
    };
    let score: i128 = incremental_delta(target, current, &triangle, color);
    Some(SearchResult { score, candidate: ColoredTriangle { triangle, color } })
}

/// `rand::rngs::ThreadRng`, the generator of the calling thread. It is
/// carried through as an opaque value.
#[verifier::external_type_specification]
#[verifier::external_body]
pub struct ExThreadRng(rand::rngs::ThreadRng);

/// `rand::thread_rng` hands out the calling thread's generator. Nothing is
/// claimed of it.
pub assume_specification[ rand::thread_rng ]() -> (rng: rand::rngs::ThreadRng);

/// Calls `rand::Rng::gen_range` on the half-open range from `low` to `high`.
/// Trusted: the value drawn lies in that range. The range must not be empty,
/// since `rand` panics on an empty one.
#[verifier::external_body]
fn sample_between(rng: &mut rand::rngs::ThreadRng, low: i32, high: i32) -> (v: i32)
    requires
        low < high,
    ensures
        low <= v < high,
{
    rand::Rng::gen_range(rng, low..high)
}

/// Triangles can be drawn for a canvas of this size: each side has at least
/// two pixels, so that no sampling range is empty, and at most `MAX_SIDE`.
pub open spec fn can_draw(w: u32, h: u32) -> bool {
    2 <= w <= MAX_SIDE && 2 <= h <= MAX_SIDE
}

/// The shape that every randomly drawn triangle has on a `w` by `h` canvas.
/// The vertices may lie beyond the canvas by a margin of a fifth of its
/// sides; `a` is left of `b` by at least `PAD`, and `c` lies between them
/// and at or below `b`.
pub open spec fn random_shape(t: Triangle, w: u32, h: u32) -> bool {
    let hw = w as int / 5;
    let hh = h as int / 5;
    &&& -hw <= t.a.x < w - PAD
    &&& -hh <= t.a.y < h + hw
    &&& t.a.x + PAD <= t.b.x < w + hw
    &&& -hh <= t.b.y < h - PAD
    &&& t.a.x <= t.c.x < t.b.x
    &&& t.b.y <= t.c.y < h
}

impl Triangle {
    /// Draws a random triangle for a canvas of the given size.
    pub fn random(width: u32, height: u32) -> (t: Triangle)
        requires
            can_draw(width, height),
        ensures
            random_shape(t, width, height),
    {
        let width: i32 = width as i32;
        let height: i32 = height as i32;
        let hw: i32 = width / 5;
        let hh: i32 = height / 5;
        let mut rng = rand::thread_rng();
        let ax: i32 = sample_between(&mut rng, -hw, width - PAD);
        let ay: i32 = sample_between(&mut rng, -hh, height + hw);
        let bx: i32 = sample_between(&mut rng, ax + PAD, width + hw);
        let by: i32 = sample_between(&mut rng, -hh, height - PAD);
        let cx: i32 = sample_between(&mut rng, ax, bx);
        let cy: i32 = sample_between(&mut rng, by, height);
        Triangle { a: Point { x: ax, y: ay }, b: Point { x: bx, y: by }, c: Point { x: cx, y: cy } }
    }
}

/// `outcome` is what evaluating the triangle `drawn` yields, and `drawn` has
/// the shape of a random triangle for the target's size: nothing when it
/// covers no pixel, else `drawn` in the average colour of the target under
/// it, with its incremental delta score against `current`.
pub open spec fn is_evaluation_of(
    target: &Canvas,
    current: &Canvas,
    opacity: u8,
    drawn: Triangle,
    outcome: Option<SearchResult>,
) -> bool {
    &&& random_shape(drawn, target.spec_width(), target.spec_height())
    &&& outcome == scored(target, current, drawn, opacity)
}

/// What holds of every outcome of evaluating one random candidate against
/// `target` and `current`. Where triangles can be drawn for the target's
/// size, one was drawn, and the outcome is what evaluating it yields: so an
/// outcome without a result tells of a drawn triangle that covers no pixel.
/// Where none can be drawn, there is no result.
pub open spec fn valid_outcome(
    target: &Canvas,
    current: &Canvas,
    opacity: u8,
    outcome: Option<SearchResult>,
) -> bool {
    if can_draw(target.spec_width(), target.spec_height()) {
        exists|drawn: Triangle| #[trigger]
            is_evaluation_of(target, current, opacity, drawn, outcome)
    } else {
        outcome is None
    }
}

/// A result among valid outcomes carries its own evaluation: its triangle
/// has the random shape and covers at least one pixel, and the result is
/// exactly what `scored` gives that triangle.
pub proof fn lemma_result_of_valid_outcome(
    target: &Canvas,
    current: &Canvas,
    opacity: u8,
    r: SearchResult,
)
    requires
        valid_outcome(target, current, opacity, Some(r)),
    ensures
        can_draw(target.spec_width(), target.spec_height()),
        random_shape(r.candidate.triangle, target.spec_width(), target.spec_height()),
        scored(target, current, r.candidate.triangle, opacity) == Some(r),
        valid_candidate(target, opacity, r.candidate),
{
    let drawn = choose|drawn: Triangle| #[trigger]
        is_evaluation_of(target, current, opacity, drawn, Some(r));
    assert(r.candidate.triangle == drawn);
    lemma_coverage_bounds(drawn, target.spec_width(), target.spec_height());
}

/// Evaluates one candidate: draws a random triangle and scores it. The
/// outcome is what scoring the drawn triangle yields: no result when that
/// triangle covers no pixel, else the triangle in its average colour with
/// its score. On a canvas for which no triangle can be drawn there is no
/// result.
pub fn evaluate_candidate(target: &Canvas, current: &Canvas, opacity: u8) -> (outcome: Option<
    SearchResult,
>)
    requires
        target.wf(),
        current.wf(),
        target.spec_width() == current.spec_width(),
        target.spec_height() == current.spec_height(),
    ensures
        valid_outcome(target, current, opacity, outcome),
        can_draw(target.spec_width(), target.spec_height()) ==> exists|drawn: Triangle| #[trigger]
            is_evaluation_of(target, current, opacity, drawn, outcome),
        !can_draw(target.spec_width(), target.spec_height()) ==> outcome is None,
        outcome matches Some(r) ==> valid_candidate(target, opacity, r.candidate) && scored(
            target,
            current,
            r.candidate.triangle,
            opacity,
        ) == Some(r),
{
    let w: u32 = target.width();
    let h: u32 = target.height();
    if w < 2 || h < 2 || w > MAX_SIDE || h > MAX_SIDE {
        return None;
    }
    let triangle = Triangle::random(w, h);
    let outcome = score_candidate(target, current, triangle, opacity);
    proof {
        assert(is_evaluation_of(target, current, opacity, triangle, outcome));
        if let Some(r) = outcome {
            lemma_result_of_valid_outcome(target, current, opacity, r);
        }
    }
    outcome
}

/// Runs `evaluate_candidate` `breadth` times on rayon's worker pool and
/// collects the outcomes, one per candidate. Trusted: rayon calls the
/// closure once for each index of the range and `collect` gathers what the
/// calls returned, so every outcome is one that `evaluate_candidate`
/// returned for these canvases.
#[verifier::external_body]
fn evaluate_in_parallel(
    target: &Canvas,
    current: &Canvas,
    breadth: usize,
    opacity: u8,
) -> (outcomes: Vec<Option<SearchResult>>)
    requires
        target.wf(),
        current.wf(),
        target.spec_width() == current.spec_width(),
        target.spec_height() == current.spec_height(),
    ensures
        outcomes@.len() == breadth,
        forall|i: int|
            0 <= i < breadth ==> valid_outcome(target, current, opacity, #[trigger] outcomes@[i]),
        !can_draw(target.spec_width(), target.spec_height()) ==> forall|i: int|
            0 <= i < breadth ==> #[trigger] outcomes@[i] is None,
{
    (0..breadth).into_par_iter().map(|_| evaluate_candidate(target, current, opacity)).collect()
}

/// Runs `evaluate_candidate` `breadth` times, one after another, and
/// collects the outcomes.
pub fn evaluate_in_sequence(
    target: &Canvas,
    current: &Canvas,
    breadth: usize,
    opacity: u8,
) -> (outcomes: Vec<Option<SearchResult>>)
    requires
        target.wf(),
        current.wf(),
        target.spec_width() == current.spec_width(),
        target.spec_height() == current.spec_height(),
    ensures
        outcomes@.len() == breadth,
        forall|i: int|
            0 <= i < breadth ==> valid_outcome(target, current, opacity, #[trigger] outcomes@[i]),
        !can_draw(target.spec_width(), target.spec_height()) ==> forall|i: int|
            0 <= i < breadth ==> #[trigger] outcomes@[i] is None,
{
    let mut outcomes: Vec<Option<SearchResult>> = Vec::new();
    let mut i: usize = 0;
    while i < breadth
        invariant
            i <= breadth,
            target.wf(),
            current.wf(),
            target.spec_width() == current.spec_width(),
            target.spec_height() == current.spec_height(),
            outcomes@.len() == i,
            forall|k: int|
                0 <= k < i ==> valid_outcome(target, current, opacity, #[trigger] outcomes@[k]),
            !can_draw(target.spec_width(), target.spec_height()) ==> forall|k: int|
                0 <= k < i ==> #[trigger] outcomes@[k] is None,
        decreases breadth - i,
    {
        let outcome = evaluate_candidate(target, current, opacity);
        outcomes.push(outcome);
        i += 1;
    }
    outcomes
}

/// The better of two outcomes: the one with the lower score, the first of
/// them on a tie. An outcome without a result never wins over one with.
pub open spec fn better(a: Option<SearchResult>, b: Option<SearchResult>) -> Option<SearchResult> {
    match (a, b) {
        (None, _) => b,
        (_, None) => a,
        (Some(x), Some(y)) => if y.score < x.score {
            b
        } else {
            a
        },
    }
}

/// The sequential fold to the minimum: the best of the outcomes taken in
/// order.
pub open spec fn best_of(outcomes: Seq<Option<SearchResult>>) -> Option<SearchResult>
    decreases outcomes.len(),
{
    if outcomes.len() == 0 {
        None
    } else {
        better(best_of(outcomes.drop_last()), outcomes.last())
    }
}

/// The score of an outcome, if it has a result.
pub open spec fn score_of(outcome: Option<SearchResult>) -> Option<int> {
    match outcome {
        None => None,
        Some(r) => Some(r.score as int),
    }
}

/// The best of the outcomes has no result only when none of them has; else
/// it is one of them, and no result among them has a lower score.
pub proof fn lemma_best_of_is_minimum(outcomes: Seq<Option<SearchResult>>)
    ensures
        best_of(outcomes) is None <==> forall|i: int|
            0 <= i < outcomes.len() ==> #[trigger] outcomes[i] is None,
        best_of(outcomes) matches Some(b) ==> {
            &&& outcomes.contains(Some(b))
            &&& forall|i: int|
                0 <= i < outcomes.len() ==> (#[trigger] outcomes[i] matches Some(r) ==> b.score
                    <= r.score)
        },
    decreases outcomes.len(),
{
    if outcomes.len() > 0 {
        let front = outcomes.drop_last();
        lemma_best_of_is_minimum(front);
        assert forall|i: int| 0 <= i < front.len() implies front[i] == outcomes[i] by {}
        match best_of(outcomes) {
            None => {
                assert forall|i: int| 0 <= i < outcomes.len() implies #[trigger] outcomes[i]
                    is None by {
                    if i < front.len() {
                        assert(front[i] is None);
                    }
                }
            },
            Some(b) => {
                if best_of(outcomes) == outcomes.last() {
                    assert(outcomes[outcomes.len() - 1] == Some(b));
                } else {
                    let i = choose|i: int| 0 <= i < front.len() && front[i] == Some(b);
                    assert(outcomes[i] == Some(b));
                }
                assert forall|i: int| 0 <= i < outcomes.len() implies (#[trigger] outcomes[i]
                    matches Some(r) ==> b.score <= r.score) by {
                    if i < front.len() {
                        assert(front[i] == outcomes[i]);
                    }
                }
                assert(outcomes[outcomes.len() - 1] == outcomes.last());
            },
        }
    }
}

/// Picks the candidate with the lowest score: the sequential fold to the
/// minimum over the outcomes of one round, the earliest of equal scores.
pub fn select_best(outcomes: &Vec<Option<SearchResult>>) -> (best: Option<SearchResult>)
    ensures
        best == best_of(outcomes@),
        best is None <==> forall|i: int|
            0 <= i < outcomes@.len() ==> #[trigger] outcomes@[i] is None,
        best matches Some(b) ==> {
            &&& outcomes@.contains(Some(b))
            &&& forall|i: int|
                0 <= i < outcomes@.len() ==> (#[trigger] outcomes@[i] matches Some(r) ==> b.score
                    <= r.score)
        },
{
    let mut best: Option<SearchResult> = None;
    let mut i: usize = 0;
    while i < outcomes.len()
        invariant
            i <= outcomes@.len(),
            best == best_of(outcomes@.take(i as int)),
        decreases outcomes@.len() - i,
    {
        proof {
            assert(outcomes@.take(i + 1).drop_last() =~= outcomes@.take(i as int));
        }
        match outcomes[i] {
            None => {},
            Some(r) => {
                match best {
                    None => {
                        best = Some(r);
                    },
                    Some(b) => {
                        if r.score < b.score {
                            best = Some(r);
                        }
                    },
                }
            },
        }
        i += 1;
    }
    proof {
        assert(outcomes@.take(outcomes@.len() as int) =~= outcomes@);
        lemma_best_of_is_minimum(outcomes@);
    }
    best
}

/// The lowest score does not depend on the order in which the outcomes of a
/// round arrive: two runs that deliver the same candidates, in whatever
/// order and from however many workers, select the same minimum score. (On
/// a tie the candidates selected may differ.)
pub proof fn lemma_best_score_ignores_order(
    a: Seq<Option<SearchResult>>,
    b: Seq<Option<SearchResult>>,
)
    requires
        a.to_multiset() == b.to_multiset(),
    ensures
        score_of(best_of(a)) == score_of(best_of(b)),
{
    lemma_best_of_is_minimum(a);
    lemma_best_of_is_minimum(b);
    a.to_multiset_ensures();
    b.to_multiset_ensures();
    assert forall|x: Option<SearchResult>| a.contains(x) <==> b.contains(x) by {
        assert(a.contains(x) <==> a.to_multiset().count(x) > 0);
        assert(b.contains(x) <==> b.to_multiset().count(x) > 0);
    }
    match (best_of(a), best_of(b)) {
        (Some(x), Some(y)) => {
            assert(b.contains(Some(x)));
            assert(a.contains(Some(y)));
            let i = choose|i: int| 0 <= i < b.len() && b[i] == Some(x);
            let j = choose|j: int| 0 <= j < a.len() && a[j] == Some(y);
            assert(y.score <= x.score);
            assert(x.score <= y.score);
        },
        (Some(x), None) => {
            assert(b.contains(Some(x)));
            let i = choose|i: int| 0 <= i < b.len() && b[i] == Some(x);
            assert(b[i] is None);
        },
        (None, Some(y)) => {
            assert(a.contains(Some(y)));
            let j = choose|j: int| 0 <= j < a.len() && a[j] == Some(y);
            assert(a[j] is None);
        },
        (None, None) => {},
    }
}

/// `outcomes` are the outcomes of one round of `breadth` candidates against
/// `target` and `current`: one for each candidate, each the evaluation of a
/// randomly drawn triangle.
pub open spec fn is_round(
    target: &Canvas,
    current: &Canvas,
    breadth: usize,
    opacity: u8,
    outcomes: Seq<Option<SearchResult>>,
) -> bool {
    &&& outcomes.len() == breadth
    &&& forall|i: int|
        0 <= i < outcomes.len() ==> valid_outcome(target, current, opacity, #[trigger] outcomes[i])
}

/// The triangle that a round selects from its outcomes: that of the best
/// outcome, the earliest with the lowest score; none when no outcome has a
/// result.
pub open spec fn selection(outcomes: Seq<Option<SearchResult>>) -> Option<ColoredTriangle> {
    match best_of(outcomes) {
        None => None,
        Some(r) => Some(r.candidate),
    }
}

/// What a round returns for its outcomes: `next` is their selection. So it
/// is nothing exactly when every candidate was discarded, and else it is a
/// valid candidate whose score no other result of the round undercuts.
pub open spec fn is_selection_of_round(
    target: &Canvas,
    current: &Canvas,
    breadth: usize,
    opacity: u8,
    outcomes: Seq<Option<SearchResult>>,
    next: Option<ColoredTriangle>,
) -> bool {
    &&& is_round(target, current, breadth, opacity, outcomes)
    &&& next == selection(outcomes)
}

/// Computes the next triangle for the image: evaluates `breadth` random
/// candidates on the worker pool and returns the one with the lowest score.
/// Returns nothing exactly when every candidate of the round was discarded
/// for covering no pixel.
pub fn next_triangle(target: &Canvas, current: &Canvas, breadth: usize, opacity: u8) -> (next:
    Option<ColoredTriangle>)
    requires
        target.wf(),
        current.wf(),
        target.spec_width() == current.spec_width(),
        target.spec_height() == current.spec_height(),
    ensures
        exists|outcomes: Seq<Option<SearchResult>>| #[trigger]
            is_selection_of_round(target, current, breadth, opacity, outcomes, next),
        next matches Some(ct) ==> valid_candidate(target, opacity, ct),
        breadth == 0 || !can_draw(target.spec_width(), target.spec_height()) ==> next is None,
{
    let outcomes = evaluate_in_parallel(target, current, breadth, opacity);
    let next = chosen(&outcomes);
    proof {
        assert(is_selection_of_round(target, current, breadth, opacity, outcomes@, next));
        if let Some(ct) = next {
            lemma_selection_is_valid(target, current, opacity, outcomes@, ct);
        }
    }
    next
}

/// As `next_triangle`, with the candidates evaluated one after another on
/// the calling thread.
pub fn next_triangle_sequential(
    target: &Canvas,
    current: &Canvas,
    breadth: usize,
    opacity: u8,
) -> (next: Option<ColoredTriangle>)
    requires
        target.wf(),
        current.wf(),
        target.spec_width() == current.spec_width(),
        target.spec_height() == current.spec_height(),
    ensures
        exists|outcomes: Seq<Option<SearchResult>>| #[trigger]
            is_selection_of_round(target, current, breadth, opacity, outcomes, next),
        next matches Some(ct) ==> valid_candidate(target, opacity, ct),
        breadth == 0 || !can_draw(target.spec_width(), target.spec_height()) ==> next is None,
{
    let outcomes = evaluate_in_sequence(target, current, breadth, opacity);
    let next = chosen(&outcomes);
    proof {
        assert(is_selection_of_round(target, current, breadth, opacity, outcomes@, next));
        if let Some(ct) = next {
            lemma_selection_is_valid(target, current, opacity, outcomes@, ct);
        }
    }
    next
}

/// What holds of every triangle that a round selects: it has the random
/// shape, covers at least one pixel, and is painted in the average colour of
/// the target under it, at the configured opacity.
pub open spec fn valid_candidate(target: &Canvas, opacity: u8, ct: ColoredTriangle) -> bool {
    &&& can_draw(target.spec_width(), target.spec_height())
    &&& random_shape(ct.triangle, target.spec_width(), target.spec_height())
    &&& coverage(ct.triangle, target.spec_width(), target.spec_height()) > 0
    &&& ct.color == average_under(target, ct.triangle, opacity)
}

/// The selection at the end of a round: the triangle of the best outcome.
/// It is nothing exactly when no outcome has a result; else it is the
/// triangle of the earliest outcome with the lowest score.
pub fn chosen(outcomes: &Vec<Option<SearchResult>>) -> (next: Option<ColoredTriangle>)
    ensures
        next == selection(outcomes@),
        next is None <==> forall|i: int|
            0 <= i < outcomes@.len() ==> #[trigger] outcomes@[i] is None,
        next matches Some(ct) ==> exists|i: int|
            0 <= i < outcomes@.len() && (#[trigger] outcomes@[i] matches Some(r) && r.candidate
                == ct && forall|j: int|
                0 <= j < outcomes@.len() ==> (#[trigger] outcomes@[j] matches Some(other)
                    ==> r.score <= other.score)),
{
    match select_best(outcomes) {
        None => None,
        Some(r) => {
            proof {
                let i = choose|i: int| 0 <= i < outcomes@.len() && outcomes@[i] == Some(r);
                assert(outcomes@[i] matches Some(found) && found.candidate == r.candidate);
            }
            Some(r.candidate)
        },
    }
}

/// Every triangle selected from valid outcomes is a valid candidate.
proof fn lemma_selection_is_valid(
    target: &Canvas,
    current: &Canvas,
    opacity: u8,
    outcomes: Seq<Option<SearchResult>>,
    ct: ColoredTriangle,
)
    requires
        forall|i: int|
            0 <= i < outcomes.len() ==> valid_outcome(
                target,
                current,
                opacity,
                #[trigger] outcomes[i],
            ),
        exists|i: int|
            0 <= i < outcomes.len() && (#[trigger] outcomes[i] matches Some(r) && r.candidate
                == ct),
    ensures
        valid_candidate(target, opacity, ct),
{
    let i = choose|i: int|
        0 <= i < outcomes.len() && (#[trigger] outcomes[i] matches Some(r) && r.candidate == ct);
    assert(valid_outcome(target, current, opacity, outcomes[i]));
    lemma_result_of_valid_outcome(target, current, opacity, outcomes[i]->Some_0);
}

} // verus!
