//! Sums of an integer quantity over the pixels of a grid, and the few facts
//! about them that the scoring proofs need.

use vstd::prelude::*;

verus! {

/// A quantity that every pixel `(x, y)` has.
pub type PixelFn = spec_fn(int, int) -> int;

/// The sum of `f(x, y)` over the first `n` pixels of row `y`.
pub open spec fn row_sum(f: PixelFn, y: int, n: int) -> int
    decreases n,
{
    if n <= 0 {
        0
    } else {
        row_sum(f, y, n - 1) + f(n - 1, y)
    }
}

/// The sum of `f(x, y)` over the first `n` rows of a grid `w` wide.
pub open spec fn grid_sum(f: PixelFn, w: int, n: int) -> int
    decreases n,
{
    if n <= 0 {
        0
    } else {
        grid_sum(f, w, n - 1) + row_sum(f, n - 1, w)
    }
}

/// Pixels at which `f` is zero add nothing to a row.
pub proof fn lemma_row_skip(f: PixelFn, y: int, lo: int, hi: int)
    requires
        0 <= lo <= hi,
        forall|x: int| lo <= x < hi ==> #[trigger] f(x, y) == 0,
    ensures
        row_sum(f, y, hi) == row_sum(f, y, lo),
    decreases hi - lo,
{
    if lo < hi {
        lemma_row_skip(f, y, lo, hi - 1);
    }
}

/// Rows in which `f` is zero add nothing to a grid.
pub proof fn lemma_grid_skip(f: PixelFn, w: int, lo: int, hi: int)
    requires
        0 <= lo <= hi,
        forall|x: int, y: int| lo <= y < hi && 0 <= x < w ==> #[trigger] f(x, y) == 0,
    ensures
        grid_sum(f, w, hi) == grid_sum(f, w, lo),
    decreases hi - lo,
{
    if lo < hi {
        lemma_grid_skip(f, w, lo, hi - 1);
        lemma_row_skip(f, hi - 1, 0, if w < 0 { 0 } else { w });
    }
}

/// The sum of a difference is the difference of the sums, along a row.
pub proof fn lemma_row_difference(f: PixelFn, g: PixelFn, d: PixelFn, y: int, n: int)
    requires
        forall|x: int| 0 <= x < n ==> #[trigger] d(x, y) == f(x, y) - g(x, y),
    ensures
        row_sum(d, y, n) == row_sum(f, y, n) - row_sum(g, y, n),
    decreases n,
{
    if n > 0 {
        lemma_row_difference(f, g, d, y, n - 1);
    }
}

/// The sum of a difference is the difference of the sums, over a grid.
pub proof fn lemma_grid_difference(f: PixelFn, g: PixelFn, d: PixelFn, w: int, n: int)
    requires
        forall|x: int, y: int|
            0 <= x < w && 0 <= y < n ==> #[trigger] d(x, y) == f(x, y) - g(x, y),
    ensures
        grid_sum(d, w, n) == grid_sum(f, w, n) - grid_sum(g, w, n),
    decreases n,
{
    if n > 0 {
        lemma_grid_difference(f, g, d, w, n - 1);
        lemma_row_difference(f, g, d, n - 1, w);
    }
}

/// A row sum lies between `n` times the least and `n` times the greatest
/// value of the quantity.
pub proof fn lemma_row_bounds(f: PixelFn, y: int, n: int, lo: int, hi: int)
    requires
        0 <= n,
        forall|x: int| 0 <= x < n ==> lo <= #[trigger] f(x, y) <= hi,
    ensures
        n * lo <= row_sum(f, y, n) <= n * hi,
    decreases n,
{
    if n > 0 {
        lemma_row_bounds(f, y, n - 1, lo, hi);
        assert(n * lo == (n - 1) * lo + lo) by (nonlinear_arith);
        assert(n * hi == (n - 1) * hi + hi) by (nonlinear_arith);
    } else {
        assert(n * lo == 0 && n * hi == 0) by (nonlinear_arith)
            requires
                n == 0,
        ;
    }
}

/// A grid sum lies between the number of pixels times the least and times
/// the greatest value of the quantity.
pub proof fn lemma_grid_bounds(f: PixelFn, w: int, n: int, lo: int, hi: int)
    requires
        0 <= n,
        0 <= w,
        forall|x: int, y: int| 0 <= x < w && 0 <= y < n ==> lo <= #[trigger] f(x, y) <= hi,
    ensures
        n * w * lo <= grid_sum(f, w, n) <= n * w * hi,
    decreases n,
{
    if n > 0 {
        lemma_grid_bounds(f, w, n - 1, lo, hi);
        lemma_row_bounds(f, n - 1, w, lo, hi);
        assert(n * w * lo == (n - 1) * w * lo + w * lo) by (nonlinear_arith);
        assert(n * w * hi == (n - 1) * w * hi + w * hi) by (nonlinear_arith);
    } else {
        assert(n * w * lo == 0 && n * w * hi == 0) by (nonlinear_arith)
            requires
                n == 0,
        ;
    }
}

/// A quantity that is `k` times another, pixel by pixel, sums to `k` times
/// the other's sum along a row.
pub proof fn lemma_row_scaled(f: PixelFn, g: PixelFn, k: int, y: int, n: int)
    requires
        forall|x: int| 0 <= x < n ==> #[trigger] g(x, y) == k * f(x, y),
    ensures
        row_sum(g, y, n) == k * row_sum(f, y, n),
    decreases n,
{
    if n > 0 {
        lemma_row_scaled(f, g, k, y, n - 1);
        assert(k * (row_sum(f, y, n - 1) + f(n - 1, y)) == k * row_sum(f, y, n - 1) + k * f(
            n - 1,
            y,
        )) by (nonlinear_arith);
    } else {
        assert(k * 0 == 0) by (nonlinear_arith);
    }
}

/// A quantity that is `k` times another, pixel by pixel, sums to `k` times
/// the other's sum over a grid.
pub proof fn lemma_grid_scaled(f: PixelFn, g: PixelFn, k: int, w: int, n: int)
    requires
        forall|x: int, y: int| 0 <= x < w && 0 <= y < n ==> #[trigger] g(x, y) == k * f(x, y),
    ensures
        grid_sum(g, w, n) == k * grid_sum(f, w, n),
    decreases n,
{
    if n > 0 {
        lemma_grid_scaled(f, g, k, w, n - 1);
        lemma_row_scaled(f, g, k, n - 1, w);
        assert(k * (grid_sum(f, w, n - 1) + row_sum(f, n - 1, w)) == k * grid_sum(f, w, n - 1) + k
            * row_sum(f, n - 1, w)) by (nonlinear_arith);
    } else {
        assert(k * 0 == 0) by (nonlinear_arith);
    }
}

/// The pixels before `(x, y)` in row-major order are fewer than `2^64`.
pub proof fn lemma_cell_count(w: u32, h: u32, x: int, y: int)
    by (nonlinear_arith)
    requires
        0 <= x <= w,
        0 <= y < h,
    ensures
        0 <= y * w + x <= y * w + w <= w * h < 0x1_0000_0000_0000_0000,
{
}

/// A bound per pixel scales to the pixels before `(x, y)`.
pub proof fn lemma_scaled_cells(w: u32, x: int, y: int, k: int)
    by (nonlinear_arith)
    requires
        0 <= x < w,
        0 <= y,
        0 <= k,
    ensures
        y * w * k + x * k == (y * w + x) * k,
        (y * w + x) * k + k <= (y * w + w) * k,
{
}

/// A sum of at most `k` per item has a mean of at most `k`.
pub proof fn lemma_mean_bound(total: int, n: int, k: int)
    by (nonlinear_arith)
    requires
        n > 0,
        0 <= total <= n * k,
    ensures
        0 <= total / n <= k,
{
}

/// The mean of `n` copies of one value is that value.
pub proof fn lemma_exact_mean(v: int, n: int)
    by (nonlinear_arith)
    requires
        n > 0,
    ensures
        (n * v) / n == v,
        (v * n) / n == v,
{
}

} // verus!


