//! The approximation driver: one triangle per round, each chosen by the
//! candidate search and committed to the working canvas.

use crate::canvas::{
    average_of, channel_at, channel_sum, lemma_pixel_index_bound, lemma_resize_to_same_size,
    resize_fits, resize_is_possible, resized_pixels, uniform, Canvas,
};
use crate::color::{blended, channel, Color, ColoredTriangle};
use crate::raster::{lemma_replayed_len, painted, rasterize_triangle, rendered, replayed};
use crate::scorer::{mean_squared_error, rgba_error_at, total_error};
use crate::search::{
    can_draw, channel_total, channel_under, coverage, coverage_at, is_selection_of_round,
    next_triangle, valid_candidate, SearchResult,
};
use crate::sums::{lemma_exact_mean, lemma_grid_bounds, lemma_grid_scaled};
use crate::svg::{lemma_unit_scale_all, scaled_all, Svg};
use vstd::prelude::*;

verus! {

/// The number of triangles placed unless configured otherwise.
pub const DEFAULT_TRIANGLES: usize = 10;

/// The number of candidates evaluated per round unless configured otherwise.
pub const DEFAULT_CANDIDATES: usize = 10_000;

/// The opacity of every triangle unless configured otherwise.
pub const DEFAULT_OPACITY: u8 = 230;

/// The side of the evaluation proxy unless configured otherwise.
pub const DEFAULT_PROXY: u32 = 64;

/// What a run is configured with.
#[derive(Clone, Copy, Debug, PartialEq, Eq, Structural)]
pub struct Config {
    /// How many triangles to place: the number of rounds.
    pub triangle_count: usize,
    /// How many random candidates each round evaluates.
    pub candidates_per_round: usize,
    /// The opacity given to every triangle.
    pub opacity: u8,
    /// The side of the square proxy on which candidates are evaluated; zero
    /// evaluates on the image itself.
    pub proxy_size: u32,
}

impl Default for Config {
    fn default() -> (config: Config)
        ensures
            config == (Config {
                triangle_count: DEFAULT_TRIANGLES,
                candidates_per_round: DEFAULT_CANDIDATES,
                opacity: DEFAULT_OPACITY,
                proxy_size: DEFAULT_PROXY,
            }),
    {
        Config {
            triangle_count: DEFAULT_TRIANGLES,
            candidates_per_round: DEFAULT_CANDIDATES,
            opacity: DEFAULT_OPACITY,
            proxy_size: DEFAULT_PROXY,
        }
    }
}

/// Why a run produced no result. Reading the input and writing the output
/// are the caller's business, and so are their failures.
#[derive(Clone, Copy, Debug, PartialEq, Eq, Structural)]
pub enum Error {
    /// A round found no candidate that covers a pixel.
    SearchExhausted,
}

/// Where the driver stands.
#[derive(Clone, Copy, Debug, PartialEq, Eq, Structural)]
pub enum Phase {
    /// Another triangle is wanted.
    Round,
    /// Every triangle is placed; the result can be handed out.
    Finalize,
    /// A round found no candidate.
    Failed,
}

/// The result of a run: the vector image and its raster, both at the size of
/// the input.
#[derive(Clone, Debug)]
pub struct Approximation {
    pub vector: Svg,
    pub raster: Canvas,
}

/// The state of a run between rounds.
#[derive(Debug)]
pub struct Driver {
    target: Canvas,
    working: Canvas,
    triangles: Vec<ColoredTriangle>,
    background: Color,
    full_width: u32,
    full_height: u32,
    config: Config,
    failed: bool,
}

/// The run can start on `image`: where a proxy is configured, resizing to
/// it and back stays within what can be allocated.
pub open spec fn can_start(image: &Canvas, config: Config) -> bool {
    config.proxy_size > 0 ==> {
        &&& resize_fits(
            image.spec_width(),
            image.spec_height(),
            config.proxy_size,
            config.proxy_size,
        )
        &&& resize_fits(
            config.proxy_size,
            config.proxy_size,
            image.spec_width(),
            image.spec_height(),
        )
    }
}

/// `target` is what candidates are evaluated against for `image`: the image
/// itself, or its square proxy of the configured side.
pub open spec fn is_evaluation_target(image: &Canvas, proxy_size: u32, target: &Canvas) -> bool {
    if proxy_size == 0 {
        &&& target.spec_width() == image.spec_width()
        &&& target.spec_height() == image.spec_height()
        &&& target@ == image@
    } else {
        &&& target.spec_width() == proxy_size
        &&& target.spec_height() == proxy_size
        &&& target@ == resized_pixels(
            image.spec_width(),
            image.spec_height(),
            image@,
            proxy_size,
            proxy_size,
        )
    }
}

/// The triangles of the output for the triangles `placed` during the
/// rounds: as placed without a proxy, else scaled from the proxy's size to
/// the full size.
pub open spec fn output_triangles(
    placed: Seq<ColoredTriangle>,
    proxy_size: u32,
    full_width: u32,
    full_height: u32,
) -> Seq<ColoredTriangle> {
    if proxy_size == 0 {
        placed
    } else {
        scaled_all(placed, full_width, proxy_size, full_height, proxy_size)
    }
}

/// The raster of the output for the working canvas at the end of the
/// rounds: as it is without a proxy, else resized from the proxy's size to
/// the full size.
pub open spec fn output_raster(
    working: Seq<Color>,
    proxy_size: u32,
    full_width: u32,
    full_height: u32,
) -> Seq<Color> {
    if proxy_size == 0 {
        working
    } else {
        resized_pixels(proxy_size, proxy_size, working, full_width, full_height)
    }
}

impl Driver {
    /// What candidates are evaluated against.
    pub closed spec fn target(&self) -> Canvas {
        self.target
    }

    /// The working canvas: the approximation so far.
    pub closed spec fn working(&self) -> Canvas {
        self.working
    }

    /// The triangles placed so far, in order.
    pub closed spec fn placed(&self) -> Seq<ColoredTriangle> {
        self.triangles@
    }

    /// The colour that the working canvas started from.
    pub closed spec fn background(&self) -> Color {
        self.background
    }

    /// The configuration of the run.
    pub closed spec fn config(&self) -> Config {
        self.config
    }

    /// The width of the input image.
    pub closed spec fn full_width(&self) -> u32 {
        self.full_width
    }

    /// The height of the input image.
    pub closed spec fn full_height(&self) -> u32 {
        self.full_height
    }

    /// Whether a round has failed.
    pub closed spec fn has_failed(&self) -> bool {
        self.failed
    }

    /// The phase that the state stands for.
    pub open spec fn spec_phase(&self) -> Phase {
        if self.has_failed() {
            Phase::Failed
        } else if self.placed().len() >= self.config().triangle_count {
            Phase::Finalize
        } else {
            Phase::Round
        }
    }

    /// The invariant of a run: target and working canvas have one size, the
    /// working canvas is the replay of the triangles placed so far on the
    /// background, and no more triangles are placed than were asked for.
    pub closed spec fn wf(&self) -> bool {
        &&& self.target.wf()
        &&& self.working.wf()
        &&& self.working.spec_width() == self.target.spec_width()
        &&& self.working.spec_height() == self.target.spec_height()
        &&& self.working@ == rendered(
            self.target.spec_width(),
            self.target.spec_height(),
            self.background,
            self.triangles@,
        )
        &&& self.triangles@.len() <= self.config.triangle_count
        &&& if self.config.proxy_size == 0 {
            &&& self.target.spec_width() == self.full_width
            &&& self.target.spec_height() == self.full_height
        } else {
            &&& self.target.spec_width() == self.config.proxy_size
            &&& self.target.spec_height() == self.config.proxy_size
            &&& resize_fits(
                self.config.proxy_size,
                self.config.proxy_size,
                self.full_width,
                self.full_height,
            )
        }
    }

    /// The invariant, said in terms that are visible outside.
    pub proof fn lemma_wf(&self)
        requires
            self.wf(),
        ensures
            self.target().wf(),
            self.working().wf(),
            self.working().spec_width() == self.target().spec_width(),
            self.working().spec_height() == self.target().spec_height(),
            self.working()@ == rendered(
                self.target().spec_width(),
                self.target().spec_height(),
                self.background(),
                self.placed(),
            ),
            self.placed().len() <= self.config().triangle_count,
            self.config().proxy_size == 0 ==> self.target().spec_width() == self.full_width()
                && self.target().spec_height() == self.full_height(),
            self.config().proxy_size > 0 ==> self.target().spec_width() == self.config().proxy_size
                && self.target().spec_height() == self.config().proxy_size,
    {
    }

    /// Whether a run can start on `image` with `config`.
    pub fn fits(image: &Canvas, config: &Config) -> (ok: bool)
        ensures
            ok == can_start(image, *config),
    {
        let p: u32 = config.proxy_size;
        p == 0 || (resize_is_possible(image.width(), image.height(), p, p) && resize_is_possible(
            p,
            p,
            image.width(),
            image.height(),
        ))
    }

    /// Init: the working canvas is filled with the average colour of the
    /// image, and the evaluation target is the image or its proxy.
    pub fn start(image: &Canvas, config: &Config) -> (driver: Driver)
        requires
            image.wf(),
            can_start(image, *config),
        ensures
            driver.wf(),
            driver.config() == *config,
            driver.background() == average_of(image),
            driver.full_width() == image.spec_width(),
            driver.full_height() == image.spec_height(),
            is_evaluation_target(image, config.proxy_size, &driver.target()),
            driver.placed() == Seq::<ColoredTriangle>::empty(),
            driver.working()@ == uniform(
                driver.target().spec_width() * driver.target().spec_height(),
                average_of(image),
            ),
            !driver.has_failed(),
    {
        let background: Color = image.average_color();
        let target: Canvas = if config.proxy_size == 0 {
            image.clone()
        } else {
            image.resize(config.proxy_size, config.proxy_size)
        };
        proof {
            target.lemma_wf();
        }
        let working = Canvas::filled(target.width(), target.height(), background);
        Driver {
            target,
            working,
            triangles: Vec::new(),
            background,
            full_width: image.width(),
            full_height: image.height(),
            config: *config,
            failed: false,
        }
    }

    /// The phase in which the run stands.
    #[verifier::when_used_as_spec(spec_phase)]
    pub fn phase(&self) -> (phase: Phase)
        ensures
            phase == self.spec_phase(),
    {
        if self.failed {
            Phase::Failed
        } else if self.triangles.len() >= self.config.triangle_count {
            Phase::Finalize
        } else {
            Phase::Round
        }
    }

    /// Runs the candidate search of one round against the current state:
    /// evaluates the configured number of random candidates against the
    /// target and the working canvas and returns the one with the lowest
    /// score, or nothing when every candidate was discarded.
    pub fn search(&self) -> (selection: Option<ColoredTriangle>)
        requires
            self.wf(),
        ensures
            exists|outcomes: Seq<Option<SearchResult>>| #[trigger]
                is_selection_of_round(
                    &self.target(),
                    &self.working(),
                    self.config().candidates_per_round,
                    self.config().opacity,
                    outcomes,
                    selection,
                ),
            selection matches Some(ct) ==> valid_candidate(
                &self.target(),
                self.config().opacity,
                ct,
            ),
            self.config().candidates_per_round == 0 || !can_draw(
                self.target().spec_width(),
                self.target().spec_height(),
            ) ==> selection is None,
    {
        let selection = next_triangle(
            &self.target,
            &self.working,
            self.config.candidates_per_round,
            self.config.opacity,
        );
        proof {
            let outcomes = choose|outcomes: Seq<Option<SearchResult>>| #[trigger]
                is_selection_of_round(
                    &self.target,
                    &self.working,
                    self.config.candidates_per_round,
                    self.config.opacity,
                    outcomes,
                    selection,
                );
            assert(is_selection_of_round(
                &self.target(),
                &self.working(),
                self.config().candidates_per_round,
                self.config().opacity,
                outcomes,
                selection,
            ));
        }
        selection
    }

    /// Round: commits the selection of a search. A triangle is painted onto
    /// the working canvas and appended to the list; no selection fails the
    /// run and changes nothing else.
    pub fn advance(&mut self, selection: Option<ColoredTriangle>)
        requires
            old(self).wf(),
            old(self).spec_phase() == Phase::Round,
        ensures
            final(self).wf(),
            final(self).target() == old(self).target(),
            final(self).background() == old(self).background(),
            final(self).config() == old(self).config(),
            final(self).full_width() == old(self).full_width(),
            final(self).full_height() == old(self).full_height(),
            match selection {
                Some(ct) => {
                    &&& final(self).placed() == old(self).placed().push(ct)
                    &&& final(self).working()@ == painted(
                        old(self).working()@,
                        old(self).target().spec_width(),
                        old(self).target().spec_height(),
                        ct,
                    )
                    &&& !final(self).has_failed()
                },
                None => {
                    &&& final(self).placed() == old(self).placed()
                    &&& final(self).working() == old(self).working()
                    &&& final(self).has_failed()
                },
            },
    {
        match selection {
            Some(ct) => {
                rasterize_triangle(&mut self.working, ct);
                self.triangles.push(ct);
                proof {
                    assert(self.triangles@.drop_last() =~= old(self).triangles@);
                }
            },
            None => {
                self.failed = true;
            },
        }
    }

    /// Finalize: hands out the result. After a failed round there is none.
    /// Else the triangles and the raster are brought to the size of the
    /// input: unchanged without a proxy, rescaled from the proxy's size with
    /// one.
    pub fn finish(self) -> (result: Result<Approximation, Error>)
        requires
            self.wf(),
            self.spec_phase() != Phase::Round,
        ensures
            self.has_failed() ==> result == Err::<Approximation, Error>(Error::SearchExhausted),
            !self.has_failed() ==> (result matches Ok(out) && {
                &&& out.vector.background == self.background()
                &&& out.vector.width == self.full_width()
                &&& out.vector.height == self.full_height()
                &&& out.vector.triangles@ == output_triangles(
                    self.placed(),
                    self.config().proxy_size,
                    self.full_width(),
                    self.full_height(),
                )
                &&& out.raster.wf()
                &&& out.raster.spec_width() == self.full_width()
                &&& out.raster.spec_height() == self.full_height()
                &&& out.raster@ == output_raster(
                    self.working()@,
                    self.config().proxy_size,
                    self.full_width(),
                    self.full_height(),
                )
            }),
    {
        if self.failed {
            return Err(Error::SearchExhausted);
        }
        let p: u32 = self.config.proxy_size;
        let mut vector = Svg {
            background: self.background,
            triangles: self.triangles,
            width: self.full_width,
            height: self.full_height,
        };
        if p == 0 {
            Ok(Approximation { vector, raster: self.working })
        } else {
            vector.scale(self.full_width, p, self.full_height, p);
            let raster = self.working.resize(self.full_width, self.full_height);
            Ok(Approximation { vector, raster })
        }
    }
}

/// What holds of every result of a run on `image`: the sizes and the
/// background are those of the image, there are as many triangles as were
/// asked for, and there is a trace of the rounds that explains the rest.
pub open spec fn is_approximation(image: &Canvas, config: Config, out: &Approximation) -> bool {
    &&& out.vector.triangles@.len() == config.triangle_count
    &&& out.vector.background == average_of(image)
    &&& out.vector.width == image.spec_width()
    &&& out.vector.height == image.spec_height()
    &&& out.raster.wf()
    &&& out.raster.spec_width() == image.spec_width()
    &&& out.raster.spec_height() == image.spec_height()
    &&& exists|target: Canvas, placed: Seq<ColoredTriangle>| #[trigger]
        is_trace(image, config, out, &target, placed)
}

/// The rounds that led to `out`: `target` is what the candidates were
/// evaluated against, and `placed` are the triangles in the order in which
/// the rounds selected them. Each was a valid candidate for the target; the
/// output's triangles are these, brought to the size of the image; and the
/// output's raster is their replay on the background, brought to the size
/// of the image.
pub open spec fn is_trace(
    image: &Canvas,
    config: Config,
    out: &Approximation,
    target: &Canvas,
    placed: Seq<ColoredTriangle>,
) -> bool {
    &&& target.wf()
    &&& is_evaluation_target(image, config.proxy_size, target)
    &&& placed.len() == config.triangle_count
    &&& forall|i: int|
        0 <= i < placed.len() ==> valid_candidate(target, config.opacity, #[trigger] placed[i])
    &&& out.vector.triangles@ == output_triangles(
        placed,
        config.proxy_size,
        image.spec_width(),
        image.spec_height(),
    )
    &&& out.raster@ == output_raster(
        rendered(target.spec_width(), target.spec_height(), out.vector.background, placed),
        config.proxy_size,
        image.spec_width(),
        image.spec_height(),
    )
}

/// Approximates `image` by `config.triangle_count` triangles. Each round
/// searches for the best of `config.candidates_per_round` random candidates
/// and commits it; the first round that finds none ends the run with
/// `SearchExhausted`.
pub fn triangulate(image: &Canvas, config: &Config) -> (result: Result<Approximation, Error>)
    requires
        image.wf(),
        can_start(image, *config),
    ensures
        result matches Ok(out) ==> is_approximation(image, *config, &out),
        result matches Err(e) ==> e == Error::SearchExhausted && config.triangle_count > 0,
        config.triangle_count == 0 ==> result is Ok,
        config.triangle_count > 0 && config.candidates_per_round == 0 ==> result is Err,
        config.triangle_count > 0 && !can_draw(
            evaluation_width(image, *config),
            evaluation_height(image, *config),
        ) ==> result is Err,
        replays_exactly(image, *config) ==> (result matches Ok(out) ==> out.raster@ == rendered(
            image.spec_width(),
            image.spec_height(),
            out.vector.background,
            out.vector.triangles@,
        )),
{
    let mut driver = Driver::start(image, config);
    proof {
        driver.lemma_wf();
    }
    while driver.phase() == Phase::Round
        invariant
            driver.wf(),
            driver.config() == *config,
            driver.background() == average_of(image),
            driver.full_width() == image.spec_width(),
            driver.full_height() == image.spec_height(),
            is_evaluation_target(image, config.proxy_size, &driver.target()),
            forall|i: int|
                0 <= i < driver.placed().len() ==> valid_candidate(
                    &driver.target(),
                    config.opacity,
                    #[trigger] driver.placed()[i],
                ),
            driver.has_failed() ==> config.triangle_count > 0,
            config.triangle_count > 0 && (config.candidates_per_round == 0 || !can_draw(
                driver.target().spec_width(),
                driver.target().spec_height(),
            )) ==> driver.placed().len() == 0,
        decreases
                config.triangle_count - driver.placed().len() + (if driver.has_failed() {
                    0int
                } else {
                    1int
                }),
    {
        proof {
            driver.lemma_wf();
        }
        let selection = driver.search();
        driver.advance(selection);
        proof {
            driver.lemma_wf();
        }
    }
    proof {
        driver.lemma_wf();
    }
    let ghost target = driver.target();
    let ghost placed = driver.placed();
    let ghost target_working = driver.working()@;
    let result = driver.finish();
    proof {
        if let Ok(out) = &result {
            assert(is_trace(image, *config, out, &target, placed));
            if config.proxy_size > 0 && replays_exactly(image, *config) {
                lemma_unit_scale_all(placed, config.proxy_size, config.proxy_size);
                lemma_resize_to_same_size(config.proxy_size, config.proxy_size, target_working);
            }
        }
    }
    result
}

/// The run works at the size of the image: there is no proxy, or the proxy
/// has the size of the image. The raster of such a run is exactly the replay
/// of its vector output.
pub open spec fn replays_exactly(image: &Canvas, config: Config) -> bool {
    config.proxy_size == 0 || (config.proxy_size == image.spec_width() && config.proxy_size
        == image.spec_height())
}

/// The width of what candidates are evaluated against.
pub open spec fn evaluation_width(image: &Canvas, config: Config) -> u32 {
    if config.proxy_size == 0 {
        image.spec_width()
    } else {
        config.proxy_size
    }
}

/// The height of what candidates are evaluated against.
pub open spec fn evaluation_height(image: &Canvas, config: Config) -> u32 {
    if config.proxy_size == 0 {
        image.spec_height()
    } else {
        config.proxy_size
    }
}

/// The colour with its opacity replaced.
pub open spec fn with_opacity(color: Color, opacity: u8) -> Color {
    Color { r: color.r, g: color.g, b: color.b, a: opacity }
}

/// Every pixel of a canvas of one colour has that colour.
proof fn lemma_uniform_at(canvas: &Canvas, color: Color, x: int, y: int)
    requires
        canvas.wf(),
        canvas@ == uniform(canvas.spec_width() * canvas.spec_height(), color),
        0 <= x < canvas.spec_width(),
        0 <= y < canvas.spec_height(),
    ensures
        canvas.at(x, y) == color,
{
    lemma_pixel_index_bound(canvas.spec_width(), canvas.spec_height(), x, y);
}

/// The average colour of an opaque canvas of one colour is that colour.
pub proof fn lemma_uniform_average(canvas: &Canvas, color: Color)
    requires
        canvas.wf(),
        canvas.spec_width() * canvas.spec_height() > 0,
        canvas@ == uniform(canvas.spec_width() * canvas.spec_height(), color),
    ensures
        average_of(canvas) == with_opacity(color, 255),
{
    let w = canvas.spec_width();
    let h = canvas.spec_height();
    let n = w * h;
    assert forall|k: int| 0 <= k < 3 implies channel_sum(canvas, k) / n == channel(color, k) by {
        let f = channel_at(canvas, k);
        let v = channel(color, k);
        assert forall|x: int, y: int| 0 <= x < w && 0 <= y < h implies v <= #[trigger] f(x, y)
            <= v by {
            lemma_uniform_at(canvas, color, x, y);
        }
        lemma_grid_bounds(f, w as int, h as int, v, v);
        assert(h * w * v == n * v) by (nonlinear_arith)
            requires
                n == w * h,
        ;
        lemma_exact_mean(v, n);
    }
    assert(channel_sum(canvas, 0) / n == channel(color, 0));
    assert(channel_sum(canvas, 1) / n == channel(color, 1));
    assert(channel_sum(canvas, 2) / n == channel(color, 2));
}

/// On a target of one colour, every candidate has that colour, at the
/// configured opacity.
pub proof fn lemma_uniform_candidate(
    target: &Canvas,
    color: Color,
    opacity: u8,
    ct: ColoredTriangle,
)
    requires
        target.wf(),
        target@ == uniform(target.spec_width() * target.spec_height(), color),
        valid_candidate(target, opacity, ct),
    ensures
        ct.color == with_opacity(color, opacity),
{
    let w = target.spec_width();
    let h = target.spec_height();
    let n = coverage(ct.triangle, w, h);
    let cov = coverage_at(ct.triangle, w, h);
    assert forall|k: int| 0 <= k < 3 implies channel_total(target, ct.triangle, k) / n == channel(
        color,
        k,
    ) by {
        let g = channel_under(target, ct.triangle, k);
        let v = channel(color, k);
        assert forall|x: int, y: int| 0 <= x < w && 0 <= y < h implies #[trigger] g(x, y) == v
            * cov(x, y) by {
            lemma_uniform_at(target, color, x, y);
            assert(v * 1 == v && v * 0 == 0) by (nonlinear_arith);
        }
        lemma_grid_scaled(cov, g, v, w as int, h as int);
        lemma_exact_mean(v, n);
    }
    assert(channel_total(target, ct.triangle, 0) / n == channel(color, 0));
    assert(channel_total(target, ct.triangle, 1) / n == channel(color, 1));
    assert(channel_total(target, ct.triangle, 2) / n == channel(color, 2));
}

/// Replaying triangles whose colour leaves `color` as it is, on a grid of
/// that colour, leaves the grid as it is.
proof fn lemma_replay_keeps_uniform(
    n: int,
    w: u32,
    h: u32,
    color: Color,
    triangles: Seq<ColoredTriangle>,
)
    requires
        0 <= n,
        forall|i: int|
            0 <= i < triangles.len() ==> blended(color, (#[trigger] triangles[i]).color) == color,
    ensures
        replayed(uniform(n, color), w, h, triangles) == uniform(n, color),
    decreases triangles.len(),
{
    if triangles.len() > 0 {
        lemma_replay_keeps_uniform(n, w, h, color, triangles.drop_last());
        let last = triangles.last();
        assert(triangles[triangles.len() - 1] == last);
        assert(painted(uniform(n, color), w, h, last) =~= uniform(n, color));
    }
}

/// A run on an opaque image of one colour, at the size of the image and
/// with triangles that are fully opaque or fully transparent, reproduces the
/// image exactly: its raster is the image, with as many triangles as were
/// asked for. (With an opacity in between, the blend is done in floating
/// point and may come out one below the colour that both pixels share.)
pub proof fn lemma_uniform_image_is_reproduced(
    image: &Canvas,
    config: Config,
    out: &Approximation,
    color: Color,
)
    requires
        image.wf(),
        image@ == uniform(image.spec_width() * image.spec_height(), color),
        color.a == 255,
        replays_exactly(image, config),
        config.opacity == 255 || config.opacity == 0,
        is_approximation(image, config, out),
    ensures
        out.vector.triangles@.len() == config.triangle_count,
        out.raster@ == image@,
        total_error(image, &out.raster) == 0,
        mean_squared_error(image, &out.raster) == 0,
{
    let w = image.spec_width();
    let h = image.spec_height();
    let n = w * h;
    let (target, placed) = choose|target: Canvas, placed: Seq<ColoredTriangle>| #[trigger]
        is_trace(image, config, out, &target, placed);
    let replay = rendered(w, h, out.vector.background, placed);
    assert(target.spec_width() == w && target.spec_height() == h && target@ == image@) by {
        lemma_resize_to_same_size(w, h, image@);
    }
    assert(out.raster@ == replay) by {
        lemma_resize_to_same_size(w, h, replay);
    }
    assert(replay == image@) by {
        if n > 0 {
            lemma_uniform_average(image, color);
            assert(with_opacity(color, 255) == color);
            assert forall|i: int| 0 <= i < placed.len() implies blended(
                color,
                (#[trigger] placed[i]).color,
            ) == color by {
                lemma_uniform_candidate(&target, color, config.opacity, placed[i]);
            }
            lemma_replay_keeps_uniform(n, w, h, color, placed);
        } else {
            lemma_replayed_len(uniform(n, out.vector.background), w, h, placed);
            assert(replay =~= image@);
        }
    }
    lemma_no_error_between_equals(image, &out.raster);
}

/// Two canvases of one size with the same pixels have no error between
/// them.
pub proof fn lemma_no_error_between_equals(a: &Canvas, b: &Canvas)
    requires
        a.spec_width() == b.spec_width(),
        a.spec_height() == b.spec_height(),
        a@ == b@,
    ensures
        total_error(a, b) == 0,
        mean_squared_error(a, b) == 0,
{
    let w = a.spec_width();
    let h = a.spec_height();
    let f = rgba_error_at(a, b);
    assert forall|x: int, y: int| 0 <= x < w && 0 <= y < h implies 0 <= #[trigger] f(x, y)
        <= 0 by {}
    lemma_grid_bounds(f, w as int, h as int, 0, 0);
    assert(h * w * 0 == 0) by (nonlinear_arith);
}

} // verus!

