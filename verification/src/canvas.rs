//! A mutable grid of colours, row by row from the top left.

use crate::color::{blend_pixels, blended, channel, Color};
use crate::sums::{
    grid_sum, lemma_cell_count, lemma_grid_bounds, lemma_mean_bound, lemma_row_bounds,
    lemma_scaled_cells, row_sum, PixelFn,
};
use vstd::prelude::*;

verus! {

/// A `width` by `height` grid of colours, stored row-major with the origin
/// at the top left.
#[derive(Debug)]
pub struct Canvas {
    width: u32,
    height: u32,
    pixels: Vec<Color>,
}

/// The place of pixel `(x, y)` in the row-major order of a canvas `w` wide.
pub open spec fn pixel_index(w: u32, x: int, y: int) -> int {
    y * w + x
}

/// A pixel of a `w` by `h` grid has its place below `w * h`.
pub proof fn lemma_pixel_index_bound(w: u32, h: u32, x: int, y: int)
    by (nonlinear_arith)
    requires
        0 <= x < w,
        0 <= y < h,
    ensures
        0 <= y * w <= y * w + x < w * h,
        y * w + w <= w * h,
{
}

/// Two pixels of one grid that share a place are the same pixel.
pub proof fn lemma_pixel_index_injective(w: u32, x: int, y: int, u: int, v: int)
    by (nonlinear_arith)
    requires
        0 <= x < w,
        0 <= u < w,
        0 <= y,
        0 <= v,
        y * w + x == v * w + u,
    ensures
        x == u,
        y == v,
{
}

/// Channel `k` of the canvas at each pixel.
pub open spec fn channel_at(canvas: &Canvas, k: int) -> PixelFn {
    |x: int, y: int| channel(canvas.at(x, y), k)
}

/// The sum of channel `k` over every pixel of the canvas.
pub open spec fn channel_sum(canvas: &Canvas, k: int) -> int {
    grid_sum(channel_at(canvas, k), canvas.spec_width() as int, canvas.spec_height() as int)
}

/// The average colour of a canvas: channel by channel the mean of red, green
/// and blue over all pixels, rounded down, and fully opaque. A canvas
/// without pixels averages to opaque black.
pub open spec fn average_of(canvas: &Canvas) -> Color {
    let n = canvas.spec_width() * canvas.spec_height();
    if n == 0 {
        Color { r: 0, g: 0, b: 0, a: 255 }
    } else {
        Color {
            r: (channel_sum(canvas, 0) / n) as u8,
            g: (channel_sum(canvas, 1) / n) as u8,
            b: (channel_sum(canvas, 2) / n) as u8,
            a: 255,
        }
    }
}

/// The pixels as bytes, four to a pixel: red, green, blue, opacity.
pub open spec fn rgba_bytes(pixels: Seq<Color>) -> Seq<u8> {
    Seq::new(4 * pixels.len(), |j: int| channel(pixels[j / 4], j % 4) as u8)
}

/// The pixels that a run of bytes holds, four bytes to a pixel.
pub open spec fn pixels_of(bytes: Seq<u8>) -> Seq<Color> {
    Seq::new(
        bytes.len() / 4,
        |i: int|
            Color {
                r: bytes[4 * i],
                g: bytes[4 * i + 1],
                b: bytes[4 * i + 2],
                a: bytes[4 * i + 3],
            },
    )
}

/// Reading back the bytes of a grid gives the grid.
pub proof fn lemma_bytes_round_trip(pixels: Seq<Color>)
    ensures
        pixels_of(rgba_bytes(pixels)) == pixels,
{
    let back = pixels_of(rgba_bytes(pixels));
    assert(back.len() == pixels.len());
    assert forall|i: int| 0 <= i < pixels.len() implies back[i] == pixels[i] by {
        let b = rgba_bytes(pixels);
        assert(b[4 * i] == pixels[i].r);
        assert(b[4 * i + 1] == pixels[i].g);
        assert(b[4 * i + 2] == pixels[i].b);
        assert(b[4 * i + 3] == pixels[i].a);
    }
    assert(back =~= pixels);
}

/// What `image` computes when it resamples a `width` by `height` image,
/// given as bytes, to another size with its nearest-neighbour filter. It
/// picks the source pixel for each output pixel in floating point, so this
/// library only names the result.
pub uninterp spec fn nearest_samples(
    width: u32,
    height: u32,
    bytes: Seq<u8>,
    new_width: u32,
    new_height: u32,
) -> Seq<u8>;

/// The bytes of an image resized with the nearest-neighbour filter. To the
/// size it already has, an image is copied.
pub open spec fn resized_bytes(
    width: u32,
    height: u32,
    bytes: Seq<u8>,
    new_width: u32,
    new_height: u32,
) -> Seq<u8> {
    if new_width == width && new_height == height {
        bytes
    } else {
        nearest_samples(width, height, bytes, new_width, new_height)
    }
}

/// The buffers that a resize allocates fit in memory: the result, at four
/// bytes a pixel, and, unless the source is empty or already has the new
/// size, an intermediate image of the old width and the new height at
/// sixteen bytes a pixel.
pub open spec fn resize_fits(width: u32, height: u32, new_width: u32, new_height: u32) -> bool {
    &&& 4 * new_width * new_height <= isize::MAX
    &&& (width == 0 || height == 0 || (new_width == width && new_height == height) || 16 * width
        * new_height <= isize::MAX)
}

/// Whether resizing a `width` by `height` image to the new size stays within
/// what can be allocated.
pub fn resize_is_possible(width: u32, height: u32, new_width: u32, new_height: u32) -> (fits: bool)
    ensures
        fits == resize_fits(width, height, new_width, new_height),
{
    let w: u128 = width as u128;
    let h: u128 = height as u128;
    let nw: u128 = new_width as u128;
    let nh: u128 = new_height as u128;
    assert(0 <= 4 * nw * nh <= 4 * 0xFFFF_FFFF * 0xFFFF_FFFF) by (nonlinear_arith)
        requires
            0 <= nw <= 0xFFFF_FFFF,
            0 <= nh <= 0xFFFF_FFFF,
    ;
    assert(0 <= 16 * w * nh <= 16 * 0xFFFF_FFFF * 0xFFFF_FFFF) by (nonlinear_arith)
        requires
            0 <= w <= 0xFFFF_FFFF,
            0 <= nh <= 0xFFFF_FFFF,
    ;
    let limit: u128 = isize::MAX as u128;
    4 * nw * nh <= limit && (w == 0 || h == 0 || (nw == w && nh == h) || 16 * w * nh <= limit)
}

/// Calls `image::imageops::resize` with `FilterType::Nearest` on an RGBA
/// image given as bytes. Trusted: the result has four bytes for each pixel
/// of the new size; it is a copy of the source when the size does not
/// change, and otherwise the value that `image` computes from the source and
/// the two sizes alone. The sizes are limited to what `image` can allocate
/// without a panic.
#[verifier::external_body]
fn resize_bytes(width: u32, height: u32, bytes: Vec<u8>, new_width: u32, new_height: u32) -> (out:
    Vec<u8>)
    requires
        bytes@.len() == 4 * width * height,
        resize_fits(width, height, new_width, new_height),
    ensures
        out@.len() == 4 * new_width * new_height,
        out@ == resized_bytes(width, height, bytes@, new_width, new_height),
        !(new_width == width && new_height == height) ==> out@ == nearest_samples(
            width,
            height,
            bytes@,
            new_width,
            new_height,
        ),
{
    let source: image::RgbaImage = image::ImageBuffer::from_raw(width, height, bytes).unwrap();
    let nearest = image::imageops::FilterType::Nearest;
    image::imageops::resize(&source, new_width, new_height, nearest).into_raw()
}

/// The pixels of a canvas resized to a new size with the nearest-neighbour
/// filter.
pub open spec fn resized(canvas: &Canvas, new_width: u32, new_height: u32) -> Seq<Color> {
    resized_pixels(canvas.spec_width(), canvas.spec_height(), canvas@, new_width, new_height)
}

/// The pixels of a `width` by `height` grid resized to a new size with the
/// nearest-neighbour filter.
pub open spec fn resized_pixels(
    width: u32,
    height: u32,
    pixels: Seq<Color>,
    new_width: u32,
    new_height: u32,
) -> Seq<Color> {
    pixels_of(resized_bytes(width, height, rgba_bytes(pixels), new_width, new_height))
}

/// Resizing a grid to the size it has leaves it as it is.
pub proof fn lemma_resize_to_same_size(width: u32, height: u32, pixels: Seq<Color>)
    ensures
        resized_pixels(width, height, pixels, width, height) == pixels,
{
    lemma_bytes_round_trip(pixels);
}

/// Writing out the pixels read from a whole number of pixels' bytes gives
/// those bytes.
pub proof fn lemma_round_trip_bytes(bytes: Seq<u8>)
    requires
        bytes.len() % 4 == 0,
    ensures
        rgba_bytes(pixels_of(bytes)) == bytes,
{
    let back = rgba_bytes(pixels_of(bytes));
    assert(back.len() == bytes.len());
    assert forall|j: int| 0 <= j < bytes.len() implies back[j] == bytes[j] by {
        let p = pixels_of(bytes)[j / 4];
        assert(p.r == bytes[4 * (j / 4)]);
    }
    assert(back =~= bytes);
}

/// A grid of `n` pixels, all of one colour.
pub open spec fn uniform(n: int, color: Color) -> Seq<Color> {
    Seq::new(n as nat, |i: int| color)
}

impl Clone for Canvas {
    /// A deep copy: the copy shares nothing with the canvas it was made from.
    fn clone(&self) -> (copy: Self)
        ensures
            copy@ == self@,
            copy.spec_width() == self.spec_width(),
            copy.spec_height() == self.spec_height(),
            self.wf() ==> copy.wf(),
    {
        let mut pixels: Vec<Color> = Vec::new();
        let mut i: usize = 0;
        while i < self.pixels.len()
            invariant
                i <= self.pixels@.len(),
                pixels@ == self.pixels@.take(i as int),
            decreases self.pixels@.len() - i,
        {
            pixels.push(self.pixels[i]);
            assert(self.pixels@.take(i + 1) =~= self.pixels@.take(i as int).push(
                self.pixels@[i as int],
            ));
            i += 1;
        }
        assert(self.pixels@.take(self.pixels@.len() as int) =~= self.pixels@);
        Canvas { width: self.width, height: self.height, pixels }
    }
}

impl Canvas {
    /// The grid holds one colour per pixel, and its four-bytes-per-pixel
    /// form fits in memory. Every constructor establishes this and every
    /// method keeps it.
    pub closed spec fn wf(&self) -> bool {
        &&& self.pixels@.len() == self.width * self.height
        &&& 4 * self.width * self.height <= usize::MAX
    }

    /// The pixels, row by row.
    pub closed spec fn view(&self) -> Seq<Color> {
        self.pixels@
    }

    pub closed spec fn spec_width(&self) -> u32 {
        self.width
    }

    pub closed spec fn spec_height(&self) -> u32 {
        self.height
    }

    /// The colour at `(x, y)`.
    pub open spec fn at(&self, x: int, y: int) -> Color {
        self@[pixel_index(self.spec_width(), x, y)]
    }

    /// What well-formedness means to the outside: the number of pixels is
    /// the product of the sides.
    pub proof fn lemma_wf(&self)
        requires
            self.wf(),
        ensures
            self@.len() == self.spec_width() * self.spec_height(),
            self.spec_width() * self.spec_height() <= 4 * self.spec_width() * self.spec_height()
                <= usize::MAX,
    {
        assert(self.width * self.height <= 4 * self.width * self.height) by (nonlinear_arith);
    }

    #[verifier::when_used_as_spec(spec_width)]
    pub fn width(&self) -> (w: u32)
        ensures
            w == self.spec_width(),
    {
        self.width
    }

    #[verifier::when_used_as_spec(spec_height)]
    pub fn height(&self) -> (h: u32)
        ensures
            h == self.spec_height(),
    {
        self.height
    }

    /// A canvas of the given size with every pixel set to `color`.
    pub fn filled(width: u32, height: u32, color: Color) -> (canvas: Canvas)
        requires
            4 * width * height <= usize::MAX,
        ensures
            canvas.wf(),
            canvas.spec_width() == width,
            canvas.spec_height() == height,
            canvas@ == uniform(width * height, color),
    {
        assert(width * height <= 4 * width * height) by (nonlinear_arith);
        let n: usize = width as usize * height as usize;
        let mut pixels: Vec<Color> = Vec::new();
        let mut i: usize = 0;
        while i < n
            invariant
                i <= n,
                pixels@.len() == i,
                forall|k: int| 0 <= k < i ==> pixels@[k] == color,
            decreases n - i,
        {
            pixels.push(color);
            i += 1;
        }
        assert(pixels@ =~= uniform(width * height, color));
        Canvas { width, height, pixels }
    }

    /// A canvas of the given size with every channel of every pixel zero.
    pub fn new(width: u32, height: u32) -> (canvas: Canvas)
        requires
            4 * width * height <= usize::MAX,
        ensures
            canvas.wf(),
            canvas.spec_width() == width,
            canvas.spec_height() == height,
            canvas@ == uniform(width * height, Color { r: 0, g: 0, b: 0, a: 0 }),
    {
        Canvas::filled(width, height, Color { r: 0, g: 0, b: 0, a: 0 })
    }

    /// Sets every pixel to `color`.
    pub fn fill(&mut self, color: Color)
        requires
            old(self).wf(),
        ensures
            final(self).wf(),
            final(self).spec_width() == old(self).spec_width(),
            final(self).spec_height() == old(self).spec_height(),
            final(self)@ == uniform(old(self).spec_width() * old(self).spec_height(), color),
    {
        let n: usize = self.pixels.len();
        let mut i: usize = 0;
        while i < n
            invariant
                i <= n,
                self.pixels@.len() == n,
                self.width == old(self).width,
                self.height == old(self).height,
                forall|k: int| 0 <= k < i ==> self.pixels@[k] == color,
            decreases n - i,
        {
            self.pixels.set(i, color);
            i += 1;
        }
        assert(self.pixels@ =~= uniform(self.width * self.height, color));
    }

    /// Composites `color` over pixel `(x, y)` with the "over" operator and
    /// leaves every other pixel alone. An opacity of 0 changes nothing; an
    /// opacity of 255 replaces the pixel by `color`.
    pub fn blend_over(&mut self, x: u32, y: u32, color: Color)
        requires
            old(self).wf(),
            x < old(self).spec_width(),
            y < old(self).spec_height(),
        ensures
            final(self).wf(),
            final(self).spec_width() == old(self).spec_width(),
            final(self).spec_height() == old(self).spec_height(),
            final(self)@ == old(self)@.update(
                pixel_index(old(self).spec_width(), x as int, y as int),
                blended(old(self).at(x as int, y as int), color),
            ),
            color.a == 0 ==> final(self)@ == old(self)@,
            color.a == 255 ==> final(self).at(x as int, y as int) == color,
    {
        let i: usize = self.offset(x, y);
        let mixed: Color = blend_pixels(self.pixels[i], color);
        self.pixels.set(i, mixed);
        proof {
            if color.a == 0 {
                assert(self.pixels@ =~= old(self).pixels@);
            }
        }
    }

    /// The canvas as bytes, four to a pixel, row by row.
    pub fn to_rgba_bytes(&self) -> (bytes: Vec<u8>)
        requires
            self.wf(),
        ensures
            bytes@ == rgba_bytes(self@),
            bytes@.len() == 4 * self.spec_width() * self.spec_height(),
    {
        proof {
            self.lemma_wf();
            assert(4 * self.width * self.height == 4 * (self.width * self.height))
                by (nonlinear_arith);
        }
        let n: usize = self.pixels.len();
        let mut bytes: Vec<u8> = Vec::new();
        let mut i: usize = 0;
        while i < n
            invariant
                i <= n,
                n == self.pixels@.len(),
                4 * n <= usize::MAX,
                bytes@.len() == 4 * i,
                forall|j: int|
                    0 <= j < 4 * i ==> bytes@[j] == channel(self.pixels@[j / 4], j % 4) as u8,
            decreases n - i,
        {
            let p: Color = self.pixels[i];
            bytes.push(p.r);
            bytes.push(p.g);
            bytes.push(p.b);
            bytes.push(p.a);
            i += 1;
        }
        assert(bytes@ =~= rgba_bytes(self@));
        bytes
    }

    /// The canvas that a run of exactly `4 * width * height` bytes holds.
    fn from_exact_bytes(width: u32, height: u32, bytes: &Vec<u8>) -> (canvas: Canvas)
        requires
            bytes@.len() == 4 * width * height,
        ensures
            canvas.wf(),
            canvas.spec_width() == width,
            canvas.spec_height() == height,
            canvas@ == pixels_of(bytes@),
    {
        proof {
            assert(4 * width * height == 4 * (width * height)) by (nonlinear_arith);
        }
        let n: usize = bytes.len() / 4;
        let mut pixels: Vec<Color> = Vec::new();
        let mut i: usize = 0;
        while i < n
            invariant
                i <= n,
                bytes@.len() == 4 * n,
                4 * n <= usize::MAX,
                pixels@.len() == i,
                forall|k: int| 0 <= k < i ==> pixels@[k] == pixels_of(bytes@)[k],
            decreases n - i,
        {
            let p = Color {
                r: bytes[4 * i],
                g: bytes[4 * i + 1],
                b: bytes[4 * i + 2],
                a: bytes[4 * i + 3],
            };
            pixels.push(p);
            i += 1;
        }
        assert(pixels@ =~= pixels_of(bytes@));
        Canvas { width, height, pixels }
    }

    /// Reads a canvas from bytes, four to a pixel, row by row. There is a
    /// canvas exactly when the number of bytes is `4 * width * height`.
    pub fn from_rgba_bytes(width: u32, height: u32, bytes: &Vec<u8>) -> (canvas: Option<Canvas>)
        ensures
            canvas is Some <==> bytes@.len() == 4 * width * height,
            canvas matches Some(c) ==> {
                &&& c.wf()
                &&& c.spec_width() == width
                &&& c.spec_height() == height
                &&& c@ == pixels_of(bytes@)
                &&& rgba_bytes(c@) == bytes@
            },
    {
        assert(0 <= 4 * width * height <= 4 * 0xFFFF_FFFF * 0xFFFF_FFFF) by (nonlinear_arith);
        let expected: u128 = 4 * (width as u128) * (height as u128);
        if bytes.len() as u128 == expected {
            let c = Canvas::from_exact_bytes(width, height, bytes);
            proof {
                assert(4 * width * height == 4 * (width * height)) by (nonlinear_arith);
                lemma_round_trip_bytes(bytes@);
            }
            Some(c)
        } else {
            None
        }
    }

    /// Whether `resize` to the given size stays within what can be
    /// allocated.
    pub fn can_resize(&self, new_width: u32, new_height: u32) -> (fits: bool)
        ensures
            fits == resize_fits(self.spec_width(), self.spec_height(), new_width, new_height),
    {
        resize_is_possible(self.width, self.height, new_width, new_height)
    }

    /// Resamples the canvas to a new size with the nearest-neighbour filter.
    /// To its own size the canvas is copied.
    pub fn resize(&self, new_width: u32, new_height: u32) -> (out: Canvas)
        requires
            self.wf(),
            resize_fits(self.spec_width(), self.spec_height(), new_width, new_height),
        ensures
            out.wf(),
            out.spec_width() == new_width,
            out.spec_height() == new_height,
            out@ == resized(self, new_width, new_height),
            new_width == self.spec_width() && new_height == self.spec_height() ==> out@ == self@,
    {
        let bytes = self.to_rgba_bytes();
        let sampled = resize_bytes(self.width, self.height, bytes, new_width, new_height);
        proof {
            lemma_bytes_round_trip(self@);
        }
        Canvas::from_exact_bytes(new_width, new_height, &sampled)
    }

    /// The average colour of the canvas, fully opaque.
    pub fn average_color(&self) -> (color: Color)
        requires
            self.wf(),
        ensures
            color == average_of(self),
            color.a == 255,
            self.spec_width() * self.spec_height() > 0 ==> {
                let n = self.spec_width() * self.spec_height();
                &&& color.r == channel_sum(self, 0) / n
                &&& color.g == channel_sum(self, 1) / n
                &&& color.b == channel_sum(self, 2) / n
            },
    {
        let w: u32 = self.width;
        let h: u32 = self.height;
        let ghost red = channel_at(self, 0);
        let ghost green = channel_at(self, 1);
        let ghost blue = channel_at(self, 2);
        let mut sum_r: u128 = 0;
        let mut sum_g: u128 = 0;
        let mut sum_b: u128 = 0;
        let mut y: u32 = 0;
        while y < h
            invariant
                y <= h,
                self.wf(),
                w == self.spec_width(),
                h == self.spec_height(),
                red == channel_at(self, 0),
                green == channel_at(self, 1),
                blue == channel_at(self, 2),
                sum_r == grid_sum(red, w as int, y as int),
                sum_g == grid_sum(green, w as int, y as int),
                sum_b == grid_sum(blue, w as int, y as int),
            decreases h - y,
        {
            let mut x: u32 = 0;
            proof {
                lemma_grid_bounds(red, w as int, y as int, 0, 255);
                lemma_grid_bounds(green, w as int, y as int, 0, 255);
                lemma_grid_bounds(blue, w as int, y as int, 0, 255);
            }
            while x < w
                invariant
                    x <= w,
                    y < h,
                    self.wf(),
                    w == self.spec_width(),
                    h == self.spec_height(),
                    red == channel_at(self, 0),
                    green == channel_at(self, 1),
                    blue == channel_at(self, 2),
                    sum_r == grid_sum(red, w as int, y as int) + row_sum(red, y as int, x as int),
                    sum_g == grid_sum(green, w as int, y as int) + row_sum(
                        green,
                        y as int,
                        x as int,
                    ),
                    sum_b == grid_sum(blue, w as int, y as int) + row_sum(blue, y as int, x as int),
                    grid_sum(red, w as int, y as int) <= y * w * 255,
                    grid_sum(green, w as int, y as int) <= y * w * 255,
                    grid_sum(blue, w as int, y as int) <= y * w * 255,
                decreases w - x,
            {
                proof {
                    lemma_row_bounds(red, y as int, x as int, 0, 255);
                    lemma_row_bounds(green, y as int, x as int, 0, 255);
                    lemma_row_bounds(blue, y as int, x as int, 0, 255);
                    lemma_cell_count(w, h, x as int, y as int);
                    lemma_scaled_cells(w, x as int, y as int, 255);
                }
                let p: Color = self.get(x, y);
                sum_r = sum_r + p.r as u128;
                sum_g = sum_g + p.g as u128;
                sum_b = sum_b + p.b as u128;
                x += 1;
            }
            y += 1;
        }
        if w == 0 || h == 0 {
            assert(w * h == 0) by (nonlinear_arith)
                requires
                    w == 0 || h == 0,
            ;
            return Color { r: 0, g: 0, b: 0, a: 255 };
        }
        assert(0 < w * h < 0x1_0000_0000_0000_0000) by (nonlinear_arith)
            requires
                w > 0,
                h > 0,
        ;
        let n: u128 = w as u128 * h as u128;
        proof {
            assert(n > 0) by (nonlinear_arith)
                requires
                    n == w * h,
                    w > 0,
                    h > 0,
            ;
            lemma_grid_bounds(red, w as int, h as int, 0, 255);
            lemma_grid_bounds(green, w as int, h as int, 0, 255);
            lemma_grid_bounds(blue, w as int, h as int, 0, 255);
            assert(h * w * 255 == n * 255) by (nonlinear_arith)
                requires
                    n == w * h,
            ;
            lemma_mean_bound(sum_r as int, n as int, 255);
            lemma_mean_bound(sum_g as int, n as int, 255);
            lemma_mean_bound(sum_b as int, n as int, 255);
        }
        Color { r: (sum_r / n) as u8, g: (sum_g / n) as u8, b: (sum_b / n) as u8, a: 255 }
    }

    /// The place of pixel `(x, y)` in the pixel vector.
    fn offset(&self, x: u32, y: u32) -> (i: usize)
        requires
            self.wf(),
            x < self.spec_width(),
            y < self.spec_height(),
        ensures
            i == pixel_index(self.spec_width(), x as int, y as int),
            i < self@.len(),
    {
        proof {
            lemma_pixel_index_bound(self.width, self.height, x as int, y as int);
            assert(self.width * self.height <= 4 * self.width * self.height)
                by (nonlinear_arith);
        }
        y as usize * self.width as usize + x as usize
    }

    /// The colour of pixel `(x, y)`.
    pub fn get(&self, x: u32, y: u32) -> (color: Color)
        requires
            self.wf(),
            x < self.spec_width(),
            y < self.spec_height(),
        ensures
            color == self.at(x as int, y as int),
    {
        let i: usize = self.offset(x, y);
        self.pixels[i]
    }

    /// Sets pixel `(x, y)` to `color` and leaves every other pixel alone.
    pub fn set(&mut self, x: u32, y: u32, color: Color)
        requires
            old(self).wf(),
            x < old(self).spec_width(),
            y < old(self).spec_height(),
        ensures
            final(self).wf(),
            final(self).spec_width() == old(self).spec_width(),
            final(self).spec_height() == old(self).spec_height(),
            final(self)@ == old(self)@.update(
                pixel_index(old(self).spec_width(), x as int, y as int),
                color,
            ),
    {
        let i: usize = self.offset(x, y);
        self.pixels.set(i, color);
    }
}

} // verus!
