//! The vector image: a background colour and an ordered list of coloured
//! triangles, with its rescaling and its text form.

use crate::color::{Color, ColoredTriangle};
use crate::geometry::{Point, Triangle};
use vstd::prelude::*;
use vstd::string::StringSliceAdditionalSpecFns;

verus! {

/// A vector image. The triangles are painted in the order of the list.
#[derive(Clone, Debug)]
pub struct Svg {
    pub background: Color,
    pub triangles: Vec<ColoredTriangle>,
    pub width: u32,
    pub height: u32,
}

/// The quotient of `a` by a positive `d`, rounded toward zero.
pub open spec fn truncated_quotient(a: int, d: int) -> int {
    if a >= 0 {
        a / d
    } else {
        -((-a) / d)
    }
}

/// `v` held to the range of an `i32`.
pub open spec fn clipped(v: int) -> int {
    if v < i32::MIN {
        i32::MIN as int
    } else if v > i32::MAX {
        i32::MAX as int
    } else {
        v
    }
}

/// A coordinate scaled by the ratio `num / den`: the product divided,
/// rounded toward zero, and held to the range of an `i32`.
pub open spec fn scaled_coordinate(v: i32, num: u32, den: u32) -> int {
    clipped(truncated_quotient(v * num, den as int))
}

/// A point with `x` scaled by `nx / dx` and `y` by `ny / dy`.
pub open spec fn scaled_point(p: Point, nx: u32, dx: u32, ny: u32, dy: u32) -> Point {
    Point {
        x: scaled_coordinate(p.x, nx, dx) as i32,
        y: scaled_coordinate(p.y, ny, dy) as i32,
    }
}

/// A coloured triangle with each vertex scaled; the colour stays.
pub open spec fn scaled_triangle(
    ct: ColoredTriangle,
    nx: u32,
    dx: u32,
    ny: u32,
    dy: u32,
) -> ColoredTriangle {
    ColoredTriangle {
        triangle: Triangle {
            a: scaled_point(ct.triangle.a, nx, dx, ny, dy),
            b: scaled_point(ct.triangle.b, nx, dx, ny, dy),
            c: scaled_point(ct.triangle.c, nx, dx, ny, dy),
        },
        color: ct.color,
    }
}

/// A list of coloured triangles, each scaled, in the same order.
pub open spec fn scaled_all(
    triangles: Seq<ColoredTriangle>,
    nx: u32,
    dx: u32,
    ny: u32,
    dy: u32,
) -> Seq<ColoredTriangle> {
    Seq::new(triangles.len(), |i: int| scaled_triangle(triangles[i], nx, dx, ny, dy))
}

proof fn lemma_scaling_product(v: int, num: int)
    by (nonlinear_arith)
    requires
        0 <= v <= 0x8000_0000,
        0 <= num <= 0xFFFF_FFFF,
    ensures
        0 <= v * num <= 0x7FFF_FFFF_8000_0000,
        (-v) * num == -(v * num),
{
}

/// Scales one coordinate by `num / den`.
pub fn scale_coordinate(v: i32, num: u32, den: u32) -> (s: i32)
    requires
        den > 0,
    ensures
        s == scaled_coordinate(v, num, den),
{
    let magnitude: i64 = if v >= 0 {
        v as i64
    } else {
        -(v as i64)
    };
    proof {
        lemma_scaling_product(magnitude as int, num as int);
        assert(0 <= (magnitude * num) / (den as int) <= magnitude * num) by (nonlinear_arith)
            requires
                0 <= magnitude * num,
                den > 0,
        ;
    }
    let quotient: i64 = (magnitude * num as i64) / den as i64;
    let signed: i64 = if v >= 0 {
        quotient
    } else {
        -quotient
    };
    if signed < i32::MIN as i64 {
        i32::MIN
    } else if signed > i32::MAX as i64 {
        i32::MAX
    } else {
        signed as i32
    }
}

/// Scales one point, `x` by `nx / dx` and `y` by `ny / dy`.
pub fn scale_point(p: Point, nx: u32, dx: u32, ny: u32, dy: u32) -> (s: Point)
    requires
        dx > 0,
        dy > 0,
    ensures
        s == scaled_point(p, nx, dx, ny, dy),
{
    Point { x: scale_coordinate(p.x, nx, dx), y: scale_coordinate(p.y, ny, dy) }
}

/// Scaling by a ratio of one leaves a coordinate as it is.
pub proof fn lemma_unit_scale(v: i32, n: u32)
    requires
        n > 0,
    ensures
        scaled_coordinate(v, n, n) == v,
{
    let m: int = if v >= 0 {
        v as int
    } else {
        -(v as int)
    };
    assert((m * n) / (n as int) == m) by (nonlinear_arith)
        requires
            n > 0,
            m >= 0,
    ;
    assert((-m) * n == -(m * n)) by (nonlinear_arith);
    assert(m == 0 ==> m * n == 0) by (nonlinear_arith);
    assert(m > 0 ==> m * n > 0) by (nonlinear_arith)
        requires
            n > 0,
    ;
}

impl Svg {
    /// Rescales every vertex of every triangle, `x` by `nx / dx` and `y` by
    /// `ny / dy`. Colours, order, background and size stay as they are.
    pub fn scale(&mut self, nx: u32, dx: u32, ny: u32, dy: u32)
        requires
            dx > 0,
            dy > 0,
        ensures
            final(self).triangles@ == scaled_all(old(self).triangles@, nx, dx, ny, dy),
            final(self).background == old(self).background,
            final(self).width == old(self).width,
            final(self).height == old(self).height,
    {
        let n: usize = self.triangles.len();
        let mut i: usize = 0;
        while i < n
            invariant
                i <= n,
                dx > 0,
                dy > 0,
                self.triangles@.len() == n,
                old(self).triangles@.len() == n,
                self.background == old(self).background,
                self.width == old(self).width,
                self.height == old(self).height,
                forall|k: int|
                    0 <= k < i ==> self.triangles@[k] == scaled_triangle(
                        old(self).triangles@[k],
                        nx,
                        dx,
                        ny,
                        dy,
                    ),
                forall|k: int| i <= k < n ==> self.triangles@[k] == old(self).triangles@[k],
            decreases n - i,
        {
            let ct: ColoredTriangle = self.triangles[i];
            let moved = ColoredTriangle {
                triangle: Triangle {
                    a: scale_point(ct.triangle.a, nx, dx, ny, dy),
                    b: scale_point(ct.triangle.b, nx, dx, ny, dy),
                    c: scale_point(ct.triangle.c, nx, dx, ny, dy),
                },
                color: ct.color,
            };
            self.triangles.set(i, moved);
            i += 1;
        }
        assert(self.triangles@ =~= scaled_all(old(self).triangles@, nx, dx, ny, dy));
    }
}

/// Scaling a list of triangles by ratios of one leaves it as it is.
pub proof fn lemma_unit_scale_all(triangles: Seq<ColoredTriangle>, nx: u32, ny: u32)
    requires
        nx > 0,
        ny > 0,
    ensures
        scaled_all(triangles, nx, nx, ny, ny) == triangles,
{
    assert forall|i: int| 0 <= i < triangles.len() implies scaled_triangle(
        triangles[i],
        nx,
        nx,
        ny,
        ny,
    ) == triangles[i] by {
        let t = triangles[i].triangle;
        lemma_unit_scale(t.a.x, nx);
        lemma_unit_scale(t.a.y, ny);
        lemma_unit_scale(t.b.x, nx);
        lemma_unit_scale(t.b.y, ny);
        lemma_unit_scale(t.c.x, nx);
        lemma_unit_scale(t.c.y, ny);
    }
    assert(scaled_all(triangles, nx, nx, ny, ny) =~= triangles);
}

/// The decimal digits of `n` as ASCII text.
pub open spec fn decimal(n: nat) -> Seq<u8>
    decreases n,
{
    if n < 10 {
        seq![(48 + n) as u8]
    } else {
        decimal(n / 10).push((48 + n % 10) as u8)
    }
}

/// The decimal text of a signed number, with a minus sign before a
/// negative one.
pub open spec fn signed_decimal(v: int) -> Seq<u8> {
    if v < 0 {
        seq![45u8] + decimal((-v) as nat)
    } else {
        decimal(v as nat)
    }
}

/// One hexadecimal digit in lower case.
pub open spec fn hex_digit(d: int) -> u8 {
    if d < 10 {
        (48 + d) as u8
    } else {
        (87 + d) as u8
    }
}

/// A colour as `#rrggbb`: two hexadecimal digits for each of red, green and
/// blue.
pub open spec fn hex_color(c: Color) -> Seq<u8> {
    seq![
        35u8,
        hex_digit(c.r as int / 16),
        hex_digit(c.r as int % 16),
        hex_digit(c.g as int / 16),
        hex_digit(c.g as int % 16),
        hex_digit(c.b as int / 16),
        hex_digit(c.b as int % 16),
    ]
}

/// The opacity in thousandths: `alpha / 255`, rounded to the nearest
/// thousandth.
pub open spec fn opacity_thousandths(alpha: u8) -> int {
    (alpha * 1000 + 127) / 255
}

/// The opacity `alpha / 255` as text with three decimals, from `0.000` to
/// `1.000`.
pub open spec fn opacity_text(alpha: u8) -> Seq<u8> {
    let m = opacity_thousandths(alpha);
    seq![
        (48 + m / 1000) as u8,
        46u8,
        (48 + m / 100 % 10) as u8,
        (48 + m / 10 % 10) as u8,
        (48 + m % 10) as u8,
    ]
}

/// The text `acc` followed by the opening lines of the document: the XML
/// declaration, the `svg` element with its view box, and a rectangle of the
/// background colour over the whole image.
pub open spec fn header_appended(acc: Seq<u8>, width: u32, height: u32, background: Color) -> Seq<
    u8,
> {
    acc + "<?xml version=\"1.0\" standalone=\"no\"?>\n    <svg viewBox = \"0 0 ".spec_bytes()
        + decimal(width as nat) + " ".spec_bytes() + decimal(height as nat)
        + "\" version = \"1.1\" xmlns=\"http://www.w3.org/2000/svg\">\n        <rect x=\"0\" y=\"0\" width=\"".spec_bytes()
        + decimal(width as nat) + "\" height=\"".spec_bytes() + decimal(height as nat)
        + "\" fill=\"".spec_bytes() + hex_color(background) + "\"/>\n".spec_bytes()
}

/// The text `acc` followed by the line of one triangle: a polygon with its
/// three vertices, its fill colour and its opacity.
pub open spec fn polygon_appended(acc: Seq<u8>, ct: ColoredTriangle) -> Seq<u8> {
    acc + "    <polygon points=\"".spec_bytes() + signed_decimal(ct.triangle.a.x as int)
        + " ".spec_bytes() + signed_decimal(ct.triangle.a.y as int) + ", ".spec_bytes()
        + signed_decimal(ct.triangle.b.x as int) + " ".spec_bytes() + signed_decimal(
        ct.triangle.b.y as int,
    ) + ", ".spec_bytes() + signed_decimal(ct.triangle.c.x as int) + " ".spec_bytes()
        + signed_decimal(ct.triangle.c.y as int) + "\" fill=\"".spec_bytes() + hex_color(ct.color)
        + "\" fill-opacity=\"".spec_bytes() + opacity_text(ct.color.a) + "\" />\n".spec_bytes()
}

/// The text `acc` followed by the lines of the triangles, first to last.
pub open spec fn polygons_appended(acc: Seq<u8>, triangles: Seq<ColoredTriangle>) -> Seq<u8>
    decreases triangles.len(),
{
    if triangles.len() == 0 {
        acc
    } else {
        polygon_appended(polygons_appended(acc, triangles.drop_last()), triangles.last())
    }
}

/// The whole document as ASCII text: the header, one line for each
/// triangle in order, and the closing tag.
pub open spec fn document_text(svg: &Svg) -> Seq<u8> {
    polygons_appended(
        header_appended(Seq::empty(), svg.width, svg.height, svg.background),
        svg.triangles@,
    ) + "</svg>\n".spec_bytes()
}

/// Appends the bytes of `text`.
fn push_text(out: &mut Vec<u8>, text: &str)
    ensures
        final(out)@ == old(out)@ + text.spec_bytes(),
{
    let bytes = text.as_bytes();
    let mut i: usize = 0;
    while i < bytes.len()
        invariant
            i <= bytes@.len(),
            out@ == old(out)@ + bytes@.take(i as int),
        decreases bytes@.len() - i,
    {
        out.push(bytes[i]);
        assert(out@ =~= old(out)@ + bytes@.take(i + 1));
        i += 1;
    }
    assert(bytes@.take(bytes@.len() as int) =~= bytes@);
}

/// Appends the decimal digits of `n`.
fn push_decimal(out: &mut Vec<u8>, n: u64)
    ensures
        final(out)@ == old(out)@ + decimal(n as nat),
    decreases n,
{
    if n >= 10 {
        push_decimal(out, n / 10);
    }
    out.push(48 + (n % 10) as u8);
    assert(out@ =~= old(out)@ + decimal(n as nat));
}

/// Appends the decimal text of a signed number.
fn push_signed(out: &mut Vec<u8>, v: i32)
    ensures
        final(out)@ == old(out)@ + signed_decimal(v as int),
{
    if v < 0 {
        out.push(45);
        push_decimal(out, (-(v as i64)) as u64);
        assert(out@ =~= old(out)@ + signed_decimal(v as int));
    } else {
        push_decimal(out, v as u64);
    }
}

fn hex_digit_of(d: u8) -> (c: u8)
    requires
        d < 16,
    ensures
        c == hex_digit(d as int),
{
    if d < 10 {
        48 + d
    } else {
        87 + d
    }
}

/// Appends a colour as `#rrggbb`.
fn push_hex_color(out: &mut Vec<u8>, c: Color)
    ensures
        final(out)@ == old(out)@ + hex_color(c),
{
    out.push(35);
    out.push(hex_digit_of(c.r / 16));
    out.push(hex_digit_of(c.r % 16));
    out.push(hex_digit_of(c.g / 16));
    out.push(hex_digit_of(c.g % 16));
    out.push(hex_digit_of(c.b / 16));
    out.push(hex_digit_of(c.b % 16));
    assert(out@ =~= old(out)@ + hex_color(c));
}

/// Appends an opacity with three decimals.
fn push_opacity(out: &mut Vec<u8>, alpha: u8)
    ensures
        final(out)@ == old(out)@ + opacity_text(alpha),
{
    let m: u32 = (alpha as u32 * 1000 + 127) / 255;
    out.push(48 + (m / 1000) as u8);
    out.push(46);
    out.push(48 + (m / 100 % 10) as u8);
    out.push(48 + (m / 10 % 10) as u8);
    out.push(48 + (m % 10) as u8);
    assert(out@ =~= old(out)@ + opacity_text(alpha));
}

/// Appends the line of one triangle.
fn push_polygon(out: &mut Vec<u8>, ct: ColoredTriangle)
    ensures
        final(out)@ == polygon_appended(old(out)@, ct),
{
    push_text(out, "    <polygon points=\"");
    push_signed(out, ct.triangle.a.x);
    push_text(out, " ");
    push_signed(out, ct.triangle.a.y);
    push_text(out, ", ");
    push_signed(out, ct.triangle.b.x);
    push_text(out, " ");
    push_signed(out, ct.triangle.b.y);
    push_text(out, ", ");
    push_signed(out, ct.triangle.c.x);
    push_text(out, " ");
    push_signed(out, ct.triangle.c.y);
    push_text(out, "\" fill=\"");
    push_hex_color(out, ct.color);
    push_text(out, "\" fill-opacity=\"");
    push_opacity(out, ct.color.a);
    push_text(out, "\" />\n");
}

impl Svg {
    /// The document as ASCII text: a view box of the image's size, a
    /// rectangle in the background colour, and one polygon for each
    /// triangle in painting order, with its colour and its opacity.
    pub fn document(&self) -> (text: Vec<u8>)
        ensures
            text@ == document_text(self),
    {
        let mut out: Vec<u8> = Vec::new();
        assert(out@ =~= Seq::<u8>::empty());
        push_text(
            &mut out,
            "<?xml version=\"1.0\" standalone=\"no\"?>\n    <svg viewBox = \"0 0 ",
        );
        push_decimal(&mut out, self.width as u64);
        push_text(&mut out, " ");
        push_decimal(&mut out, self.height as u64);
        push_text(
            &mut out,
            "\" version = \"1.1\" xmlns=\"http://www.w3.org/2000/svg\">\n        <rect x=\"0\" y=\"0\" width=\"",
        );
        push_decimal(&mut out, self.width as u64);
        push_text(&mut out, "\" height=\"");
        push_decimal(&mut out, self.height as u64);
        push_text(&mut out, "\" fill=\"");
        push_hex_color(&mut out, self.background);
        push_text(&mut out, "\"/>\n");
        let ghost header = out@;
        let mut i: usize = 0;
        while i < self.triangles.len()
            invariant
                i <= self.triangles@.len(),
                out@ == polygons_appended(header, self.triangles@.take(i as int)),
            decreases self.triangles@.len() - i,
        {
            push_polygon(&mut out, self.triangles[i]);
            proof {
                assert(self.triangles@.take(i + 1).drop_last() =~= self.triangles@.take(i as int));
            }
            i += 1;
        }
        assert(self.triangles@.take(self.triangles@.len() as int) =~= self.triangles@);
        push_text(&mut out, "</svg>\n");
        out
    }
}

} // verus!

