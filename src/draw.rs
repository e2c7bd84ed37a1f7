//! Rasterizer: pixels, lines, triangle outlines and filled triangles,
//! recorded in order on a [`Canvas`].

use vstd::prelude::*;

use crate::arith::{floor_div, floor_div_i128, trunc_div, trunc_div_i128};

verus! {

/// Side of the square block of display pixels that shows one logical pixel.
pub const PIXEL_SIZE: i32 = 1;

/// A point of the integer pixel grid.
#[derive(Clone, Copy, Debug, PartialEq, Eq, Structural)]
pub struct Point {
    pub x: i32,
    pub y: i32,
}

impl Point {
    pub fn new(x: i32, y: i32) -> (r: Point)
        ensures
            r.x == x,
            r.y == y,
    {
        Point { x, y }
    }
}

/// An RGB color.
#[derive(Clone, Copy, Debug, PartialEq, Eq, Structural)]
pub struct Color {
    pub r: u8,
    pub g: u8,
    pub b: u8,
}

impl Color {
    #[allow(non_snake_case)]
    pub fn RGB(r: u8, g: u8, b: u8) -> (c: Color)
        ensures
            c.r == r,
            c.g == g,
            c.b == b,
    {
        Color { r, g, b }
    }
}

/// One logical pixel written with one color.
#[derive(Clone, Copy, Debug, PartialEq, Eq, Structural)]
pub struct Pixel {
    pub point: Point,
    pub color: Color,
}

/// Screen-space triangle: three integer vertices and an optional fill color.
#[derive(Clone, Copy, Debug)]
pub struct Triangle {
    pub a: Point,
    pub b: Point,
    pub c: Point,
    pub color: Option<Color>,
}

impl Triangle {
    pub fn new(a: Point, b: Point, c: Point) -> (t: Triangle)
        ensures
            t.a == a,
            t.b == b,
            t.c == c,
            t.color.is_none(),
    {
        Triangle { a, b, c, color: None }
    }
}

/// The pixel buffer the rasterizer draws on: every pixel write, in the order
/// it was made, so that later writes cover earlier ones when shown.
pub struct Canvas {
    pixels: Vec<Pixel>,
}

impl View for Canvas {
    type V = Seq<Pixel>;

    closed spec fn view(&self) -> Seq<Pixel> {
        self.pixels@
    }
}

impl Canvas {
    pub fn new() -> (c: Canvas)
        ensures
            c@ == Seq::<Pixel>::empty(),
    {
        Canvas { pixels: Vec::new() }
    }

    /// The writes made so far, oldest first.
    pub fn pixels(&self) -> (r: &[Pixel])
        ensures
            r@ == self@,
    {
        self.pixels.as_slice()
    }

    /// Forgets every write: the buffer shows the background again.
    pub fn clear(&mut self)
        ensures
            final(self)@ == Seq::<Pixel>::empty(),
    {
        self.pixels.clear();
    }
}

/// The writes that draw each of `ps`, in order, with `color`.
pub open spec fn plot(ps: Seq<Point>, color: Color) -> Seq<Pixel> {
    ps.map_values(|p: Point| Pixel { point: p, color })
}

pub open spec fn abs(v: int) -> int {
    if v < 0 {
        -v
    } else {
        v
    }
}

pub open spec fn min(a: int, b: int) -> int {
    if a <= b {
        a
    } else {
        b
    }
}

pub open spec fn max(a: int, b: int) -> int {
    if a <= b {
        b
    } else {
        a
    }
}

/// The pixels of row `y` from `x == lo` to `x == hi`, left to right.
pub open spec fn horizontal_run(y: int, lo: int, hi: int) -> Seq<Point> {
    Seq::new((hi - lo + 1) as nat, |k: int| Point { x: (lo + k) as i32, y: y as i32 })
}

/// The pixels of column `x` from `y == lo` to `y == hi`, top to bottom.
pub open spec fn vertical_run(x: int, lo: int, hi: int) -> Seq<Point> {
    Seq::new((hi - lo + 1) as nat, |k: int| Point { x: x as i32, y: (lo + k) as i32 })
}

/// Offset along the minor axis at step `k` of a line whose major axis spans
/// `n` steps and whose minor axis moves by `d`: the exact coordinate, started
/// half a pixel in, rounded down.
pub open spec fn minor_offset(n: int, d: int, k: int) -> int {
    floor_div(n + 2 * k * d, 2 * n)
}

/// The pixels of the line from `a` to `b`, in drawing order.
///
/// A vertical or horizontal line is a run from its lower to its higher end.
/// Any other line takes one step along the axis that moves more, starting
/// at `a`, and rounds the other coordinate: both ends are always included.
pub open spec fn line_points(a: Point, b: Point) -> Seq<Point> {
    let dx = b.x - a.x;
    let dy = b.y - a.y;
    if dx == 0 {
        vertical_run(a.x as int, min(a.y as int, b.y as int), max(a.y as int, b.y as int))
    } else if dy == 0 {
        horizontal_run(a.y as int, min(a.x as int, b.x as int), max(a.x as int, b.x as int))
    } else if abs(dx) >= abs(dy) {
        let n = abs(dx);
        let s = if dx > 0 { 1int } else { -1int };
        Seq::new(
            (n + 1) as nat,
            |k: int| Point { x: (a.x + s * k) as i32, y: (a.y + minor_offset(n, dy, k)) as i32 },
        )
    } else {
        let n = abs(dy);
        let s = if dy > 0 { 1int } else { -1int };
        Seq::new(
            (n + 1) as nat,
            |k: int| Point { x: (a.x + minor_offset(n, dx, k)) as i32, y: (a.y + s * k) as i32 },
        )
    }
}

/// The minor-axis offset stays between the start and the end of its axis.
pub proof fn lemma_minor_offset_bounds(n: int, d: int, k: int)
    requires
        n > 0,
        0 <= k <= n,
        -n <= d <= n,
    ensures
        min(0, d) <= minor_offset(n, d, k) <= max(0, d),
        k == 0 ==> minor_offset(n, d, k) == 0,
        k == n ==> minor_offset(n, d, k) == d,
{
    let x = n + 2 * k * d;
    let m = 2 * n;
    if d >= 0 {
        assert(0 * m <= x && x < (d + 1) * m) by (nonlinear_arith)
            requires
                0 <= k <= n,
                d >= 0,
                x == n + 2 * k * d,
                m == 2 * n,
                n > 0,
        {}
        crate::arith::lemma_div_between(x, m, 0, d);
    } else {
        assert(d * m <= x && x < (0 + 1) * m) by (nonlinear_arith)
            requires
                0 <= k <= n,
                d < 0,
                x == n + 2 * k * d,
                m == 2 * n,
                n > 0,
        {}
        crate::arith::lemma_div_between(x, m, d, 0);
    }
    if k == n {
        assert(d * m <= x && x < (d + 1) * m) by (nonlinear_arith)
            requires
                k == n,
                x == n + 2 * k * d,
                m == 2 * n,
                n > 0,
        {}
        crate::arith::lemma_div_between(x, m, d, d);
    }
    if k == 0 {
        assert(x == n) by (nonlinear_arith)
            requires
                k == 0,
                x == n + 2 * k * d,
        {}
        crate::arith::lemma_div_between(x, m, 0, 0);
    }
}

/// Writes one logical pixel.
pub fn pixel(point: Point, color: Color, canvas: &mut Canvas)
    ensures
        final(canvas)@ == old(canvas)@.push(Pixel { point, color }),
{
    canvas.pixels.push(Pixel { point, color });
}

/// The display pixels that show the logical pixel `p`: a square block of
/// side [`PIXEL_SIZE`], column by column.
pub open spec fn block_points(p: Point) -> Seq<Point> {
    Seq::new(
        (PIXEL_SIZE * PIXEL_SIZE) as nat,
        |i: int|
            Point {
                x: (p.x * PIXEL_SIZE + i / (PIXEL_SIZE as int)) as i32,
                y: (p.y * PIXEL_SIZE + i % (PIXEL_SIZE as int)) as i32,
            },
    )
}

proof fn lemma_step_product_bound(k: int, d: int)
    requires
        0 <= k <= 0x1_0000_0000,
        -0x1_0000_0000 <= d <= 0x1_0000_0000,
    ensures
        -0x4_0000_0000_0000_0000 <= 2 * k * d <= 0x4_0000_0000_0000_0000,
{
    assert(-0x4_0000_0000_0000_0000 <= 2 * k * d <= 0x4_0000_0000_0000_0000) by (nonlinear_arith)
        requires
            0 <= k <= 0x1_0000_0000,
            -0x1_0000_0000 <= d <= 0x1_0000_0000,
    {}
}

/// Number of pixels of the line from `a` to `b`.
fn line_len(a: Point, b: Point) -> (n: i64)
    ensures
        n == line_points(a, b).len(),
        1 <= n <= 0x1_0000_0000,
{
    let dx: i64 = b.x as i64 - a.x as i64;
    let dy: i64 = b.y as i64 - a.y as i64;
    let adx: i64 = if dx < 0 { -dx } else { dx };
    let ady: i64 = if dy < 0 { -dy } else { dy };
    if dx == 0 {
        ady + 1
    } else if dy == 0 {
        adx + 1
    } else if adx >= ady {
        adx + 1
    } else {
        ady + 1
    }
}

/// The `k`-th pixel of the line from `a` to `b`.
fn line_step(a: Point, b: Point, k: i64) -> (p: Point)
    requires
        0 <= k < line_points(a, b).len(),
    ensures
        p == line_points(a, b)[k as int],
{
    let dx: i64 = b.x as i64 - a.x as i64;
    let dy: i64 = b.y as i64 - a.y as i64;
    let adx: i64 = if dx < 0 { -dx } else { dx };
    let ady: i64 = if dy < 0 { -dy } else { dy };
    if dx == 0 {
        let lo: i64 = if a.y <= b.y { a.y as i64 } else { b.y as i64 };
        Point { x: a.x, y: (lo + k) as i32 }
    } else if dy == 0 {
        let lo: i64 = if a.x <= b.x { a.x as i64 } else { b.x as i64 };
        Point { x: (lo + k) as i32, y: a.y }
    } else if adx >= ady {
        proof {
            lemma_minor_offset_bounds(adx as int, dy as int, k as int);
            lemma_step_product_bound(k as int, dy as int);
        }
        let x: i64 = if dx > 0 { a.x as i64 + k } else { a.x as i64 - k };
        let off = floor_div_i128(adx as i128 + 2 * (k as i128) * (dy as i128), 2 * (adx as i128));
        Point { x: x as i32, y: (a.y as i128 + off) as i32 }
    } else {
        proof {
            lemma_minor_offset_bounds(ady as int, dx as int, k as int);
            lemma_step_product_bound(k as int, dx as int);
        }
        let y: i64 = if dy > 0 { a.y as i64 + k } else { a.y as i64 - k };
        let off = floor_div_i128(ady as i128 + 2 * (k as i128) * (dx as i128), 2 * (ady as i128));
        Point { x: (a.x as i128 + off) as i32, y: y as i32 }
    }
}

/// Draws the line from `point_a` to `point_b`, both ends included.
pub fn line(point_a: Point, point_b: Point, color: Color, canvas: &mut Canvas)
    ensures
        final(canvas)@ == old(canvas)@ + plot(line_points(point_a, point_b), color),
{
    let ghost pts = line_points(point_a, point_b);
    let n = line_len(point_a, point_b);
    let mut k: i64 = 0;
    while k < n
        invariant
            0 <= k <= n,
            n == pts.len(),
            pts == line_points(point_a, point_b),
            canvas@ == old(canvas)@ + plot(pts.take(k as int), color),
        decreases n - k,
    {
        let p = line_step(point_a, point_b, k);
        pixel(p, color, canvas);
        assert(pts.take(k + 1) =~= pts.take(k as int).push(p));
        assert(plot(pts.take(k + 1), color) =~= plot(pts.take(k as int), color).push(
            Pixel { point: p, color },
        ));
        k = k + 1;
    }
    assert(pts.take(n as int) =~= pts);
}

/// Both plots of a joined sequence follow one another.
pub proof fn lemma_plot_add(x: Seq<Point>, y: Seq<Point>, color: Color)
    ensures
        plot(x + y, color) == plot(x, color) + plot(y, color),
{
    assert(plot(x + y, color) =~= plot(x, color) + plot(y, color));
}

/// The three edges of `t`: `a` to `b`, `b` to `c`, then `a` to `c`.
pub open spec fn outline_points(t: Triangle) -> Seq<Point> {
    line_points(t.a, t.b) + line_points(t.b, t.c) + line_points(t.a, t.c)
}

/// Draws the outline of `t`.
pub fn triangle(triangle: Triangle, color: Color, canvas: &mut Canvas)
    ensures
        final(canvas)@ == old(canvas)@ + plot(outline_points(triangle), color),
{
    line(triangle.a, triangle.b, color, canvas);
    line(triangle.b, triangle.c, color, canvas);
    line(triangle.a, triangle.c, color, canvas);
    proof {
        lemma_plot_add(
            line_points(triangle.a, triangle.b),
            line_points(triangle.b, triangle.c),
            color,
        );
        lemma_plot_add(
            line_points(triangle.a, triangle.b) + line_points(triangle.b, triangle.c),
            line_points(triangle.a, triangle.c),
            color,
        );
    }
}

/// X of the edge from `(ax, y0)` to `(px, y0 ± h)` on its `k`-th scanline:
/// the exact position rounded toward zero. A flat edge (`h == 0`) has only
/// its start.
pub open spec fn edge_x(ax: int, px: int, k: int, h: int) -> int {
    if h == 0 {
        ax
    } else {
        trunc_div(ax * h + k * (px - ax), h)
    }
}

/// The pixels of one scanline of a fill: the line between its two edges.
pub open spec fn scanline(y: int, x1: int, x2: int) -> Seq<Point> {
    line_points(Point { x: x1 as i32, y: y as i32 }, Point { x: x2 as i32, y: y as i32 })
}

/// The scanlines of a triangle with apex `a` above a flat base `b`–`c`,
/// from the apex down to the base.
pub open spec fn flat_bottom_rows(a: Point, b: Point, c: Point) -> Seq<Seq<Point>> {
    let h = b.y - a.y;
    Seq::new(
        (h + 1) as nat,
        |k: int| scanline(a.y + k, edge_x(a.x as int, b.x as int, k, h), edge_x(a.x as int, c.x as int, k, h)),
    )
}

/// The scanlines of a triangle with apex `a` below a flat top `b`–`c`,
/// from the apex up to the top.
pub open spec fn flat_top_rows(a: Point, b: Point, c: Point) -> Seq<Seq<Point>> {
    let h = a.y - b.y;
    Seq::new(
        (h + 1) as nat,
        |k: int| scanline(a.y - k, edge_x(a.x as int, b.x as int, k, h), edge_x(a.x as int, c.x as int, k, h)),
    )
}

/// An edge position stays between the edge's two ends.
pub proof fn lemma_edge_x_bounds(ax: int, px: int, k: int, h: int)
    requires
        0 <= k <= h,
    ensures
        min(ax, px) <= edge_x(ax, px, k, h) <= max(ax, px),
        k == 0 ==> edge_x(ax, px, k, h) == ax,
{
    if h > 0 {
        let lo = min(ax, px);
        let hi = max(ax, px);
        let x = ax * h + k * (px - ax);
        assert(lo * h <= x <= hi * h) by (nonlinear_arith)
            requires
                0 <= k <= h,
                x == ax * h + k * (px - ax),
                lo == min(ax, px),
                hi == max(ax, px),
        {}
        crate::arith::lemma_trunc_div_between(x, h, lo, hi);
        if k == 0 {
            assert(x == ax * h) by (nonlinear_arith)
                requires
                    k == 0,
                    x == ax * h + k * (px - ax),
            {}
            crate::arith::lemma_trunc_div_between(x, h, ax, ax);
        }
    }
}

/// X of an edge on its `k`-th scanline.
fn edge_x_at(ax: i32, px: i32, k: i64, h: i64) -> (x: i32)
    requires
        0 <= k <= h,
        h <= 0x1_0000_0000,
    ensures
        x == edge_x(ax as int, px as int, k as int, h as int),
{
    proof {
        lemma_edge_x_bounds(ax as int, px as int, k as int, h as int);
    }
    if h == 0 {
        ax
    } else {
        assert(-0x1_0000_0000_0000_0000 <= ax * h <= 0x1_0000_0000_0000_0000
            && -0x2_0000_0000_0000_0000 <= k * (px - ax) <= 0x2_0000_0000_0000_0000)
            by (nonlinear_arith)
            requires
                0 <= k <= h,
                h <= 0x1_0000_0000,
                -0x8000_0000 <= ax < 0x8000_0000,
                -0x8000_0000 <= px < 0x8000_0000,
        {}
        let n: i128 = ax as i128 * h as i128 + k as i128 * (px as i128 - ax as i128);
        trunc_div_i128(n, h as i128) as i32
    }
}

/// Draws a filled triangle whose apex `t.a` lies above (or on) its flat
/// base `t.b`–`t.c`, one scanline at a time from the apex down.
pub fn filled_flat_bottom_triangle(t: Triangle, color: Color, canvas: &mut Canvas)
    requires
        t.a.y <= t.b.y,
        t.b.y == t.c.y,
    ensures
        final(canvas)@ == old(canvas)@ + plot(flat_bottom_rows(t.a, t.b, t.c).flatten(), color),
{
    let ghost rows = flat_bottom_rows(t.a, t.b, t.c);
    let h: i64 = t.b.y as i64 - t.a.y as i64;
    let mut k: i64 = 0;
    while k <= h
        invariant
            0 <= k <= h + 1,
            h == t.b.y - t.a.y,
            t.b.y == t.c.y,
            rows == flat_bottom_rows(t.a, t.b, t.c),
            canvas@ == old(canvas)@ + plot(rows.take(k as int).flatten(), color),
        decreases h + 1 - k,
    {
        let x1 = edge_x_at(t.a.x, t.b.x, k, h);
        let x2 = edge_x_at(t.a.x, t.c.x, k, h);
        let y = (t.a.y as i64 + k) as i32;
        line(Point::new(x1, y), Point::new(x2, y), color, canvas);
        proof {
            assert(rows[k as int] == line_points(Point { x: x1, y }, Point { x: x2, y }));
            assert(rows.take(k + 1) =~= rows.take(k as int).push(rows[k as int]));
            rows.take(k as int).lemma_flatten_push(rows[k as int]);
            lemma_plot_add(rows.take(k as int).flatten(), rows[k as int], color);
        }
        k = k + 1;
    }
    assert(rows.take(k as int) =~= rows);
}

/// Draws a filled triangle whose apex `t.a` lies below (or on) its flat
/// top `t.b`–`t.c`, one scanline at a time from the apex up.
pub fn filled_flat_top_triangle(t: Triangle, color: Color, canvas: &mut Canvas)
    requires
        t.b.y <= t.a.y,
        t.b.y == t.c.y,
    ensures
        final(canvas)@ == old(canvas)@ + plot(flat_top_rows(t.a, t.b, t.c).flatten(), color),
{
    let ghost rows = flat_top_rows(t.a, t.b, t.c);
    let h: i64 = t.a.y as i64 - t.b.y as i64;
    let mut k: i64 = 0;
    while k <= h
        invariant
            0 <= k <= h + 1,
            h == t.a.y - t.b.y,
            t.b.y == t.c.y,
            rows == flat_top_rows(t.a, t.b, t.c),
            canvas@ == old(canvas)@ + plot(rows.take(k as int).flatten(), color),
        decreases h + 1 - k,
    {
        let x1 = edge_x_at(t.a.x, t.b.x, k, h);
        let x2 = edge_x_at(t.a.x, t.c.x, k, h);
        let y = (t.a.y as i64 - k) as i32;
        line(Point::new(x1, y), Point::new(x2, y), color, canvas);
        proof {
            assert(rows[k as int] == line_points(Point { x: x1, y }, Point { x: x2, y }));
            assert(rows.take(k + 1) =~= rows.take(k as int).push(rows[k as int]));
            rows.take(k as int).lemma_flatten_push(rows[k as int]);
            lemma_plot_add(rows.take(k as int).flatten(), rows[k as int], color);
        }
        k = k + 1;
    }
    assert(rows.take(k as int) =~= rows);
}

/// The vertices `a`, `b`, `c` ordered by ascending y; vertices with equal
/// y keep their given order.
pub open spec fn sort_by_y(a: Point, b: Point, c: Point) -> (Point, Point, Point) {
    if a.y <= b.y {
        if b.y <= c.y {
            (a, b, c)
        } else if a.y <= c.y {
            (a, c, b)
        } else {
            (c, a, b)
        }
    } else {
        if a.y <= c.y {
            (b, a, c)
        } else if b.y <= c.y {
            (b, c, a)
        } else {
            (c, b, a)
        }
    }
}

/// Stable sort of three vertices by y.
fn sort_vertices(a: Point, b: Point, c: Point) -> (r: (Point, Point, Point))
    ensures
        r == sort_by_y(a, b, c),
        r.0.y <= r.1.y <= r.2.y,
{
    let mut p1 = a;
    let mut p2 = b;
    let mut p3 = c;
    if p2.y < p1.y {
        let tmp = p1;
        p1 = p2;
        p2 = tmp;
    }
    if p3.y < p2.y {
        let tmp = p2;
        p2 = p3;
        p3 = tmp;
    }
    if p2.y < p1.y {
        let tmp = p1;
        p1 = p2;
        p2 = tmp;
    }
    (p1, p2, p3)
}

/// X where the long edge from `top` to `bottom` crosses the scanline of
/// `mid`, rounded toward `top.x`.
pub open spec fn split_x(top: Point, mid: Point, bottom: Point) -> int {
    top.x + trunc_div((mid.y - top.y) * (bottom.x - top.x), bottom.y - top.y)
}

/// The pixels of the filled triangle `t`, in drawing order.
///
/// The vertices are ordered by y. A triangle with a flat base or a flat top
/// is one fill; any other is split at the middle vertex's scanline into a
/// flat-bottom upper part and a flat-top lower part.
pub open spec fn filled_points(t: Triangle) -> Seq<Point> {
    let (p1, p2, p3) = sort_by_y(t.a, t.b, t.c);
    if p2.y == p3.y {
        flat_bottom_rows(p1, p2, p3).flatten()
    } else if p1.y == p2.y {
        flat_top_rows(p3, p1, p2).flatten()
    } else {
        let p4 = Point { x: split_x(p1, p2, p3) as i32, y: p2.y };
        flat_bottom_rows(p1, p2, p4).flatten() + flat_top_rows(p3, p2, p4).flatten()
    }
}

/// The split point lies on the long edge's x-range.
proof fn lemma_split_x_bounds(top: Point, mid: Point, bottom: Point)
    requires
        top.y < mid.y < bottom.y,
    ensures
        min(top.x as int, bottom.x as int) <= split_x(top, mid, bottom) <= max(
            top.x as int,
            bottom.x as int,
        ),
{
    let d = bottom.x - top.x;
    let m = mid.y - top.y;
    let h = bottom.y - top.y;
    let lo = min(0, d);
    let hi = max(0, d);
    assert(lo * h <= m * d <= hi * h) by (nonlinear_arith)
        requires
            0 < m < h,
            lo == min(0, d),
            hi == max(0, d),
    {}
    crate::arith::lemma_trunc_div_between(m * d, h, lo, hi);
}

/// Draws the filled triangle `t`.
pub fn filled_triangle(t: Triangle, color: Color, canvas: &mut Canvas)
    ensures
        final(canvas)@ == old(canvas)@ + plot(filled_points(t), color),
{
    let (p1, p2, p3) = sort_vertices(t.a, t.b, t.c);
    if p2.y == p3.y {
        filled_flat_bottom_triangle(Triangle::new(p1, p2, p3), color, canvas);
    } else if p1.y == p2.y {
        filled_flat_top_triangle(Triangle::new(p3, p1, p2), color, canvas);
    } else {
        proof {
            lemma_split_x_bounds(p1, p2, p3);
            assert(-0x1_0000_0000_0000_0000 <= (p2.y - p1.y) * (p3.x - p1.x)
                <= 0x1_0000_0000_0000_0000) by (nonlinear_arith)
                requires
                    0 < p2.y - p1.y <= 0x1_0000_0000,
                    -0x1_0000_0000 <= p3.x - p1.x <= 0x1_0000_0000,
            {}
        }
        let num: i128 = (p2.y as i128 - p1.y as i128) * (p3.x as i128 - p1.x as i128);
        let x4 = (p1.x as i128 + trunc_div_i128(num, p3.y as i128 - p1.y as i128)) as i32;
        let p4 = Point::new(x4, p2.y);
        filled_flat_bottom_triangle(Triangle::new(p1, p2, p4), color, canvas);
        filled_flat_top_triangle(Triangle::new(p3, p2, p4), color, canvas);
        proof {
            lemma_plot_add(
                flat_bottom_rows(p1, p2, p4).flatten(),
                flat_top_rows(p3, p2, p4).flatten(),
                color,
            );
        }
    }
}

/// A line from a point to itself is that one pixel.
pub proof fn lemma_line_single_pixel(a: Point)
    ensures
        line_points(a, a) == seq![a],
{
    assert(line_points(a, a) =~= seq![a]);
}

/// Both ends of a line are among its pixels; a line that is neither
/// vertical nor horizontal starts at `a` and ends at `b`.
pub proof fn lemma_line_endpoints(a: Point, b: Point)
    ensures
        line_points(a, b).contains(a),
        line_points(a, b).contains(b),
        a.x != b.x && a.y != b.y ==> line_points(a, b)[0] == a && line_points(a, b).last() == b,
{
    let pts = line_points(a, b);
    let dx = b.x - a.x;
    let dy = b.y - a.y;
    if dx == 0 {
        if a.y <= b.y {
            assert(pts[0] == a);
            assert(pts[dy] == b);
        } else {
            assert(pts[0] == b);
            assert(pts[-dy] == a);
        }
    } else if dy == 0 {
        if a.x <= b.x {
            assert(pts[0] == a);
            assert(pts[dx] == b);
        } else {
            assert(pts[0] == b);
            assert(pts[-dx] == a);
        }
    } else if abs(dx) >= abs(dy) {
        lemma_minor_offset_bounds(abs(dx), dy as int, 0);
        lemma_minor_offset_bounds(abs(dx), dy as int, abs(dx));
        assert(pts[0] == a);
        assert(pts[abs(dx)] == b);
    } else {
        lemma_minor_offset_bounds(abs(dy), dx as int, 0);
        lemma_minor_offset_bounds(abs(dy), dx as int, abs(dy));
        assert(pts[0] == a);
        assert(pts[abs(dy)] == b);
    }
}

/// A line within one scanline is the run between its ends.
pub proof fn lemma_scanline_is_run(y: i32, x1: i32, x2: i32)
    ensures
        line_points(Point { x: x1, y }, Point { x: x2, y }) == horizontal_run(
            y as int,
            min(x1 as int, x2 as int),
            max(x1 as int, x2 as int),
        ),
{
    assert(line_points(Point { x: x1, y }, Point { x: x2, y }) =~= horizontal_run(
        y as int,
        min(x1 as int, x2 as int),
        max(x1 as int, x2 as int),
    ));
}

/// The pixels of a sequence of horizontal spans `(y, lo, hi)`, in order.
pub open spec fn spans_points(spans: Seq<(int, int, int)>) -> Seq<Point> {
    spans.map_values(|s: (int, int, int)| horizontal_run(s.0, s.1, s.2)).flatten()
}

/// `pts` is one contiguous horizontal span on each scanline from `lo_y` to
/// `hi_y`, and nothing else.
pub open spec fn is_span_fill(pts: Seq<Point>, lo_y: int, hi_y: int) -> bool {
    exists|spans: Seq<(int, int, int)>|
        {
            &&& spans.len() == hi_y - lo_y + 1
            &&& forall|k: int|
                0 <= k < spans.len() ==> lo_y <= (#[trigger] spans[k]).0 <= hi_y && spans[k].1
                    <= spans[k].2
            &&& forall|i: int, j: int|
                0 <= i < j < spans.len() ==> (#[trigger] spans[i]).0 != (#[trigger] spans[j]).0
            &&& pts == spans_points(spans)
        }
}

/// The spans of a fill whose `k`-th scanline is at `y0 + dir * k`.
spec fn fill_spans(y0: int, dir: int, a: Point, b: Point, c: Point, h: int) -> Seq<(int, int, int)> {
    Seq::new(
        (h + 1) as nat,
        |k: int|
            (
                y0 + dir * k,
                min(edge_x(a.x as int, b.x as int, k, h), edge_x(a.x as int, c.x as int, k, h)),
                max(edge_x(a.x as int, b.x as int, k, h), edge_x(a.x as int, c.x as int, k, h)),
            ),
    )
}

proof fn lemma_flat_bottom_spans(a: Point, b: Point, c: Point)
    requires
        a.y <= b.y,
        b.y == c.y,
    ensures
        is_span_fill(flat_bottom_rows(a, b, c).flatten(), a.y as int, b.y as int),
{
    let h = b.y - a.y;
    let spans = fill_spans(a.y as int, 1, a, b, c, h);
    let rows = flat_bottom_rows(a, b, c);
    assert forall|k: int| 0 <= k < rows.len() implies rows[k] == horizontal_run(
        spans[k].0,
        spans[k].1,
        spans[k].2,
    ) by {
        lemma_edge_x_bounds(a.x as int, b.x as int, k, h);
        lemma_edge_x_bounds(a.x as int, c.x as int, k, h);
        let x1 = edge_x(a.x as int, b.x as int, k, h) as i32;
        let x2 = edge_x(a.x as int, c.x as int, k, h) as i32;
        lemma_scanline_is_run((a.y + k) as i32, x1, x2);
    }
    assert(rows =~= spans.map_values(|s: (int, int, int)| horizontal_run(s.0, s.1, s.2)));
    assert forall|k: int| 0 <= k < spans.len() implies a.y <= (#[trigger] spans[k]).0 <= b.y
        && spans[k].1 <= spans[k].2 by {}
}

proof fn lemma_flat_top_spans(a: Point, b: Point, c: Point)
    requires
        b.y <= a.y,
        b.y == c.y,
    ensures
        is_span_fill(flat_top_rows(a, b, c).flatten(), b.y as int, a.y as int),
{
    let h = a.y - b.y;
    let spans = fill_spans(a.y as int, -1, a, b, c, h);
    let rows = flat_top_rows(a, b, c);
    assert forall|k: int| 0 <= k < rows.len() implies rows[k] == horizontal_run(
        spans[k].0,
        spans[k].1,
        spans[k].2,
    ) by {
        lemma_edge_x_bounds(a.x as int, b.x as int, k, h);
        lemma_edge_x_bounds(a.x as int, c.x as int, k, h);
        let x1 = edge_x(a.x as int, b.x as int, k, h) as i32;
        let x2 = edge_x(a.x as int, c.x as int, k, h) as i32;
        lemma_scanline_is_run((a.y - k) as i32, x1, x2);
    }
    assert(rows =~= spans.map_values(|s: (int, int, int)| horizontal_run(s.0, s.1, s.2)));
    assert forall|k: int| 0 <= k < spans.len() implies b.y <= (#[trigger] spans[k]).0 <= a.y
        && spans[k].1 <= spans[k].2 by {}
}

pub open spec fn min_y(t: Triangle) -> int {
    min(min(t.a.y as int, t.b.y as int), t.c.y as int)
}

pub open spec fn max_y(t: Triangle) -> int {
    max(max(t.a.y as int, t.b.y as int), t.c.y as int)
}

/// A filled triangle with two vertices on one scanline is drawn as exactly
/// one contiguous horizontal span on each scanline from its least to its
/// greatest y, and nowhere else.
pub proof fn lemma_flat_triangle_fill(t: Triangle)
    requires
        t.a.y == t.b.y || t.b.y == t.c.y || t.a.y == t.c.y,
    ensures
        is_span_fill(filled_points(t), min_y(t), max_y(t)),
{
    let (p1, p2, p3) = sort_by_y(t.a, t.b, t.c);
    if p2.y == p3.y {
        lemma_flat_bottom_spans(p1, p2, p3);
    } else {
        lemma_flat_top_spans(p3, p1, p2);
    }
}

/// The display pixels that show the logical pixel `p`, column by column.
pub fn display_block(p: Point) -> (r: Vec<Point>)
    requires
        i32::MIN <= p.x * PIXEL_SIZE,
        p.x * PIXEL_SIZE + PIXEL_SIZE - 1 <= i32::MAX,
        i32::MIN <= p.y * PIXEL_SIZE,
        p.y * PIXEL_SIZE + PIXEL_SIZE - 1 <= i32::MAX,
    ensures
        r@ == block_points(p),
{
    let mut r: Vec<Point> = Vec::new();
    let mut dx: i32 = 0;
    while dx < PIXEL_SIZE
        invariant
            0 <= dx <= PIXEL_SIZE,
            i32::MIN <= p.x * PIXEL_SIZE,
            p.x * PIXEL_SIZE + PIXEL_SIZE - 1 <= i32::MAX,
            i32::MIN <= p.y * PIXEL_SIZE,
            p.y * PIXEL_SIZE + PIXEL_SIZE - 1 <= i32::MAX,
            r@ == block_points(p).take(dx * PIXEL_SIZE),
        decreases PIXEL_SIZE - dx,
    {
        let mut dy: i32 = 0;
        while dy < PIXEL_SIZE
            invariant
                0 <= dx < PIXEL_SIZE,
                0 <= dy <= PIXEL_SIZE,
                i32::MIN <= p.x * PIXEL_SIZE,
                p.x * PIXEL_SIZE + PIXEL_SIZE - 1 <= i32::MAX,
                i32::MIN <= p.y * PIXEL_SIZE,
                p.y * PIXEL_SIZE + PIXEL_SIZE - 1 <= i32::MAX,
                r@ == block_points(p).take(dx * PIXEL_SIZE + dy),
            decreases PIXEL_SIZE - dy,
        {
            r.push(Point::new(p.x * PIXEL_SIZE + dx, p.y * PIXEL_SIZE + dy));
            assert(block_points(p).take(dx * PIXEL_SIZE + dy + 1) =~= block_points(p).take(
                dx * PIXEL_SIZE + dy,
            ).push(Point { x: (p.x * PIXEL_SIZE + dx) as i32, y: (p.y * PIXEL_SIZE + dy) as i32 }));
            dy = dy + 1;
        }
        dx = dx + 1;
    }
    assert(block_points(p).take(PIXEL_SIZE * PIXEL_SIZE) =~= block_points(p));
    r
}

} // verus!
