//! Colours, points, triangles and the scanline rasterizer.

use crate::distance::{color_distance, MAX_DISTANCE};
use crate::raster::{raster_dimensions, raster_get_pixel, Raster};
use crate::{randrange, EvolveError};
use vstd::prelude::*;

verus! {

/// An RGB colour, one byte per channel.
#[derive(Copy, Clone, Hash, PartialEq, Eq, Structural, Debug)]
pub struct Color {
    pub r: u8,
    pub g: u8,
    pub b: u8,
}

/// An integer canvas coordinate. It may lie outside the canvas.
#[derive(Copy, Clone, PartialEq, Eq, Structural, Debug)]
pub struct Point {
    pub x: i32,
    pub y: i32,
}

/// A triangle: three vertices and a colour.
///
/// The rasterizer fills the triangle when the vertices are ordered by
/// ascending `y`.
#[derive(Debug, Copy, Clone)]
pub struct Polygon {
    pub color: Color,
    pub points: [Point; 3],
}

/// Integer division that rounds toward zero, for a positive divisor.
pub open spec fn trunc_div(n: int, d: int) -> int {
    if n >= 0 {
        n / d
    } else {
        -((-n) / d)
    }
}

/// The abscissa at `num / den` of the way from `x0` to `x1`, rounded toward
/// zero.
///
/// The quotient is exact. Computed in double precision, as
/// `x0 + (x1 - x0) * (num / den)`, the same abscissa can fall just below a
/// whole number and then round one lower: from `0` to `49` at `1 / 49` the
/// product is `0.9999999999999999`, which rounds to `0`, where the exact
/// abscissa is `1`.
pub open spec fn interpolate(x0: int, x1: int, num: int, den: int) -> int {
    trunc_div(x0 * den + (x1 - x0) * num, den)
}

/// `v` limited to the columns `0..=width` of the canvas (to `0` for a canvas
/// without columns).
pub open spec fn clamp_column(v: int, width: int) -> int {
    if v < 0 || width < 0 {
        0
    } else if v > width {
        width
    } else {
        v
    }
}

/// The pixels `(from, y), (from + 1, y), ..` up to but excluding `(to, y)`.
pub open spec fn run(from: int, to: int, y: int) -> Seq<(i32, i32)> {
    Seq::new(
        if to > from {
            (to - from) as nat
        } else {
            0
        },
        |k: int| ((from + k) as i32, y as i32),
    )
}

impl Polygon {
    /// Number of scanlines: the distance in `y` from the first vertex to the
    /// last.
    pub open spec fn total_height(&self) -> int {
        self.points[2].y - self.points[0].y
    }

    /// Distance in `y` from the first vertex to the middle one.
    pub open spec fn upper_height(&self) -> int {
        self.points[1].y - self.points[0].y
    }

    /// Whether scanline `i` is bounded by the edge from the middle vertex to
    /// the last one rather than by the edge from the first to the middle.
    pub open spec fn in_lower_half(&self, i: int) -> bool {
        i > self.upper_height() || self.upper_height() == 0
    }

    /// Where scanline `i` meets the long edge, from the first vertex to the
    /// last.
    pub open spec fn long_edge(&self, i: int) -> int {
        interpolate(self.points[0].x as int, self.points[2].x as int, i, self.total_height())
    }

    /// Where scanline `i` meets the short edge of its half.
    pub open spec fn short_edge(&self, i: int) -> int {
        if self.in_lower_half(i) {
            interpolate(
                self.points[1].x as int,
                self.points[2].x as int,
                i - self.upper_height(),
                self.points[2].y - self.points[1].y,
            )
        } else {
            interpolate(
                self.points[0].x as int,
                self.points[1].x as int,
                i,
                self.upper_height(),
            )
        }
    }

    /// The two intercepts of scanline `i`, the lower one first.
    pub open spec fn span(&self, i: int) -> (int, int) {
        let a = self.long_edge(i);
        let b = self.short_edge(i);
        if a > b {
            (b, a)
        } else {
            (a, b)
        }
    }

    /// The pixels of scanline `i` that lie on a `width` by `height` canvas,
    /// from left to right.
    pub open spec fn row(&self, i: int, width: int, height: int) -> Seq<(i32, i32)> {
        let y = self.points[0].y + i;
        let (lo, hi) = self.span(i);
        if 0 <= y < height {
            run(clamp_column(lo, width), clamp_column(hi, width), y)
        } else {
            Seq::empty()
        }
    }

    /// The pixels of the scanlines `i, i + 1, ..` in emission order.
    pub open spec fn pixels_from(&self, i: int, width: int, height: int) -> Seq<(i32, i32)>
        decreases self.total_height() - i,
    {
        if i < 0 || i >= self.total_height() {
            Seq::empty()
        } else {
            self.row(i, width, height) + self.pixels_from(i + 1, width, height)
        }
    }

    /// Every pixel that the triangle covers on a `width` by `height` canvas,
    /// row by row and left to right within a row.
    pub open spec fn pixels(&self, width: int, height: int) -> Seq<(i32, i32)> {
        self.pixels_from(0, width, height)
    }
}

/// Scanline walk over the pixels of one triangle on one canvas.
///
/// The walk is restartable: `Polygon::iter_points` builds a fresh one, and
/// every fresh walk over the same triangle and canvas yields the same
/// pixels in the same order.
pub struct PolygonIterator {
    width: i32,
    height: i32,
    shape: Polygon,
    /// Index of the current scanline.
    i: i64,
    /// Next column and end column of the current scanline, once computed.
    inter: Option<(i32, i32)>,
}

fn interpolate_exec(x0: i32, x1: i32, num: i64, den: i64) -> (r: i128)
    requires
        0 <= num <= den,
        0 < den < 0x1_0000_0000,
    ensures
        r == interpolate(x0 as int, x1 as int, num as int, den as int),
{
    let d: i128 = den as i128;
    let dx: i128 = (x1 as i128) - (x0 as i128);
    assert(-0x8000_0000_0000_0000 <= (x0 as int) * (den as int) <= 0x8000_0000_0000_0000)
        by (nonlinear_arith)
        requires
            -0x8000_0000 <= x0 < 0x8000_0000,
            0 < den < 0x1_0000_0000,
    ;
    assert(-0x1_0000_0000_0000_0000 <= (dx as int) * (num as int) <= 0x1_0000_0000_0000_0000)
        by (nonlinear_arith)
        requires
            -0x1_0000_0000 <= dx <= 0x1_0000_0000,
            0 <= num < 0x1_0000_0000,
    ;
    let n: i128 = (x0 as i128) * d + dx * (num as i128);
    if n >= 0 {
        n / d
    } else {
        -((-n) / d)
    }
}

fn clamp_column_exec(v: i128, width: i32) -> (r: i32)
    ensures
        r == clamp_column(v as int, width as int),
{
    if v < 0 || width < 0 {
        0
    } else if v > width as i128 {
        width
    } else {
        v as i32
    }
}

impl Polygon {
    /// The clipped column range of scanline `i`: `run(r.0, r.1, y)` is the
    /// scanline's row on the canvas.
    fn clipped_span(&self, i: i64, width: i32, height: i32) -> (r: (i32, i32))
        requires
            0 <= i < self.total_height(),
        ensures
            0 <= r.0 <= r.1,
            r.0 < r.1 ==> r.1 <= width && 0 <= self.points[0].y + i < height,
            run(r.0 as int, r.1 as int, self.points[0].y + i) == self.row(
                i as int,
                width as int,
                height as int,
            ),
    {
        let p0 = self.points[0];
        let p1 = self.points[1];
        let p2 = self.points[2];
        let y: i64 = p0.y as i64 + i;
        if y < 0 || y >= height as i64 {
            assert(run(0, 0, self.points[0].y + i) =~= Seq::empty());
            return (0, 0);
        }
        let total: i64 = p2.y as i64 - p0.y as i64;
        let upper: i64 = p1.y as i64 - p0.y as i64;
        let a = interpolate_exec(p0.x, p2.x, i, total);
        let b = if i > upper || upper == 0 {
            interpolate_exec(p1.x, p2.x, i - upper, p2.y as i64 - p1.y as i64)
        } else {
            interpolate_exec(p0.x, p1.x, i, upper)
        };
        let (lo, hi) = if a > b {
            (b, a)
        } else {
            (a, b)
        };
        (clamp_column_exec(lo, width), clamp_column_exec(hi, width))
    }

    /// Starts a walk over the pixels that the triangle covers on a `width`
    /// by `height` canvas.
    pub fn iter_points(&self, width: i32, height: i32) -> (it: PolygonIterator)
        ensures
            it.remaining() == self.pixels(width as int, height as int),
            it.canvas() == (width, height),
    {
        PolygonIterator { width, height, shape: *self, i: 0, inter: None }
    }
}

impl PolygonIterator {
    #[verifier::type_invariant]
    spec fn inv(self) -> bool {
        &&& 0 <= self.i
        &&& self.i <= self.shape.total_height() || self.i == 0
        &&& match self.inter {
            Some((x, end)) => {
                &&& self.i < self.shape.total_height()
                &&& 0 <= x <= end
                &&& x < end ==> end <= self.width && 0 <= self.shape.points[0].y + self.i
                    < self.height
            },
            None => true,
        }
    }

    /// The pixels that the walk has yet to yield, in order.
    pub closed spec fn remaining(&self) -> Seq<(i32, i32)> {
        match self.inter {
            Some((x, end)) => run(x as int, end as int, self.shape.points[0].y + self.i)
                + self.shape.pixels_from(self.i + 1, self.width as int, self.height as int),
            None => self.shape.pixels_from(self.i as int, self.width as int, self.height as int),
        }
    }

    /// Width and height of the canvas that the walk is clipped to.
    pub closed spec fn canvas(&self) -> (i32, i32) {
        (self.width, self.height)
    }

    /// Yields the next pixel of the walk, or `None` once every pixel has been
    /// yielded. Every pixel yielded lies on the canvas.
    pub fn next(&mut self) -> (r: Option<(i32, i32)>)
        ensures
            final(self).canvas() == old(self).canvas(),
            old(self).remaining().len() == 0 ==> r is None && final(self).remaining().len() == 0,
            old(self).remaining().len() > 0 ==> r == Some(old(self).remaining()[0])
                && final(self).remaining() == old(self).remaining().skip(1),
            r matches Some(px) ==> 0 <= px.0 < old(self).canvas().0 && 0 <= px.1 < old(
                self,
            ).canvas().1,
    {
        let total: i64 = self.shape.points[2].y as i64 - self.shape.points[0].y as i64;
        loop
            invariant
                self.remaining() == old(self).remaining(),
                self.canvas() == old(self).canvas(),
                total == self.shape.total_height(),
            decreases
                    total - self.i,
                    if self.inter is None {
                        1int
                    } else {
                        0int
                    },
        {
            proof {
                use_type_invariant(&*self);
            }
            if self.i >= total {
                return None;
            }
            match self.inter {
                None => {
                    let span = self.shape.clipped_span(self.i, self.width, self.height);
                    self.inter = Some(span);
                },
                Some((x, end)) => {
                    let ghost row = run(x as int, end as int, self.shape.points[0].y + self.i);
                    let ghost rest = self.shape.pixels_from(
                        self.i + 1,
                        self.width as int,
                        self.height as int,
                    );
                    if x < end {
                        let y: i32 = (self.shape.points[0].y as i64 + self.i) as i32;
                        self.inter = Some((x + 1, end));
                        proof {
                            let next_row = run(
                                x + 1,
                                end as int,
                                self.shape.points[0].y + self.i,
                            );
                            assert(row[0] == (x, y));
                            assert((row + rest)[0] == (x, y));
                            assert((row + rest).skip(1) =~= next_row + rest);
                        }
                        return Some((x, y));
                    } else {
                        assert(row + rest =~= rest);
                        self.inter = None;
                        self.i = self.i + 1;
                    }
                },
            }
        }
    }
}

/// Whether a pixel lies on a `width` by `height` canvas.
pub open spec fn on_canvas(px: (i32, i32), width: int, height: int) -> bool {
    0 <= px.0 < width && 0 <= px.1 < height
}

proof fn lemma_pixels_from_on_canvas(p: Polygon, i: int, width: i32, height: i32)
    ensures
        forall|k: int|
            0 <= k < p.pixels_from(i, width as int, height as int).len() ==> on_canvas(
                #[trigger] p.pixels_from(i, width as int, height as int)[k],
                width as int,
                height as int,
            ),
    decreases p.total_height() - i,
{
    if 0 <= i < p.total_height() {
        lemma_pixels_from_on_canvas(p, i + 1, width, height);
        let row = p.row(i, width as int, height as int);
        let rest = p.pixels_from(i + 1, width as int, height as int);
        assert forall|k: int| 0 <= k < (row + rest).len() implies on_canvas(
            #[trigger] (row + rest)[k],
            width as int,
            height as int,
        ) by {
            if k < row.len() {
                assert((row + rest)[k] == row[k]);
            } else {
                assert((row + rest)[k] == rest[k - row.len()]);
            }
        }
    }
}

/// Every pixel of a rasterized triangle lies on the canvas, whatever the
/// vertices and whatever the canvas.
pub proof fn lemma_pixels_on_canvas(p: Polygon, width: i32, height: i32)
    ensures
        forall|k: int|
            0 <= k < p.pixels(width as int, height as int).len() ==> on_canvas(
                #[trigger] p.pixels(width as int, height as int)[k],
                width as int,
                height as int,
            ),
{
    lemma_pixels_from_on_canvas(p, 0, width, height);
}

proof fn lemma_pixels_from_same_vertices(a: Polygon, b: Polygon, i: int, width: int, height: int)
    requires
        a.points == b.points,
    ensures
        a.pixels_from(i, width, height) == b.pixels_from(i, width, height),
    decreases a.total_height() - i,
{
    if 0 <= i < a.total_height() {
        lemma_pixels_from_same_vertices(a, b, i + 1, width, height);
    }
}

/// Rasterizing is a function of the vertices and the canvas alone: triangles
/// with the same vertices yield the same pixels in the same order on the same
/// canvas, every time.
pub proof fn lemma_raster_deterministic(a: Polygon, b: Polygon, width: int, height: int)
    requires
        a.points == b.points,
    ensures
        a.pixels(width, height) == b.pixels(width, height),
{
    lemma_pixels_from_same_vertices(a, b, 0, width, height);
}

/// A quotient rounded toward zero lies between two integers where the
/// dividend lies between their products with the divisor.
proof fn lemma_trunc_div_between(n: int, den: int, a: int, b: int)
    requires
        den > 0,
        a * den <= n <= b * den,
    ensures
        a <= trunc_div(n, den) <= b,
{
    if n >= 0 {
        let q = n / den;
        assert(q * den <= n < (q + 1) * den) by (nonlinear_arith)
            requires
                den > 0,
                n >= 0,
                q == n / den,
        ;
        assert(a <= q <= b) by (nonlinear_arith)
            requires
                den > 0,
                a * den <= n <= b * den,
                q * den <= n < (q + 1) * den,
                n >= 0,
                q >= 0,
        ;
    } else {
        let m = -n;
        let q = m / den;
        assert(q * den <= m < (q + 1) * den) by (nonlinear_arith)
            requires
                den > 0,
                m >= 0,
                q == m / den,
        ;
        assert(a <= -q <= b) by (nonlinear_arith)
            requires
                den > 0,
                a * den <= -m <= b * den,
                q * den <= m < (q + 1) * den,
                m > 0,
                q >= 0,
        ;
    }
}

/// An abscissa on the way from `x0` to `x1` lies between the two.
pub proof fn lemma_interpolate_between(x0: int, x1: int, num: int, den: int)
    requires
        0 <= num <= den,
        0 < den,
    ensures
        x0 <= x1 ==> x0 <= interpolate(x0, x1, num, den) <= x1,
        x1 <= x0 ==> x1 <= interpolate(x0, x1, num, den) <= x0,
{
    let n = x0 * den + (x1 - x0) * num;
    if x0 <= x1 {
        assert(x0 * den <= n <= x1 * den) by (nonlinear_arith)
            requires
                n == x0 * den + (x1 - x0) * num,
                0 <= num <= den,
                x0 <= x1,
        ;
        lemma_trunc_div_between(n, den, x0, x1);
    } else {
        assert(x1 * den <= n <= x0 * den) by (nonlinear_arith)
            requires
                n == x0 * den + (x1 - x0) * num,
                0 <= num <= den,
                x1 <= x0,
        ;
        lemma_trunc_div_between(n, den, x1, x0);
    }
}

/// Whether a pixel lies in the bounding box of the vertices, below the top
/// row and above the bottom row.
pub open spec fn in_box(px: (i32, i32), p: [Point; 3]) -> bool {
    &&& min3(p[0].x as int, p[1].x as int, p[2].x as int) <= px.0 < max3(
        p[0].x as int,
        p[1].x as int,
        p[2].x as int,
    )
    &&& p[0].y <= px.1 < p[2].y
}

proof fn lemma_pixels_from_in_box(p: Polygon, i: int, width: i32, height: i32)
    requires
        p.points[0].y <= p.points[1].y <= p.points[2].y,
    ensures
        forall|k: int|
            0 <= k < p.pixels_from(i, width as int, height as int).len() ==> in_box(
                #[trigger] p.pixels_from(i, width as int, height as int)[k],
                p.points,
            ),
    decreases p.total_height() - i,
{
    if 0 <= i < p.total_height() {
        lemma_pixels_from_in_box(p, i + 1, width, height);
        let row = p.row(i, width as int, height as int);
        let rest = p.pixels_from(i + 1, width as int, height as int);
        lemma_interpolate_between(p.points[0].x as int, p.points[2].x as int, i, p.total_height());
        if p.in_lower_half(i) {
            lemma_interpolate_between(
                p.points[1].x as int,
                p.points[2].x as int,
                i - p.upper_height(),
                p.points[2].y - p.points[1].y,
            );
        } else {
            lemma_interpolate_between(
                p.points[0].x as int,
                p.points[1].x as int,
                i,
                p.upper_height(),
            );
        }
        assert forall|k: int| 0 <= k < (row + rest).len() implies in_box(
            #[trigger] (row + rest)[k],
            p.points,
        ) by {
            if k < row.len() {
                assert((row + rest)[k] == row[k]);
            } else {
                assert((row + rest)[k] == rest[k - row.len()]);
            }
        }
    }
}

/// The fill of a triangle whose vertices are ordered by ascending `y` stays
/// within the triangle's bounding box: every pixel lies in a row from the
/// first vertex down to, but not on, the row of the last, and in a column
/// from the leftmost vertex up to, but not on, the column of the
/// rightmost.
pub proof fn lemma_pixels_in_box(p: Polygon, width: i32, height: i32)
    requires
        p.points[0].y <= p.points[1].y <= p.points[2].y,
    ensures
        forall|k: int|
            0 <= k < p.pixels(width as int, height as int).len() ==> in_box(
                #[trigger] p.pixels(width as int, height as int)[k],
                p.points,
            ),
{
    lemma_pixels_from_in_box(p, 0, width, height);
}

/// Number of canvas rows at or below scanline `i`.
spec fn rows_left(p: Polygon, i: int, height: int) -> int {
    let y = p.points[0].y + i;
    if height <= 0 || y >= height {
        0
    } else if y < 0 {
        height
    } else {
        height - y
    }
}

proof fn lemma_pixels_from_len(p: Polygon, i: int, width: i32, height: i32)
    requires
        0 <= i,
        0 <= width,
    ensures
        p.pixels_from(i, width as int, height as int).len() <= width * rows_left(
            p,
            i,
            height as int,
        ),
    decreases p.total_height() - i,
{
    let w = width as int;
    let here = rows_left(p, i, height as int);
    assert(w * here >= 0) by (nonlinear_arith)
        requires
            w >= 0,
            here >= 0,
    ;
    if i < p.total_height() {
        lemma_pixels_from_len(p, i + 1, width, height);
        let below = rows_left(p, i + 1, height as int);
        let y = p.points[0].y + i;
        if 0 <= y < height {
            assert(w * here == w * below + w) by (nonlinear_arith)
                requires
                    here == below + 1,
            ;
        }
    }
}

/// A rasterized triangle has at most as many pixels as the canvas has.
pub proof fn lemma_pixels_len(p: Polygon, width: i32, height: i32)
    requires
        0 <= width,
        0 <= height,
    ensures
        p.pixels(width as int, height as int).len() <= width * height,
{
    lemma_pixels_from_len(p, 0, width, height);
    let w = width as int;
    let h = height as int;
    let r = rows_left(p, 0, h);
    assert(w * r <= w * h) by (nonlinear_arith)
        requires
            0 <= w,
            0 <= r <= h,
    ;
}

/// Whether a canvas has at least one pixel and sides of at most `MAX_SIDE`.
pub open spec fn valid_canvas(width: int, height: int) -> bool {
    1 <= width <= MAX_SIDE && 1 <= height <= MAX_SIDE
}

/// Whether `b` holds the vertices of `a`, in any order.
pub open spec fn same_vertices(a: [Point; 3], b: [Point; 3]) -> bool {
    ||| (b[0] == a[0] && b[1] == a[1] && b[2] == a[2])
    ||| (b[0] == a[0] && b[1] == a[2] && b[2] == a[1])
    ||| (b[0] == a[1] && b[1] == a[0] && b[2] == a[2])
    ||| (b[0] == a[1] && b[1] == a[2] && b[2] == a[0])
    ||| (b[0] == a[2] && b[1] == a[0] && b[2] == a[1])
    ||| (b[0] == a[2] && b[1] == a[1] && b[2] == a[0])
}

/// Smallest of three integers.
pub open spec fn min3(a: int, b: int, c: int) -> int {
    if a <= b && a <= c {
        a
    } else if b <= c {
        b
    } else {
        c
    }
}

/// Largest of three integers.
pub open spec fn max3(a: int, b: int, c: int) -> int {
    if a >= b && a >= c {
        a
    } else if b >= c {
        b
    } else {
        c
    }
}

/// Width of the bounding box of three points.
pub open spec fn box_width(p: [Point; 3]) -> int {
    max3(p[0].x as int, p[1].x as int, p[2].x as int) - min3(
        p[0].x as int,
        p[1].x as int,
        p[2].x as int,
    )
}

/// Height of the bounding box of three points.
pub open spec fn box_height(p: [Point; 3]) -> int {
    max3(p[0].y as int, p[1].y as int, p[2].y as int) - min3(
        p[0].y as int,
        p[1].y as int,
        p[2].y as int,
    )
}

/// Whether all three points lie on one horizontal line.
pub open spec fn degenerate(p: [Point; 3]) -> bool {
    p[0].y == p[1].y && p[0].y == p[2].y
}

/// Whether the bounding box of the points is larger than `min_size` on both
/// axes and its sides differ by less than `delta`.
pub open spec fn fits(p: [Point; 3], min_size: int, delta: int) -> bool {
    let dx = box_width(p);
    let dy = box_height(p);
    (if dx >= dy {
        dx - dy
    } else {
        dy - dx
    }) < delta && dx > min_size && dy > min_size
}

/// Whether vertex `a` of `p` lies on the canvas extended by `Point::OFFSET`
/// on every side, and every vertex lies within `reach` of it on both axes.
pub open spec fn anchored(p: [Point; 3], a: int, img_w: int, img_h: int, reach: int) -> bool {
    &&& 0 <= a < 3
    &&& -Point::OFFSET <= p[a].x < img_w + Point::OFFSET
    &&& -Point::OFFSET <= p[a].y < img_h + Point::OFFSET
    &&& -reach <= p[0].x - p[a].x <= reach && -reach <= p[0].y - p[a].y <= reach
    &&& -reach <= p[1].x - p[a].x <= reach && -reach <= p[1].y - p[a].y <= reach
    &&& -reach <= p[2].x - p[a].x <= reach && -reach <= p[2].y - p[a].y <= reach
}

/// Whether any three points at all can pass the shape test: the offsets of
/// the second and third vertex lie in `-max_size..=max_size`, so a bounding
/// box has sides of at most `2 * max_size`.
pub open spec fn satisfiable(size: (i32, i32), delta: i32) -> bool {
    size.1 >= 1 && delta >= 1 && 2 * size.1 > size.0
}

/// Largest canvas side and largest triangle size that the library takes.
/// Within it no coordinate leaves the range of `i32`, and no sum over the
/// pixels of a canvas leaves the range of `u64`.
pub const MAX_SIDE: i32 = 0x800_0000;

fn min3_exec(a: i32, b: i32, c: i32) -> (r: i32)
    ensures
        r == min3(a as int, b as int, c as int),
{
    if a <= b && a <= c {
        a
    } else if b <= c {
        b
    } else {
        c
    }
}

fn max3_exec(a: i32, b: i32, c: i32) -> (r: i32)
    ensures
        r == max3(a as int, b as int, c as int),
{
    if a >= b && a >= c {
        a
    } else if b >= c {
        b
    } else {
        c
    }
}

impl Point {
    /// Margin by which an anchor point may lie outside the canvas.
    pub const OFFSET: i32 = 3;

    /// Picks a point uniformly on the canvas extended by `OFFSET` on every
    /// side.
    pub fn generate(width: i32, height: i32) -> (p: Point)
        requires
            -2 * Point::OFFSET < width <= i32::MAX - Point::OFFSET,
            -2 * Point::OFFSET < height <= i32::MAX - Point::OFFSET,
        ensures
            -Point::OFFSET <= p.x < width + Point::OFFSET,
            -Point::OFFSET <= p.y < height + Point::OFFSET,
    {
        Point {
            x: randrange(0 - Point::OFFSET, width + Point::OFFSET),
            y: randrange(0 - Point::OFFSET, height + Point::OFFSET),
        }
    }

    /// The point `dx` to the right of `self` and `dy` below it.
    pub fn offset_by(self, dx: i32, dy: i32) -> (p: Point)
        requires
            i32::MIN <= self.x + dx <= i32::MAX,
            i32::MIN <= self.y + dy <= i32::MAX,
        ensures
            p.x == self.x + dx,
            p.y == self.y + dy,
    {
        Point { x: self.x + dx, y: self.y + dy }
    }

    /// Picks a point whose offset from `self` is uniform in
    /// `-|width|..=|width|` along `x` and in `-|height|..=|height|` along
    /// `y`: the two offsets are drawn, and `offset_by` applies them.
    pub fn generate_near(self, width: i32, height: i32) -> (p: Point)
        requires
            vstd::math::abs(width as int) < i32::MAX,
            vstd::math::abs(height as int) < i32::MAX,
            i32::MIN <= self.x - vstd::math::abs(width as int),
            self.x + vstd::math::abs(width as int) <= i32::MAX,
            i32::MIN <= self.y - vstd::math::abs(height as int),
            self.y + vstd::math::abs(height as int) <= i32::MAX,
        ensures
            self.x - vstd::math::abs(width as int) <= p.x <= self.x + vstd::math::abs(
                width as int,
            ),
            self.y - vstd::math::abs(height as int) <= p.y <= self.y + vstd::math::abs(
                height as int,
            ),
    {
        let w: i32 = if width < 0 {
            -width
        } else {
            width
        };
        let h: i32 = if height < 0 {
            -height
        } else {
            height
        };
        let dx = randrange(-w, w + 1);
        let dy = randrange(-h, h + 1);
        self.offset_by(dx, dy)
    }
}

impl Polygon {
    /// Upper bound on the samples that `generate` draws before it gives up.
    pub const MAX_ATTEMPTS: u32 = 1_000_000;

    /// The colour of a freshly generated triangle, until one is assigned.
    pub open spec fn placeholder() -> Color {
        Color { r: 255, g: 255, b: 255 }
    }

    /// Whether three sampled points make a triangle of the requested shape:
    /// not all on one horizontal line, and with a fitting bounding box.
    pub open spec fn acceptable(points: [Point; 3], size: (i32, i32), delta: i32) -> bool {
        !degenerate(points) && fits(points, size.0 as int, delta as int)
    }

    /// Whether the triangle is one that `generate` can give for an `img_w`
    /// by `img_h` canvas: of the requested shape, with ordered vertices and
    /// the placeholder colour, one vertex on the canvas extended by
    /// `Point::OFFSET` and the others within `size.1` of it on both axes.
    pub open spec fn fresh(&self, img_w: int, img_h: int, size: (i32, i32), delta: i32) -> bool {
        &&& Polygon::acceptable(self.points, size, delta)
        &&& self.points[0].y <= self.points[1].y <= self.points[2].y
        &&& self.color == Polygon::placeholder()
        &&& exists|a: int| #[trigger] anchored(self.points, a, img_w, img_h, size.1 as int)
    }

    /// Samples an anchor on the extended canvas and two points near it.
    fn generate_points(img_w: i32, img_h: i32, max_size: i32) -> (p: [Point; 3])
        requires
            1 <= img_w <= MAX_SIDE,
            1 <= img_h <= MAX_SIDE,
            1 <= max_size <= MAX_SIDE,
        ensures
            anchored(p, 0, img_w as int, img_h as int, max_size as int),
    {
        let p = Point::generate(img_w, img_h);
        [p, p.generate_near(-max_size, max_size), p.generate_near(-max_size, max_size)]
    }

    fn is_degenerate(points: &[Point; 3]) -> (r: bool)
        ensures
            r == degenerate(*points),
    {
        points[0].y == points[1].y && points[0].y == points[2].y
    }

    fn is_fit(points: &[Point; 3], size: (i32, i32), delta: i32) -> (r: bool)
        ensures
            r == fits(*points, size.0 as int, delta as int),
    {
        let min_x = min3_exec(points[0].x, points[1].x, points[2].x);
        let max_x = max3_exec(points[0].x, points[1].x, points[2].x);
        let min_y = min3_exec(points[0].y, points[1].y, points[2].y);
        let max_y = max3_exec(points[0].y, points[1].y, points[2].y);
        let dx: i64 = max_x as i64 - min_x as i64;
        let dy: i64 = max_y as i64 - min_y as i64;
        let gap: i64 = if dx >= dy {
            dx - dy
        } else {
            dy - dx
        };
        gap < delta as i64 && dx > size.0 as i64 && dy > size.0 as i64
    }

    /// Orders three points by ascending `y`.
    fn sort_by_y(points: [Point; 3]) -> (r: [Point; 3])
        ensures
            same_vertices(points, r),
            r[0].y <= r[1].y <= r[2].y,
    {
        let (a, b) = if points[1].y < points[0].y {
            (points[1], points[0])
        } else {
            (points[0], points[1])
        };
        let c = points[2];
        if c.y < a.y {
            [c, a, b]
        } else if c.y < b.y {
            [a, c, b]
        } else {
            [a, b, c]
        }
    }

    /// Turns three sampled points into a triangle if they have the requested
    /// shape: the vertices ordered by ascending `y`, the colour a
    /// placeholder.
    pub fn from_sample(points: [Point; 3], size: (i32, i32), delta: i32) -> (r: Option<Polygon>)
        ensures
            r is Some <==> Polygon::acceptable(points, size, delta),
            r matches Some(t) ==> {
                &&& same_vertices(points, t.points)
                &&& t.points[0].y <= t.points[1].y <= t.points[2].y
                &&& t.color == Polygon::placeholder()
            },
    {
        if !Polygon::is_degenerate(&points) && Polygon::is_fit(&points, size, delta) {
            Some(
                Polygon {
                    color: Color { r: 255, g: 255, b: 255 },
                    points: Polygon::sort_by_y(points),
                },
            )
        } else {
            None
        }
    }

    /// Generates one random triangle for an `img_w` by `img_h` canvas by
    /// rejection sampling: one vertex lies on the canvas extended by
    /// `Point::OFFSET`, the others within `size.1` of it on both axes; the
    /// bounding box is larger than `size.0` on both axes, its sides differ
    /// by less than `delta`, and the vertices are ordered by ascending `y`.
    ///
    /// Fails where no such triangle exists, and where `MAX_ATTEMPTS` samples
    /// in a row were rejected.
    pub fn generate(img_w: i32, img_h: i32, size: (i32, i32), delta: i32) -> (r: Result<
        Polygon,
        EvolveError,
    >)
        requires
            1 <= img_w <= MAX_SIDE,
            1 <= img_h <= MAX_SIDE,
            size.1 <= MAX_SIDE,
        ensures
            !satisfiable(size, delta) ==> r is Err,
            r matches Err(e) ==> e == EvolveError::UnsatisfiableConstraints,
            r matches Ok(t) ==> t.fresh(img_w as int, img_h as int, size, delta),
    {
        if size.1 < 1 || delta < 1 || 2 * size.1 <= size.0 {
            return Err(EvolveError::UnsatisfiableConstraints);
        }
        let mut attempt: u32 = 0;
        while attempt < Polygon::MAX_ATTEMPTS
            invariant
                1 <= img_w <= MAX_SIDE,
                1 <= img_h <= MAX_SIDE,
                1 <= size.1 <= MAX_SIDE,
                satisfiable(size, delta),
            decreases Polygon::MAX_ATTEMPTS - attempt,
        {
            let points = Polygon::generate_points(img_w, img_h, size.1);
            if let Some(t) = Polygon::from_sample(points, size, delta) {
                proof {
                    let a: int = if t.points[0] == points[0] {
                        0
                    } else if t.points[1] == points[0] {
                        1
                    } else {
                        2
                    };
                    assert(anchored(t.points, a, img_w as int, img_h as int, size.1 as int));
                }
                return Ok(t);
            }
            attempt = attempt + 1;
        }
        Err(EvolveError::UnsatisfiableConstraints)
    }
}

/// Sum over the pixels `px` of the distance between `color` and the pixel of
/// `img` at that place.
pub open spec fn distance_sum(px: Seq<(i32, i32)>, color: Color, img: Raster) -> nat
    decreases px.len(),
{
    if px.len() == 0 {
        0
    } else {
        distance_sum(px.drop_last(), color, img) + color_distance(
            color,
            img.pixel(px.last().0 as int, px.last().1 as int),
        )
    }
}

impl Polygon {
    /// How badly the triangle's colour matches the reference image: the sum,
    /// over the pixels that the triangle covers, of the distance between its
    /// colour and the reference pixel.
    pub fn score(&self, ref_img: &Raster) -> (s: u64)
        requires
            valid_canvas(ref_img.width() as int, ref_img.height() as int),
        ensures
            s == distance_sum(
                self.pixels(ref_img.width() as int, ref_img.height() as int),
                self.color,
                *ref_img,
            ),
    {
        let (width, height) = raster_dimensions(ref_img);
        let ghost px = self.pixels(width as int, height as int);
        let mut it = self.iter_points(width as i32, height as i32);
        let mut score: u64 = 0;
        let ghost mut k: int = 0;
        proof {
            lemma_pixels_on_canvas(*self, width as i32, height as i32);
            lemma_pixels_len(*self, width as i32, height as i32);
            assert(width * height <= MAX_SIDE * MAX_SIDE) by (nonlinear_arith)
                requires
                    0 <= width <= MAX_SIDE,
                    0 <= height <= MAX_SIDE,
            ;
            assert(px.take(0) =~= Seq::empty());
        }
        loop
            invariant
                valid_canvas(width as int, height as int),
                width == ref_img.width(),
                height == ref_img.height(),
                px == self.pixels(width as int, height as int),
                px.len() <= MAX_SIDE * MAX_SIDE,
                forall|j: int|
                    0 <= j < px.len() ==> on_canvas(#[trigger] px[j], width as int, height as int),
                0 <= k <= px.len(),
                it.remaining() == px.skip(k),
                score == distance_sum(px.take(k), self.color, *ref_img),
                score <= MAX_DISTANCE * k,
            ensures
                k == px.len(),
            decreases px.len() - k,
        {
            match it.next() {
                None => {
                    break ;
                },
                Some((x, y)) => {
                    assert(px.skip(k)[0] == px[k]);
                    let c = raster_get_pixel(ref_img, x as u32, y as u32);
                    let d = self.color.distance(c);
                    proof {
                        assert(px.take(k + 1).drop_last() =~= px.take(k));
                        assert(px.skip(k).skip(1) =~= px.skip(k + 1));
                        assert(MAX_DISTANCE * (k + 1) <= MAX_DISTANCE * (MAX_SIDE * MAX_SIDE))
                            by (nonlinear_arith)
                            requires
                                k + 1 <= MAX_SIDE * MAX_SIDE,
                        ;
                        k = k + 1;
                    }
                    score = score + d;
                },
            }
        }
        proof {
            assert(px.take(k) =~= px);
        }
        score
    }
}

} // verus!
