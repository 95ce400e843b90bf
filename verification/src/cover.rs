//! Which pixels a set of triangles covers, and how often.

use crate::draw::{
    clamp_column, lemma_pixels_len, lemma_pixels_on_canvas, on_canvas, run, valid_canvas, Polygon,
    MAX_SIDE,
};
use crate::raster::lemma_cell_in_range;
use crate::sum::{
    indicator, lemma_sum_by_bounds, lemma_sum_by_concat, lemma_sum_by_push, lemma_sum_by_take, sum_by,
};
use vstd::arithmetic::div_mod::{lemma_fundamental_div_mod, lemma_fundamental_div_mod_converse};
use vstd::prelude::*;

verus! {

/// The pixel that cell `cell` of a row-major buffer stands for, on a canvas
/// `width` pixels wide.
pub open spec fn pixel_of(cell: int, width: int) -> (i32, i32) {
    ((cell % width) as i32, (cell / width) as i32)
}

/// The function that is `1` on the pixel `at` and `0` on every other.
pub open spec fn is_at(at: (i32, i32)) -> spec_fn((i32, i32)) -> int {
    |q: (i32, i32)| indicator(q == at)
}

/// The function that is `1` on the triangles that cover the pixel `at` and
/// `0` on the others.
pub open spec fn covering(width: int, height: int, at: (i32, i32)) -> spec_fn(Polygon) -> int {
    |p: Polygon| indicator(covers(p, width, height, at))
}

/// The function that is `1` on a counter at `level` and `0` on any other.
pub open spec fn is_level(level: u8) -> spec_fn(u8) -> int {
    |v: u8| indicator(v == level)
}

/// The function that gives the counter of a pixel's cell.
pub open spec fn level_at(buf: Seq<u8>, width: int) -> spec_fn((i32, i32)) -> int {
    |q: (i32, i32)| buf[q.1 * width + q.0] as int
}

/// How often `at` occurs among the pixels `px`.
pub open spec fn occurrences(px: Seq<(i32, i32)>, at: (i32, i32)) -> int {
    sum_by(px, is_at(at))
}

/// Whether the triangle covers the pixel `at` of the canvas.
pub open spec fn covers(p: Polygon, width: int, height: int, at: (i32, i32)) -> bool {
    p.pixels(width, height).contains(at)
}

/// How many of the triangles cover the pixel `at` of the canvas.
pub open spec fn cover_count(polygons: Seq<Polygon>, width: int, height: int, at: (i32, i32)) -> int {
    sum_by(polygons, covering(width, height, at))
}

/// The cell of a pixel on the canvas stands for that pixel.
pub proof fn lemma_pixel_of_cell(x: i32, y: i32, width: int)
    requires
        0 <= x < width,
        0 <= y,
    ensures
        pixel_of(y * width + x, width) == (x, y),
{
    lemma_fundamental_div_mod_converse(y * width + x, width, y as int, x as int);
}

/// A cell of the canvas stands for a pixel on the canvas, and is the cell
/// of that pixel.
pub proof fn lemma_cell_of_pixel(cell: int, width: int, height: int)
    requires
        valid_canvas(width, height),
        0 <= cell < width * height,
    ensures
        on_canvas(pixel_of(cell, width), width, height),
        pixel_of(cell, width).1 * width + pixel_of(cell, width).0 == cell,
{
    lemma_fundamental_div_mod(cell, width);
    let q = cell / width;
    let r = cell % width;
    assert(0 <= r < width) by (nonlinear_arith)
        requires
            r == cell % width,
            width > 0,
    ;
    assert(0 <= q < height) by (nonlinear_arith)
        requires
            cell == width * q + r,
            0 <= r < width,
            0 <= cell < width * height,
            width > 0,
    ;
    assert(q * width == width * q) by (nonlinear_arith);
}

/// An item occurs a positive number of times exactly where the sequence
/// contains it.
pub proof fn lemma_occurrences_contains(px: Seq<(i32, i32)>, at: (i32, i32))
    ensures
        occurrences(px, at) >= 0,
        occurrences(px, at) > 0 <==> px.contains(at),
    decreases px.len(),
{
    if px.len() > 0 {
        let head = px.drop_last();
        lemma_occurrences_contains(head, at);
        if head.contains(at) {
            let j = choose|j: int| 0 <= j < head.len() && head[j] == at;
            assert(px[j] == at);
        }
        if px.contains(at) && px.last() != at {
            let j = choose|j: int| 0 <= j < px.len() && px[j] == at;
            assert(head[j] == at);
        }
    }
}

/// The start of a sequence holds an item at most as often as the whole.
pub proof fn lemma_occurrences_prefix(px: Seq<(i32, i32)>, at: (i32, i32), k: int)
    requires
        0 <= k <= px.len(),
    ensures
        0 <= occurrences(px.take(k), at) <= occurrences(px, at),
{
    lemma_sum_by_concat(px.take(k), px.skip(k), is_at(at));
    assert(px.take(k) + px.skip(k) =~= px);
    lemma_occurrences_contains(px.take(k), at);
    lemma_occurrences_contains(px.skip(k), at);
}

proof fn lemma_occurrences_run(from: int, to: int, y: int, at: (i32, i32))
    requires
        0 <= from <= to <= i32::MAX,
        0 <= y <= i32::MAX,
    ensures
        occurrences(run(from, to, y), at) == indicator(at.1 == y && from <= at.0 < to),
    decreases to - from,
{
    if from < to {
        lemma_occurrences_run(from, to - 1, y, at);
        assert(run(from, to, y).drop_last() =~= run(from, to - 1, y));
    }
}

proof fn lemma_pixels_from_once(p: Polygon, i: int, width: i32, height: i32, at: (i32, i32))
    requires
        0 <= i,
    ensures
        0 <= occurrences(p.pixels_from(i, width as int, height as int), at) <= 1,
        at.1 < p.points[0].y + i ==> occurrences(
            p.pixels_from(i, width as int, height as int),
            at,
        ) == 0,
    decreases p.total_height() - i,
{
    if i < p.total_height() {
        let row = p.row(i, width as int, height as int);
        let rest = p.pixels_from(i + 1, width as int, height as int);
        lemma_pixels_from_once(p, i + 1, width, height, at);
        lemma_sum_by_concat(row, rest, is_at(at));
        let y = p.points[0].y + i;
        if 0 <= y < height {
            let (lo, hi) = p.span(i);
            lemma_occurrences_run(
                clamp_column(lo, width as int),
                clamp_column(hi, width as int),
                y,
                at,
            );
        }
    }
}

/// A rasterized triangle holds each pixel at most once: a pixel occurs once
/// where the triangle covers it, and not at all elsewhere.
pub proof fn lemma_pixels_once(p: Polygon, width: i32, height: i32, at: (i32, i32))
    ensures
        occurrences(p.pixels(width as int, height as int), at) == indicator(
            covers(p, width as int, height as int, at),
        ),
{
    lemma_pixels_from_once(p, 0, width, height, at);
    lemma_occurrences_contains(p.pixels(width as int, height as int), at);
}

/// The counters of a coverage buffer as integers.
pub open spec fn levels(buf: Seq<u8>) -> Seq<int> {
    buf.map_values(|v: u8| v as int)
}

/// The levels `buf` with one more at every cell that the triangle covers.
pub open spec fn stamped(buf: Seq<int>, p: Polygon, width: int, height: int) -> Seq<int> {
    Seq::new(
        buf.len(),
        |c: int| buf[c] + indicator(covers(p, width, height, pixel_of(c, width))),
    )
}

/// The levels `buf` with one less at every cell that the triangle covers.
pub open spec fn erased(buf: Seq<int>, p: Polygon, width: int, height: int) -> Seq<int> {
    Seq::new(
        buf.len(),
        |c: int| buf[c] - indicator(covers(p, width, height, pixel_of(c, width))),
    )
}

/// The levels `buf` with every triangle of `s` stamped on.
pub open spec fn stamped_all(buf: Seq<int>, s: Seq<Polygon>, width: int, height: int) -> Seq<int> {
    Seq::new(buf.len(), |c: int| buf[c] + cover_count(s, width, height, pixel_of(c, width)))
}

/// The levels `buf` with every triangle of `s` erased.
pub open spec fn erased_all(buf: Seq<int>, s: Seq<Polygon>, width: int, height: int) -> Seq<int> {
    Seq::new(buf.len(), |c: int| buf[c] - cover_count(s, width, height, pixel_of(c, width)))
}

/// The levels of a canvas that no triangle covers.
pub open spec fn blank(width: int, height: int) -> Seq<int> {
    Seq::new((width * height) as nat, |c: int| 0int)
}

/// Erasing a set of triangles from a coverage buffer and stamping the same
/// set on again leaves every counter as it was.
pub proof fn lemma_round_trip(buf: Seq<int>, s: Seq<Polygon>, width: int, height: int)
    ensures
        stamped_all(erased_all(buf, s, width, height), s, width, height) == buf,
        erased_all(stamped_all(buf, s, width, height), s, width, height) == buf,
{
    assert(stamped_all(erased_all(buf, s, width, height), s, width, height) =~= buf);
    assert(erased_all(stamped_all(buf, s, width, height), s, width, height) =~= buf);
}

/// Erasing a set of triangles from a coverage buffer and stamping the same
/// set on again leaves the buffer byte for byte as it was: where `erased`
/// holds the counters of `buf` after the set was erased, and `restored`
/// those of `erased` after the set was stamped on, `restored` is `buf`.
pub proof fn lemma_round_trip_bytes(
    buf: Seq<u8>,
    erased: Seq<u8>,
    restored: Seq<u8>,
    s: Seq<Polygon>,
    width: int,
    height: int,
)
    requires
        levels(erased) == erased_all(levels(buf), s, width, height),
        levels(restored) == stamped_all(levels(erased), s, width, height),
    ensures
        restored == buf,
{
    lemma_round_trip(levels(buf), s, width, height);
    assert(levels(restored).len() == levels(buf).len());
    assert forall|c: int| 0 <= c < buf.len() implies restored[c] == buf[c] by {
        assert(levels(restored)[c] == levels(buf)[c]);
    }
    assert(restored =~= buf);
}

/// Stamping one more triangle is stamping the longer set.
pub proof fn lemma_stamped_push(buf: Seq<int>, s: Seq<Polygon>, p: Polygon, width: int, height: int)
    ensures
        stamped(stamped_all(buf, s, width, height), p, width, height) == stamped_all(
            buf,
            s.push(p),
            width,
            height,
        ),
{
    let a = stamped(stamped_all(buf, s, width, height), p, width, height);
    let b = stamped_all(buf, s.push(p), width, height);
    assert forall|c: int| 0 <= c < buf.len() implies a[c] == b[c] by {
        let at = pixel_of(c, width);
        lemma_sum_by_push(s, covering(width, height, at), p);
    }
    assert(a =~= b);
}

/// Erasing one more triangle is erasing the longer set.
pub proof fn lemma_erased_push(buf: Seq<int>, s: Seq<Polygon>, p: Polygon, width: int, height: int)
    ensures
        erased(erased_all(buf, s, width, height), p, width, height) == erased_all(
            buf,
            s.push(p),
            width,
            height,
        ),
{
    let a = erased(erased_all(buf, s, width, height), p, width, height);
    let b = erased_all(buf, s.push(p), width, height);
    assert forall|c: int| 0 <= c < buf.len() implies a[c] == b[c] by {
        let at = pixel_of(c, width);
        lemma_sum_by_push(s, covering(width, height, at), p);
    }
    assert(a =~= b);
}

/// How many counters of a coverage buffer stand at `level`.
pub open spec fn count_level(buf: Seq<u8>, level: u8) -> int {
    sum_by(buf, is_level(level))
}

/// How many counters of a coverage buffer are zero.
pub open spec fn count_zero(buf: Seq<u8>) -> int {
    count_level(buf, 0)
}

/// Sum of the counters of a coverage buffer at the pixels `px`.
pub open spec fn level_sum(px: Seq<(i32, i32)>, buf: Seq<u8>, width: int) -> int {
    sum_by(px, level_at(buf, width))
}

/// Adds one to the counter of every pixel that the triangle covers, and
/// says whether every counter could take it. After an overflow nothing is
/// known of the buffer but its length.
pub fn stamp(buf: &mut Vec<u8>, p: &Polygon, width: i32, height: i32) -> (ok: bool)
    requires
        valid_canvas(width as int, height as int),
        old(buf).len() == width * height,
    ensures
        final(buf).len() == old(buf).len(),
        ok <==> forall|c: int|
            0 <= c < old(buf).len() ==> #[trigger] stamped(
                levels(old(buf)@),
                *p,
                width as int,
                height as int,
            )[c] <= u8::MAX,
        ok ==> levels(final(buf)@) == stamped(levels(old(buf)@), *p, width as int, height as int),
{
    let ghost px = p.pixels(width as int, height as int);
    let ghost before = buf@;
    let ghost goal = stamped(levels(before), *p, width as int, height as int);
    let mut it = p.iter_points(width, height);
    let ghost mut k: int = 0;
    proof {
        lemma_pixels_on_canvas(*p, width, height);
        assert(px.take(0) =~= Seq::empty());
    }
    loop
        invariant
            valid_canvas(width as int, height as int),
            px == p.pixels(width as int, height as int),
            goal == stamped(levels(before), *p, width as int, height as int),
            before == old(buf)@,
            before.len() == width * height,
            buf.len() == before.len(),
            forall|j: int|
                0 <= j < px.len() ==> on_canvas(#[trigger] px[j], width as int, height as int),
            0 <= k <= px.len(),
            it.remaining() == px.skip(k),
            forall|c: int|
                0 <= c < buf.len() ==> #[trigger] buf[c] == before[c] + occurrences(
                    px.take(k),
                    pixel_of(c, width as int),
                ),
        ensures
            k == px.len(),
        decreases px.len() - k,
    {
        match it.next() {
            None => {
                break ;
            },
            Some((x, y)) => {
                assert(px.skip(k)[0] == px[k]);
                assert(px.skip(k).skip(1) =~= px.skip(k + 1));
                proof {
                    lemma_cell_in_range(x as int, y as int, width as int, height as int);
                    lemma_pixel_of_cell(x, y, width as int);
                }
                let cell: usize = (y as usize) * (width as usize) + (x as usize);
                let level = buf[cell];
                if level == u8::MAX {
                    proof {
                        lemma_occurrences_prefix(px, (x, y), k + 1);
                        lemma_sum_by_take(px, is_at((x, y)), k);
                        lemma_pixels_once(*p, width, height, (x, y));
                        lemma_occurrences_prefix(px, (x, y), k);
                        assert(goal[cell as int] > u8::MAX);
                    }
                    return false;
                }
                buf.set(cell, level + 1);
                proof {
                    assert forall|c: int| 0 <= c < buf.len() implies #[trigger] buf[c] == before[c]
                        + occurrences(px.take(k + 1), pixel_of(c, width as int)) by {
                        let at = pixel_of(c, width as int);
                        lemma_sum_by_take(px, is_at(at), k);
                        if c != cell {
                            lemma_cell_of_pixel(c, width as int, height as int);
                        }
                    }
                    k = k + 1;
                }
            },
        }
    }
    proof {
        assert(px.take(k) =~= px);
        assert forall|c: int| 0 <= c < buf.len() implies levels(buf@)[c] == goal[c] by {
            lemma_pixels_once(*p, width, height, pixel_of(c, width as int));
        }
        assert(levels(buf@) =~= goal);
    }
    true
}

/// Takes one off the counter of every pixel that the triangle covers.
pub fn erase(buf: &mut Vec<u8>, p: &Polygon, width: i32, height: i32)
    requires
        valid_canvas(width as int, height as int),
        old(buf).len() == width * height,
        forall|c: int|
            0 <= c < old(buf).len() ==> #[trigger] erased(
                levels(old(buf)@),
                *p,
                width as int,
                height as int,
            )[c] >= 0,
    ensures
        final(buf).len() == old(buf).len(),
        levels(final(buf)@) == erased(levels(old(buf)@), *p, width as int, height as int),
{
    let ghost px = p.pixels(width as int, height as int);
    let ghost before = buf@;
    let ghost goal = erased(levels(before), *p, width as int, height as int);
    let mut it = p.iter_points(width, height);
    let ghost mut k: int = 0;
    proof {
        lemma_pixels_on_canvas(*p, width, height);
        assert(px.take(0) =~= Seq::empty());
    }
    loop
        invariant
            valid_canvas(width as int, height as int),
            px == p.pixels(width as int, height as int),
            goal == erased(levels(before), *p, width as int, height as int),
            before == old(buf)@,
            before.len() == width * height,
            buf.len() == before.len(),
            forall|c: int| 0 <= c < before.len() ==> #[trigger] goal[c] >= 0,
            forall|j: int|
                0 <= j < px.len() ==> on_canvas(#[trigger] px[j], width as int, height as int),
            0 <= k <= px.len(),
            it.remaining() == px.skip(k),
            forall|c: int|
                0 <= c < buf.len() ==> #[trigger] buf[c] == before[c] - occurrences(
                    px.take(k),
                    pixel_of(c, width as int),
                ),
        ensures
            k == px.len(),
        decreases px.len() - k,
    {
        match it.next() {
            None => {
                break ;
            },
            Some((x, y)) => {
                assert(px.skip(k)[0] == px[k]);
                assert(px.skip(k).skip(1) =~= px.skip(k + 1));
                proof {
                    lemma_cell_in_range(x as int, y as int, width as int, height as int);
                    lemma_pixel_of_cell(x, y, width as int);
                }
                let cell: usize = (y as usize) * (width as usize) + (x as usize);
                let level = buf[cell];
                proof {
                    lemma_occurrences_prefix(px, (x, y), k + 1);
                    lemma_sum_by_take(px, is_at((x, y)), k);
                    lemma_pixels_once(*p, width, height, (x, y));
                    lemma_occurrences_prefix(px, (x, y), k);
                    assert(goal[cell as int] >= 0);
                }
                buf.set(cell, level - 1);
                proof {
                    assert forall|c: int| 0 <= c < buf.len() implies #[trigger] buf[c] == before[c]
                        - occurrences(px.take(k + 1), pixel_of(c, width as int)) by {
                        let at = pixel_of(c, width as int);
                        lemma_sum_by_take(px, is_at(at), k);
                        if c != cell {
                            lemma_cell_of_pixel(c, width as int, height as int);
                        }
                    }
                    k = k + 1;
                }
            },
        }
    }
    proof {
        assert(px.take(k) =~= px);
        assert forall|c: int| 0 <= c < buf.len() implies levels(buf@)[c] == goal[c] by {
            lemma_pixels_once(*p, width, height, pixel_of(c, width as int));
        }
        assert(levels(buf@) =~= goal);
    }
}

/// Counts the cells of a coverage buffer that no triangle covers.
pub fn uncovered(buf: &Vec<u8>) -> (n: u64)
    ensures
        n == count_zero(buf@),
{
    census(buf).1
}

/// Counts the cells of a coverage buffer that exactly one triangle covers,
/// those that none covers, and the rest.
pub fn census(buf: &Vec<u8>) -> (r: (u64, u64, u64))
    ensures
        r.0 == count_level(buf@, 1),
        r.1 == count_level(buf@, 0),
        r.0 + r.1 + r.2 == buf.len(),
{
    let mut exact: u64 = 0;
    let mut empty: u64 = 0;
    let mut rest: u64 = 0;
    let mut c: usize = 0;
    assert(buf@.take(0) =~= Seq::empty());
    while c < buf.len()
        invariant
            c <= buf.len(),
            exact == count_level(buf@.take(c as int), 1),
            empty == count_level(buf@.take(c as int), 0),
            exact + empty + rest == c,
        decreases buf.len() - c,
    {
        proof {
            lemma_sum_by_take(buf@, is_level(0), c as int);
            lemma_sum_by_take(buf@, is_level(1), c as int);
        }
        if buf[c] == 1 {
            exact = exact + 1;
        } else if buf[c] == 0 {
            empty = empty + 1;
        } else {
            rest = rest + 1;
        }
        c = c + 1;
    }
    assert(buf@.take(c as int) =~= buf@);
    (exact, empty, rest)
}

/// Sums the counters of a coverage buffer under the pixels of a triangle:
/// high where the triangle lies on pixels that many triangles cover.
pub fn overlap(buf: &Vec<u8>, p: &Polygon, width: i32, height: i32) -> (s: u64)
    requires
        valid_canvas(width as int, height as int),
        buf.len() == width * height,
    ensures
        s == level_sum(p.pixels(width as int, height as int), buf@, width as int),
{
    let ghost px = p.pixels(width as int, height as int);
    let ghost f = level_at(buf@, width as int);
    let mut it = p.iter_points(width, height);
    let mut score: u64 = 0;
    let ghost mut k: int = 0;
    proof {
        lemma_pixels_on_canvas(*p, width, height);
        lemma_pixels_len(*p, width, height);
        assert(width * height <= MAX_SIDE * MAX_SIDE) by (nonlinear_arith)
            requires
                0 <= width <= MAX_SIDE,
                0 <= height <= MAX_SIDE,
        ;
        assert(px.take(0) =~= Seq::empty());
    }
    loop
        invariant
            valid_canvas(width as int, height as int),
            buf.len() == width * height,
            px == p.pixels(width as int, height as int),
            px.len() <= MAX_SIDE * MAX_SIDE,
            f == level_at(buf@, width as int),
            forall|j: int|
                0 <= j < px.len() ==> on_canvas(#[trigger] px[j], width as int, height as int),
            0 <= k <= px.len(),
            it.remaining() == px.skip(k),
            score == sum_by(px.take(k), f),
            score <= u8::MAX * k,
        ensures
            k == px.len(),
        decreases px.len() - k,
    {
        match it.next() {
            None => {
                break ;
            },
            Some((x, y)) => {
                assert(px.skip(k)[0] == px[k]);
                assert(px.skip(k).skip(1) =~= px.skip(k + 1));
                proof {
                    lemma_cell_in_range(x as int, y as int, width as int, height as int);
                    lemma_sum_by_take(px, f, k);
                    assert(u8::MAX * (k + 1) <= u8::MAX * (MAX_SIDE * MAX_SIDE))
                        by (nonlinear_arith)
                        requires
                            k + 1 <= MAX_SIDE * MAX_SIDE,
                    ;
                    k = k + 1;
                }
                let cell: usize = (y as usize) * (width as usize) + (x as usize);
                score = score + buf[cell] as u64;
            },
        }
    }
    proof {
        assert(px.take(k) =~= px);
    }
    score
}

/// A set of triangles covers a pixel at least as often as the start of the
/// set does, and never a negative number of times.
pub proof fn lemma_cover_count_prefix(
    s: Seq<Polygon>,
    width: int,
    height: int,
    at: (i32, i32),
    k: int,
)
    requires
        0 <= k <= s.len(),
    ensures
        0 <= cover_count(s.take(k), width, height, at) <= cover_count(s, width, height, at),
{
    let f = covering(width, height, at);
    lemma_sum_by_concat(s.take(k), s.skip(k), f);
    assert(s.take(k) + s.skip(k) =~= s);
    lemma_sum_by_bounds(s.take(k), f, 0, 1);
    lemma_sum_by_bounds(s.skip(k), f, 0, 1);
}

/// Stamps every triangle of `fresh` on the buffer, and says whether every
/// counter could take it. After an overflow nothing is known of the
/// buffer but its length.
pub fn stamp_all(buf: &mut Vec<u8>, fresh: &Vec<Polygon>, width: i32, height: i32) -> (ok: bool)
    requires
        valid_canvas(width as int, height as int),
        old(buf).len() == width * height,
    ensures
        final(buf).len() == old(buf).len(),
        ok <==> forall|c: int|
            0 <= c < old(buf).len() ==> #[trigger] stamped_all(
                levels(old(buf)@),
                fresh@,
                width as int,
                height as int,
            )[c] <= u8::MAX,
        ok ==> levels(final(buf)@) == stamped_all(
            levels(old(buf)@),
            fresh@,
            width as int,
            height as int,
        ),
{
    let ghost before = levels(buf@);
    let ghost goal = stamped_all(before, fresh@, width as int, height as int);
    let mut j: usize = 0;
    proof {
        assert(fresh@.take(0) =~= Seq::empty());
        assert(levels(buf@) =~= stamped_all(before, fresh@.take(0), width as int, height as int));
    }
    while j < fresh.len()
        invariant
            valid_canvas(width as int, height as int),
            before == levels(old(buf)@),
            goal == stamped_all(before, fresh@, width as int, height as int),
            buf.len() == old(buf).len(),
            buf.len() == width * height,
            j <= fresh.len(),
            levels(buf@) == stamped_all(before, fresh@.take(j as int), width as int, height as int),
        decreases fresh.len() - j,
    {
        let ghost now = levels(buf@);
        let ghost next = stamped(now, fresh[j as int], width as int, height as int);
        proof {
            lemma_stamped_push(
                before,
                fresh@.take(j as int),
                fresh[j as int],
                width as int,
                height as int,
            );
            assert(fresh@.take(j as int).push(fresh[j as int]) =~= fresh@.take(j + 1));
        }
        if !stamp(buf, &fresh[j], width, height) {
            proof {
                let c = choose|c: int| 0 <= c < now.len() && #[trigger] next[c] > u8::MAX;
                lemma_cover_count_prefix(
                    fresh@,
                    width as int,
                    height as int,
                    pixel_of(c, width as int),
                    j + 1,
                );
                assert(goal[c] > u8::MAX);
            }
            return false;
        }
        j = j + 1;
    }
    proof {
        assert(fresh@.take(j as int) =~= fresh@);
        assert forall|c: int| 0 <= c < buf.len() implies #[trigger] goal[c] <= u8::MAX by {
            assert(goal[c] == levels(buf@)[c]);
        }
    }
    true
}

/// Erases every triangle of `gone` from the buffer.
pub fn erase_all(buf: &mut Vec<u8>, gone: &Vec<Polygon>, width: i32, height: i32)
    requires
        valid_canvas(width as int, height as int),
        old(buf).len() == width * height,
        forall|c: int|
            0 <= c < old(buf).len() ==> #[trigger] erased_all(
                levels(old(buf)@),
                gone@,
                width as int,
                height as int,
            )[c] >= 0,
    ensures
        final(buf).len() == old(buf).len(),
        levels(final(buf)@) == erased_all(levels(old(buf)@), gone@, width as int, height as int),
{
    let ghost before = levels(buf@);
    let ghost goal = erased_all(before, gone@, width as int, height as int);
    let mut j: usize = 0;
    proof {
        assert(gone@.take(0) =~= Seq::empty());
        assert(levels(buf@) =~= erased_all(before, gone@.take(0), width as int, height as int));
    }
    while j < gone.len()
        invariant
            valid_canvas(width as int, height as int),
            before == levels(old(buf)@),
            goal == erased_all(before, gone@, width as int, height as int),
            forall|c: int| 0 <= c < before.len() ==> #[trigger] goal[c] >= 0,
            buf.len() == old(buf).len(),
            buf.len() == width * height,
            j <= gone.len(),
            levels(buf@) == erased_all(before, gone@.take(j as int), width as int, height as int),
        decreases gone.len() - j,
    {
        let ghost now = levels(buf@);
        let ghost next = erased(now, gone[j as int], width as int, height as int);
        proof {
            lemma_erased_push(
                before,
                gone@.take(j as int),
                gone[j as int],
                width as int,
                height as int,
            );
            assert(gone@.take(j as int).push(gone[j as int]) =~= gone@.take(j + 1));
            assert forall|c: int| 0 <= c < buf.len() implies #[trigger] next[c] >= 0 by {
                lemma_cover_count_prefix(
                    gone@,
                    width as int,
                    height as int,
                    pixel_of(c, width as int),
                    j + 1,
                );
                assert(goal[c] >= 0);
            }
        }
        erase(buf, &gone[j], width, height);
        j = j + 1;
    }
    proof {
        assert(gone@.take(j as int) =~= gone@);
    }
}

} // verus!
