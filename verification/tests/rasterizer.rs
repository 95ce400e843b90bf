use tripaint::draw::{Color, Point, Polygon};

const WHITE: Color = Color { r: 255, g: 255, b: 255 };

fn triangle(a: (i32, i32), b: (i32, i32), c: (i32, i32)) -> Polygon {
    Polygon {
        color: WHITE,
        points: [Point { x: a.0, y: a.1 }, Point { x: b.0, y: b.1 }, Point { x: c.0, y: c.1 }],
    }
}

fn pixels(p: &Polygon, width: i32, height: i32) -> Vec<(i32, i32)> {
    let mut it = p.iter_points(width, height);
    let mut out = Vec::new();
    while let Some(px) = it.next() {
        out.push(px);
    }
    out
}

/// Division that rounds toward zero, for a positive divisor.
fn toward_zero(n: i128, d: i128) -> i128 {
    if n >= 0 {
        n / d
    } else {
        -((-n) / d)
    }
}

fn between(x0: i32, x1: i32, num: i64, den: i64) -> i128 {
    toward_zero(
        x0 as i128 * den as i128 + (x1 as i128 - x0 as i128) * num as i128,
        den as i128,
    )
}

/// The scanline fill written out once more, row by row and column by
/// column, with every candidate pixel tested against the canvas.
fn by_hand(p: &Polygon, width: i32, height: i32) -> Vec<(i32, i32)> {
    let (p0, p1, p2) = (p.points[0], p.points[1], p.points[2]);
    let total = p2.y as i64 - p0.y as i64;
    let upper = p1.y as i64 - p0.y as i64;
    let mut out = Vec::new();
    let mut i: i64 = 0;
    while i < total {
        let lower_half = i > upper || upper == 0;
        let a = between(p0.x, p2.x, i, total);
        let b = if lower_half {
            between(p1.x, p2.x, i - upper, p2.y as i64 - p1.y as i64)
        } else {
            between(p0.x, p1.x, i, upper)
        };
        let (lo, hi) = if a > b { (b, a) } else { (a, b) };
        let y = p0.y as i64 + i;
        let mut x = lo;
        while x < hi {
            if x >= 0 && x < width as i128 && y >= 0 && y < height as i64 {
                out.push((x as i32, y as i32));
            }
            x += 1;
        }
        i += 1;
    }
    out
}

/// The same fill with the intercepts computed in floating point. A row is
/// left out where an intercept is a whole number, since rounding may then
/// fall on either side of it.
fn rows_in_floating_point(p: &Polygon, width: i32, height: i32) -> Vec<(i32, Vec<i32>)> {
    let (p0, p1, p2) = (p.points[0], p.points[1], p.points[2]);
    let total = p2.y - p0.y;
    let mut rows = Vec::new();
    for i in 0..total {
        let lower_half = i > p1.y - p0.y || p1.y == p0.y;
        let segment = if lower_half { p2.y - p1.y } else { p1.y - p0.y };
        let offset = if lower_half { p1.y - p0.y } else { 0 };
        let long_exact = ((p2.x - p0.x) as i64 * i as i64) % total as i64 == 0;
        let short_dx = if lower_half { p2.x - p1.x } else { p1.x - p0.x };
        let short_exact = (short_dx as i64 * (i - offset) as i64) % segment as i64 == 0;
        if long_exact || short_exact {
            continue;
        }
        let alpha = i as f64 / total as f64;
        let beta = (i - offset) as f64 / segment as f64;
        let a = (p0.x as f64 + (p2.x - p0.x) as f64 * alpha) as i32;
        let b = if lower_half {
            (p1.x as f64 + (p2.x - p1.x) as f64 * beta) as i32
        } else {
            (p0.x as f64 + (p1.x - p0.x) as f64 * beta) as i32
        };
        let (lo, hi) = if a > b { (b, a) } else { (a, b) };
        let y = p0.y + i;
        let mut xs = Vec::new();
        for x in lo..hi {
            if x >= 0 && x < width && y >= 0 && y < height {
                xs.push(x);
            }
        }
        rows.push((y, xs));
    }
    rows
}

struct Lcg(u64);

impl Lcg {
    fn next(&mut self, low: i32, high: i32) -> i32 {
        self.0 = self.0.wrapping_mul(6364136223846793005).wrapping_add(1442695040888963407);
        let span = (high - low) as u64;
        low + ((self.0 >> 33) % span) as i32
    }
}

fn sorted_triangle(rng: &mut Lcg, low: i32, high: i32) -> Polygon {
    let mut pts = [
        (rng.next(low, high), rng.next(low, high)),
        (rng.next(low, high), rng.next(low, high)),
        (rng.next(low, high), rng.next(low, high)),
    ];
    pts.sort_by_key(|p| p.1);
    triangle(pts[0], pts[1], pts[2])
}

#[test]
fn right_triangle_on_a_small_canvas() {
    let p = triangle((0, 0), (3, 0), (0, 3));
    assert_eq!(
        pixels(&p, 4, 4),
        vec![(0, 0), (1, 0), (2, 0), (0, 1), (1, 1), (0, 2)]
    );
}

#[test]
fn rows_come_top_down_and_columns_left_to_right() {
    let p = triangle((5, 1), (1, 4), (9, 7));
    let px = pixels(&p, 20, 20);
    assert!(!px.is_empty());
    for w in px.windows(2) {
        let (a, b) = (w[0], w[1]);
        assert!(a.1 < b.1 || (a.1 == b.1 && a.0 + 1 == b.0));
    }
}

#[test]
fn upper_and_lower_half_use_their_own_short_edge() {
    // The middle vertex lies at row 4: the rows above it run to the edge
    // from the first vertex, the rows below it to the edge toward the last.
    let p = triangle((0, 0), (8, 4), (0, 8));
    let px = pixels(&p, 16, 16);
    let row = |y: i32| -> Vec<i32> { px.iter().filter(|q| q.1 == y).map(|q| q.0).collect() };
    assert_eq!(row(0), Vec::<i32>::new());
    assert_eq!(row(1), vec![0, 1]);
    assert_eq!(row(2), vec![0, 1, 2, 3]);
    assert_eq!(row(4), vec![0, 1, 2, 3, 4, 5, 6, 7]);
    assert_eq!(row(5), vec![0, 1, 2, 3, 4, 5]);
    assert_eq!(row(7), vec![0, 1]);
    assert_eq!(row(8), Vec::<i32>::new());
}

#[test]
fn intercepts_round_toward_zero() {
    // Row 1 of the long edge from x = -5 to x = 0 over three rows lies at
    // -5 + 5/3 = -3.33.., which rounds to -3.
    let p = triangle((-5, 0), (-5, 3), (0, 3));
    let rows = by_hand(&p, 10, 10);
    assert!(rows.is_empty());
    let p = triangle((-5, -1), (4, 2), (0, 2));
    // long edge: -5 + 5 * i / 3 -> -5, -3, -1; short edge: -5 + 9 * i / 3.
    assert_eq!(pixels(&p, 10, 10), vec![(0, 1)]);
    assert_eq!(pixels(&p, 10, 10), by_hand(&p, 10, 10));
}

#[test]
fn whole_intercept_is_exact() {
    // Row 1 of the long edge from x = 0 to x = 49 over 49 rows lies at
    // exactly 1. In double precision 49 * (1 / 49) falls just below 1 and
    // rounds to 0, which would leave the row empty.
    let in_double = (0f64 + 49f64 * (1f64 / 49f64)) as i32;
    assert_eq!(in_double, 0);
    let p = triangle((0, 0), (0, 49), (49, 49));
    let px = pixels(&p, 64, 64);
    let row: Vec<i32> = px.iter().filter(|q| q.1 == 1).map(|q| q.0).collect();
    assert_eq!(row, vec![0]);
    let row: Vec<i32> = px.iter().filter(|q| q.1 == 7).map(|q| q.0).collect();
    assert_eq!(row, vec![0, 1, 2, 3, 4, 5, 6]);
}

#[test]
fn flat_triangle_has_no_pixels() {
    let p = triangle((1, 2), (5, 2), (3, 2));
    assert_eq!(pixels(&p, 10, 10), vec![]);
}

#[test]
fn level_top_edge_counts_as_lower_half() {
    let p = triangle((1, 1), (6, 1), (1, 6));
    let px = pixels(&p, 10, 10);
    let first_row: Vec<i32> = px.iter().filter(|q| q.1 == 1).map(|q| q.0).collect();
    assert_eq!(first_row, vec![1, 2, 3, 4, 5]);
    assert_eq!(px, by_hand(&p, 10, 10));
}

#[test]
fn pixels_stay_on_the_canvas() {
    let mut rng = Lcg(7);
    for _ in 0..300 {
        let p = sorted_triangle(&mut rng, -20, 40);
        let width = rng.next(1, 25);
        let height = rng.next(1, 25);
        for (x, y) in pixels(&p, width, height) {
            assert!(0 <= x && x < width && 0 <= y && y < height);
        }
    }
}

#[test]
fn pixels_stay_in_the_bounding_box() {
    let mut rng = Lcg(31);
    for _ in 0..300 {
        let p = sorted_triangle(&mut rng, -20, 40);
        let xs = [p.points[0].x, p.points[1].x, p.points[2].x];
        let (left, right) = (*xs.iter().min().unwrap(), *xs.iter().max().unwrap());
        for (x, y) in pixels(&p, 30, 30) {
            assert!(left <= x && x < right);
            assert!(p.points[0].y <= y && y < p.points[2].y);
        }
    }
}

#[test]
fn clipping_drops_what_lies_outside() {
    let p = triangle((-3, -2), (9, 3), (-3, 8));
    let inside = pixels(&p, 5, 5);
    let all = pixels(&p, 100, 100);
    let kept: Vec<(i32, i32)> =
        all.iter().copied().filter(|q| q.0 < 5 && q.1 < 5).collect();
    assert_eq!(inside, kept);
    assert!(!inside.is_empty());
}

#[test]
fn a_second_walk_yields_the_same_pixels() {
    let mut rng = Lcg(99);
    for _ in 0..100 {
        let p = sorted_triangle(&mut rng, -10, 30);
        let first = pixels(&p, 20, 20);
        let second = pixels(&p, 20, 20);
        assert_eq!(first, second);
        let recoloured = Polygon { color: Color { r: 1, g: 2, b: 3 }, points: p.points };
        assert_eq!(first, pixels(&recoloured, 20, 20));
    }
}

#[test]
fn walk_ends_and_stays_ended() {
    let p = triangle((0, 0), (3, 0), (0, 3));
    let mut it = p.iter_points(4, 4);
    let mut n = 0;
    while it.next().is_some() {
        n += 1;
    }
    assert_eq!(n, 6);
    assert_eq!(it.next(), None);
    assert_eq!(it.next(), None);
}

#[test]
fn agrees_with_the_fill_written_by_hand() {
    let mut rng = Lcg(2024);
    for _ in 0..500 {
        let p = sorted_triangle(&mut rng, -30, 60);
        assert_eq!(pixels(&p, 32, 32), by_hand(&p, 32, 32));
    }
}

#[test]
fn agrees_with_floating_point_intercepts() {
    let mut rng = Lcg(4242);
    let mut compared = 0;
    for _ in 0..500 {
        let p = sorted_triangle(&mut rng, -30, 60);
        let px = pixels(&p, 32, 32);
        for (y, xs) in rows_in_floating_point(&p, 32, 32) {
            let row: Vec<i32> = px.iter().filter(|q| q.1 == y).map(|q| q.0).collect();
            assert_eq!(row, xs);
            compared += 1;
        }
    }
    assert!(compared > 1000);
}

#[test]
fn each_pixel_is_yielded_once() {
    let mut rng = Lcg(5);
    for _ in 0..200 {
        let p = sorted_triangle(&mut rng, -10, 40);
        let mut px = pixels(&p, 30, 30);
        let n = px.len();
        px.sort();
        px.dedup();
        assert_eq!(px.len(), n);
    }
}

#[test]
fn unordered_vertices_never_hang() {
    let p = triangle((0, 9), (4, 0), (8, 3));
    assert_eq!(pixels(&p, 10, 10), vec![]);
    let p = triangle((0, 0), (4, 9), (8, 3));
    assert_eq!(pixels(&p, 10, 10), by_hand(&p, 10, 10));
}

#[test]
fn extreme_coordinates_do_not_overflow() {
    let p = triangle((i32::MIN, -1), (i32::MAX, 0), (i32::MIN, 2));
    let px = pixels(&p, 4, 4);
    for (x, y) in &px {
        assert!(0 <= *x && *x < 4 && 0 <= *y && *y < 4);
    }
    assert_eq!(px, by_hand(&p, 4, 4));
}
