use tripaint::draw::{Color, Point, Polygon, MAX_SIDE};
use tripaint::{randrange, EvolveError};

fn points(a: (i32, i32), b: (i32, i32), c: (i32, i32)) -> [Point; 3] {
    [Point { x: a.0, y: a.1 }, Point { x: b.0, y: b.1 }, Point { x: c.0, y: c.1 }]
}

fn extent(p: &[Point; 3]) -> (i32, i32) {
    let xs = [p[0].x, p[1].x, p[2].x];
    let ys = [p[0].y, p[1].y, p[2].y];
    (
        xs.iter().max().unwrap() - xs.iter().min().unwrap(),
        ys.iter().max().unwrap() - ys.iter().min().unwrap(),
    )
}

#[test]
fn randrange_stays_in_range() {
    let mut seen = [false; 5];
    for _ in 0..2000 {
        let r = randrange(-2, 3);
        assert!(-2 <= r && r < 3);
        seen[(r + 2) as usize] = true;
    }
    assert!(seen.iter().all(|s| *s));
}

#[test]
fn randrange_of_one_value() {
    for _ in 0..20 {
        assert_eq!(randrange(7, 8), 7);
    }
}

#[test]
fn anchor_lies_on_the_extended_canvas() {
    for _ in 0..2000 {
        let p = Point::generate(10, 4);
        assert!(-3 <= p.x && p.x < 13);
        assert!(-3 <= p.y && p.y < 7);
    }
}

#[test]
fn near_point_lies_within_the_offsets() {
    let anchor = Point { x: 100, y: -50 };
    for _ in 0..2000 {
        let p = anchor.generate_near(-6, 9);
        assert!(94 <= p.x && p.x <= 106);
        assert!(-59 <= p.y && p.y <= -41);
    }
}

#[test]
fn offset_moves_the_point() {
    let p = Point { x: 3, y: -4 }.offset_by(-5, 9);
    assert_eq!(p, Point { x: -2, y: 5 });
    assert_eq!(Point { x: 7, y: 7 }.offset_by(0, 0), Point { x: 7, y: 7 });
}

#[test]
fn near_point_differs_from_its_anchor() {
    let anchor = Point { x: 10, y: 10 };
    let mut moved = 0;
    for _ in 0..500 {
        if anchor.generate_near(5, 5) != anchor {
            moved += 1;
        }
    }
    // One draw in 121 leaves the point where it is.
    assert!(moved > 400);
}

#[test]
fn near_point_reaches_both_ends() {
    let anchor = Point { x: 0, y: 0 };
    let mut seen = [false; 5];
    for _ in 0..2000 {
        let p = anchor.generate_near(2, 0);
        assert_eq!(p.y, 0);
        seen[(p.x + 2) as usize] = true;
    }
    assert!(seen.iter().all(|s| *s));
}

#[test]
fn sample_is_accepted_and_sorted() {
    let t = Polygon::from_sample(points((0, 9), (8, 0), (4, 4)), (6, 10), 5).unwrap();
    assert_eq!(t.points, points((8, 0), (4, 4), (0, 9)));
    assert_eq!(t.color, Color { r: 255, g: 255, b: 255 });
}

#[test]
fn sorting_keeps_level_points_in_order() {
    let t = Polygon::from_sample(points((9, 5), (0, 5), (4, 0)), (2, 10), 8).unwrap();
    assert_eq!(t.points, points((4, 0), (9, 5), (0, 5)));
}

#[test]
fn degenerate_sample_is_rejected() {
    assert!(Polygon::from_sample(points((0, 3), (8, 3), (4, 3)), (-1, 10), 100).is_none());
}

#[test]
fn small_sample_is_rejected() {
    // The bounding box is 6 wide: not larger than the least size 6.
    assert!(Polygon::from_sample(points((0, 0), (6, 3), (3, 8)), (6, 10), 5).is_none());
    assert!(Polygon::from_sample(points((0, 0), (7, 3), (3, 8)), (6, 10), 5).is_some());
}

#[test]
fn lopsided_sample_is_rejected() {
    // 7 wide and 12 high: the sides differ by 5, which is not less than 5.
    assert!(Polygon::from_sample(points((0, 0), (7, 3), (3, 12)), (6, 10), 5).is_none());
    assert!(Polygon::from_sample(points((0, 0), (7, 3), (3, 11)), (6, 10), 5).is_some());
}

#[test]
fn generated_triangle_meets_the_constraints() {
    for _ in 0..200 {
        let t = Polygon::generate(64, 48, (6, 10), 5).unwrap();
        let (dx, dy) = extent(&t.points);
        assert!(dx > 6 && dy > 6);
        assert!((dx - dy).abs() < 5);
        assert!(t.points[0].y <= t.points[1].y && t.points[1].y <= t.points[2].y);
        assert!(!(t.points[0].y == t.points[1].y && t.points[1].y == t.points[2].y));
        for p in &t.points {
            assert!(-13 <= p.x && p.x < 64 + 13);
            assert!(-13 <= p.y && p.y < 48 + 13);
        }
        assert_eq!(t.color, Color { r: 255, g: 255, b: 255 });
    }
}

#[test]
fn tightest_satisfiable_size_is_found() {
    // Offsets lie in -1..=1, so the largest box is 2 by 2: larger than 1.
    let t = Polygon::generate(8, 8, (1, 1), 1).unwrap();
    assert_eq!(extent(&t.points), (2, 2));
}

#[test]
fn unsatisfiable_size_is_an_error() {
    // Offsets lie in -3..=3, so no box is wider than 6.
    assert_eq!(
        Polygon::generate(64, 64, (6, 3), 5).unwrap_err(),
        EvolveError::UnsatisfiableConstraints
    );
    assert!(Polygon::generate(64, 64, (5, 3), 5).is_ok());
}

#[test]
fn unsatisfiable_tolerance_is_an_error() {
    assert_eq!(
        Polygon::generate(64, 64, (6, 10), 0).unwrap_err(),
        EvolveError::UnsatisfiableConstraints
    );
}

#[test]
fn empty_offset_range_is_an_error() {
    assert_eq!(
        Polygon::generate(64, 64, (-5, 0), 3).unwrap_err(),
        EvolveError::UnsatisfiableConstraints
    );
}

#[test]
fn largest_canvas_is_accepted() {
    let t = Polygon::generate(MAX_SIDE, MAX_SIDE, (6, 10), 5).unwrap();
    let (dx, dy) = extent(&t.points);
    assert!(dx > 6 && dy > 6);
}
