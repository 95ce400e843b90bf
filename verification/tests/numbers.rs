use tripaint::distance::MAX_DISTANCE;
use tripaint::draw::Color;
use tripaint::order::rank;
use tripaint::raster::Raster;

fn colour(r: u8, g: u8, b: u8) -> Color {
    Color { r, g, b }
}

#[test]
fn distance_of_known_colours() {
    assert_eq!(colour(0, 0, 0).distance(colour(0, 0, 0)), 0);
    assert_eq!(colour(0, 0, 0).distance(colour(255, 255, 255)), 441);
    assert_eq!(colour(255, 0, 0).distance(colour(0, 0, 0)), 255);
    assert_eq!(colour(3, 4, 0).distance(colour(0, 0, 0)), 5);
    assert_eq!(colour(10, 10, 10).distance(colour(11, 11, 11)), 1);
    assert_eq!(colour(10, 10, 10).distance(colour(12, 12, 10)), 2);
    assert_eq!(colour(1, 2, 3).distance(colour(3, 4, 4)), 3);
    assert_eq!(MAX_DISTANCE, 441);
}

#[test]
fn distance_is_the_rounded_down_root() {
    let mut seed: u32 = 12345;
    let mut byte = move || {
        seed = seed.wrapping_mul(1664525).wrapping_add(1013904223);
        (seed >> 24) as u8
    };
    for _ in 0..20000 {
        let a = colour(byte(), byte(), byte());
        let b = colour(byte(), byte(), byte());
        let d_r = (a.r as i32 - b.r as i32) as f64;
        let d_g = (a.g as i32 - b.g as i32) as f64;
        let d_b = (a.b as i32 - b.b as i32) as f64;
        let expected = (d_r * d_r + d_g * d_g + d_b * d_b).sqrt() as u64;
        assert_eq!(a.distance(b), expected);
        assert_eq!(b.distance(a), expected);
    }
}

#[test]
fn distance_at_every_square() {
    for k in 0..=255u8 {
        assert_eq!(colour(k, 0, 0).distance(colour(0, 0, 0)), k as u64);
        assert_eq!(colour(0, k, 0).distance(colour(0, 0, 0)), k as u64);
    }
    for k in 1..=255u8 {
        // One short of the next square.
        let d = colour(k, 1, 0).distance(colour(0, 0, 0));
        assert_eq!(d, k as u64);
    }
}

#[test]
fn ranking_is_by_ascending_score() {
    assert_eq!(rank(&vec![30, 10, 20]), vec![1, 2, 0]);
    assert_eq!(rank(&vec![]), Vec::<usize>::new());
    assert_eq!(rank(&vec![u64::MAX, 0]), vec![1, 0]);
}

#[test]
fn ranking_keeps_equal_scores_in_order() {
    assert_eq!(rank(&vec![5, 1, 5, 0, 5, 1]), vec![3, 1, 5, 0, 2, 4]);
}

#[test]
fn raster_is_filled() {
    let img = Raster::new(3, 2, colour(1, 2, 3)).unwrap();
    assert_eq!(img.dimensions(), (3, 2));
    for y in 0..2 {
        for x in 0..3 {
            assert_eq!(img.get(x, y), Some(colour(1, 2, 3)));
        }
    }
}

#[test]
fn raster_pixel_is_set_in_its_place() {
    let mut img = Raster::new(3, 2, colour(0, 0, 0)).unwrap();
    assert!(img.set(2, 1, colour(9, 8, 7)));
    assert!(img.set(1, 0, colour(4, 5, 6)));
    assert_eq!(img.get(2, 1), Some(colour(9, 8, 7)));
    assert_eq!(img.get(1, 0), Some(colour(4, 5, 6)));
    let mut others = 0;
    for y in 0..2 {
        for x in 0..3 {
            if img.get(x, y) == Some(colour(0, 0, 0)) {
                others += 1;
            }
        }
    }
    assert_eq!(others, 4);
}

#[test]
fn raster_refuses_positions_outside() {
    let mut img = Raster::new(3, 2, colour(0, 0, 0)).unwrap();
    assert_eq!(img.get(3, 0), None);
    assert_eq!(img.get(0, 2), None);
    assert!(!img.set(3, 1, colour(1, 1, 1)));
    assert!(!img.set(0, 2, colour(1, 1, 1)));
    assert_eq!(img.get(2, 1), Some(colour(0, 0, 0)));
}

#[test]
fn raster_too_large_for_memory_is_refused() {
    assert!(Raster::new(u32::MAX, u32::MAX, colour(0, 0, 0)).is_none());
}

#[test]
fn raster_without_pixels() {
    let img = Raster::new(0, 7, colour(0, 0, 0)).unwrap();
    assert_eq!(img.dimensions(), (0, 7));
    assert_eq!(img.get(0, 0), None);
}
