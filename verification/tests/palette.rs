use tripaint::colorize::{generate_colors, Colors};
use tripaint::draw::{Color, Point, Polygon};
use tripaint::raster::Raster;

const BLACK: Color = Color { r: 0, g: 0, b: 0 };
const RED: Color = Color { r: 255, g: 0, b: 0 };
const GREEN: Color = Color { r: 0, g: 255, b: 0 };
const BLUE: Color = Color { r: 0, g: 0, b: 255 };

fn image(width: u32, height: u32, rows: &[Color]) -> Raster {
    let mut img = Raster::new(width, height, BLACK).unwrap();
    for (i, c) in rows.iter().enumerate() {
        assert!(img.set(i as u32 % width, i as u32 / width, *c));
    }
    img
}

#[test]
fn counts_every_colour() {
    let img = image(3, 2, &[RED, GREEN, RED, BLUE, RED, GREEN]);
    let palette = Colors::new(&img);
    assert_eq!(palette.len(), 3);
    assert_eq!(palette.entry(0), Some((RED, 3)));
    assert_eq!(palette.entry(1), Some((GREEN, 2)));
    assert_eq!(palette.entry(2), Some((BLUE, 1)));
    assert_eq!(palette.entry(3), None);
    assert_eq!(palette.count(RED), 3);
    assert_eq!(palette.count(GREEN), 2);
    assert_eq!(palette.count(BLUE), 1);
    assert_eq!(palette.count(BLACK), 0);
}

#[test]
fn counts_add_up_to_the_number_of_pixels() {
    let mut img = Raster::new(17, 9, BLACK).unwrap();
    for y in 0..9u32 {
        for x in 0..17u32 {
            let c = Color { r: (x % 5) as u8, g: (y % 3) as u8, b: ((x + y) % 2) as u8 };
            img.set(x, y, c);
        }
    }
    let palette = Colors::new(&img);
    let mut sum = 0;
    for i in 0..palette.len() {
        sum += palette.entry(i).unwrap().1;
    }
    assert_eq!(sum, 17 * 9);
    assert_eq!(palette.pixels(), 17 * 9);
    for i in 0..palette.len() {
        for j in 0..i {
            assert_ne!(palette.entry(i).unwrap().0, palette.entry(j).unwrap().0);
        }
    }
}

#[test]
fn colours_that_differ_in_one_channel_are_kept_apart() {
    let a = Color { r: 1, g: 0, b: 0 };
    let b = Color { r: 0, g: 1, b: 0 };
    let c = Color { r: 0, g: 0, b: 1 };
    let d = Color { r: 0, g: 1, b: 1 };
    let img = image(2, 2, &[a, b, c, d]);
    let palette = Colors::new(&img);
    assert_eq!(palette.len(), 4);
    for colour in [a, b, c, d] {
        assert_eq!(palette.count(colour), 1);
    }
}

#[test]
fn background_has_the_most_pixels() {
    let img = image(3, 2, &[RED, GREEN, GREEN, BLUE, GREEN, RED]);
    let palette = Colors::new(&img);
    assert_eq!(palette.get_bg(), GREEN);
    let bg = palette.get_bg();
    for i in 0..palette.len() {
        assert!(palette.entry(i).unwrap().1 <= palette.count(bg));
    }
}

#[test]
fn background_of_a_tie_has_the_largest_count() {
    let img = image(2, 2, &[BLUE, RED, RED, BLUE]);
    let palette = Colors::new(&img);
    let bg = palette.get_bg();
    assert_eq!(palette.count(bg), 2);
    assert_eq!(bg, BLUE);
}

#[test]
fn single_colour_image() {
    let img = Raster::new(4, 4, BLUE).unwrap();
    let palette = Colors::new(&img);
    assert_eq!(palette.len(), 1);
    assert_eq!(palette.entry(0), Some((BLUE, 16)));
    assert_eq!(palette.get_bg(), BLUE);
    assert_eq!(palette.generate(), BLUE);
}

#[test]
fn image_without_pixels_has_no_colours() {
    let img = Raster::new(0, 5, BLUE).unwrap();
    let palette = Colors::new(&img);
    assert_eq!(palette.len(), 0);
    assert_eq!(palette.pixels(), 0);
}

#[test]
fn draw_comes_from_the_palette_whatever_the_counts() {
    let mut cells = vec![RED; 62];
    cells.push(GREEN);
    cells.push(BLUE);
    let img = image(8, 8, &cells);
    let palette = Colors::new(&img);
    let mut seen = [0usize; 3];
    for _ in 0..3000 {
        let c = palette.generate();
        assert!(palette.count(c) > 0);
        let at = (0..3).find(|i| palette.pick(*i) == c).unwrap();
        seen[at] += 1;
    }
    // One pixel in 64 is green, yet about one draw in three is.
    for n in seen {
        assert!(n > 700);
    }
}

#[test]
fn pick_follows_the_order_of_first_sight() {
    let img = image(3, 1, &[GREEN, RED, GREEN]);
    let palette = Colors::new(&img);
    assert_eq!(palette.pick(0), GREEN);
    assert_eq!(palette.pick(1), RED);
}

#[test]
fn copy_of_a_palette_has_the_same_entries() {
    let img = image(3, 2, &[RED, GREEN, RED, BLUE, RED, GREEN]);
    let palette = Colors::new(&img);
    let copy = palette.clone();
    assert_eq!(copy.len(), 3);
    assert_eq!(copy.count(RED), 3);
    assert_eq!(copy.get_bg(), RED);
    assert_eq!(copy.pixels(), 6);
}

#[test]
fn triangles_take_colours_of_the_image() {
    let img = image(2, 2, &[RED, GREEN, RED, BLUE]);
    let shape = [Point { x: 0, y: 0 }, Point { x: 3, y: 1 }, Point { x: 1, y: 4 }];
    let mut polygons = vec![Polygon { color: BLACK, points: shape }; 200];
    generate_colors(&mut polygons, &img);
    assert_eq!(polygons.len(), 200);
    for p in &polygons {
        assert!(p.color == RED || p.color == GREEN || p.color == BLUE);
        assert_eq!(p.points, shape);
    }
    assert!(polygons.iter().any(|p| p.color == BLUE));
}
