use tripaint::colorize::{polygons_draw, Args, DNA};
use tripaint::distance::MAX_DISTANCE;
use tripaint::draw::{Color, Point, Polygon};
use tripaint::raster::Raster;
use tripaint::selection::{Mutation, Selection};
use tripaint::EvolveError;

const BLACK: Color = Color { r: 0, g: 0, b: 0 };
const WHITE: Color = Color { r: 255, g: 255, b: 255 };
const RED: Color = Color { r: 255, g: 0, b: 0 };

fn triangle(color: Color, a: (i32, i32), b: (i32, i32), c: (i32, i32)) -> Polygon {
    Polygon {
        color,
        points: [Point { x: a.0, y: a.1 }, Point { x: b.0, y: b.1 }, Point { x: c.0, y: c.1 }],
    }
}

fn pixels(img: &Raster) -> Vec<Color> {
    let (w, h) = img.dimensions();
    let mut out = Vec::new();
    for y in 0..h {
        for x in 0..w {
            out.push(img.get(x, y).unwrap());
        }
    }
    out
}

const CORNER: [(u32, u32); 6] = [(0, 0), (1, 0), (2, 0), (0, 1), (1, 1), (0, 2)];

#[test]
fn one_red_triangle_on_black() {
    let img = polygons_draw(4, 4, BLACK, vec![triangle(RED, (0, 0), (3, 0), (0, 3))]);
    assert_eq!(img.dimensions(), (4, 4));
    for y in 0..4 {
        for x in 0..4 {
            let expected = if CORNER.contains(&(x, y)) { RED } else { BLACK };
            assert_eq!(img.get(x, y), Some(expected));
        }
    }
}

#[test]
fn fitness_sums_the_distances_to_the_reference() {
    let reference = Raster::new(4, 4, BLACK).unwrap();
    let polygons = vec![triangle(RED, (0, 0), (3, 0), (0, 3))];
    let dna = DNA::generate(Args { ref_img: &reference, scale_muts: 1, polygons, divide_rate: 10 })
        .unwrap();
    // Six red pixels at distance 255 from black, ten black ones at none.
    assert_eq!(dna.fitness(), 6 * 255 / 10);
}

#[test]
fn fitness_against_a_mixed_reference() {
    let mut reference = Raster::new(4, 4, BLACK).unwrap();
    for at in [(3, 3), (2, 3), (3, 2), (3, 1)] {
        reference.set(at.0, at.1, WHITE);
    }
    reference.set(0, 0, RED);
    let polygons = vec![triangle(RED, (0, 0), (3, 0), (0, 3))];
    let dna = DNA::generate(Args { ref_img: &reference, scale_muts: 0, polygons, divide_rate: 7 })
        .unwrap();
    // Five red pixels on black, one on red, four black ones on white.
    assert_eq!(dna.fitness(), (5 * 255 + 4 * 441) / 7);
    let img = dna.draw();
    assert_eq!(img.get(3, 3), Some(BLACK));
    assert_eq!(img.get(0, 0), Some(RED));
}

#[test]
fn divide_rate_of_one_leaves_the_sum() {
    let reference = Raster::new(4, 4, WHITE).unwrap();
    let dna = DNA::generate(Args {
        ref_img: &reference,
        scale_muts: 0,
        polygons: vec![triangle(BLACK, (0, 0), (3, 0), (0, 3))],
        divide_rate: 1,
    })
    .unwrap();
    assert_eq!(dna.fitness(), 6 * MAX_DISTANCE);
}

#[test]
fn two_triangles_on_one_pixel_are_averaged() {
    let a = triangle(Color { r: 100, g: 0, b: 0 }, (0, 0), (3, 0), (0, 3));
    let b = triangle(Color { r: 0, g: 100, b: 0 }, (1, 1), (3, 1), (1, 3));
    let img = polygons_draw(4, 4, BLACK, vec![a, b]);
    assert_eq!(img.get(1, 1), Some(Color { r: 50, g: 50, b: 0 }));
    assert_eq!(img.get(0, 0), Some(Color { r: 100, g: 0, b: 0 }));
    assert_eq!(img.get(2, 1), Some(Color { r: 0, g: 100, b: 0 }));
    assert_eq!(img.get(3, 3), Some(BLACK));
}

#[test]
fn average_is_rounded_down_per_channel() {
    let shape = |c: Color| triangle(c, (0, 0), (3, 0), (0, 3));
    let img = polygons_draw(
        4,
        4,
        WHITE,
        vec![
            shape(Color { r: 255, g: 1, b: 0 }),
            shape(Color { r: 0, g: 1, b: 0 }),
            shape(Color { r: 0, g: 0, b: 1 }),
        ],
    );
    assert_eq!(img.get(0, 0), Some(Color { r: 85, g: 0, b: 0 }));
    assert_eq!(img.get(3, 0), Some(WHITE));
}

#[test]
fn average_does_not_depend_on_the_order() {
    let a = triangle(Color { r: 10, g: 200, b: 7 }, (0, 0), (9, 2), (3, 9));
    let b = triangle(Color { r: 99, g: 3, b: 250 }, (-2, 1), (6, 4), (2, 12));
    let c = triangle(Color { r: 0, g: 77, b: 31 }, (4, 4), (11, 4), (4, 11));
    let one = polygons_draw(12, 10, BLACK, vec![a, b, c]);
    let other = polygons_draw(12, 10, BLACK, vec![c, a, b]);
    assert_eq!(pixels(&one), pixels(&other));
}

#[test]
fn no_triangles_give_the_background() {
    let img = polygons_draw(3, 5, RED, vec![]);
    assert_eq!(img.dimensions(), (3, 5));
    assert!(pixels(&img).iter().all(|c| *c == RED));
}

#[test]
fn canvas_need_not_be_square() {
    let t = triangle(RED, (4, 0), (6, 0), (4, 2));
    let img = polygons_draw(7, 2, BLACK, vec![t]);
    assert_eq!(img.get(4, 0), Some(RED));
    assert_eq!(img.get(5, 0), Some(RED));
    assert_eq!(img.get(4, 1), Some(RED));
    assert_eq!(img.get(5, 1), Some(BLACK));
    assert_eq!(pixels(&img).iter().filter(|c| **c == RED).count(), 3);
}

#[test]
fn background_is_the_most_frequent_colour_of_the_reference() {
    let mut reference = Raster::new(3, 3, WHITE).unwrap();
    reference.set(0, 0, RED);
    let dna = DNA::generate(Args {
        ref_img: &reference,
        scale_muts: 0,
        polygons: vec![],
        divide_rate: 1,
    })
    .unwrap();
    // The rendering is all white: only the red pixel differs.
    assert_eq!(dna.fitness(), 360);
}

#[test]
fn infeasible_configurations_are_refused() {
    let reference = Raster::new(4, 4, BLACK).unwrap();
    let t = triangle(RED, (0, 0), (3, 0), (0, 3));
    let zero_rate =
        DNA::generate(Args { ref_img: &reference, scale_muts: 1, polygons: vec![t], divide_rate: 0 });
    assert_eq!(zero_rate.unwrap_err(), EvolveError::UnsatisfiableConstraints);
    let large_batch =
        DNA::generate(Args { ref_img: &reference, scale_muts: 2, polygons: vec![t], divide_rate: 1 });
    assert_eq!(large_batch.unwrap_err(), EvolveError::UnsatisfiableConstraints);
    let empty = Raster::new(0, 0, BLACK).unwrap();
    let no_canvas =
        DNA::generate(Args { ref_img: &empty, scale_muts: 0, polygons: vec![], divide_rate: 1 });
    assert_eq!(no_canvas.unwrap_err(), EvolveError::UnsatisfiableConstraints);
}

#[test]
fn worst_matching_triangles_take_the_new_colours() {
    let reference = Raster::new(8, 8, BLACK).unwrap();
    let grey = Color { r: 10, g: 10, b: 10 };
    let polygons = vec![
        triangle(grey, (0, 0), (3, 0), (0, 3)),
        triangle(BLACK, (4, 0), (7, 0), (4, 3)),
        triangle(RED, (0, 4), (3, 4), (0, 7)),
        triangle(WHITE, (4, 4), (7, 4), (4, 7)),
    ];
    let dna = DNA::generate(Args { ref_img: &reference, scale_muts: 2, polygons, divide_rate: 1 })
        .unwrap();
    assert_eq!(dna.fitness(), 6 * (17 + 0 + 255 + 441));
    let first = Color { r: 1, g: 1, b: 1 };
    let second = Color { r: 2, g: 2, b: 2 };
    let next = dna.recolor(vec![first, second]).unwrap();
    let colours: Vec<Color> = next.polygons().iter().map(|p| p.color).collect();
    assert_eq!(colours, vec![grey, BLACK, second, first]);
    for (p, q) in next.polygons().iter().zip(dna.polygons()) {
        assert_eq!(p.points, q.points);
    }
    assert_eq!(next.fitness(), 6 * (17 + 0 + 3 + 1));
    assert_eq!(dna.polygons()[3].color, WHITE);
}

#[test]
fn equal_mismatch_is_settled_by_position() {
    let reference = Raster::new(8, 8, BLACK).unwrap();
    let polygons = vec![
        triangle(RED, (0, 0), (3, 0), (0, 3)),
        triangle(RED, (4, 0), (7, 0), (4, 3)),
        triangle(RED, (0, 4), (3, 4), (0, 7)),
    ];
    let dna = DNA::generate(Args { ref_img: &reference, scale_muts: 1, polygons, divide_rate: 1 })
        .unwrap();
    let next = dna.recolor(vec![WHITE]).unwrap();
    let colours: Vec<Color> = next.polygons().iter().map(|p| p.color).collect();
    assert_eq!(colours, vec![RED, RED, WHITE]);
}

#[test]
fn wrong_number_of_colours_is_refused() {
    let reference = Raster::new(4, 4, BLACK).unwrap();
    let t = triangle(RED, (0, 0), (3, 0), (0, 3));
    let dna = DNA::generate(Args { ref_img: &reference, scale_muts: 1, polygons: vec![t], divide_rate: 1 })
        .unwrap();
    assert_eq!(dna.recolor(vec![]).unwrap_err(), EvolveError::UnsatisfiableConstraints);
    assert_eq!(
        dna.recolor(vec![RED, RED]).unwrap_err(),
        EvolveError::UnsatisfiableConstraints
    );
}

#[test]
fn mutation_recolours_from_the_palette_and_keeps_the_shapes() {
    let mut reference = Raster::new(8, 8, BLACK).unwrap();
    reference.set(1, 1, RED);
    reference.set(2, 2, WHITE);
    let odd = Color { r: 9, g: 9, b: 9 };
    let polygons = vec![
        triangle(odd, (0, 0), (3, 0), (0, 3)),
        triangle(odd, (4, 0), (7, 0), (4, 3)),
        triangle(odd, (0, 4), (3, 4), (0, 7)),
    ];
    let dna = DNA::generate(Args { ref_img: &reference, scale_muts: 2, polygons, divide_rate: 1 })
        .unwrap();
    for _ in 0..50 {
        let next = dna.mutate().unwrap();
        assert_eq!(next.polygons().len(), 3);
        let mut changed = 0;
        for (p, q) in next.polygons().iter().zip(dna.polygons()) {
            assert_eq!(p.points, q.points);
            if p.color != odd {
                assert!(p.color == BLACK || p.color == RED || p.color == WHITE);
                changed += 1;
            }
        }
        assert_eq!(changed, 2);
    }
}

#[test]
fn colour_search_on_a_feasible_configuration_succeeds() {
    let mut reference = Raster::new(6, 6, BLACK).unwrap();
    reference.set(1, 1, RED);
    let polygons = vec![
        triangle(WHITE, (0, 0), (3, 0), (0, 3)),
        triangle(WHITE, (2, 2), (6, 2), (2, 6)),
    ];
    let start = DNA::generate(Args {
        ref_img: &reference,
        scale_muts: 1,
        polygons: polygons.clone(),
        divide_rate: 1,
    })
    .unwrap()
    .fitness();
    let best = Mutation::<Args, DNA>::select(
        Args { ref_img: &reference, scale_muts: 1, polygons, divide_rate: 1 },
        2,
    )
    .unwrap();
    assert_eq!(best.polygons().len(), 2);
    assert!(best.fitness() <= start);
    for p in best.polygons() {
        assert!(p.color == WHITE || p.color == BLACK || p.color == RED);
    }
}

#[test]
fn copy_of_a_candidate_has_the_same_fitness() {
    let reference = Raster::new(4, 4, BLACK).unwrap();
    let t = triangle(RED, (0, 0), (3, 0), (0, 3));
    let dna = DNA::generate(Args { ref_img: &reference, scale_muts: 1, polygons: vec![t], divide_rate: 2 })
        .unwrap();
    let copy = dna.clone();
    assert_eq!(copy.fitness(), dna.fitness());
    assert_eq!(copy.into_polygons().len(), 1);
}

#[test]
fn score_of_a_triangle_is_its_mismatch() {
    let mut reference = Raster::new(4, 4, BLACK).unwrap();
    reference.set(1, 1, Color { r: 255, g: 3, b: 4 });
    let t = triangle(RED, (0, 0), (3, 0), (0, 3));
    assert_eq!(t.score(&reference), 5 * 255 + 5);
    let hidden = triangle(RED, (10, 10), (13, 10), (10, 13));
    assert_eq!(hidden.score(&reference), 0);
}
