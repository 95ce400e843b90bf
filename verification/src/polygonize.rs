//! The coverage genome: a set of triangles that should cover the canvas
//! with as little overlap as possible.

use crate::cover::{
    census, count_level, count_zero, cover_count, covering, blank, erase_all, erased_all, level_sum,
    levels, overlap, pixel_of, stamp_all, stamped_all, uncovered,
};
use crate::draw::{satisfiable, valid_canvas, Polygon, MAX_SIDE};
use crate::order::{arranged, lemma_arranged_by_ranking, lemma_ranking, rank, ranking};
use crate::selection::Selection;
use crate::sum::{lemma_sum_by_bounds, lemma_sum_by_concat, lemma_sum_by_permutation};
use crate::EvolveError;
use vstd::prelude::*;

verus! {

/// What a coverage genome is made from.
#[derive(Debug, Clone, Copy)]
pub struct Args {
    /// Number of triangles.
    pub npolygons: i32,
    /// Least and largest size of a triangle.
    pub pol_size: (i32, i32),
    /// Bound on the difference between the sides of a triangle's bounding
    /// box.
    pub pol_delta: i32,
    /// Number of triangles that one mutation replaces.
    pub scale_muts: usize,
    /// Width of the canvas.
    pub width: i32,
    /// Height of the canvas.
    pub height: i32,
}

/// A candidate of the coverage phase: triangles, and for every pixel of the
/// canvas the number of triangles that cover it. The fitness is the number
/// of pixels that no triangle covers.
#[derive(Debug)]
pub struct DNA {
    width: i32,
    height: i32,
    polygons: Vec<Polygon>,
    scale_muts: usize,
    pol_min: i32,
    pol_max: i32,
    pol_delta: i32,
    pixels: Vec<u8>,
    fitness: u64,
}

/// Whether no pixel of the canvas is covered by more triangles than a
/// counter can hold.
pub open spec fn countable(polygons: Seq<Polygon>, width: int, height: int) -> bool {
    forall|c: int|
        0 <= c < width * height ==> #[trigger] cover_count(
            polygons,
            width,
            height,
            pixel_of(c, width),
        ) <= u8::MAX
}

impl Args {
    /// Whether the canvas has a valid extent and a coverage buffer for it
    /// can be indexed, and the largest triangle size is in range.
    pub open spec fn feasible(&self) -> bool {
        &&& valid_canvas(self.width as int, self.height as int)
        &&& self.width * self.height <= usize::MAX
        &&& self.pol_size.1 <= MAX_SIDE
    }

    /// Number of triangles asked for: none where the number is negative.
    pub open spec fn count(&self) -> nat {
        if self.npolygons > 0 {
            self.npolygons as nat
        } else {
            0
        }
    }

    fn is_feasible(&self) -> (r: bool)
        ensures
            r == self.feasible(),
    {
        if 1 <= self.width && self.width <= MAX_SIDE && 1 <= self.height && self.height
            <= MAX_SIDE && self.pol_size.1 <= MAX_SIDE {
            assert(0 <= self.width * self.height <= MAX_SIDE * MAX_SIDE) by (nonlinear_arith)
                requires
                    1 <= self.width <= MAX_SIDE,
                    1 <= self.height <= MAX_SIDE,
            ;
            let area: u64 = (self.width as u64) * (self.height as u64);
            area <= usize::MAX as u64
        } else {
            false
        }
    }
}

/// Generates `count` random triangles for the canvas.
///
/// Fails where no triangle of the requested shape exists, and where one was
/// not found within the sampling bound. No triangles are no failure.
pub fn generate_polygons(count: usize, width: i32, height: i32, size: (i32, i32), delta: i32) -> (r:
    Result<Vec<Polygon>, EvolveError>)
    requires
        valid_canvas(width as int, height as int),
        size.1 <= MAX_SIDE,
    ensures
        count == 0 ==> r is Ok,
        count > 0 && !satisfiable(size, delta) ==> r is Err,
        r matches Err(e) ==> e == EvolveError::UnsatisfiableConstraints,
        r matches Ok(v) ==> {
            &&& v.len() == count
            &&& forall|i: int|
                0 <= i < v.len() ==> (#[trigger] v[i]).fresh(width as int, height as int, size, delta)
        },
{
    let mut polygons: Vec<Polygon> = Vec::new();
    while polygons.len() < count
        invariant
            valid_canvas(width as int, height as int),
            size.1 <= MAX_SIDE,
            polygons.len() <= count,
            polygons.len() > 0 ==> satisfiable(size, delta),
            forall|i: int|
                0 <= i < polygons.len() ==> (#[trigger] polygons[i]).fresh(
                    width as int,
                    height as int,
                    size,
                    delta,
                ),
        decreases count - polygons.len(),
    {
        let p = Polygon::generate(width, height, size, delta)?;
        polygons.push(p);
    }
    Ok(polygons)
}

impl Clone for DNA {
    /// An independent copy: the triangles and the whole coverage buffer.
    fn clone(&self) -> (r: Self)
        ensures
            r.shapes() == self.shapes(),
            r.canvas() == self.canvas(),
            r.batch() == self.batch(),
            r.shape_limits() == self.shape_limits(),
            r.coverage() == self.coverage(),
            r.score() == self.score(),
    {
        proof {
            use_type_invariant(self);
        }
        let polygons = self.polygons.clone();
        let pixels = self.pixels.clone();
        assert(polygons@ =~= self.polygons@);
        assert(pixels@ =~= self.pixels@);
        DNA {
            width: self.width,
            height: self.height,
            polygons,
            scale_muts: self.scale_muts,
            pol_min: self.pol_min,
            pol_max: self.pol_max,
            pol_delta: self.pol_delta,
            pixels,
            fitness: self.fitness,
        }
    }
}

impl DNA {
    #[verifier::type_invariant]
    spec fn inv(self) -> bool {
        &&& valid_canvas(self.width as int, self.height as int)
        &&& self.pol_max <= MAX_SIDE
        &&& self.scale_muts <= self.polygons.len()
        &&& self.pixels.len() == self.width * self.height
        &&& levels(self.pixels@) == stamped_all(
            blank(self.width as int, self.height as int),
            self.polygons@,
            self.width as int,
            self.height as int,
        )
        &&& self.fitness == count_zero(self.pixels@)
    }

    /// The triangles of the candidate, in order.
    pub closed spec fn shapes(&self) -> Seq<Polygon> {
        self.polygons@
    }

    /// Width and height of the canvas.
    pub closed spec fn canvas(&self) -> (int, int) {
        (self.width as int, self.height as int)
    }

    /// Number of triangles that one mutation replaces.
    pub closed spec fn batch(&self) -> nat {
        self.scale_muts as nat
    }

    /// Size range and side tolerance of the triangles that a mutation adds.
    pub closed spec fn shape_limits(&self) -> ((i32, i32), i32) {
        ((self.pol_min, self.pol_max), self.pol_delta)
    }

    /// The coverage buffer: one counter for each pixel, row by row.
    pub closed spec fn coverage(&self) -> Seq<u8> {
        self.pixels@
    }

    /// The cached fitness.
    pub closed spec fn score(&self) -> u64 {
        self.fitness
    }

    /// Whether the coverage buffer counts, for every pixel, the triangles
    /// that cover it, and the fitness counts the pixels that none covers.
    pub open spec fn consistent(&self) -> bool {
        &&& valid_canvas(self.canvas().0, self.canvas().1)
        &&& self.batch() <= self.shapes().len()
        &&& levels(self.coverage()) == stamped_all(
            blank(self.canvas().0, self.canvas().1),
            self.shapes(),
            self.canvas().0,
            self.canvas().1,
        )
        &&& self.score() == count_zero(self.coverage())
    }

    /// For every triangle the sum of the counters under its pixels: high
    /// where the triangle lies on pixels that many triangles cover.
    pub open spec fn overlaps(&self) -> Seq<u64> {
        Seq::new(
            self.shapes().len(),
            |i: int|
                level_sum(
                    self.shapes()[i].pixels(self.canvas().0, self.canvas().1),
                    self.coverage(),
                    self.canvas().0,
                ) as u64,
        )
    }

    /// Whether `child` is a candidate that a mutation of this one can
    /// give: the survivors of this candidate, followed by one batch of
    /// triangles as the generator gives them for the canvas and the limits
    /// of this candidate, on the same canvas and with the same limits.
    pub open spec fn mutated_to(&self, child: DNA) -> bool {
        let stay = self.shapes().len() - self.batch();
        &&& child.consistent()
        &&& child.canvas() == self.canvas()
        &&& child.batch() == self.batch()
        &&& child.shape_limits() == self.shape_limits()
        &&& child.shapes().len() == self.shapes().len()
        &&& child.shapes().take(stay) == self.survivors()
        &&& forall|i: int|
            stay <= i < child.shapes().len() ==> (#[trigger] child.shapes()[i]).fresh(
                self.canvas().0,
                self.canvas().1,
                self.shape_limits().0,
                self.shape_limits().1,
            )
    }

    /// A candidate whose mutation replaces no triangle keeps all of them,
    /// and its counters hold them.
    proof fn lemma_all_survive(self)
        requires
            self.inv(),
            self.scale_muts == 0,
        ensures
            countable(
                self.survivors() + Seq::<Polygon>::empty(),
                self.width as int,
                self.height as int,
            ),
    {
        let w = self.width as int;
        let h = self.height as int;
        let sorted = arranged(self.shapes(), ranking(self.overlaps()));
        lemma_ranking(self.overlaps());
        lemma_arranged_by_ranking(self.shapes(), self.overlaps());
        assert(self.survivors() + Seq::<Polygon>::empty() =~= sorted);
        assert forall|c: int| 0 <= c < w * h implies #[trigger] cover_count(
            sorted,
            w,
            h,
            pixel_of(c, w),
        ) <= u8::MAX by {
            lemma_sum_by_permutation(sorted, self.shapes(), covering(w, h, pixel_of(c, w)));
            assert(levels(self.pixels@)[c] == stamped_all(blank(w, h), self.shapes(), w, h)[c]);
        }
    }

    /// The triangles that a mutation keeps: all but the `batch` with the
    /// highest overlap, by ascending overlap.
    pub open spec fn survivors(&self) -> Seq<Polygon> {
        arranged(self.shapes(), ranking(self.overlaps())).take(
            self.shapes().len() - self.batch(),
        )
    }

    /// Builds the candidate that holds the given triangles: counts the
    /// coverage of every pixel and the pixels left uncovered.
    ///
    /// Fails with `UnsatisfiableConstraints` where the configuration is not
    /// feasible or asks for a batch larger than the set of triangles, and
    /// with `CoverageOverflow` where more than 255 triangles cover one
    /// pixel.
    pub fn from_polygons(args: &Args, polygons: Vec<Polygon>) -> (r: Result<DNA, EvolveError>)
        ensures
            !(args.feasible() && args.scale_muts <= polygons.len()) ==> r == Err::<DNA, EvolveError>(
                EvolveError::UnsatisfiableConstraints,
            ),
            args.feasible() && args.scale_muts <= polygons.len() ==> {
                &&& r is Ok <==> countable(polygons@, args.width as int, args.height as int)
                &&& r matches Err(e) ==> e == EvolveError::CoverageOverflow
            },
            r matches Ok(d) ==> {
                &&& d.shapes() == polygons@
                &&& d.canvas() == (args.width as int, args.height as int)
                &&& d.batch() == args.scale_muts
                &&& d.shape_limits() == (args.pol_size, args.pol_delta)
                &&& d.consistent()
            },
    {
        if !args.is_feasible() || args.scale_muts > polygons.len() {
            return Err(EvolveError::UnsatisfiableConstraints);
        }
        let cells: usize = (args.width as usize) * (args.height as usize);
        let mut pixels: Vec<u8> = vec![0u8; cells];
        let ghost start = blank(args.width as int, args.height as int);
        let ghost goal = stamped_all(start, polygons@, args.width as int, args.height as int);
        assert(levels(pixels@) =~= start);
        assert(countable(polygons@, args.width as int, args.height as int) <==> forall|c: int|
            0 <= c < start.len() ==> #[trigger] goal[c] <= u8::MAX) by {
            if countable(polygons@, args.width as int, args.height as int) {
                assert forall|c: int| 0 <= c < start.len() implies #[trigger] goal[c]
                    <= u8::MAX by {
                    assert(cover_count(
                        polygons@,
                        args.width as int,
                        args.height as int,
                        pixel_of(c, args.width as int),
                    ) <= u8::MAX);
                }
            } else {
                let c = choose|c: int|
                    0 <= c < args.width * args.height && #[trigger] cover_count(
                        polygons@,
                        args.width as int,
                        args.height as int,
                        pixel_of(c, args.width as int),
                    ) > u8::MAX;
                assert(goal[c] > u8::MAX);
            }
        }
        if !stamp_all(&mut pixels, &polygons, args.width, args.height) {
            return Err(EvolveError::CoverageOverflow);
        }
        let fitness = uncovered(&pixels);
        Ok(
            DNA {
                width: args.width,
                height: args.height,
                polygons,
                scale_muts: args.scale_muts,
                pol_min: args.pol_size.0,
                pol_max: args.pol_size.1,
                pol_delta: args.pol_delta,
                pixels,
                fitness,
            },
        )
    }

    /// The triangles of the candidate.
    pub fn polygons(&self) -> (r: &Vec<Polygon>)
        ensures
            r@ == self.shapes(),
    {
        &self.polygons
    }

    /// The coverage buffer: for every pixel, row by row, the number of
    /// triangles that cover it.
    pub fn cells(&self) -> (r: &Vec<u8>)
        ensures
            self.consistent(),
            r@ == self.coverage(),
    {
        proof {
            use_type_invariant(self);
        }
        &self.pixels
    }

    /// Gives up the triangles of the candidate.
    pub fn into_polygons(self) -> (r: Vec<Polygon>)
        ensures
            r@ == self.shapes(),
    {
        self.polygons
    }

    /// Counts the pixels that exactly one triangle covers, those that none
    /// covers, and the rest.
    pub fn census(&self) -> (r: (u64, u64, u64))
        ensures
            self.consistent(),
            r.0 == count_level(self.coverage(), 1),
            r.1 == count_level(self.coverage(), 0),
            r.0 + r.1 + r.2 == self.canvas().0 * self.canvas().1,
    {
        proof {
            use_type_invariant(self);
            lemma_area(self.width as int, self.height as int);
        }
        census(&self.pixels)
    }
}

/// A valid canvas has at least one pixel and at most `MAX_SIDE` squared.
proof fn lemma_area(width: int, height: int)
    requires
        valid_canvas(width, height),
    ensures
        1 <= width * height <= MAX_SIDE * MAX_SIDE,
{
    assert(1 <= width * height <= MAX_SIDE * MAX_SIDE) by (nonlinear_arith)
        requires
            1 <= width <= MAX_SIDE,
            1 <= height <= MAX_SIDE,
    ;
}

impl DNA {
    /// Scores every triangle by the coverage under its pixels.
    fn overlap_scores(&self) -> (scores: Vec<u64>)
        ensures
            scores@ == self.overlaps(),
    {
        proof {
            use_type_invariant(self);
        }
        let mut scores: Vec<u64> = Vec::new();
        let mut i: usize = 0;
        while i < self.polygons.len()
            invariant
                valid_canvas(self.width as int, self.height as int),
                self.pixels.len() == self.width * self.height,
                i <= self.polygons.len(),
                scores@ == self.overlaps().take(i as int),
            decreases self.polygons.len() - i,
        {
            let s = overlap(&self.pixels, &self.polygons[i], self.width, self.height);
            scores.push(s);
            assert(scores@ =~= self.overlaps().take(i + 1));
            i = i + 1;
        }
        assert(scores@ =~= self.overlaps());
        scores
    }

    /// Splits the triangles, taken in the given order, into those that stay
    /// and the last `scale_muts`, which go.
    fn split(&self, order: &Vec<usize>) -> (r: (Vec<Polygon>, Vec<Polygon>))
        requires
            order@ == ranking(self.overlaps()),
        ensures
            r.0@ == self.survivors(),
            r.0@ + r.1@ == arranged(self.shapes(), order@),
    {
        proof {
            use_type_invariant(self);
            lemma_ranking(self.overlaps());
        }
        let ghost sorted = arranged(self.shapes(), order@);
        let n = self.polygons.len();
        let stay = n - self.scale_muts;
        let mut kept: Vec<Polygon> = Vec::new();
        let mut gone: Vec<Polygon> = Vec::new();
        let mut j: usize = 0;
        while j < n
            invariant
                n == self.polygons.len(),
                order.len() == n,
                stay <= n,
                j <= n,
                sorted == arranged(self.shapes(), order@),
                forall|i: int| 0 <= i < n ==> (#[trigger] order[i]) < n,
                kept@ + gone@ == sorted.take(j as int),
                kept@ == sorted.take(
                    if j <= stay {
                        j as int
                    } else {
                        stay as int
                    },
                ),
            decreases n - j,
        {
            let p = self.polygons[order[j]];
            let ghost before = kept@ + gone@;
            if j < stay {
                assert(gone@ =~= Seq::empty()) by {
                    assert((kept@ + gone@).len() == kept@.len());
                }
                kept.push(p);
            } else {
                gone.push(p);
            }
            assert(kept@ + gone@ =~= before.push(p));
            assert(sorted.take(j + 1) =~= sorted.take(j as int).push(p));
            assert(kept@ =~= sorted.take(
                if j + 1 <= stay {
                    j + 1
                } else {
                    stay as int
                },
            ));
            j = j + 1;
        }
        assert(sorted.take(n as int) =~= sorted);
        (kept, gone)
    }

    /// The candidate with its `batch` most redundant triangles replaced by
    /// the triangles `fresh`: those with the highest overlap go, the others
    /// stay by ascending overlap, and `fresh` follows them.
    ///
    /// Fails with `UnsatisfiableConstraints` where `fresh` is not one batch,
    /// and with `CoverageOverflow` where more than 255 triangles of the new
    /// set cover one pixel.
    pub fn replace_worst(&self, fresh: Vec<Polygon>) -> (r: Result<DNA, EvolveError>)
        ensures
            self.consistent(),
            fresh.len() != self.batch() ==> r == Err::<DNA, EvolveError>(
                EvolveError::UnsatisfiableConstraints,
            ),
            fresh.len() == self.batch() ==> {
                &&& r is Ok <==> countable(
                    self.survivors() + fresh@,
                    self.canvas().0,
                    self.canvas().1,
                )
                &&& r matches Err(e) ==> e == EvolveError::CoverageOverflow
            },
            r matches Ok(d) ==> {
                &&& d.shapes() == self.survivors() + fresh@
                &&& d.canvas() == self.canvas()
                &&& d.batch() == self.batch()
                &&& d.shape_limits() == self.shape_limits()
                &&& d.consistent()
            },
    {
        proof {
            use_type_invariant(self);
        }
        if fresh.len() != self.scale_muts {
            return Err(EvolveError::UnsatisfiableConstraints);
        }
        let scores = self.overlap_scores();
        let order = rank(&scores);
        let (kept, gone) = self.split(&order);
        let mut pixels = self.pixels.clone();
        assert(pixels@ =~= self.pixels@);
        let ghost w = self.width as int;
        let ghost h = self.height as int;
        let ghost sorted = arranged(self.shapes(), order@);
        let ghost start = levels(pixels@);
        let ghost next = kept@ + fresh@;
        proof {
            lemma_arranged_by_ranking(self.shapes(), self.overlaps());
            assert forall|c: int| 0 <= c < start.len() implies #[trigger] start[c] == cover_count(
                kept@,
                w,
                h,
                pixel_of(c, w),
            ) + cover_count(gone@, w, h, pixel_of(c, w)) && cover_count(
                kept@,
                w,
                h,
                pixel_of(c, w),
            ) >= 0 by {
                let f = covering(w, h, pixel_of(c, w));
                lemma_sum_by_permutation(sorted, self.shapes(), f);
                lemma_sum_by_concat(kept@, gone@, f);
                lemma_sum_by_bounds(kept@, f, 0, 1);
                assert(stamped_all(blank(w, h), self.shapes(), w, h)[c] == start[c]);
            }
            assert forall|c: int| 0 <= c < start.len() implies #[trigger] erased_all(
                start,
                gone@,
                w,
                h,
            )[c] >= 0 by {
                assert(start[c] == cover_count(kept@, w, h, pixel_of(c, w)) + cover_count(
                    gone@,
                    w,
                    h,
                    pixel_of(c, w),
                ));
            }
        }
        erase_all(&mut pixels, &gone, self.width, self.height);
        let ghost cleared = levels(pixels@);
        let ghost goal = stamped_all(cleared, fresh@, w, h);
        proof {
            assert forall|c: int| 0 <= c < start.len() implies #[trigger] goal[c] == cover_count(
                next,
                w,
                h,
                pixel_of(c, w),
            ) by {
                let f = covering(w, h, pixel_of(c, w));
                lemma_sum_by_concat(kept@, fresh@, f);
                assert(cleared[c] == erased_all(start, gone@, w, h)[c]);
                assert(start[c] == cover_count(kept@, w, h, pixel_of(c, w)) + cover_count(
                    gone@,
                    w,
                    h,
                    pixel_of(c, w),
                ));
            }
            if countable(next, w, h) {
                assert forall|c: int| 0 <= c < start.len() implies #[trigger] goal[c]
                    <= u8::MAX by {
                    assert(cover_count(next, w, h, pixel_of(c, w)) <= u8::MAX);
                }
            } else {
                let c = choose|c: int|
                    0 <= c < w * h && #[trigger] cover_count(next, w, h, pixel_of(c, w))
                        > u8::MAX;
                assert(goal[c] > u8::MAX);
            }
        }
        if !stamp_all(&mut pixels, &fresh, self.width, self.height) {
            return Err(EvolveError::CoverageOverflow);
        }
        let mut polygons = kept;
        let mut fresh = fresh;
        polygons.append(&mut fresh);
        proof {
            lemma_area(w, h);
            assert(levels(pixels@) =~= stamped_all(blank(w, h), next, w, h));
        }
        let fitness = uncovered(&pixels);
        Ok(
            DNA {
                width: self.width,
                height: self.height,
                polygons,
                scale_muts: self.scale_muts,
                pol_min: self.pol_min,
                pol_max: self.pol_max,
                pol_delta: self.pol_delta,
                pixels,
                fitness,
            },
        )
    }
}

impl Selection<Args> for DNA {
    /// A coverage candidate is sound where its buffer and its fitness agree
    /// with its triangles.
    open spec fn sound(&self) -> bool {
        self.consistent()
    }

    /// The number of pixels that no triangle covers.
    open spec fn rating(&self) -> u64 {
        self.score()
    }

    /// A child keeps the survivors and ends on one batch of new triangles.
    open spec fn offspring(&self, child: Self) -> bool {
        self.mutated_to(child)
    }

    /// A candidate whose mutation replaces no triangle cannot fail to
    /// mutate.
    open spec fn steady(&self) -> bool {
        self.batch() == 0
    }

    /// A feasible configuration without triangles cannot fail.
    open spec fn assured(args: Args) -> bool {
        args.feasible() && args.count() == 0 && args.scale_muts == 0
    }

    /// Replaces the `batch` most redundant triangles by as many random
    /// ones. A batch of none replaces nothing and cannot fail. Where
    /// triangles are to be drawn and none of the requested shape exists,
    /// the mutation fails with `UnsatisfiableConstraints` before any draw;
    /// it fails with the same error where the sampling gives up, and with
    /// `CoverageOverflow` where the new set overflows a counter.
    fn mutate(&self) -> (r: Result<Self, EvolveError>)
        ensures
            self.consistent(),
            self.batch() == 0 ==> r is Ok,
            self.batch() > 0 && !satisfiable(self.shape_limits().0, self.shape_limits().1) ==> r
                == Err::<DNA, EvolveError>(EvolveError::UnsatisfiableConstraints),
            r matches Err(e) ==> e == EvolveError::UnsatisfiableConstraints || (e
                == EvolveError::CoverageOverflow && self.batch() > 0 && satisfiable(
                self.shape_limits().0,
                self.shape_limits().1,
            )),
            r matches Ok(d) ==> self.mutated_to(d),
    {
        proof {
            use_type_invariant(self);
            lemma_ranking(self.overlaps());
            if self.scale_muts == 0 {
                self.lemma_all_survive();
            }
        }
        let size = (self.pol_min, self.pol_max);
        let made = generate_polygons(
            self.scale_muts,
            self.width,
            self.height,
            size,
            self.pol_delta,
        );
        match made {
            Err(e) => Err(e),
            Ok(fresh) => {
                let ghost added = fresh@;
                let r = self.replace_worst(fresh);
                proof {
                    if r is Ok {
                        let d = r->Ok_0;
                        let stay = self.shapes().len() - self.batch();
                        assert(d.shapes().take(stay) =~= self.survivors());
                        assert forall|i: int| stay <= i < d.shapes().len() implies (
                        #[trigger] d.shapes()[i]).fresh(
                            self.canvas().0,
                            self.canvas().1,
                            self.shape_limits().0,
                            self.shape_limits().1,
                        ) by {
                            assert(d.shapes()[i] == added[i - stay]);
                        }
                    }
                }
                r
            },
        }
    }

    /// Generates the triangles at random and builds the candidate that
    /// holds them. With no triangles to draw, a feasible configuration
    /// cannot fail.
    fn generate(args: Args) -> (r: Result<Self, EvolveError>)
        ensures
            args.feasible() && args.count() == 0 && args.scale_muts == 0 ==> r is Ok,
            !args.feasible() || args.scale_muts > args.count() ==> r == Err::<
                DNA,
                EvolveError,
            >(EvolveError::UnsatisfiableConstraints),
            args.count() > 0 && !satisfiable(args.pol_size, args.pol_delta) ==> r == Err::<
                DNA,
                EvolveError,
            >(EvolveError::UnsatisfiableConstraints),
            r matches Ok(d) ==> {
                &&& d.consistent()
                &&& d.canvas() == (args.width as int, args.height as int)
                &&& d.batch() == args.scale_muts
                &&& d.shape_limits() == (args.pol_size, args.pol_delta)
                &&& d.shapes().len() == args.count()
                &&& forall|i: int|
                    0 <= i < d.shapes().len() ==> (#[trigger] d.shapes()[i]).fresh(
                        args.width as int,
                        args.height as int,
                        args.pol_size,
                        args.pol_delta,
                    )
            },
    {
        if !args.is_feasible() {
            return Err(EvolveError::UnsatisfiableConstraints);
        }
        let count: usize = if args.npolygons > 0 {
            args.npolygons as usize
        } else {
            0
        };
        if args.scale_muts > count {
            return Err(EvolveError::UnsatisfiableConstraints);
        }
        let polygons = generate_polygons(
            count,
            args.width,
            args.height,
            args.pol_size,
            args.pol_delta,
        )?;
        proof {
            if count == 0 {
                assert(polygons@ =~= Seq::<Polygon>::empty());
                assert(countable(polygons@, args.width as int, args.height as int));
            }
        }
        DNA::from_polygons(&args, polygons)
    }

    /// The number of pixels that no triangle covers, as counted when the
    /// candidate was built.
    fn fitness(&self) -> (f: u64)
        ensures
            self.consistent(),
            f == self.score(),
    {
        proof {
            use_type_invariant(self);
        }
        self.fitness
    }
}

} // verus!
