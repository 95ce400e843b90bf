//! The colour genome: triangles of fixed shape whose colours should match
//! the reference image.

use crate::cover::{
    cover_count, covering, covers, is_at, lemma_cell_of_pixel, lemma_occurrences_prefix,
    lemma_pixel_of_cell, lemma_pixels_once, occurrences, pixel_of,
};
use crate::distance::{color_distance, MAX_DISTANCE};
use crate::draw::{
    distance_sum, lemma_pixels_on_canvas, on_canvas, valid_canvas, Color, Polygon, MAX_SIDE,
};
use crate::order::{lemma_ranking, rank, ranking};
use crate::selection::Selection;
use crate::raster::{
    lemma_cell_in_range, raster_dimensions, raster_from_pixel, raster_get_pixel, raster_pixels,
    raster_put_pixel, Raster,
};
use crate::sum::{
    count_of, equal_to, indicator, lemma_count_of, lemma_sum_by_bounds,
    lemma_sum_by_push, lemma_sum_by_scaled, lemma_sum_by_take, lemma_sum_by_update, sum_by,
};
use crate::{randrange, EvolveError};
use std::collections::HashMap;
use vstd::prelude::*;

verus! {

/// The colours of an image with the number of pixels of each.
#[derive(Debug)]
pub struct Colors {
    /// The distinct colours in the order they were first seen, each with
    /// its number of pixels.
    cols: Vec<(Color, u64)>,
    /// Where in `cols` a colour stands. The key is the packed value of the
    /// colour: an integer, of which the verifier knows how it hashes and
    /// compares, as it does not of a colour.
    index: HashMap<u32, usize>,
    /// Number of pixels counted.
    n: u64,
}

/// The three channels of a colour in one number.
pub open spec fn pack(c: Color) -> u32 {
    (c.r * 0x1_0000 + c.g * 0x100 + c.b) as u32
}

/// The number of pixels of an entry.
pub open spec fn entry_count() -> spec_fn((Color, u64)) -> int {
    |e: (Color, u64)| e.1 as int
}

/// Whether `c` is the colour of one of the entries.
pub open spec fn listed(entries: Seq<(Color, u64)>, c: Color) -> bool {
    exists|i: int| 0 <= i < entries.len() && (#[trigger] entries[i]).0 == c
}

/// Whether the entries are the palette of the pixels `px`: every colour of
/// `px` once, with the number of its pixels, and no other.
pub open spec fn palette_of(entries: Seq<(Color, u64)>, px: Seq<Color>) -> bool {
    &&& forall|i: int|
        0 <= i < entries.len() ==> (#[trigger] entries[i]).1 == count_of(px, entries[i].0)
            && entries[i].1 >= 1
    &&& forall|i: int, j: int|
        0 <= i < entries.len() && 0 <= j < entries.len() && i != j ==> (#[trigger] entries[i]).0
            != (#[trigger] entries[j]).0
    &&& forall|k: int| 0 <= k < px.len() ==> listed(entries, #[trigger] px[k])
    &&& sum_by(entries, entry_count()) == px.len()
}

spec fn indexed(cols: Seq<(Color, u64)>, index: Map<u32, usize>) -> bool {
    &&& forall|i: int|
        0 <= i < cols.len() ==> index.contains_key(pack((#[trigger] cols[i]).0)) && index[pack(
            cols[i].0,
        )] == i
    &&& forall|k: u32| #[trigger]
        index.contains_key(k) ==> index[k] < cols.len() && pack(cols[index[k] as int].0) == k
}

proof fn lemma_pack_injective(a: Color, b: Color)
    requires
        pack(a) == pack(b),
    ensures
        a == b,
{
}

fn pack_exec(c: Color) -> (k: u32)
    ensures
        k == pack(c),
{
    (c.r as u32) * 0x1_0000 + (c.g as u32) * 0x100 + (c.b as u32)
}

/// Counts one more pixel of colour `p`.
fn count_color(
    cols: &mut Vec<(Color, u64)>,
    index: &mut HashMap<u32, usize>,
    p: Color,
    Ghost(seen): Ghost<Seq<Color>>,
)
    requires
        indexed(old(cols)@, old(index)@),
        palette_of(old(cols)@, seen),
        seen.len() < u64::MAX,
    ensures
        indexed(final(cols)@, final(index)@),
        palette_of(final(cols)@, seen.push(p)),
{
    broadcast use vstd::std_specs::hash::group_hash_axioms;

    let key = pack_exec(p);
    let ghost before = cols@;
    let ghost next = seen.push(p);
    proof {
        assert forall|i: int| 0 <= i < before.len() implies count_of(next, (#[trigger] before[i]).0)
            == count_of(seen, before[i].0) + (if before[i].0 == p {
            1int
        } else {
            0int
        }) by {
            lemma_sum_by_push(seen, equal_to(before[i].0), p);
        }
        lemma_sum_by_push(seen, equal_to(p), p);
    }
    match index.get(&key) {
        Some(at) => {
            let i = *at;
            let (c, count) = cols[i];
            proof {
                lemma_pack_injective(c, p);
                lemma_count_of(seen, p);
            }
            cols.set(i, (c, count + 1));
            proof {
                lemma_sum_by_update(before, entry_count(), i as int, (c, (count + 1) as u64));
                assert forall|k: int| 0 <= k < next.len() implies listed(cols@, #[trigger] next[k]) by {
                    if k < seen.len() {
                        assert(listed(before, seen[k]));
                        let j = choose|j: int| 0 <= j < before.len() && (#[trigger] before[j]).0 == seen[k];
                        assert(cols@[j].0 == seen[k]);
                    } else {
                        assert(cols@[i as int].0 == p);
                    }
                }
                assert forall|j: int| 0 <= j < cols@.len() implies (#[trigger] cols@[j]).1 == count_of(
                    next,
                    cols@[j].0,
                ) && cols@[j].1 >= 1 by {
                    assert(before[j].1 == count_of(seen, before[j].0));
                    if j != i {
                        assert(before[j].0 != before[i as int].0);
                    }
                }
                assert forall|a: int| 0 <= a < cols@.len() implies index@.contains_key(
                    pack((#[trigger] cols@[a]).0),
                ) && index@[pack(cols@[a].0)] == a by {
                    assert(cols@[a].0 == before[a].0);
                }
                assert forall|a: int, b: int|
                    0 <= a < cols@.len() && 0 <= b < cols@.len() && a != b implies (
                #[trigger] cols@[a]).0 != (#[trigger] cols@[b]).0 by {
                    assert(cols@[a].0 == before[a].0 && cols@[b].0 == before[b].0);
                }
            }
        },
        None => {
            proof {
                lemma_count_of(seen, p);
                if seen.contains(p) {
                    let k = choose|k: int| 0 <= k < seen.len() && seen[k] == p;
                    assert(listed(before, seen[k]));
                    let j = choose|j: int| 0 <= j < before.len() && (#[trigger] before[j]).0 == p;
                    assert(index@.contains_key(pack(before[j].0)));
                }
            }
            let at = cols.len();
            cols.push((p, 1));
            index.insert(key, at);
            proof {
                lemma_sum_by_push(before, entry_count(), (p, 1u64));
                assert forall|k: int| 0 <= k < next.len() implies listed(cols@, #[trigger] next[k]) by {
                    if k < seen.len() {
                        assert(listed(before, seen[k]));
                        let j = choose|j: int| 0 <= j < before.len() && (#[trigger] before[j]).0 == seen[k];
                        assert(cols@[j].0 == seen[k]);
                    } else {
                        assert(cols@[at as int].0 == p);
                    }
                }
                assert forall|j: int| 0 <= j < cols@.len() implies (#[trigger] cols@[j]).1 == count_of(
                    next,
                    cols@[j].0,
                ) && cols@[j].1 >= 1 by {
                    if j < before.len() {
                        assert(cols@[j] == before[j]);
                        assert(index@.contains_key(pack(before[j].0))) by {
                            assert(old(index)@.contains_key(pack(before[j].0)));
                        }
                        if before[j].0 == p {
                            assert(old(index)@.contains_key(key));
                        }
                    }
                }
                assert forall|a: int| 0 <= a < cols@.len() implies index@.contains_key(
                    pack((#[trigger] cols@[a]).0),
                ) && index@[pack(cols@[a].0)] == a by {
                    if a < before.len() {
                        assert(cols@[a] == before[a]);
                        assert(old(index)@.contains_key(pack(before[a].0)));
                    }
                }
                assert forall|k: u32| #[trigger] index@.contains_key(k) implies index@[k]
                    < cols@.len() && pack(cols@[index@[k] as int].0) == k by {
                    if k != key {
                        assert(old(index)@.contains_key(k));
                        assert(cols@[old(index)@[k] as int] == before[old(index)@[k] as int]);
                    }
                }
                assert forall|a: int, b: int|
                    0 <= a < cols@.len() && 0 <= b < cols@.len() && a != b implies (
                #[trigger] cols@[a]).0 != (#[trigger] cols@[b]).0 by {
                    if a < before.len() {
                        assert(cols@[a] == before[a]);
                        assert(old(index)@.contains_key(pack(before[a].0)));
                    }
                    if b < before.len() {
                        assert(cols@[b] == before[b]);
                        assert(old(index)@.contains_key(pack(before[b].0)));
                    }
                }
            }
        },
    }
}

impl Clone for Colors {
    /// A copy with the same entries.
    fn clone(&self) -> (r: Self)
        ensures
            r.entries() == self.entries(),
            r.total() == self.total(),
    {
        proof {
            use_type_invariant(self);
        }
        let mut cols: Vec<(Color, u64)> = Vec::new();
        let mut i: usize = 0;
        while i < self.cols.len()
            invariant
                i <= self.cols.len(),
                cols@ == self.cols@.take(i as int),
            decreases self.cols.len() - i,
        {
            cols.push(self.cols[i]);
            assert(cols@ =~= self.cols@.take(i + 1));
            i = i + 1;
        }
        assert(cols@ =~= self.cols@);
        Colors { cols, index: self.index.clone(), n: self.n }
    }
}

impl Colors {
    #[verifier::type_invariant]
    spec fn inv(self) -> bool {
        &&& indexed(self.cols@, self.index@)
        &&& self.n == sum_by(self.cols@, entry_count())
    }

    /// The distinct colours in the order they were first seen, each with
    /// the number of its pixels.
    pub closed spec fn entries(&self) -> Seq<(Color, u64)> {
        self.cols@
    }

    /// The number of pixels counted.
    pub closed spec fn total(&self) -> u64 {
        self.n
    }

    /// Whether `c` is a colour of the palette.
    pub open spec fn holds(&self, c: Color) -> bool {
        listed(self.entries(), c)
    }

    /// Whether entry `i` has the most pixels of all.
    pub open spec fn most_frequent(&self, i: int) -> bool {
        &&& 0 <= i < self.entries().len()
        &&& forall|j: int|
            0 <= j < self.entries().len() ==> (#[trigger] self.entries()[j]).1
                <= self.entries()[i].1
    }

    /// Whether `bg` is a colour with the most pixels of all.
    pub open spec fn tops(&self, bg: Color) -> bool {
        exists|i: int| self.most_frequent(i) && (#[trigger] self.entries()[i]).0 == bg
    }

    /// Whether entry `i` has the most pixels of all and stands before every
    /// other entry with as many.
    pub open spec fn leads(&self, i: int) -> bool {
        &&& self.most_frequent(i)
        &&& forall|j: int| 0 <= j < i ==> (#[trigger] self.entries()[j]).1 < self.entries()[i].1
    }

    /// A palette has at most as many entries as there are colours.
    proof fn lemma_size(self)
        requires
            self.inv(),
        ensures
            self.cols@.len() <= 0x100_0000,
    {
        let keys = self.cols@.map_values(|e: (Color, u64)| pack(e.0) as int);
        assert forall|i: int, j: int|
            0 <= i < keys.len() && 0 <= j < keys.len() && i != j implies keys[i] != keys[j] by {
            assert(self.index@[pack(self.cols@[i].0)] == i);
            assert(self.index@[pack(self.cols@[j].0)] == j);
        }
        keys.unique_seq_to_set();
        vstd::set_lib::lemma_int_range(0, 0x100_0000);
        assert forall|k: int| keys.to_set().contains(k) implies vstd::set_lib::set_int_range(
            0,
            0x100_0000,
        ).contains(k) by {
            let i = choose|i: int| 0 <= i < keys.len() && keys[i] == k;
            assert(keys[i] == pack(self.cols@[i].0));
        }
        vstd::set_lib::lemma_len_subset(
            keys.to_set(),
            vstd::set_lib::set_int_range(0, 0x100_0000),
        );
    }

    /// Counts the pixels of every colour of the image.
    pub fn new(img: &Raster) -> (r: Colors)
        ensures
            palette_of(r.entries(), raster_pixels(*img)),
            r.total() == raster_pixels(*img).len(),
            r.total() == img.width() * img.height(),
    {
        let (width, height) = raster_dimensions(img);
        let ghost px = raster_pixels(*img);
        let mut cols: Vec<(Color, u64)> = Vec::new();
        let mut index: HashMap<u32, usize> = HashMap::new();
        let mut n: u64 = 0;
        let mut y: u32 = 0;
        proof {
            assert(px.take(0) =~= Seq::empty());
            assert(width * height <= 0xffff_ffff * 0xffff_ffff) by (nonlinear_arith)
                requires
                    0 <= width <= 0xffff_ffff,
                    0 <= height <= 0xffff_ffff,
            ;
        }
        while y < height
            invariant
                px == raster_pixels(*img),
                width == img.width(),
                height == img.height(),
                px.len() == width * height,
                px.len() <= 0xffff_ffff * 0xffff_ffff,
                y <= height,
                n == y * width,
                indexed(cols@, index@),
                palette_of(cols@, px.take(n as int)),
            decreases height - y,
        {
            let mut x: u32 = 0;
            while x < width
                invariant
                    px == raster_pixels(*img),
                    width == img.width(),
                    height == img.height(),
                    px.len() == width * height,
                    px.len() <= 0xffff_ffff * 0xffff_ffff,
                    y < height,
                    x <= width,
                    n == y * width + x,
                    indexed(cols@, index@),
                    palette_of(cols@, px.take(n as int)),
                decreases width - x,
            {
                assert(y * width + x < width * height) by (nonlinear_arith)
                    requires
                        0 <= x < width,
                        0 <= y < height,
                {
                    assert((y + 1) * width <= height * width);
                }
                let p = raster_get_pixel(img, x, y);
                count_color(&mut cols, &mut index, p, Ghost(px.take(n as int)));
                assert(px.take(n as int).push(p) =~= px.take(n + 1));
                n = n + 1;
                x = x + 1;
            }
            assert((y + 1) * width == y * width + width) by (nonlinear_arith);
            y = y + 1;
        }
        assert(height * width == width * height) by (nonlinear_arith);
        assert(px.take(n as int) =~= px);
        Colors { cols, index, n }
    }

    /// Number of distinct colours.
    pub fn len(&self) -> (n: usize)
        ensures
            n == self.entries().len(),
    {
        self.cols.len()
    }

    /// The entry at position `i`, or `None` past the last.
    pub fn entry(&self, i: usize) -> (r: Option<(Color, u64)>)
        ensures
            r is Some <==> i < self.entries().len(),
            r matches Some(e) ==> e == self.entries()[i as int],
    {
        if i < self.cols.len() {
            Some(self.cols[i])
        } else {
            None
        }
    }

    /// The number of pixels counted: the sum of the counts of all entries.
    pub fn pixels(&self) -> (n: u64)
        ensures
            n == self.total(),
            n == sum_by(self.entries(), entry_count()),
    {
        proof {
            use_type_invariant(self);
        }
        self.n
    }

    /// The number of pixels of colour `c`: zero for a colour that is not in
    /// the palette.
    pub fn count(&self, c: Color) -> (n: u64)
        ensures
            self.holds(c) ==> exists|i: int|
                0 <= i < self.entries().len() && #[trigger] self.entries()[i] == (c, n),
            !self.holds(c) ==> n == 0,
    {
        broadcast use vstd::std_specs::hash::group_hash_axioms;

        proof {
            use_type_invariant(self);
        }
        match self.index.get(&pack_exec(c)) {
            Some(at) => {
                proof {
                    lemma_pack_injective(self.cols@[*at as int].0, c);
                }
                self.cols[*at].1
            },
            None => {
                proof {
                    if self.holds(c) {
                        let i = choose|i: int|
                            0 <= i < self.cols@.len() && (#[trigger] self.cols@[i]).0 == c;
                        assert(self.index@.contains_key(pack(self.cols@[i].0)));
                    }
                }
                0
            },
        }
    }

    /// The background colour: a colour with the most pixels. Among several
    /// such colours it is the one that stands first in the palette.
    pub fn get_bg(&self) -> (bg: Color)
        requires
            self.entries().len() > 0,
        ensures
            self.tops(bg),
            exists|i: int| self.leads(i) && (#[trigger] self.entries()[i]).0 == bg,
    {
        let mut best: usize = 0;
        let mut i: usize = 1;
        while i < self.cols.len()
            invariant
                0 <= best < i <= self.cols.len(),
                forall|j: int| 0 <= j < i ==> (#[trigger] self.cols[j]).1 <= self.cols[best as int].1,
                forall|j: int|
                    0 <= j < best ==> (#[trigger] self.cols[j]).1 < self.cols[best as int].1,
            decreases self.cols.len() - i,
        {
            if self.cols[best].1 < self.cols[i].1 {
                best = i;
            }
            i = i + 1;
        }
        assert(self.leads(best as int));
        self.cols[best].0
    }

    /// The colour that a draw of `i` from the positions of the palette
    /// selects.
    pub fn pick(&self, i: usize) -> (c: Color)
        requires
            i < self.entries().len(),
        ensures
            c == self.entries()[i as int].0,
    {
        self.cols[i].0
    }

    /// Draws one colour uniformly from the distinct colours of the palette,
    /// whatever their number of pixels.
    pub fn generate(&self) -> (c: Color)
        requires
            self.entries().len() > 0,
        ensures
            self.holds(c),
    {
        proof {
            use_type_invariant(self);
            self.lemma_size();
        }
        let i = randrange(0, self.cols.len() as i32);
        self.pick(i as usize)
    }
}

/// Largest number of triangles that can be rendered: within it no channel
/// sum leaves the range of `u64`.
pub const MAX_POLYGONS: usize = 0x7fff_ffff;

/// The function that gives a triangle's red channel where the triangle
/// covers the pixel `at`, and `0` elsewhere.
pub open spec fn red_of(width: int, height: int, at: (i32, i32)) -> spec_fn(Polygon) -> int {
    |p: Polygon|
        if covers(p, width, height, at) {
            p.color.r as int
        } else {
            0
        }
}

/// The function that gives a triangle's green channel where the triangle
/// covers the pixel `at`, and `0` elsewhere.
pub open spec fn green_of(width: int, height: int, at: (i32, i32)) -> spec_fn(Polygon) -> int {
    |p: Polygon|
        if covers(p, width, height, at) {
            p.color.g as int
        } else {
            0
        }
}

/// The function that gives a triangle's blue channel where the triangle
/// covers the pixel `at`, and `0` elsewhere.
pub open spec fn blue_of(width: int, height: int, at: (i32, i32)) -> spec_fn(Polygon) -> int {
    |p: Polygon|
        if covers(p, width, height, at) {
            p.color.b as int
        } else {
            0
        }
}

/// The colour of the pixel `at` in the rendering of the triangles: the
/// background where no triangle covers the pixel, and otherwise, channel
/// by channel, the mean of the colours of the triangles that cover it,
/// rounded down.
pub open spec fn mean_color(
    polygons: Seq<Polygon>,
    width: int,
    height: int,
    bg: Color,
    at: (i32, i32),
) -> Color {
    let k = cover_count(polygons, width, height, at);
    if k == 0 {
        bg
    } else {
        Color {
            r: (sum_by(polygons, red_of(width, height, at)) / k) as u8,
            g: (sum_by(polygons, green_of(width, height, at)) / k) as u8,
            b: (sum_by(polygons, blue_of(width, height, at)) / k) as u8,
        }
    }
}

/// The rendering of the triangles on a `width` by `height` canvas, row by
/// row.
pub open spec fn rendering(polygons: Seq<Polygon>, width: int, height: int, bg: Color) -> Seq<
    Color,
> {
    Seq::new(
        (width * height) as nat,
        |c: int| mean_color(polygons, width, height, bg, pixel_of(c, width)),
    )
}

/// For every pixel the number of triangles that cover it and the sums of
/// their channels.
struct Sums {
    count: Vec<u64>,
    red: Vec<u64>,
    green: Vec<u64>,
    blue: Vec<u64>,
}

impl Sums {
    spec fn sized(&self, cells: int) -> bool {
        self.count.len() == cells && self.red.len() == cells && self.green.len() == cells
            && self.blue.len() == cells
    }

    spec fn totals(&self, polygons: Seq<Polygon>, w: int, h: int) -> bool {
        forall|c: int|
            0 <= c < w * h ==> {
                &&& (#[trigger] self.count[c]) == cover_count(polygons, w, h, pixel_of(c, w))
                &&& self.red[c] == sum_by(polygons, red_of(w, h, pixel_of(c, w)))
                &&& self.green[c] == sum_by(polygons, green_of(w, h, pixel_of(c, w)))
                &&& self.blue[c] == sum_by(polygons, blue_of(w, h, pixel_of(c, w)))
            }
    }

    /// The sums with every pixel of the first `k` pixels `px` of a triangle
    /// of colour `color` added to the sums `base`.
    spec fn partial(&self, base: Sums, px: Seq<(i32, i32)>, color: Color, w: int, h: int) -> bool {
        forall|c: int|
            0 <= c < w * h ==> {
                let hit = occurrences(px, pixel_of(c, w)) > 0;
                &&& (#[trigger] self.count[c]) == base.count[c] + indicator(hit)
                &&& self.red[c] == base.red[c] + if hit {
                    color.r as int
                } else {
                    0
                }
                &&& self.green[c] == base.green[c] + if hit {
                    color.g as int
                } else {
                    0
                }
                &&& self.blue[c] == base.blue[c] + if hit {
                    color.b as int
                } else {
                    0
                }
            }
    }

    spec fn bounded(&self, limit: int, w: int, h: int) -> bool {
        forall|c: int|
            0 <= c < w * h ==> {
                &&& (#[trigger] self.count[c]) <= limit
                &&& self.red[c] <= u8::MAX * limit
                &&& self.green[c] <= u8::MAX * limit
                &&& self.blue[c] <= u8::MAX * limit
            }
    }

    /// Adds one triangle to the sums.
    fn add(&mut self, p: &Polygon, width: i32, height: i32, Ghost(polygons): Ghost<Seq<Polygon>>)
        requires
            valid_canvas(width as int, height as int),
            old(self).sized(width * height),
            old(self).totals(polygons, width as int, height as int),
            polygons.len() < MAX_POLYGONS,
        ensures
            final(self).sized(width * height),
            final(self).totals(polygons.push(*p), width as int, height as int),
    {
        let ghost w = width as int;
        let ghost h = height as int;
        let ghost px = p.pixels(w, h);
        let ghost base = *self;
        let ghost limit = polygons.len() as int;
        let mut it = p.iter_points(width, height);
        let ghost mut k: int = 0;
        proof {
            lemma_pixels_on_canvas(*p, width, height);
            assert(px.take(0) =~= Seq::empty());
            assert forall|c: int| 0 <= c < w * h implies {
                &&& (#[trigger] self.count[c]) <= limit
                &&& self.red[c] <= u8::MAX * limit
                &&& self.green[c] <= u8::MAX * limit
                &&& self.blue[c] <= u8::MAX * limit
            } by {
                let at = pixel_of(c, w);
                lemma_sum_by_bounds(polygons, covering(w, h, at), 0, 1);
                lemma_sum_by_bounds(polygons, red_of(w, h, at), 0, u8::MAX as int);
                lemma_sum_by_bounds(polygons, green_of(w, h, at), 0, u8::MAX as int);
                lemma_sum_by_bounds(polygons, blue_of(w, h, at), 0, u8::MAX as int);
            }
            assert(u8::MAX * limit + u8::MAX <= u64::MAX) by (nonlinear_arith)
                requires
                    0 <= limit < MAX_POLYGONS,
            ;
        }
        loop
            invariant
                valid_canvas(w, h),
                w == width,
                h == height,
                px == p.pixels(w, h),
                self.sized(w * h),
                base.sized(w * h),
                base.bounded(limit, w, h),
                0 <= limit < MAX_POLYGONS,
                u8::MAX * limit + u8::MAX <= u64::MAX,
                forall|j: int| 0 <= j < px.len() ==> on_canvas(#[trigger] px[j], w, h),
                0 <= k <= px.len(),
                it.remaining() == px.skip(k),
                self.partial(base, px.take(k), p.color, w, h),
            ensures
                k == px.len(),
            decreases px.len() - k,
        {
            match it.next() {
                None => {
                    break ;
                },
                Some((x, y)) => {
                    assert(px.skip(k)[0] == px[k]);
                    assert(px.skip(k).skip(1) =~= px.skip(k + 1));
                    proof {
                        lemma_cell_in_range(x as int, y as int, w, h);
                        lemma_pixel_of_cell(x, y, w);
                        lemma_occurrences_prefix(px, (x, y), k + 1);
                        lemma_sum_by_take(px, is_at((x, y)), k);
                        lemma_pixels_once(*p, width, height, (x, y));
                        lemma_occurrences_prefix(px, (x, y), k);
                    }
                    let cell: usize = (y as usize) * (width as usize) + (x as usize);
                    let ghost prev = *self;
                    assert(prev.count[cell as int] == base.count[cell as int]);
                    let n = self.count[cell];
                    self.count.set(cell, n + 1);
                    let r = self.red[cell];
                    self.red.set(cell, r + p.color.r as u64);
                    let g = self.green[cell];
                    self.green.set(cell, g + p.color.g as u64);
                    let b = self.blue[cell];
                    self.blue.set(cell, b + p.color.b as u64);
                    proof {
                        assert forall|c: int| 0 <= c < w * h implies {
                            let hit = occurrences(px.take(k + 1), pixel_of(c, w)) > 0;
                            &&& (#[trigger] self.count[c]) == base.count[c] + indicator(hit)
                            &&& self.red[c] == base.red[c] + if hit {
                                p.color.r as int
                            } else {
                                0
                            }
                            &&& self.green[c] == base.green[c] + if hit {
                                p.color.g as int
                            } else {
                                0
                            }
                            &&& self.blue[c] == base.blue[c] + if hit {
                                p.color.b as int
                            } else {
                                0
                            }
                        } by {
                            let at = pixel_of(c, w);
                            lemma_sum_by_take(px, is_at(at), k);
                            assert(prev.count[c] == base.count[c] + indicator(
                                occurrences(px.take(k), at) > 0,
                            ));
                            if c != cell {
                                lemma_cell_of_pixel(c, w, h);
                            }
                        }
                        k = k + 1;
                    }
                },
            }
        }
        proof {
            assert(px.take(k) =~= px);
            let next = polygons.push(*p);
            assert forall|c: int| 0 <= c < w * h implies (#[trigger] self.count[c]) == cover_count(
                next,
                w,
                h,
                pixel_of(c, w),
            ) by {
                let at = pixel_of(c, w);
                lemma_pixels_once(*p, width, height, at);
                lemma_sum_by_push(polygons, covering(w, h, at), *p);
                assert(base.count[c] == cover_count(polygons, w, h, at));
            }
            assert forall|c: int| 0 <= c < w * h implies (#[trigger] self.red[c]) == sum_by(
                next,
                red_of(w, h, pixel_of(c, w)),
            ) by {
                let at = pixel_of(c, w);
                lemma_pixels_once(*p, width, height, at);
                lemma_sum_by_push(polygons, red_of(w, h, at), *p);
                assert(base.count[c] == cover_count(polygons, w, h, at));
                assert(self.count[c] == base.count[c] + indicator(occurrences(px, at) > 0));
            }
            assert forall|c: int| 0 <= c < w * h implies (#[trigger] self.green[c]) == sum_by(
                next,
                green_of(w, h, pixel_of(c, w)),
            ) by {
                let at = pixel_of(c, w);
                lemma_pixels_once(*p, width, height, at);
                lemma_sum_by_push(polygons, green_of(w, h, at), *p);
                assert(base.count[c] == cover_count(polygons, w, h, at));
                assert(self.count[c] == base.count[c] + indicator(occurrences(px, at) > 0));
            }
            assert forall|c: int| 0 <= c < w * h implies (#[trigger] self.blue[c]) == sum_by(
                next,
                blue_of(w, h, pixel_of(c, w)),
            ) by {
                let at = pixel_of(c, w);
                lemma_pixels_once(*p, width, height, at);
                lemma_sum_by_push(polygons, blue_of(w, h, at), *p);
                assert(base.count[c] == cover_count(polygons, w, h, at));
                assert(self.count[c] == base.count[c] + indicator(occurrences(px, at) > 0));
            }
        }
    }
}

/// The pixels `goal` up to cell `done`, the background from there on.
spec fn partly(goal: Seq<Color>, bg: Color, done: int) -> Seq<Color> {
    Seq::new(
        goal.len(),
        |c: int|
            if c < done {
                goal[c]
            } else {
                bg
            },
    )
}

/// Renders the triangles, see `polygons_draw`.
fn render(width: u32, height: u32, bg: Color, polygons: &Vec<Polygon>) -> (img: Raster)
    requires
        valid_canvas(width as int, height as int),
        3 * width * height <= isize::MAX,
        polygons.len() <= MAX_POLYGONS,
    ensures
        img.width() == width,
        img.height() == height,
        raster_pixels(img) == rendering(polygons@, width as int, height as int, bg),
{
    let ghost w = width as int;
    let ghost h = height as int;
    let ghost goal = rendering(polygons@, w, h, bg);
    proof {
        assert(1 <= w * h && 3 * width * height == 3 * (w * h)) by (nonlinear_arith)
            requires
                1 <= w,
                1 <= h,
                w == width,
                h == height,
        ;
    }
    let cells: usize = (width as usize) * (height as usize);
    let mut sums = Sums {
        count: vec![0u64; cells],
        red: vec![0u64; cells],
        green: vec![0u64; cells],
        blue: vec![0u64; cells],
    };
    let mut t: usize = 0;
    assert(polygons@.take(0) =~= Seq::empty());
    while t < polygons.len()
        invariant
            valid_canvas(w, h),
            w == width,
            h == height,
            t <= polygons.len() <= MAX_POLYGONS,
            sums.sized(w * h),
            sums.totals(polygons@.take(t as int), w, h),
        decreases polygons.len() - t,
    {
        sums.add(&polygons[t], width as i32, height as i32, Ghost(polygons@.take(t as int)));
        assert(polygons@.take(t as int).push(polygons[t as int]) =~= polygons@.take(t + 1));
        t = t + 1;
    }
    assert(polygons@.take(t as int) =~= polygons@);
    let mut img = raster_from_pixel(width, height, bg);
    assert(raster_pixels(img) =~= partly(goal, bg, 0));
    let mut y: u32 = 0;
    while y < height
        invariant
            valid_canvas(w, h),
            w == width,
            h == height,
            goal == rendering(polygons@, w, h, bg),
            y <= height,
            img.width() == width,
            img.height() == height,
            sums.sized(w * h),
            sums.totals(polygons@, w, h),
            raster_pixels(img) == partly(goal, bg, y * w),
        decreases height - y,
    {
        let mut x: u32 = 0;
        while x < width
            invariant
                valid_canvas(w, h),
                w == width,
                h == height,
                goal == rendering(polygons@, w, h, bg),
                y < height,
                x <= width,
                img.width() == width,
                img.height() == height,
                sums.sized(w * h),
                sums.totals(polygons@, w, h),
                raster_pixels(img) == partly(goal, bg, y * w + x),
            decreases width - x,
        {
            proof {
                lemma_cell_in_range(x as int, y as int, w, h);
            }
            let cell: usize = (y as usize) * (width as usize) + (x as usize);
            let ghost at = pixel_of(cell as int, w);
            let n = sums.count[cell];
            let color = if n == 0 {
                bg
            } else {
                proof {
                    lemma_sum_by_scaled(
                        polygons@,
                        red_of(w, h, at),
                        covering(w, h, at),
                        u8::MAX as int,
                    );
                    lemma_sum_by_scaled(
                        polygons@,
                        green_of(w, h, at),
                        covering(w, h, at),
                        u8::MAX as int,
                    );
                    lemma_sum_by_scaled(
                        polygons@,
                        blue_of(w, h, at),
                        covering(w, h, at),
                        u8::MAX as int,
                    );
                }
                let r = sums.red[cell];
                let g = sums.green[cell];
                let b = sums.blue[cell];
                assert(r / n <= u8::MAX && g / n <= u8::MAX && b / n <= u8::MAX)
                    by (nonlinear_arith)
                    requires
                        n > 0,
                        r <= u8::MAX * n,
                        g <= u8::MAX * n,
                        b <= u8::MAX * n,
                ;
                Color { r: (r / n) as u8, g: (g / n) as u8, b: (b / n) as u8 }
            };
            assert(color == goal[cell as int]);
            raster_put_pixel(&mut img, x, y, color);
            assert(raster_pixels(img) =~= partly(goal, bg, y * w + x + 1));
            x = x + 1;
        }
        assert((y + 1) * w == y * w + w) by (nonlinear_arith);
        y = y + 1;
    }
    assert(height * w == w * h) by (nonlinear_arith)
        requires
            height == h,
    ;
    assert(raster_pixels(img) =~= goal);
    img
}

/// Paints the triangles on a canvas of the background colour: a pixel that
/// no triangle covers keeps the background, a pixel that one triangle
/// covers takes its colour, and a pixel that several cover takes, channel
/// by channel, the mean of their colours, rounded down.
pub fn polygons_draw(width: u32, height: u32, bg: Color, polygons: Vec<Polygon>) -> (img: Raster)
    requires
        valid_canvas(width as int, height as int),
        3 * width * height <= isize::MAX,
        polygons.len() <= MAX_POLYGONS,
    ensures
        img.width() == width,
        img.height() == height,
        raster_pixels(img) == rendering(polygons@, width as int, height as int, bg),
{
    render(width, height, bg, &polygons)
}

/// Sum over all pixels of the distance between the pixel of `a` and the
/// pixel of `b` at the same place.
pub open spec fn image_distance(a: Seq<Color>, b: Seq<Color>) -> int
    decreases a.len(),
{
    if a.len() == 0 {
        0
    } else {
        image_distance(a.drop_last(), b) + color_distance(a.last(), b[a.len() - 1])
    }
}

/// Sums the distances between the pixels of two rasters of the same
/// extent.
fn compare(a: &Raster, b: &Raster) -> (total: u64)
    requires
        valid_canvas(a.width() as int, a.height() as int),
        a.width() == b.width(),
        a.height() == b.height(),
    ensures
        total == image_distance(raster_pixels(*a), raster_pixels(*b)),
{
    let (width, height) = raster_dimensions(a);
    let (width_b, height_b) = raster_dimensions(b);
    let ghost w = width as int;
    let ghost h = height as int;
    let ghost pa = raster_pixels(*a);
    let ghost pb = raster_pixels(*b);
    let mut total: u64 = 0;
    let mut y: u32 = 0;
    proof {
        assert(pa.take(0) =~= Seq::empty());
        assert(w * h <= MAX_SIDE * MAX_SIDE) by (nonlinear_arith)
            requires
                0 <= w <= MAX_SIDE,
                0 <= h <= MAX_SIDE,
        ;
    }
    while y < height
        invariant
            valid_canvas(w, h),
            w == width,
            h == height,
            w == a.width() && w == b.width(),
            h == a.height() && h == b.height(),
            pa == raster_pixels(*a),
            pb == raster_pixels(*b),
            pa.len() == w * h,
            pb.len() == w * h,
            w * h <= MAX_SIDE * MAX_SIDE,
            y <= height,
            total == image_distance(pa.take(y * w), pb),
            total <= MAX_DISTANCE * (y * w),
        decreases height - y,
    {
        let mut x: u32 = 0;
        while x < width
            invariant
                valid_canvas(w, h),
                w == width,
                h == height,
                w == a.width() && w == b.width(),
                h == a.height() && h == b.height(),
                pa == raster_pixels(*a),
                pb == raster_pixels(*b),
                pa.len() == w * h,
                pb.len() == w * h,
                w * h <= MAX_SIDE * MAX_SIDE,
                y < height,
                x <= width,
                total == image_distance(pa.take(y * w + x), pb),
                total <= MAX_DISTANCE * (y * w + x),
            decreases width - x,
        {
            proof {
                lemma_cell_in_range(x as int, y as int, w, h);
            }
            let ghost c = y * w + x;
            let p = raster_get_pixel(a, x, y);
            let q = raster_get_pixel(b, x, y);
            let d = p.distance(q);
            proof {
                assert(pa.take(c + 1).drop_last() =~= pa.take(c));
                assert(MAX_DISTANCE * (c + 1) <= MAX_DISTANCE * (MAX_SIDE * MAX_SIDE))
                    by (nonlinear_arith)
                    requires
                        c + 1 <= MAX_SIDE * MAX_SIDE,
                ;
            }
            total = total + d;
            x = x + 1;
        }
        assert((y + 1) * w == y * w + w) by (nonlinear_arith);
        y = y + 1;
    }
    assert(height * w == w * h) by (nonlinear_arith)
        requires
            height == h,
    ;
    assert(pa.take(y * w) =~= pa);
    total
}

/// What a colour genome is made from.
#[derive(Debug)]
pub struct Args<'a> {
    /// The image to approximate.
    pub ref_img: &'a Raster,
    /// Number of triangles that one mutation recolours.
    pub scale_muts: usize,
    /// The triangles, whose shapes stay as they are.
    pub polygons: Vec<Polygon>,
    /// What the summed distance is divided by to give the fitness.
    pub divide_rate: u64,
}

/// A candidate of the colour phase: triangles of fixed shape over the
/// background colour of the reference image. The fitness is the distance
/// between the rendering of the triangles and the reference image.
#[derive(Debug)]
pub struct DNA<'a> {
    width: u32,
    height: u32,
    ref_img: &'a Raster,
    colors: Colors,
    bg: Color,
    scale_muts: usize,
    polygons: Vec<Polygon>,
    divide_rate: u64,
}

/// The triangles `shapes` after the `j` worst of the ranking `order` have
/// taken new colours: the worst takes `picks[0]`, the next `picks[1]`, and
/// so on.
pub open spec fn repainted(
    shapes: Seq<Polygon>,
    order: Seq<usize>,
    picks: Seq<Color>,
    j: nat,
) -> Seq<Polygon>
    decreases j,
{
    if j == 0 {
        shapes
    } else {
        let prev = repainted(shapes, order, picks, (j - 1) as nat);
        let at = order[shapes.len() - j] as int;
        prev.update(at, Polygon { color: picks[j - 1], points: prev[at].points })
    }
}

impl<'a> Clone for Args<'a> {
    /// A copy with its own triangles; the reference image is shared.
    fn clone(&self) -> (r: Self)
        ensures
            r.ref_img == self.ref_img,
            r.scale_muts == self.scale_muts,
            r.polygons@ == self.polygons@,
            r.divide_rate == self.divide_rate,
    {
        let polygons = self.polygons.clone();
        assert(polygons@ =~= self.polygons@);
        Args {
            ref_img: self.ref_img,
            scale_muts: self.scale_muts,
            polygons,
            divide_rate: self.divide_rate,
        }
    }
}

impl<'a> Args<'a> {
    /// Whether the reference image has a valid extent, a rendering of it
    /// fits in memory, the batch is no larger than the set of triangles,
    /// the set can be rendered, and the divisor is not zero.
    pub open spec fn feasible(&self) -> bool {
        &&& valid_canvas(self.ref_img.width() as int, self.ref_img.height() as int)
        &&& 3 * self.ref_img.width() * self.ref_img.height() <= isize::MAX
        &&& self.scale_muts <= self.polygons.len() <= MAX_POLYGONS
        &&& self.divide_rate > 0
    }
}

impl<'a> Clone for DNA<'a> {
    /// An independent copy of the candidate; the reference image is shared.
    fn clone(&self) -> (r: Self)
        ensures
            r.shapes() == self.shapes(),
            r.reference() == self.reference(),
            r.palette().entries() == self.palette().entries(),
            r.background() == self.background(),
            r.batch() == self.batch(),
            r.rate() == self.rate(),
    {
        proof {
            use_type_invariant(self);
        }
        let polygons = self.polygons.clone();
        assert(polygons@ =~= self.polygons@);
        DNA {
            width: self.width,
            height: self.height,
            ref_img: self.ref_img,
            colors: self.colors.clone(),
            bg: self.bg,
            scale_muts: self.scale_muts,
            polygons,
            divide_rate: self.divide_rate,
        }
    }
}

impl<'a> DNA<'a> {
    #[verifier::type_invariant]
    spec fn inv(self) -> bool {
        &&& self.width == self.ref_img.width()
        &&& self.height == self.ref_img.height()
        &&& valid_canvas(self.width as int, self.height as int)
        &&& 3 * self.width * self.height <= isize::MAX
        &&& raster_pixels(*self.ref_img).len() == self.width * self.height
        &&& palette_of(self.colors.entries(), raster_pixels(*self.ref_img))
        &&& self.colors.tops(self.bg)
        &&& self.scale_muts <= self.polygons.len() <= MAX_POLYGONS
        &&& self.divide_rate > 0
    }

    /// The triangles of the candidate, in order.
    pub closed spec fn shapes(&self) -> Seq<Polygon> {
        self.polygons@
    }

    /// The reference image.
    pub closed spec fn reference(&self) -> Raster {
        *self.ref_img
    }

    /// The palette of the reference image.
    pub closed spec fn palette(&self) -> Colors {
        self.colors
    }

    /// The colour of the pixels that no triangle covers.
    pub closed spec fn background(&self) -> Color {
        self.bg
    }

    /// Number of triangles that one mutation recolours.
    pub closed spec fn batch(&self) -> nat {
        self.scale_muts as nat
    }

    /// What the summed distance is divided by to give the fitness.
    pub closed spec fn rate(&self) -> u64 {
        self.divide_rate
    }

    /// Whether the candidate fits its reference image: the palette is that
    /// of the image, the background is a most frequent colour of it, and
    /// the numbers are in range.
    pub open spec fn consistent(&self) -> bool {
        &&& valid_canvas(self.reference().width() as int, self.reference().height() as int)
        &&& palette_of(self.palette().entries(), raster_pixels(self.reference()))
        &&& self.palette().tops(self.background())
        &&& self.batch() <= self.shapes().len() <= MAX_POLYGONS
        &&& self.rate() > 0
    }

    /// The rendering of the candidate on the canvas of the reference image.
    pub open spec fn picture(&self) -> Seq<Color> {
        rendering(
            self.shapes(),
            self.reference().width() as int,
            self.reference().height() as int,
            self.background(),
        )
    }

    /// For every triangle the summed distance between its colour and the
    /// reference image under its pixels: high where the colour matches
    /// badly.
    pub open spec fn mismatches(&self) -> Seq<u64> {
        Seq::new(
            self.shapes().len(),
            |i: int|
                distance_sum(
                    self.shapes()[i].pixels(
                        self.reference().width() as int,
                        self.reference().height() as int,
                    ),
                    self.shapes()[i].color,
                    self.reference(),
                ) as u64,
        )
    }

    /// Whether `shapes` are the triangles of the candidate after the
    /// `batch` worst-matching of them took the colours `picks`, all of
    /// them colours of the palette.
    pub open spec fn recoloured_by(&self, picks: Seq<Color>, shapes: Seq<Polygon>) -> bool {
        &&& picks.len() == self.batch()
        &&& forall|k: int| 0 <= k < picks.len() ==> self.palette().holds(#[trigger] picks[k])
        &&& shapes == repainted(
            self.shapes(),
            ranking(self.mismatches()),
            picks,
            self.batch(),
        )
    }

    /// Whether `child` is a candidate that a mutation of this one can
    /// give: the same candidate but for the colours of its `batch`
    /// worst-matching triangles, which are colours of the palette.
    pub open spec fn mutated_to(&self, child: DNA<'a>) -> bool {
        &&& exists|picks: Seq<Color>| #[trigger] self.recoloured_by(picks, child.shapes())
        &&& child.shapes().len() == self.shapes().len()
        &&& forall|i: int|
            0 <= i < child.shapes().len() ==> {
                &&& (#[trigger] child.shapes()[i]).points == self.shapes()[i].points
                &&& child.shapes()[i].color == self.shapes()[i].color || self.palette().holds(
                    child.shapes()[i].color,
                )
            }
        &&& child.reference() == self.reference()
        &&& child.palette().entries() == self.palette().entries()
        &&& child.background() == self.background()
        &&& child.batch() == self.batch()
        &&& child.rate() == self.rate()
        &&& child.consistent()
    }

    /// A palette of an image with at least one pixel has an entry.
    proof fn lemma_palette_filled(self)
        requires
            self.inv(),
        ensures
            self.colors.entries().len() > 0,
    {
        let px = raster_pixels(*self.ref_img);
        assert(1 <= self.width * self.height) by (nonlinear_arith)
            requires
                1 <= self.width,
                1 <= self.height,
        ;
        assert(listed(self.colors.entries(), px[0]));
    }

    /// The triangles of the candidate.
    pub fn polygons(&self) -> (r: &Vec<Polygon>)
        ensures
            r@ == self.shapes(),
    {
        &self.polygons
    }

    /// Gives up the triangles of the candidate.
    pub fn into_polygons(self) -> (r: Vec<Polygon>)
        ensures
            r@ == self.shapes(),
    {
        self.polygons
    }

    /// What the summed distance is divided by to give the fitness.
    pub fn divide_rate(&self) -> (r: u64)
        ensures
            r == self.rate(),
            r > 0,
    {
        proof {
            use_type_invariant(self);
        }
        self.divide_rate
    }

    /// Width and height of the reference image.
    pub fn dimensions(&self) -> (r: (u32, u32))
        ensures
            r.0 == self.reference().width(),
            r.1 == self.reference().height(),
            valid_canvas(r.0 as int, r.1 as int),
    {
        proof {
            use_type_invariant(self);
        }
        (self.width, self.height)
    }

    /// Renders the candidate on the canvas of the reference image.
    pub fn draw(&self) -> (img: Raster)
        ensures
            self.consistent(),
            img.width() == self.reference().width(),
            img.height() == self.reference().height(),
            raster_pixels(img) == self.picture(),
    {
        proof {
            use_type_invariant(self);
        }
        render(self.width, self.height, self.bg, &self.polygons)
    }

    /// Scores every triangle by how badly its colour matches the reference
    /// image.
    fn mismatch_scores(&self) -> (scores: Vec<u64>)
        ensures
            scores@ == self.mismatches(),
    {
        proof {
            use_type_invariant(self);
        }
        let mut scores: Vec<u64> = Vec::new();
        let mut i: usize = 0;
        while i < self.polygons.len()
            invariant
                valid_canvas(self.ref_img.width() as int, self.ref_img.height() as int),
                i <= self.polygons.len(),
                scores@ == self.mismatches().take(i as int),
            decreases self.polygons.len() - i,
        {
            let s = self.polygons[i].score(self.ref_img);
            scores.push(s);
            assert(scores@ =~= self.mismatches().take(i + 1));
            i = i + 1;
        }
        assert(scores@ =~= self.mismatches());
        scores
    }

    /// The candidate with the colours of its `batch` worst-matching
    /// triangles replaced by the colours `picks`: the worst takes
    /// `picks[0]`, the next `picks[1]`, and so on. No shape changes.
    ///
    /// Fails with `UnsatisfiableConstraints` where `picks` is not one
    /// batch.
    pub fn recolor(&self, picks: Vec<Color>) -> (r: Result<DNA<'a>, EvolveError>)
        ensures
            self.consistent(),
            r is Ok <==> picks.len() == self.batch(),
            r matches Err(e) ==> e == EvolveError::UnsatisfiableConstraints,
            r matches Ok(d) ==> {
                &&& d.shapes() == repainted(
                    self.shapes(),
                    ranking(self.mismatches()),
                    picks@,
                    self.batch(),
                )
                &&& d.shapes().len() == self.shapes().len()
                &&& forall|i: int|
                    0 <= i < d.shapes().len() ==> {
                        &&& (#[trigger] d.shapes()[i]).points == self.shapes()[i].points
                        &&& d.shapes()[i].color == self.shapes()[i].color || picks@.contains(
                            d.shapes()[i].color,
                        )
                    }
                &&& d.reference() == self.reference()
                &&& d.palette().entries() == self.palette().entries()
                &&& d.background() == self.background()
                &&& d.batch() == self.batch()
                &&& d.rate() == self.rate()
                &&& d.consistent()
            },
    {
        proof {
            use_type_invariant(self);
        }
        if picks.len() != self.scale_muts {
            return Err(EvolveError::UnsatisfiableConstraints);
        }
        let scores = self.mismatch_scores();
        let order = rank(&scores);
        proof {
            lemma_ranking(self.mismatches());
        }
        let n = self.polygons.len();
        let mut polygons = self.polygons.clone();
        assert(polygons@ =~= self.polygons@);
        let mut j: usize = 0;
        while j < self.scale_muts
            invariant
                n == self.polygons.len(),
                order@ == ranking(self.mismatches()),
                order.len() == n,
                forall|i: int| 0 <= i < n ==> (#[trigger] order[i]) < n,
                picks.len() == self.scale_muts,
                self.scale_muts <= n,
                j <= self.scale_muts,
                polygons.len() == n,
                polygons@ == repainted(self.polygons@, order@, picks@, j as nat),
                forall|i: int|
                    0 <= i < n ==> {
                        &&& (#[trigger] polygons[i]).points == self.polygons[i].points
                        &&& polygons[i].color == self.polygons[i].color || picks@.contains(
                            polygons[i].color,
                        )
                    },
            decreases self.scale_muts - j,
        {
            let at = order[n - 1 - j];
            let shape = polygons[at];
            assert(picks@.contains(picks[j as int]));
            polygons.set(at, Polygon { color: picks[j], points: shape.points });
            j = j + 1;
        }
        let colors = self.colors.clone();
        proof {
            let i = choose|i: int|
                self.colors.most_frequent(i) && (#[trigger] self.colors.entries()[i]).0 == self.bg;
            assert(colors.most_frequent(i) && colors.entries()[i].0 == self.bg);
            assert(colors.tops(self.bg));
        }
        Ok(
            DNA {
                width: self.width,
                height: self.height,
                ref_img: self.ref_img,
                colors,
                bg: self.bg,
                scale_muts: self.scale_muts,
                polygons,
                divide_rate: self.divide_rate,
            },
        )
    }
}

impl<'a> Selection<Args<'a>> for DNA<'a> {
    /// A colour candidate is sound where it fits its reference image.
    open spec fn sound(&self) -> bool {
        self.consistent()
    }

    /// The distance between the rendering and the reference image, divided
    /// by the rate.
    open spec fn rating(&self) -> u64 {
        (image_distance(self.picture(), raster_pixels(self.reference())) / (
        self.rate() as int)) as u64
    }

    /// Recolouring never fails: every colour candidate is steady.
    open spec fn steady(&self) -> bool {
        true
    }

    /// A colour candidate can be built from every feasible configuration.
    open spec fn assured(args: Args<'a>) -> bool {
        args.feasible()
    }

    /// A child differs in the colours of one batch of triangles.
    open spec fn offspring(&self, child: Self) -> bool {
        self.mutated_to(child)
    }

    /// Gives the `batch` worst-matching triangles new colours, drawn from
    /// the palette. It cannot fail.
    fn mutate(&self) -> (r: Result<Self, EvolveError>)
        ensures
            self.consistent(),
            r is Ok,
            r matches Ok(d) ==> self.mutated_to(d),
    {
        proof {
            use_type_invariant(self);
            self.lemma_palette_filled();
        }
        let mut picks: Vec<Color> = Vec::new();
        while picks.len() < self.scale_muts
            invariant
                self.colors.entries().len() > 0,
                picks.len() <= self.scale_muts,
                forall|k: int| 0 <= k < picks.len() ==> self.colors.holds(#[trigger] picks[k]),
            decreases self.scale_muts - picks.len(),
        {
            let c = self.colors.generate();
            picks.push(c);
        }
        let ghost drawn = picks@;
        let r = self.recolor(picks);
        proof {
            if r is Ok {
                let d = r->Ok_0;
                assert(self.recoloured_by(drawn, d.shapes()));
                assert forall|i: int| 0 <= i < d.shapes().len() implies d.shapes()[i].color
                    == self.shapes()[i].color || self.palette().holds(
                    (#[trigger] d.shapes()[i]).color,
                ) by {
                    if drawn.contains(d.shapes()[i].color) {
                        let k = choose|k: int|
                            0 <= k < drawn.len() && drawn[k] == d.shapes()[i].color;
                        assert(self.palette().holds(drawn[k]));
                    }
                }
            }
        }
        r
    }

    /// Builds the candidate that holds the given triangles: the palette
    /// and the background colour come from the reference image.
    ///
    /// Fails with `UnsatisfiableConstraints` where the configuration is not
    /// feasible.
    fn generate(args: Args<'a>) -> (r: Result<Self, EvolveError>)
        ensures
            r is Ok <==> args.feasible(),
            r matches Err(e) ==> e == EvolveError::UnsatisfiableConstraints,
            r matches Ok(d) ==> {
                &&& d.shapes() == args.polygons@
                &&& d.reference() == *args.ref_img
                &&& d.batch() == args.scale_muts
                &&& d.rate() == args.divide_rate
                &&& d.consistent()
            },
    {
        let (width, height) = raster_dimensions(args.ref_img);
        if width < 1 || width > MAX_SIDE as u32 || height < 1 || height > MAX_SIDE as u32 {
            return Err(EvolveError::UnsatisfiableConstraints);
        }
        assert(1 <= width * height <= MAX_SIDE * MAX_SIDE && 3 * width * height == 3 * (width
            * height)) by (nonlinear_arith)
            requires
                1 <= width <= MAX_SIDE,
                1 <= height <= MAX_SIDE,
        ;
        let bytes: u64 = 3 * ((width as u64) * (height as u64));
        if bytes > isize::MAX as u64 || args.scale_muts > args.polygons.len()
            || args.polygons.len() > MAX_POLYGONS || args.divide_rate == 0 {
            return Err(EvolveError::UnsatisfiableConstraints);
        }
        let colors = Colors::new(args.ref_img);
        proof {
            let px = raster_pixels(*args.ref_img);
            assert(listed(colors.entries(), px[0]));
        }
        let bg = colors.get_bg();
        Ok(
            DNA {
                width,
                height,
                ref_img: args.ref_img,
                colors,
                bg,
                scale_muts: args.scale_muts,
                polygons: args.polygons,
                divide_rate: args.divide_rate,
            },
        )
    }

    /// The distance between the rendering of the candidate and the
    /// reference image, summed over all pixels and divided by the rate.
    fn fitness(&self) -> (f: u64)
        ensures
            self.consistent(),
            f == image_distance(self.picture(), raster_pixels(self.reference())) / (
            self.rate() as int),
    {
        proof {
            use_type_invariant(self);
        }
        let img = render(self.width, self.height, self.bg, &self.polygons);
        compare(&img, self.ref_img) / self.divide_rate
    }
}

/// Gives every triangle a colour drawn from the palette of the reference
/// image. No shape changes.
pub fn generate_colors(pol: &mut Vec<Polygon>, ref_img: &Raster)
    requires
        ref_img.width() >= 1,
        ref_img.height() >= 1,
    ensures
        final(pol).len() == old(pol).len(),
        forall|i: int|
            0 <= i < old(pol).len() ==> {
                &&& (#[trigger] final(pol)[i]).points == old(pol)[i].points
                &&& count_of(raster_pixels(*ref_img), final(pol)[i].color) >= 1
            },
{
    let colors = Colors::new(ref_img);
    let (width, height) = raster_dimensions(ref_img);
    let ghost px = raster_pixels(*ref_img);
    proof {
        assert(1 <= width * height) by (nonlinear_arith)
            requires
                1 <= width,
                1 <= height,
        ;
        assert(listed(colors.entries(), px[0]));
    }
    let mut i: usize = 0;
    while i < pol.len()
        invariant
            i <= pol.len(),
            pol.len() == old(pol).len(),
            px == raster_pixels(*ref_img),
            colors.entries().len() > 0,
            palette_of(colors.entries(), px),
            forall|k: int| i <= k < pol.len() ==> pol[k] == old(pol)[k],
            forall|k: int|
                0 <= k < i ==> {
                    &&& (#[trigger] pol[k]).points == old(pol)[k].points
                    &&& count_of(px, pol[k].color) >= 1
                },
        decreases pol.len() - i,
    {
        let c = colors.generate();
        let shape = pol[i];
        pol.set(i, Polygon { color: c, points: shape.points });
        i = i + 1;
    }
}

} // verus!
