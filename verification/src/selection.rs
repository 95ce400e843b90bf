//! The evolution engine: a population search over any genome type.

use crate::order::{
    ascending, lemma_stable_sort, lemma_stable_sort_first, lemma_stable_sort_member, stable_sort,
};
use crate::sum::lemma_map_permutation;
use crate::EvolveError;
use rayon::iter::{IntoParallelIterator, IntoParallelRefIterator, ParallelIterator};
use rayon::slice::ParallelSliceMut;
use vstd::prelude::*;

verus! {

/// A genome that the engine can evolve. Lower fitness is better.
pub trait Selection<A: Send + Sync + Clone>: Send + Sync + Clone + Sized {
    /// Whether the candidate keeps the invariant of its genome. A genome
    /// that has no invariant leaves this at `true`.
    open spec fn sound(&self) -> bool {
        true
    }

    /// Whether a mutation of the candidate cannot fail and gives a candidate
    /// of which the same holds. A genome whose mutation may fail leaves this
    /// at `false`.
    open spec fn steady(&self) -> bool {
        false
    }

    /// The fitness of the candidate: what `fitness` computes.
    spec fn rating(&self) -> u64;

    /// Whether `child` is a candidate that a mutation of `self` can give. A
    /// genome that says nothing of its mutation leaves this at `true`.
    open spec fn offspring(&self, child: Self) -> bool {
        true
    }

    /// Derives one new, independent candidate from `self`: an offspring of
    /// `self`. A candidate that comes out of a mutation is sound, and a
    /// steady candidate always gives one, which is steady again.
    fn mutate(&self) -> (r: Result<Self, EvolveError>)
        ensures
            r matches Ok(d) ==> self.offspring(d),
            r matches Ok(d) ==> d.sound(),
            self.steady() ==> r is Ok,
            r matches Ok(d) ==> (self.steady() ==> d.steady()),
    ;

    /// Whether generating from `args` cannot fail and gives a steady
    /// candidate. A genome whose generation may fail on any arguments
    /// leaves this at `false`.
    open spec fn assured(args: A) -> bool {
        false
    }

    /// Builds the initial candidate. A candidate that comes out of it is
    /// sound, and assured arguments always give one, which is steady.
    fn generate(args: A) -> (r: Result<Self, EvolveError>)
        ensures
            r matches Ok(d) ==> d.sound(),
            Self::assured(args) ==> r is Ok,
            r matches Ok(d) ==> (Self::assured(args) ==> d.steady()),
    ;

    /// The score of the candidate: its rating.
    fn fitness(&self) -> (f: u64)
        ensures
            f == self.rating(),
    ;

    /// Observer hook, called with the best candidate of every generation
    /// that the engine reports. It does nothing unless a genome overrides
    /// it.
    fn print(&self, ngen: u64, fitness: u64) {
    }
}

/// A candidate together with its fitness, computed once.
#[derive(Debug)]
pub struct Mutation<A: Send + Sync + Clone, D: Selection<A>> {
    dna: D,
    fitness: u64,
    marker: std::marker::PhantomData<A>,
}

impl<A: Send + Sync + Clone, D: Selection<A>> Clone for Mutation<A, D> {
    /// A copy of the candidate with the fitness it was evaluated to.
    fn clone(&self) -> Self {
        Mutation { dna: self.dna.clone(), fitness: self.fitness, marker: std::marker::PhantomData }
    }
}

/// What the engine does once a generation is complete.
#[derive(Copy, Clone, PartialEq, Eq, Structural, Debug)]
pub enum Verdict {
    /// Report the generation and go on.
    Report { ngen: u64, fitness: u64 },
    /// Stop without a report.
    Stop,
}

/// The engine's stagnation control.
#[derive(Copy, Clone, PartialEq, Eq, Structural, Debug)]
pub struct Control {
    /// Size of a generation, and number of children per parent.
    pub nmuts: usize,
    /// Number of generations in a row whose best fitness did not change.
    pub fails: i32,
    /// Best fitness of the previous generation.
    pub last_fitness: u64,
    /// Number of generations completed.
    pub ngen: u64,
}

impl Control {
    /// Whether a generation with best fitness `best` brings no change.
    pub open spec fn stagnant(self, best: u64) -> bool {
        best == self.last_fitness
    }

    /// The control once a generation with best fitness `best` is complete:
    /// a stagnant generation counts as a failure and widens the batch by
    /// one, any other resets the failures. The counters stay at their
    /// largest value once they reach it.
    pub open spec fn after(self, best: u64) -> Control {
        Control {
            nmuts: if self.stagnant(best) && self.nmuts < usize::MAX {
                (self.nmuts + 1) as usize
            } else {
                self.nmuts
            },
            fails: if !self.stagnant(best) {
                0
            } else if self.fails < i32::MAX {
                (self.fails + 1) as i32
            } else {
                self.fails
            },
            last_fitness: best,
            ngen: if self.ngen < u64::MAX {
                (self.ngen + 1) as u64
            } else {
                self.ngen
            },
        }
    }

    /// What follows a generation with best fitness `best`: a stop once the
    /// failures have reached `retries`, a report otherwise.
    pub open spec fn verdict(self, best: u64, retries: i32) -> Verdict {
        if self.after(best).fails >= retries {
            Verdict::Stop
        } else {
            Verdict::Report { ngen: self.after(best).ngen, fitness: best }
        }
    }

    /// The control after `k` stagnant generations in a row.
    pub open spec fn after_stagnation(self, k: nat) -> Control
        decreases k,
    {
        if k == 0 {
            self
        } else {
            self.after_stagnation((k - 1) as nat).after(self.last_fitness)
        }
    }

    /// The control after generations with the best fitness `bests[0]`,
    /// `bests[1]` and so on.
    pub open spec fn after_all(self, bests: Seq<u64>) -> Control
        decreases bests.len(),
    {
        if bests.len() == 0 {
            self
        } else {
            self.after_all(bests.drop_last()).after(bests.last())
        }
    }

    /// Whether `bests` holds the best fitness of every generation of one
    /// complete search from this control: the best fitness never rises,
    /// every generation but the last is reported, and the last gets the
    /// stop.
    pub open spec fn course(self, bests: Seq<u64>, retries: i32) -> bool {
        &&& bests.len() > 0
        &&& bests[0] <= self.last_fitness
        &&& forall|k: int| 0 < k < bests.len() ==> #[trigger] bests[k] <= bests[k - 1]
        &&& forall|k: int|
            0 <= k < bests.len() - 1 ==> (#[trigger] self.after_all(bests.take(k))).verdict(
                bests[k],
                retries,
            ) is Report
        &&& self.after_all(bests.drop_last()).verdict(bests.last(), retries) is Stop
    }

    /// The control before the first generation of the loop, given the best
    /// fitness of the initial population.
    pub fn start(best: u64) -> (c: Control)
        ensures
            c == (Control { nmuts: 10, fails: 0, last_fitness: best, ngen: 0 }),
    {
        Control { nmuts: 10, fails: 0, last_fitness: best, ngen: 0 }
    }

    /// Takes note of a complete generation with best fitness `best` and
    /// says what the engine does next.
    pub fn step(&mut self, best: u64, retries: i32) -> (v: Verdict)
        ensures
            *final(self) == old(self).after(best),
            v == old(self).verdict(best, retries),
    {
        if best == self.last_fitness {
            if self.nmuts < usize::MAX {
                self.nmuts = self.nmuts + 1;
            }
            if self.fails < i32::MAX {
                self.fails = self.fails + 1;
            }
        } else {
            self.fails = 0;
        }
        if self.ngen < u64::MAX {
            self.ngen = self.ngen + 1;
        }
        self.last_fitness = best;
        if self.fails >= retries {
            Verdict::Stop
        } else {
            Verdict::Report { ngen: self.ngen, fitness: best }
        }
    }
}

/// Stagnation ends the search, and at the right time: from a control with
/// fewer failures than `retries`, generation after generation with an
/// unchanged best fitness is reported until the failures reach `retries`;
/// the generation at which they do gets a stop and no report.
pub proof fn lemma_stagnation_stops(c: Control, retries: i32, k: nat)
    requires
        0 <= c.fails < retries,
        k < retries - c.fails,
    ensures
        c.after_stagnation(k).fails == c.fails + k,
        c.after_stagnation(k).last_fitness == c.last_fitness,
        k + 1 < retries - c.fails ==> c.after_stagnation(k).verdict(c.last_fitness, retries)
            is Report,
        k + 1 == retries - c.fails ==> c.after_stagnation(k).verdict(c.last_fitness, retries)
            is Stop,
    decreases k,
{
    if k > 0 {
        lemma_stagnation_stops(c, retries, (k - 1) as nat);
    }
}

/// `k` generations with an unchanged best fitness are `k` stagnant
/// generations.
proof fn lemma_after_all_stagnant(c: Control, bests: Seq<u64>)
    requires
        forall|k: int| 0 <= k < bests.len() ==> bests[k] == c.last_fitness,
    ensures
        c.after_all(bests) == c.after_stagnation(bests.len()),
    decreases bests.len(),
{
    if bests.len() > 0 {
        lemma_after_all_stagnant(c, bests.drop_last());
    }
}

/// A search whose every generation has the best fitness of the population
/// it started from runs for exactly as many generations as failures were
/// left: from no failures, for exactly `retries` generations, of which all
/// but the last are reported.
pub proof fn lemma_stagnant_course(c: Control, bests: Seq<u64>, retries: i32)
    requires
        0 <= c.fails < retries,
        c.course(bests, retries),
        forall|k: int| 0 <= k < bests.len() ==> bests[k] == c.last_fitness,
    ensures
        bests.len() == retries - c.fails,
{
    let left = retries - c.fails;
    let n = bests.len() as int;
    if n > left {
        let k = left - 1;
        lemma_after_all_stagnant(c, bests.take(k));
        lemma_stagnation_stops(c, retries, k as nat);
        assert(c.after_all(bests.take(k)).verdict(bests[k], retries) is Report);
    } else if n < left {
        lemma_after_all_stagnant(c, bests.drop_last());
        lemma_stagnation_stops(c, retries, (n - 1) as nat);
    }
}

/// The control counts the generations.
proof fn lemma_generations_counted(c: Control, bests: Seq<u64>, m: int)
    requires
        c.ngen == 0,
        0 <= m <= bests.len(),
        m <= u64::MAX,
    ensures
        c.after_all(bests.take(m)).ngen == m,
    decreases m,
{
    if m == 0 {
        assert(bests.take(0) =~= Seq::<u64>::empty());
    } else {
        lemma_generations_counted(c, bests, m - 1);
        assert(bests.take(m).drop_last() =~= bests.take(m - 1));
    }
}

/// Every generation of a search but the last is reported with its number,
/// counted from one, and with its best fitness.
pub proof fn lemma_course_reports(c: Control, bests: Seq<u64>, retries: i32, k: int)
    requires
        c.ngen == 0,
        c.course(bests, retries),
        0 <= k < bests.len() - 1,
        k < u64::MAX,
    ensures
        c.after_all(bests.take(k)).verdict(bests[k], retries) == (Verdict::Report {
            ngen: (k + 1) as u64,
            fitness: bests[k],
        }),
{
    lemma_generations_counted(c, bests, k);
    assert(c.after_all(bests.take(k)).verdict(bests[k], retries) is Report);
}

/// The best fitness of a search never rises: every generation is at least
/// as good as every generation before it and as the population the search
/// started from.
pub proof fn lemma_course_never_rises(c: Control, bests: Seq<u64>, retries: i32, i: int, j: int)
    requires
        c.course(bests, retries),
        0 <= i <= j < bests.len(),
    ensures
        bests[j] <= bests[i] <= c.last_fitness,
    decreases j,
{
    if j > 0 {
        if i < j {
            lemma_course_never_rises(c, bests, retries, i, j - 1);
        } else {
            lemma_course_never_rises(c, bests, retries, i - 1, j - 1);
        }
        assert(bests[j] <= bests[j - 1]);
    }
}

/// Whether generation `k` of `bests` is stagnant: it has the best fitness
/// of the generation before it, or of the population that the search
/// started from.
pub open spec fn stagnant_at(c: Control, bests: Seq<u64>, k: int) -> bool {
    bests[k] == if k == 0 {
        c.last_fitness
    } else {
        bests[k - 1]
    }
}

/// Whether the generations `from..to` of `bests` are all stagnant.
pub open spec fn stagnant_stretch(c: Control, bests: Seq<u64>, from: int, to: int) -> bool {
    forall|k: int| from <= k < to ==> #[trigger] stagnant_at(c, bests, k)
}

/// The failures after `m` generations count a stretch of stagnant
/// generations that ends there.
proof fn lemma_fails_count(c: Control, bests: Seq<u64>, m: int)
    requires
        c.fails == 0,
        0 <= m <= bests.len(),
    ensures
        0 <= c.after_all(bests.take(m)).fails <= m,
        c.after_all(bests.take(m)).last_fitness == if m == 0 {
            c.last_fitness
        } else {
            bests[m - 1]
        },
        stagnant_stretch(c, bests, m - c.after_all(bests.take(m)).fails, m),
    decreases m,
{
    if m == 0 {
        assert(bests.take(0) =~= Seq::<u64>::empty());
    } else {
        lemma_fails_count(c, bests, m - 1);
        let prev = c.after_all(bests.take(m - 1));
        let now = c.after_all(bests.take(m));
        assert(bests.take(m).drop_last() =~= bests.take(m - 1));
        assert(bests.take(m).last() == bests[m - 1]);
        assert(now == prev.after(bests[m - 1]));
        if prev.stagnant(bests[m - 1]) {
            assert(stagnant_at(c, bests, m - 1));
            assert forall|k: int| m - now.fails <= k < m implies #[trigger] stagnant_at(
                c,
                bests,
                k,
            ) by {
                if k < m - 1 {
                    assert(m - 1 - prev.fails <= k);
                }
            }
        }
    }
}

/// A search stops on stagnation and on nothing else: with `retries` of at
/// least one, it runs for at least `retries` generations, and each of the
/// last `retries` generations is stagnant.
pub proof fn lemma_course_ends_stagnant(c: Control, bests: Seq<u64>, retries: i32)
    requires
        c.fails == 0,
        1 <= retries,
        c.course(bests, retries),
    ensures
        bests.len() >= retries,
        stagnant_stretch(c, bests, bests.len() - retries, bests.len() as int),
{
    let n = bests.len() as int;
    lemma_fails_count(c, bests, n);
    assert(bests.take(n) =~= bests);
    let end = c.after_all(bests);
    assert(end == c.after_all(bests.drop_last()).after(bests.last()));
    assert(end.fails >= retries);
    assert forall|k: int| n - retries <= k < n implies #[trigger] stagnant_at(c, bests, k) by {
        assert(n - end.fails <= k);
    }
}

/// The place of child `j` of parent `i` among the children of all parents,
/// with `nmuts` children each.
pub open spec fn place(i: int, nmuts: int, j: int) -> int {
    i * nmuts + j
}

impl<A: Send + Sync + Clone, D: Selection<A>> Mutation<A, D> {
    /// The fitness that the candidate was evaluated to.
    pub closed spec fn score(&self) -> u64 {
        self.fitness
    }

    /// The candidate itself.
    pub closed spec fn genome(&self) -> D {
        self.dna
    }

    /// Whether the fitness kept with the candidate is the candidate's
    /// rating.
    pub open spec fn rated(&self) -> bool {
        self.score() == self.genome().rating()
    }

    /// Whether the candidate came out of a mutation of some candidate.
    pub open spec fn bred(&self) -> bool {
        exists|parent: D| #[trigger] parent.offspring(self.genome())
    }

    /// The key by which a population is ordered.
    pub open spec fn by_fitness() -> spec_fn(Self) -> int {
        |m: Self| m.score() as int
    }

    /// The function that gives the candidate of an evaluated candidate.
    pub open spec fn to_genome() -> spec_fn(Self) -> D {
        |m: Self| m.genome()
    }

    /// The candidates of a population, in order.
    pub open spec fn genomes(population: Seq<Self>) -> Seq<D> {
        population.map_values(Self::to_genome())
    }

    /// Whether every candidate of a population is sound.
    pub open spec fn all_sound(population: Seq<Self>) -> bool {
        forall|i: int| 0 <= i < population.len() ==> (#[trigger] population[i]).genome().sound()
    }

    /// Whether every candidate of a population is steady.
    pub open spec fn all_steady(population: Seq<Self>) -> bool {
        forall|i: int| 0 <= i < population.len() ==> (#[trigger] population[i]).genome().steady()
    }

    /// Whether every candidate of a population is kept with its rating.
    pub open spec fn all_rated(population: Seq<Self>) -> bool {
        forall|i: int| 0 <= i < population.len() ==> (#[trigger] population[i]).rated()
    }

    /// Whether every candidate of a population came out of a mutation.
    pub open spec fn all_bred(population: Seq<Self>) -> bool {
        forall|i: int| 0 <= i < population.len() ==> (#[trigger] population[i]).bred()
    }

    /// Whether every candidate of `kids` is an offspring of `parent`.
    pub open spec fn children_of(parent: D, kids: Seq<Self>) -> bool {
        forall|i: int| 0 <= i < kids.len() ==> parent.offspring((#[trigger] kids[i]).genome())
    }

    /// Whether every candidate of `part` is a candidate of `a` or of `b`.
    pub open spec fn drawn_from(part: Seq<Self>, a: Seq<Self>, b: Seq<Self>) -> bool {
        forall|i: int| 0 <= i < part.len() ==> a.contains(#[trigger] part[i]) || b.contains(part[i])
    }

    /// Whether `r` is a litter of `nmuts` children of `parent`: offspring
    /// of the parent by ascending fitness, each kept with its rating, all
    /// sound, and steady where the parent is; a failure only where a
    /// mutation was made and the parent is not steady.
    pub open spec fn litter_of(parent: Self, nmuts: usize, r: Result<Vec<Self>, EvolveError>) -> bool {
        &&& nmuts == 0 || parent.genome().steady() ==> r is Ok
        &&& r matches Ok(kids) ==> {
            &&& kids.len() == nmuts
            &&& ascending(kids@, Self::by_fitness())
            &&& Self::children_of(parent.genome(), kids@)
            &&& Self::all_rated(kids@)
            &&& Self::all_sound(kids@)
            &&& parent.genome().steady() ==> Self::all_steady(kids@)
        }
    }

    /// The children of all litters, those of the first litter first.
    pub open spec fn joined(litters: Seq<Result<Vec<Self>, EvolveError>>) -> Seq<Self>
        decreases litters.len(),
    {
        if litters.len() == 0 {
            Seq::empty()
        } else {
            Self::joined(litters.drop_last()) + match litters.last() {
                Ok(litter) => litter@,
                Err(_) => Seq::empty(),
            }
        }
    }

    /// The next generation of `parents` with the children `kids`: parents
    /// and children by ascending fitness, children before parents where the
    /// fitness is equal, cut to the `nmuts` best.
    pub open spec fn kept(parents: Seq<Self>, kids: Seq<Self>, nmuts: usize) -> Seq<Self> {
        stable_sort(kids + parents, Self::by_fitness()).take(
            if nmuts <= kids.len() + parents.len() {
                nmuts as int
            } else {
                (kids.len() + parents.len()) as int
            },
        )
    }

    /// Whether `kids` are `nmuts` children of every parent, those of the
    /// first parent first: child `j` of parent `i` is an offspring of that
    /// parent and stands at `place(i, nmuts, j)`. All children are kept
    /// with their rating, all are sound, and steady where the parents are.
    pub open spec fn brood_of(parents: Seq<Self>, nmuts: usize, kids: Seq<Self>) -> bool {
        &&& kids.len() == parents.len() * nmuts
        &&& forall|i: int, j: int|
            0 <= i < parents.len() && 0 <= j < nmuts ==> 0 <= #[trigger] place(i, nmuts as int, j)
                < kids.len()
        &&& forall|i: int, j: int|
            0 <= i < parents.len() && 0 <= j < nmuts ==> parents[i].genome().offspring(
                (#[trigger] kids[place(i, nmuts as int, j)]).genome(),
            )
        &&& Self::all_bred(kids)
        &&& Self::all_rated(kids)
        &&& Self::all_sound(kids)
        &&& Self::all_steady(parents) ==> Self::all_steady(kids)
    }

    /// The control before the first generation of a search from
    /// `population`: a batch of ten, no failures, and the best fitness of
    /// the population.
    pub open spec fn opening(population: Seq<Self>) -> Control {
        Control {
            nmuts: 10,
            fails: 0,
            last_fitness: stable_sort(population, Self::by_fitness())[0].score(),
            ngen: 0,
        }
    }

    /// Whether `next` is the generation that follows `parents` with a batch
    /// of `nmuts`: `kids` are the children bred, `next` is what is kept of
    /// children and parents, and `best` is the fitness of its first
    /// candidate.
    pub open spec fn generation(
        nmuts: usize,
        parents: Seq<Self>,
        kids: Seq<Self>,
        next: Seq<Self>,
        best: u64,
    ) -> bool {
        &&& Self::brood_of(parents, nmuts, kids)
        &&& next == Self::kept(parents, kids, nmuts)
        &&& next.len() > 0
        &&& best == next[0].score()
    }

    /// Whether `gens`, `broods` and `bests` record one complete search from
    /// `population`. `gens[0]` is the population by ascending fitness; each
    /// generation is bred from the one before it, with the batch that the
    /// control has by then, and `broods[k]` are the children bred for it;
    /// `bests[k]` is the best fitness of `gens[k + 1]`. Every generation
    /// but the last is reported, and the last gets the stop.
    pub open spec fn run_of(
        population: Seq<Self>,
        retries: i32,
        gens: Seq<Seq<Self>>,
        broods: Seq<Seq<Self>>,
        bests: Seq<u64>,
    ) -> bool {
        let start = Self::opening(population);
        &&& gens.len() == broods.len() + 1
        &&& bests.len() == broods.len()
        &&& gens[0] == stable_sort(population, Self::by_fitness())
        &&& forall|k: int|
            0 <= k < broods.len() ==> Self::generation(
                start.after_all(bests.take(k)).nmuts,
                gens[k],
                #[trigger] broods[k],
                gens[k + 1],
                bests[k],
            )
        &&& start.course(bests, retries)
    }

    /// Whether `best` and `control` are what a complete search from
    /// `population` returns: the first candidate of the last generation of
    /// a recorded search, and the control at its stop.
    pub open spec fn outcome_of(population: Seq<Self>, retries: i32, best: Self, control: Control) -> bool {
        exists|gens: Seq<Seq<Self>>, broods: Seq<Seq<Self>>, bests: Seq<u64>|
            {
                &&& #[trigger] Self::run_of(population, retries, gens, broods, bests)
                &&& best == gens.last()[0]
                &&& control == Self::opening(population).after_all(bests)
            }
    }

    /// Whether `d` is what a search returns that starts from some seed: ten
    /// children of the seed form the first population, and `d` is the
    /// candidate that a complete search from that population returns, kept
    /// with its rating.
    pub open spec fn selected(d: D, retries: i32) -> bool {
        exists|seed: Self, first: Vec<Self>, best: Self, control: Control|
            #![trigger Self::litter_of(seed, 10, Ok(first)), Self::outcome_of(first@, retries, best, control)]
            {
                &&& seed.rated()
                &&& seed.genome().sound()
                &&& Self::litter_of(seed, 10, Ok::<Vec<Self>, EvolveError>(first))
                &&& Self::outcome_of(first@, retries, best, control)
                &&& best.rated()
                &&& best.genome() == d
            }
    }

    /// A record of generations stays a record when one more generation is
    /// added to it.
    proof fn lemma_generation_added(
        start: Control,
        retries: i32,
        gens: Seq<Seq<Self>>,
        broods: Seq<Seq<Self>>,
        bests: Seq<u64>,
        kids: Seq<Self>,
        next: Seq<Self>,
        best: u64,
    )
        requires
            gens.len() == broods.len() + 1,
            bests.len() == broods.len(),
            Self::generation(start.after_all(bests).nmuts, gens.last(), kids, next, best),
            forall|k: int|
                0 <= k < broods.len() ==> Self::generation(
                    start.after_all(bests.take(k)).nmuts,
                    gens[k],
                    #[trigger] broods[k],
                    gens[k + 1],
                    bests[k],
                ),
            forall|k: int|
                0 <= k < bests.len() ==> (#[trigger] start.after_all(bests.take(k))).verdict(
                    bests[k],
                    retries,
                ) is Report,
        ensures
            start.after_all(bests.push(best)) == start.after_all(bests).after(best),
            start.after_all(bests.push(best).take(bests.len() as int)) == start.after_all(bests),
            forall|k: int|
                0 <= k < broods.len() + 1 ==> Self::generation(
                    start.after_all(bests.push(best).take(k)).nmuts,
                    gens.push(next)[k],
                    #[trigger] broods.push(kids)[k],
                    gens.push(next)[k + 1],
                    bests.push(best)[k],
                ),
            forall|k: int|
                0 <= k < bests.len() ==> (#[trigger] start.after_all(
                    bests.push(best).take(k),
                )).verdict(bests.push(best)[k], retries) is Report,
    {
        let n = bests.len() as int;
        let longer = bests.push(best);
        assert(longer.drop_last() =~= bests);
        assert(longer.take(n) =~= bests);
        assert forall|k: int| 0 <= k < n implies longer.take(k) == bests.take(k) by {
            assert(longer.take(k) =~= bests.take(k));
        }
        assert forall|k: int| 0 <= k < broods.len() + 1 implies Self::generation(
            start.after_all(longer.take(k)).nmuts,
            gens.push(next)[k],
            #[trigger] broods.push(kids)[k],
            gens.push(next)[k + 1],
            longer[k],
        ) by {
            if k < n {
                assert(longer.take(k) == bests.take(k));
                assert(Self::generation(
                    start.after_all(bests.take(k)).nmuts,
                    gens[k],
                    broods[k],
                    gens[k + 1],
                    bests[k],
                ));
            }
        }
        assert forall|k: int| 0 <= k < n implies (#[trigger] start.after_all(
            longer.take(k),
        )).verdict(longer[k], retries) is Report by {
            assert(longer.take(k) == bests.take(k));
            assert(start.after_all(bests.take(k)).verdict(bests[k], retries) is Report);
        }
    }

    /// A batch never shrinks below the ten it starts with.
    proof fn lemma_batch_grows(c: Control, bests: Seq<u64>)
        ensures
            c.after_all(bests).nmuts >= c.nmuts,
        decreases bests.len(),
    {
        if bests.len() > 0 {
            Self::lemma_batch_grows(c, bests.drop_last());
        }
    }

    /// Elitism never loses the best candidate: the candidate that a search
    /// returns is at least as fit as every child bred in any generation of
    /// the search, and as every member of the population it started from.
    pub proof fn lemma_run_keeps_the_best(
        population: Seq<Self>,
        retries: i32,
        gens: Seq<Seq<Self>>,
        broods: Seq<Seq<Self>>,
        bests: Seq<u64>,
    )
        requires
            population.len() > 0,
            Self::run_of(population, retries, gens, broods, bests),
        ensures
            forall|k: int, i: int|
                0 <= k < broods.len() && 0 <= i < broods[k].len() ==> gens.last()[0].score() <= (
                #[trigger] broods[k][i]).score(),
            forall|i: int|
                0 <= i < population.len() ==> gens.last()[0].score() <= (
                #[trigger] population[i]).score(),
    {
        let start = Self::opening(population);
        let n = bests.len() as int;
        let last = gens.last()[0].score();
        assert(Self::generation(
            start.after_all(bests.take(n - 1)).nmuts,
            gens[n - 1],
            broods[n - 1],
            gens[n],
            bests[n - 1],
        ));
        assert(last == bests[n - 1]);
        assert forall|k: int, i: int| 0 <= k < broods.len() && 0 <= i < broods[k].len() implies last
            <= (#[trigger] broods[k][i]).score() by {
            let nmuts = start.after_all(bests.take(k)).nmuts;
            assert(Self::generation(nmuts, gens[k], broods[k], gens[k + 1], bests[k]));
            Self::lemma_batch_grows(start, bests.take(k));
            let pool = broods[k] + gens[k];
            lemma_stable_sort(pool, Self::by_fitness());
            lemma_stable_sort_first(pool, Self::by_fitness(), i);
            assert(pool[i] == broods[k][i]);
            assert(gens[k + 1][0] == stable_sort(pool, Self::by_fitness())[0]);
            lemma_course_never_rises(start, bests, retries, k, n - 1);
        }
        assert forall|i: int| 0 <= i < population.len() implies last <= (
        #[trigger] population[i]).score() by {
            lemma_stable_sort_first(population, Self::by_fitness(), i);
            lemma_course_never_rises(start, bests, retries, 0, n - 1);
        }
    }

    /// Evaluates a candidate: keeps it with its rating.
    pub fn evaluate(dna: D) -> (m: Self)
        ensures
            m.genome() == dna,
            m.score() == dna.rating(),
    {
        let fitness = dna.fitness();
        Mutation { dna, fitness, marker: std::marker::PhantomData }
    }

    /// The fitness of the candidate, as evaluated.
    pub fn fitness(&self) -> (f: u64)
        ensures
            f == self.score(),
    {
        self.fitness
    }

    /// The candidate.
    pub fn dna(&self) -> (d: &D)
        ensures
            *d == self.genome(),
    {
        &self.dna
    }

    /// Gives up the candidate.
    pub fn into_dna(self) -> (d: D)
        ensures
            d == self.genome(),
    {
        self.dna
    }

    /// rayon's `into_par_iter().map(..).collect()` on a vector: `evaluate`
    /// runs once on every candidate, and the results come back in the order
    /// of the candidates. Each result is what `evaluate` returns for its
    /// candidate.
    #[verifier::external_body]
    fn par_evaluate(dnas: Vec<D>) -> (r: Vec<Self>)
        ensures
            r.len() == dnas.len(),
            forall|i: int|
                0 <= i < r.len() ==> (#[trigger] r[i]).genome() == dnas[i] && r[i].score()
                    == dnas[i].rating(),
    {
        dnas.into_par_iter().map(|dna| Self::evaluate(dna)).collect()
    }

    /// rayon's `par_iter().map(..).collect()` on a slice: `new_gen` runs
    /// once on every parent, and the results come back in the order of the
    /// parents. Each result is one that `new_gen` can return for its
    /// parent.
    #[verifier::external_body]
    fn par_new_gen(parents: &Vec<Self>, nmuts: usize) -> (r: Vec<Result<Vec<Self>, EvolveError>>)
        ensures
            r.len() == parents.len(),
            forall|i: int| 0 <= i < r.len() ==> Self::litter_of(parents[i], nmuts, #[trigger] r[i]),
    {
        parents.par_iter().map(|parent| parent.new_gen(nmuts)).collect()
    }

    /// rayon's `par_sort_by_key` with the fitness as the key: a stable
    /// sort, so candidates of equal fitness keep their order.
    #[verifier::external_body]
    fn par_sort(v: &mut Vec<Self>)
        ensures
            final(v)@ == stable_sort(old(v)@, Self::by_fitness()),
    {
        v.par_sort_by_key(|m| m.fitness)
    }

    /// Evaluates every candidate and orders them by ascending fitness,
    /// candidates of equal fitness in the order given: the result holds
    /// each of the candidates once, kept with its rating.
    pub fn evaluate_all(children: Vec<D>) -> (r: Vec<Self>)
        ensures
            r.len() == children.len(),
            ascending(r@, Self::by_fitness()),
            Self::genomes(r@).to_multiset() == children@.to_multiset(),
            Self::all_rated(r@),
    {
        let mut kids = Self::par_evaluate(children);
        proof {
            let sorted = stable_sort(kids@, Self::by_fitness());
            lemma_stable_sort(kids@, Self::by_fitness());
            lemma_map_permutation(sorted, kids@, Self::to_genome());
            assert(Self::genomes(kids@) =~= children@);
            assert forall|i: int| 0 <= i < sorted.len() implies (#[trigger] sorted[i]).rated() by {
                lemma_stable_sort_member(kids@, Self::by_fitness(), i);
                let j = choose|j: int| 0 <= j < kids@.len() && kids@[j] == sorted[i];
                assert(kids@[j].genome() == children@[j]);
            }
        }
        Self::par_sort(&mut kids);
        kids
    }

    /// Breeds `nmuts` children of this candidate and returns them by
    /// ascending fitness: every child is a candidate that a mutation of
    /// this one gave, kept with its rating, so every child is sound, and
    /// steady where this candidate is. It fails where a mutation fails, and
    /// only there: no children are no failure, and a steady candidate never
    /// fails.
    pub fn new_gen(&self, nmuts: usize) -> (r: Result<Vec<Self>, EvolveError>)
        ensures
            Self::litter_of(*self, nmuts, r),
    {
        broadcast use vstd::seq_lib::group_to_multiset_ensures;

        let mut mutations: Vec<D> = Vec::new();
        while mutations.len() < nmuts
            invariant
                mutations.len() <= nmuts,
                forall|i: int|
                    0 <= i < mutations.len() ==> (#[trigger] mutations[i]).sound()
                        && self.dna.offspring(mutations[i]),
                self.dna.steady() ==> forall|i: int|
                    0 <= i < mutations.len() ==> (#[trigger] mutations[i]).steady(),
            decreases nmuts - mutations.len(),
        {
            let child = self.dna.mutate()?;
            mutations.push(child);
        }
        let ghost children = mutations@;
        let kids = Self::evaluate_all(mutations);
        proof {
            assert forall|i: int| 0 <= i < kids@.len() implies children.contains(
                (#[trigger] kids@[i]).genome(),
            ) by {
                let g = Self::genomes(kids@);
                assert(g[i] == kids@[i].genome());
                assert(g.contains(g[i]));
                assert(children.to_multiset().count(g[i]) > 0);
            }
        }
        Ok(kids)
    }

    /// Every child of joined litters is a child of one of the litters.
    proof fn lemma_joined_member(litters: Seq<Result<Vec<Self>, EvolveError>>, k: int)
        requires
            0 <= k < Self::joined(litters).len(),
        ensures
            exists|i: int|
                0 <= i < litters.len() && (#[trigger] litters[i]) is Ok && litters[i]->Ok_0@.contains(
                    Self::joined(litters)[k],
                ),
        decreases litters.len(),
    {
        let head = litters.drop_last();
        let n = litters.len() as int;
        if k < Self::joined(head).len() {
            Self::lemma_joined_member(head, k);
            let i = choose|i: int|
                0 <= i < head.len() && (#[trigger] head[i]) is Ok && head[i]->Ok_0@.contains(
                    Self::joined(head)[k],
                );
            assert(litters[i] == head[i]);
        } else {
            let last = litters[n - 1];
            assert(last is Ok);
            assert(last->Ok_0@[k - Self::joined(head).len()] == Self::joined(litters)[k]);
        }
    }

    /// Where every litter has `m` children, child `j` of litter `i` stands
    /// at place `i * m + j` of the joined litters.
    proof fn lemma_joined_place(litters: Seq<Result<Vec<Self>, EvolveError>>, m: int, i: int, j: int)
        requires
            forall|a: int|
                0 <= a < litters.len() ==> (#[trigger] litters[a]) is Ok && litters[a]->Ok_0@.len()
                    == m,
            0 <= i < litters.len(),
            0 <= j < m,
        ensures
            Self::joined(litters).len() == litters.len() * m,
            0 <= i * m + j < litters.len() * m,
            Self::joined(litters)[i * m + j] == litters[i]->Ok_0@[j],
        decreases litters.len(),
    {
        let head = litters.drop_last();
        let n = litters.len() as int;
        assert forall|a: int| 0 <= a < head.len() implies (#[trigger] head[a]) is Ok
            && head[a]->Ok_0@.len() == m by {
            assert(head[a] == litters[a]);
        }
        assert(litters[n - 1] is Ok && litters[n - 1]->Ok_0@.len() == m);
        if n > 1 {
            Self::lemma_joined_place(head, m, 0, j);
        } else {
            assert(Self::joined(head) =~= Seq::<Self>::empty());
        }
        assert(Self::joined(head).len() == (n - 1) * m);
        assert((n - 1) * m + m == n * m) by (nonlinear_arith);
        assert(0 <= i * m + j < (i + 1) * m <= n * m) by (nonlinear_arith)
            requires
                0 <= i < n,
                0 <= j < m,
        ;
        if i < n - 1 {
            Self::lemma_joined_place(head, m, i, j);
            assert(i * m + j < (n - 1) * m) by (nonlinear_arith)
                requires
                    0 <= i < n - 1,
                    0 <= j < m,
            ;
            assert(head[i] == litters[i]);
        } else {
            assert(i * m + j - (n - 1) * m == j) by (nonlinear_arith)
                requires
                    i == n - 1,
            ;
        }
    }

    /// Joins the litters into one vector, the children of the first litter
    /// first. It fails where a litter failed, with the error of the last
    /// litter that did.
    pub fn gather(litters: Vec<Result<Vec<Self>, EvolveError>>) -> (r: Result<
        Vec<Self>,
        EvolveError,
    >)
        ensures
            r is Ok <==> forall|i: int| 0 <= i < litters.len() ==> (#[trigger] litters[i]) is Ok,
            r matches Ok(kids) ==> kids@ == Self::joined(litters@),
            r matches Err(e) ==> exists|i: int|
                {
                    &&& 0 <= i < litters.len()
                    &&& #[trigger] litters[i] == Err::<Vec<Self>, EvolveError>(e)
                    &&& forall|j: int| i < j < litters.len() ==> (#[trigger] litters[j]) is Ok
                },
    {
        let ghost all = litters@;
        let mut rest = litters;
        let mut kids: Vec<Self> = Vec::new();
        proof {
            assert(all.take(all.len() as int) =~= all);
        }
        loop
            invariant
                all == litters@,
                rest.len() <= all.len(),
                rest@ == all.take(rest.len() as int),
                forall|j: int| rest.len() <= j < all.len() ==> (#[trigger] all[j]) is Ok,
                Self::joined(rest@) + kids@ == Self::joined(all),
            ensures
                rest.len() == 0,
            decreases rest.len(),
        {
            let ghost m = rest.len() as int;
            let ghost before = rest@;
            match rest.pop() {
                None => {
                    break ;
                },
                Some(Err(e)) => {
                    assert(all[m - 1] == before[m - 1]);
                    assert(litters[m - 1] == Err::<Vec<Self>, EvolveError>(e));
                    return Err(e);
                },
                Some(Ok(mut litter)) => {
                    assert(all[m - 1] == before[m - 1]);
                    assert(before.drop_last() =~= all.take(m - 1));
                    let ghost tail = kids@;
                    let ghost front = litter@;
                    litter.append(&mut kids);
                    kids = litter;
                    assert(Self::joined(rest@) + kids@ =~= (Self::joined(rest@) + front) + tail);
                },
            }
        }
        assert(Self::joined(rest@) =~= Seq::<Self>::empty());
        assert(kids@ =~= Self::joined(all));
        Ok(kids)
    }

    /// Breeds `nmuts` children of every parent, those of the first parent
    /// first: child `j` of parent `i` stands at `place(i, nmuts, j)`. All
    /// children are kept with their rating, all are sound, and steady
    /// where the parents are. It fails where a mutation fails, and only
    /// there: without parents, with no children to breed, and with steady
    /// parents it succeeds.
    fn breed(parents: &Vec<Self>, nmuts: usize) -> (r: Result<Vec<Self>, EvolveError>)
        ensures
            parents.len() == 0 || nmuts == 0 || Self::all_steady(parents@) ==> r is Ok,
            r matches Ok(kids) ==> Self::brood_of(parents@, nmuts, kids@),
    {
        let litters = Self::par_new_gen(parents, nmuts);
        let ghost all = litters@;
        let r = Self::gather(litters);
        proof {
            if r is Ok {
                let kids = r->Ok_0@;
                assert forall|a: int| 0 <= a < all.len() implies (#[trigger] all[a]) is Ok
                    && all[a]->Ok_0@.len() == nmuts by {
                    assert(Self::litter_of(parents[a], nmuts, all[a]));
                }
                if all.len() > 0 && nmuts > 0 {
                    Self::lemma_joined_place(all, nmuts as int, 0, 0);
                } else if all.len() == 0 {
                    assert(kids =~= Seq::<Self>::empty());
                } else {
                    if kids.len() > 0 {
                        Self::lemma_joined_member(all, 0);
                    }
                    assert(parents.len() * nmuts == 0) by (nonlinear_arith)
                        requires
                            nmuts == 0,
                    ;
                }
                assert forall|i: int, j: int|
                    0 <= i < parents.len() && 0 <= j < nmuts implies 0 <= #[trigger] place(
                    i,
                    nmuts as int,
                    j,
                ) < kids.len() by {
                    Self::lemma_joined_place(all, nmuts as int, i, j);
                    assert(all.len() * nmuts == kids.len());
                }
                assert forall|i: int, j: int|
                    0 <= i < parents.len() && 0 <= j < nmuts implies parents[i].genome().offspring(
                    (#[trigger] kids[place(i, nmuts as int, j)]).genome(),
                ) by {
                    Self::lemma_joined_place(all, nmuts as int, i, j);
                    assert(Self::litter_of(parents[i], nmuts, all[i]));
                    assert(place(i, nmuts as int, j) == i * nmuts + j);
                    assert(all.len() * nmuts == kids.len());
                }
                assert forall|k: int| 0 <= k < kids.len() implies {
                    &&& (#[trigger] kids[k]).bred()
                    &&& kids[k].rated()
                    &&& kids[k].genome().sound()
                    &&& Self::all_steady(parents@) ==> kids[k].genome().steady()
                } by {
                    Self::lemma_joined_member(all, k);
                    let i = choose|i: int|
                        0 <= i < all.len() && (#[trigger] all[i]) is Ok && all[i]->Ok_0@.contains(
                            kids[k],
                        );
                    assert(Self::litter_of(parents[i], nmuts, all[i]));
                    let litter = all[i]->Ok_0@;
                    let j = choose|j: int| 0 <= j < litter.len() && litter[j] == kids[k];
                    assert(parents[i].genome().offspring(litter[j].genome()));
                }
            } else {
                let e = r->Err_0;
                let i = choose|i: int|
                    0 <= i < all.len() && #[trigger] all[i] == Err::<Vec<Self>, EvolveError>(e);
                assert(Self::litter_of(parents[i], nmuts, all[i]));
            }
        }
        r
    }

    /// Forms the next generation: the parents and all their children, by
    /// ascending fitness, cut to the `nmuts` best. Candidates of equal
    /// fitness stay in the order children first, parents after.
    ///
    /// The parents take part, so the best fitness of the next generation is
    /// never worse than that of any parent, nor than that of any child.
    pub fn next_generation(parents: Vec<Self>, kids: Vec<Self>, nmuts: usize) -> (r: Vec<Self>)
        ensures
            r@ == Self::kept(parents@, kids@, nmuts),
            ascending(r@, Self::by_fitness()),
            Self::drawn_from(r@, kids@, parents@),
            nmuts > 0 ==> forall|i: int|
                0 <= i < parents.len() ==> r.len() > 0 && r[0].score() <= (
                #[trigger] parents[i]).score(),
            nmuts > 0 ==> forall|i: int|
                0 <= i < kids.len() ==> r.len() > 0 && r[0].score() <= (#[trigger] kids[i]).score(),
            nmuts > 0 && kids.len() + parents.len() > 0 ==> r.len() > 0 && r[0] == stable_sort(
                kids@ + parents@,
                Self::by_fitness(),
            )[0],
    {
        let mut pool = kids;
        let mut parents = parents;
        let ghost old_parents = parents@;
        pool.append(&mut parents);
        let ghost merged = pool@;
        proof {
            lemma_stable_sort(merged, Self::by_fitness());
            let sorted = stable_sort(merged, Self::by_fitness());
            assert forall|i: int| 0 <= i < sorted.len() implies kids@.contains(
                #[trigger] sorted[i],
            ) || old_parents.contains(sorted[i]) by {
                lemma_stable_sort_member(merged, Self::by_fitness(), i);
                let j = choose|j: int| 0 <= j < merged.len() && merged[j] == sorted[i];
                if j < kids@.len() {
                    assert(merged[j] == kids@[j]);
                } else {
                    assert(merged[j] == old_parents[j - kids@.len()]);
                }
            }
            assert forall|i: int| 0 <= i < merged.len() implies Self::by_fitness()(sorted[0])
                <= Self::by_fitness()(#[trigger] merged[i]) by {
                lemma_stable_sort_first(merged, Self::by_fitness(), i);
            }
            assert forall|i: int| 0 <= i < old_parents.len() implies Self::by_fitness()(sorted[0])
                <= Self::by_fitness()(#[trigger] old_parents[i]) by {
                assert(merged[kids.len() + i] == old_parents[i]);
            }
            assert forall|i: int| 0 <= i < kids.len() implies Self::by_fitness()(sorted[0])
                <= Self::by_fitness()(#[trigger] kids@[i]) by {
                assert(merged[i] == kids@[i]);
            }
        }
        Self::par_sort(&mut pool);
        pool.truncate(nmuts);
        pool
    }

    /// What holds of every candidate of `part` where it holds of every
    /// candidate of `a` and of `b`, from which `part` is drawn.
    proof fn lemma_drawn(part: Seq<Self>, a: Seq<Self>, b: Seq<Self>)
        requires
            Self::drawn_from(part, a, b),
        ensures
            Self::all_sound(a) && Self::all_sound(b) ==> Self::all_sound(part),
            Self::all_steady(a) && Self::all_steady(b) ==> Self::all_steady(part),
            Self::all_rated(a) && Self::all_rated(b) ==> Self::all_rated(part),
    {
        assert forall|i: int| 0 <= i < part.len() implies {
            &&& Self::all_sound(a) && Self::all_sound(b) ==> (#[trigger] part[i]).genome().sound()
            &&& Self::all_steady(a) && Self::all_steady(b) ==> part[i].genome().steady()
            &&& Self::all_rated(a) && Self::all_rated(b) ==> part[i].rated()
        } by {
            if a.contains(part[i]) {
                let j = choose|j: int| 0 <= j < a.len() && a[j] == part[i];
            } else {
                let j = choose|j: int| 0 <= j < b.len() && b[j] == part[i];
            }
        }
    }

    /// Evolves a population until it stagnates, and returns its best
    /// candidate together with the control at the stop.
    ///
    /// Each generation breeds `nmuts` children of every member, keeps the
    /// `nmuts` best of children and parents, and hands the best fitness to
    /// the stagnation control: a generation without change counts as a
    /// failure and widens `nmuts` by one. Once the failures reach `retries`
    /// the search stops; until then the best candidate of every generation
    /// is reported through `print`, with the number of the generation and
    /// its best fitness.
    ///
    /// The parents take part in every generation, so the best fitness
    /// never rises and the candidate returned is at least as fit as every
    /// member of the population given. It is the best of the last
    /// generation: a member of the population given, or a candidate that
    /// came out of a mutation. The search fails where a mutation fails, and
    /// only there: a steady population never fails.
    pub fn evolve(population: Vec<Self>, retries: i32) -> (r: Result<(Self, Control), EvolveError>)
        requires
            population.len() > 0,
        ensures
            Self::all_steady(population@) ==> r is Ok,
            r matches Ok((best, control)) ==> {
                &&& Self::outcome_of(population@, retries, best, control)
                &&& control.fails >= retries
                &&& control.last_fitness == best.score()
                &&& forall|i: int|
                    0 <= i < population.len() ==> best.score() <= (#[trigger] population[i]).score()
                &&& population@.contains(best) || best.bred()
                &&& Self::all_rated(population@) ==> best.rated()
                &&& Self::all_sound(population@) ==> best.genome().sound()
                &&& Self::all_steady(population@) ==> best.genome().steady()
            },
    {
        let size = population.len();
        let mut current = Self::next_generation(population, Vec::new(), size);
        let mut control = Control::start(current[0].fitness);
        let ghost start = control;
        let ghost mut bests: Seq<u64> = Seq::empty();
        let ghost mut gens: Seq<Seq<Self>> = seq![current@];
        let ghost mut broods: Seq<Seq<Self>> = Seq::empty();
        proof {
            Self::lemma_drawn(current@, Seq::empty(), population@);
            assert(population@ =~= Seq::<Self>::empty() + population@);
            lemma_stable_sort(population@, Self::by_fitness());
            assert(current@ =~= stable_sort(population@, Self::by_fitness()));
            assert forall|i: int| 0 <= i < current.len() implies population@.contains(
                #[trigger] current[i],
            ) || current[i].bred() by {
                assert(!Seq::<Self>::empty().contains(current[i]));
            }
        }
        loop
            invariant_except_break
                bests.len() > 0 ==> bests.last() == current[0].score(),
                forall|k: int|
                    0 <= k < bests.len() ==> (#[trigger] start.after_all(bests.take(k))).verdict(
                        bests[k],
                        retries,
                    ) is Report,
            invariant
                current.len() > 0,
                control.nmuts > 0,
                control.fails >= 0,
                control.last_fitness == current[0].score(),
                start == Self::opening(population@),
                control == start.after_all(bests),
                bests.len() > 0 ==> bests[0] <= start.last_fitness,
                forall|k: int| 0 < k < bests.len() ==> #[trigger] bests[k] <= bests[k - 1],
                gens.len() == broods.len() + 1,
                bests.len() == broods.len(),
                gens[0] == stable_sort(population@, Self::by_fitness()),
                gens.last() == current@,
                forall|k: int|
                    0 <= k < broods.len() ==> Self::generation(
                        start.after_all(bests.take(k)).nmuts,
                        gens[k],
                        #[trigger] broods[k],
                        gens[k + 1],
                        bests[k],
                    ),
                forall|i: int|
                    0 <= i < population.len() ==> current[0].score() <= (
                    #[trigger] population[i]).score(),
                forall|i: int|
                    0 <= i < current.len() ==> population@.contains(#[trigger] current[i])
                        || current[i].bred(),
                Self::all_rated(population@) ==> Self::all_rated(current@),
                Self::all_sound(population@) ==> Self::all_sound(current@),
                Self::all_steady(population@) ==> Self::all_steady(current@),
            ensures
                start.course(bests, retries),
                bests.last() == current[0].score(),
                control.fails >= retries,
            decreases current[0].score(), retries - control.fails,
        {
            let kids = Self::breed(&current, control.nmuts)?;
            let ghost parents = current@;
            let ghost children = kids@;
            let ghost batch = control.nmuts;
            current = Self::next_generation(current, kids, control.nmuts);
            let best = current[0].fitness;
            let ghost before = bests;
            let ghost old_gens = gens;
            let ghost old_broods = broods;
            let verdict = control.step(best, retries);
            proof {
                Self::lemma_drawn(current@, children, parents);
                assert forall|i: int| 0 <= i < current.len() implies population@.contains(
                    #[trigger] current[i],
                ) || current[i].bred() by {
                    if children.contains(current[i]) {
                        let j = choose|j: int| 0 <= j < children.len() && children[j] == current[i];
                        assert(children[j].bred());
                    } else {
                        let j = choose|j: int| 0 <= j < parents.len() && parents[j] == current[i];
                        assert(population@.contains(parents[j]) || parents[j].bred());
                    }
                }
                Self::lemma_generation_added(
                    start,
                    retries,
                    old_gens,
                    old_broods,
                    before,
                    children,
                    current@,
                    best,
                );
                bests = before.push(best);
                gens = old_gens.push(current@);
                broods = old_broods.push(children);
                assert(best <= parents[0].score());
            }
            match verdict {
                Verdict::Stop => {
                    break ;
                },
                Verdict::Report { ngen, fitness } => {
                    current[0].dna.print(ngen, fitness);
                },
            }
        }
        proof {
            assert(Self::run_of(population@, retries, gens, broods, bests));
            assert(current@[0] == gens.last()[0]);
        }
        Ok((current.swap_remove(0), control))
    }

    /// Runs the search and returns the best candidate of the last
    /// generation: an initial candidate is generated, `10` children of it
    /// form the first population, and the population is evolved until it
    /// stagnates, see `evolve`.
    ///
    /// The candidate returned is what a complete search from ten children
    /// of a seed returns. It came out of a mutation, so it is sound. The
    /// search fails where the generation or a mutation fails, and only
    /// there: with assured arguments it never fails.
    pub fn select(args: A, retries: i32) -> (r: Result<D, EvolveError>)
        ensures
            D::assured(args) ==> r is Ok,
            r matches Ok(d) ==> {
                &&& Self::selected(d, retries)
                &&& exists|parent: D| #[trigger] parent.offspring(d)
                &&& d.sound()
                &&& D::assured(args) ==> d.steady()
            },
    {
        let parent = Self::evaluate(D::generate(args)?);
        let ghost seed = parent;
        let population = parent.new_gen(10)?;
        proof {
            assert forall|i: int| 0 <= i < population.len() implies (#[trigger] population[i]).bred() by {
                assert(parent.genome().offspring(population[i].genome()));
            }
        }
        let ghost first = population;
        let (best, control) = Self::evolve(population, retries)?;
        proof {
            if first@.contains(best) {
                let j = choose|j: int| 0 <= j < first@.len() && first@[j] == best;
                assert(first@[j].bred());
            }
            assert(best.bred());
            assert(Self::litter_of(seed, 10, Ok::<Vec<Self>, EvolveError>(first)));
            assert(Self::outcome_of(first@, retries, best, control));
            assert(Self::selected(best.genome(), retries));
        }
        Ok(best.dna)
    }
}

} // verus!
