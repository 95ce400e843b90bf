use std::sync::{Arc, Mutex};
use tripaint::selection::{Control, Mutation, Selection, Verdict};
use tripaint::EvolveError;

/// What the toy genomes of one run share.
#[derive(Clone)]
struct Shared {
    floor: u64,
    fail_at: Option<u64>,
    mutations: Arc<Mutex<usize>>,
    reports: Arc<Mutex<Vec<(u64, u64)>>>,
}

/// A genome whose fitness is its value and whose children have the value
/// less one, down to a floor.
#[derive(Clone)]
struct Toy {
    value: u64,
    tag: u32,
    shared: Shared,
}

#[derive(Clone)]
struct ToyArgs {
    start: u64,
    shared: Shared,
}

impl Selection<ToyArgs> for Toy {
    fn mutate(&self) -> Result<Self, EvolveError> {
        *self.shared.mutations.lock().unwrap() += 1;
        if self.shared.fail_at == Some(self.value) {
            return Err(EvolveError::CoverageOverflow);
        }
        let value = if self.value > self.shared.floor { self.value - 1 } else { self.value };
        Ok(Toy { value, tag: self.tag, shared: self.shared.clone() })
    }

    fn generate(args: ToyArgs) -> Result<Self, EvolveError> {
        if args.start == u64::MAX {
            return Err(EvolveError::UnsatisfiableConstraints);
        }
        Ok(Toy { value: args.start, tag: 0, shared: args.shared })
    }

    fn rating(&self) -> u64 {
        self.value
    }

    fn fitness(&self) -> u64 {
        self.value
    }

    fn print(&self, ngen: u64, fitness: u64) {
        assert_eq!(fitness, self.value);
        self.shared.reports.lock().unwrap().push((ngen, fitness));
    }
}

/// A genome that keeps the observer hook as it comes.
#[derive(Clone)]
struct Quiet(u64);

impl Selection<u64> for Quiet {
    fn mutate(&self) -> Result<Self, EvolveError> {
        Ok(Quiet(self.0 / 2))
    }

    fn generate(args: u64) -> Result<Self, EvolveError> {
        Ok(Quiet(args))
    }

    fn rating(&self) -> u64 {
        self.0
    }

    fn fitness(&self) -> u64 {
        self.0
    }
}

fn shared(floor: u64) -> Shared {
    Shared {
        floor,
        fail_at: None,
        mutations: Arc::new(Mutex::new(0)),
        reports: Arc::new(Mutex::new(Vec::new())),
    }
}

fn toy(value: u64, tag: u32, shared: &Shared) -> Mutation<ToyArgs, Toy> {
    Mutation::evaluate(Toy { value, tag, shared: shared.clone() })
}

fn tags(population: &[Mutation<ToyArgs, Toy>]) -> Vec<(u64, u32)> {
    population.iter().map(|m| (m.fitness(), m.dna().tag)).collect()
}

#[test]
fn control_starts_with_a_batch_of_ten() {
    assert_eq!(
        Control::start(77),
        Control { nmuts: 10, fails: 0, last_fitness: 77, ngen: 0 }
    );
}

#[test]
fn improvement_is_reported_and_resets_the_failures() {
    let mut c = Control { nmuts: 12, fails: 1, last_fitness: 50, ngen: 3 };
    assert_eq!(c.step(40, 2), Verdict::Report { ngen: 4, fitness: 40 });
    assert_eq!(c, Control { nmuts: 12, fails: 0, last_fitness: 40, ngen: 4 });
}

#[test]
fn stagnation_counts_a_failure_and_widens_the_batch() {
    let mut c = Control::start(50);
    assert_eq!(c.step(50, 3), Verdict::Report { ngen: 1, fitness: 50 });
    assert_eq!(c, Control { nmuts: 11, fails: 1, last_fitness: 50, ngen: 1 });
    assert_eq!(c.step(50, 3), Verdict::Report { ngen: 2, fitness: 50 });
    assert_eq!(c, Control { nmuts: 12, fails: 2, last_fitness: 50, ngen: 2 });
    assert_eq!(c.step(50, 3), Verdict::Stop);
    assert_eq!(c, Control { nmuts: 13, fails: 3, last_fitness: 50, ngen: 3 });
}

#[test]
fn failures_in_a_row_are_what_counts() {
    let mut c = Control::start(50);
    assert_eq!(c.step(50, 2), Verdict::Report { ngen: 1, fitness: 50 });
    assert_eq!(c.step(49, 2), Verdict::Report { ngen: 2, fitness: 49 });
    assert_eq!(c.fails, 0);
    assert_eq!(c.step(49, 2), Verdict::Report { ngen: 3, fitness: 49 });
    assert_eq!(c.step(49, 2), Verdict::Stop);
    assert_eq!(c.nmuts, 13);
}

#[test]
fn no_retries_stop_after_one_generation() {
    let mut c = Control::start(50);
    assert_eq!(c.step(10, 0), Verdict::Stop);
    let mut c = Control::start(50);
    assert_eq!(c.step(10, -4), Verdict::Stop);
}

#[test]
fn counters_stay_at_their_largest_value() {
    let mut c = Control { nmuts: usize::MAX, fails: i32::MAX, last_fitness: 1, ngen: u64::MAX };
    assert_eq!(c.step(1, i32::MAX), Verdict::Stop);
    assert_eq!(
        c,
        Control { nmuts: usize::MAX, fails: i32::MAX, last_fitness: 1, ngen: u64::MAX }
    );
}

#[test]
fn evaluation_keeps_the_fitness() {
    let s = shared(0);
    let m = toy(42, 7, &s);
    assert_eq!(m.fitness(), 42);
    assert_eq!(m.dna().tag, 7);
    assert_eq!(m.into_dna().value, 42);
}

#[test]
fn candidates_are_evaluated_and_ordered() {
    let s = shared(0);
    let make = |value: u64, tag: u32| Toy { value, tag, shared: s.clone() };
    let ranked = Mutation::<ToyArgs, Toy>::evaluate_all(vec![
        make(7, 1),
        make(3, 2),
        make(7, 3),
        make(5, 4),
        make(3, 5),
    ]);
    assert_eq!(tags(&ranked), vec![(3, 2), (3, 5), (5, 4), (7, 1), (7, 3)]);
    assert_eq!(Mutation::<ToyArgs, Toy>::evaluate_all(vec![]).len(), 0);
}

#[test]
fn no_children_are_no_failure() {
    let mut s = shared(0);
    s.fail_at = Some(9);
    assert!(toy(9, 1, &s).new_gen(0).unwrap().is_empty());
    assert_eq!(toy(9, 1, &s).new_gen(1).err(), Some(EvolveError::CoverageOverflow));
    assert_eq!(*s.mutations.lock().unwrap(), 1);
}

#[test]
fn population_is_evolved_to_its_floor() {
    let s = shared(2);
    let population = vec![toy(6, 1, &s), toy(4, 2, &s), toy(9, 3, &s)];
    let (best, control) = Mutation::evolve(population, 2).unwrap();
    assert_eq!(best.fitness(), 2);
    assert_eq!(best.dna().tag, 2);
    let reports = s.reports.lock().unwrap();
    assert_eq!(*reports, vec![(1, 3), (2, 2), (3, 2)]);
    // Four generations ran, the last two of them stagnant, each of which
    // widened the batch by one.
    assert_eq!(control, Control { nmuts: 12, fails: 2, last_fitness: 2, ngen: 4 });
}

#[test]
fn control_at_the_stop_tells_the_run() {
    for retries in 1..4 {
        let s = shared(7);
        let (best, control) = Mutation::evolve(vec![toy(7, 1, &s)], retries).unwrap();
        assert_eq!(best.fitness(), 7);
        assert_eq!(control.fails, retries);
        assert_eq!(control.ngen, retries as u64);
        assert_eq!(control.last_fitness, 7);
        assert_eq!(s.reports.lock().unwrap().len() as i32, retries - 1);
    }
}

#[test]
fn litters_are_joined_first_parent_first() {
    let s = shared(0);
    let litters = vec![
        Ok(vec![toy(5, 1, &s), toy(6, 2, &s)]),
        Ok(vec![]),
        Ok(vec![toy(4, 3, &s)]),
        Ok(vec![toy(9, 4, &s), toy(9, 5, &s)]),
    ];
    let kids = Mutation::gather(litters).unwrap();
    assert_eq!(tags(&kids), vec![(5, 1), (6, 2), (4, 3), (9, 4), (9, 5)]);
    assert_eq!(Mutation::<ToyArgs, Toy>::gather(vec![]).unwrap().len(), 0);
}

#[test]
fn failed_litter_fails_the_join() {
    let s = shared(0);
    let litters = vec![
        Ok(vec![toy(5, 1, &s)]),
        Err(EvolveError::CoverageOverflow),
        Ok(vec![toy(4, 3, &s)]),
        Err(EvolveError::UnsatisfiableConstraints),
        Ok(vec![]),
    ];
    assert_eq!(
        Mutation::gather(litters).err(),
        Some(EvolveError::UnsatisfiableConstraints)
    );
}

#[test]
fn children_of_the_first_parent_win_a_tie() {
    // Both parents breed children of fitness 4; the generation of two
    // keeps those that stand first, the children of the first parent.
    let s = shared(0);
    let parents = vec![toy(5, 1, &s), toy(5, 2, &s)];
    let kids = Mutation::gather(vec![parents[0].new_gen(2), parents[1].new_gen(2)]).unwrap();
    assert_eq!(tags(&kids), vec![(4, 1), (4, 1), (4, 2), (4, 2)]);
    let next = Mutation::next_generation(parents, kids, 2);
    assert_eq!(tags(&next), vec![(4, 1), (4, 1)]);
}

#[test]
fn children_come_back_sorted() {
    let s = shared(3);
    let kids = toy(9, 1, &s).new_gen(6).unwrap();
    assert_eq!(tags(&kids), vec![(8, 1); 6]);
    assert_eq!(*s.mutations.lock().unwrap(), 6);
    assert_eq!(toy(9, 1, &s).new_gen(0).unwrap().len(), 0);
}

#[test]
fn next_generation_keeps_the_best() {
    let s = shared(0);
    let parents = vec![toy(5, 1, &s), toy(7, 2, &s), toy(9, 3, &s)];
    let kids = vec![toy(8, 4, &s), toy(4, 5, &s), toy(6, 6, &s), toy(10, 7, &s)];
    let next = Mutation::next_generation(parents, kids, 3);
    assert_eq!(tags(&next), vec![(4, 5), (5, 1), (6, 6)]);
}

#[test]
fn parents_survive_worse_children() {
    let s = shared(0);
    let parents = vec![toy(5, 1, &s), toy(7, 2, &s)];
    let kids = vec![toy(8, 3, &s), toy(9, 4, &s), toy(6, 5, &s)];
    let next = Mutation::next_generation(parents, kids, 2);
    assert_eq!(tags(&next), vec![(5, 1), (6, 5)]);
}

#[test]
fn equal_fitness_keeps_children_before_parents() {
    let s = shared(0);
    let parents = vec![toy(5, 1, &s), toy(5, 2, &s)];
    let kids = vec![toy(5, 3, &s), toy(4, 4, &s), toy(5, 5, &s)];
    let next = Mutation::next_generation(parents, kids, 4);
    assert_eq!(tags(&next), vec![(4, 4), (5, 3), (5, 5), (5, 1)]);
}

#[test]
fn small_pool_is_kept_whole() {
    let s = shared(0);
    let next = Mutation::next_generation(vec![toy(5, 1, &s)], vec![toy(6, 2, &s)], 10);
    assert_eq!(tags(&next), vec![(5, 1), (6, 2)]);
}

#[test]
fn search_stops_after_the_retries() {
    let s = shared(3);
    let best = Mutation::<ToyArgs, Toy>::select(ToyArgs { start: 5, shared: s.clone() }, 2).unwrap();
    assert_eq!(best.value, 3);
    // The first population has fitness 4. Generation 1 improves to 3,
    // generation 2 brings no change and is reported, generation 3 brings
    // none either and ends the search without a report.
    assert_eq!(*s.reports.lock().unwrap(), vec![(1, 3), (2, 3)]);
}

#[test]
fn best_fitness_never_rises() {
    let s = shared(10);
    let best =
        Mutation::<ToyArgs, Toy>::select(ToyArgs { start: 40, shared: s.clone() }, 3).unwrap();
    assert_eq!(best.value, 10);
    let reports = s.reports.lock().unwrap();
    assert!(reports.len() > 20);
    for pair in reports.windows(2) {
        assert!(pair[1].1 <= pair[0].1);
        assert_eq!(pair[1].0, pair[0].0 + 1);
    }
    assert_eq!(reports[0], (1, 38));
}

#[test]
fn stagnation_from_the_start_ends_after_exactly_the_retries() {
    for retries in 1..5 {
        let s = shared(5);
        let best = Mutation::<ToyArgs, Toy>::select(
            ToyArgs { start: 5, shared: s.clone() },
            retries,
        )
        .unwrap();
        assert_eq!(best.value, 5);
        let reports = s.reports.lock().unwrap();
        // Every generation is stagnant: all but the last are reported.
        let expected: Vec<(u64, u64)> = (1..retries as u64).map(|n| (n, 5)).collect();
        assert_eq!(*reports, expected);
    }
}

#[test]
fn batch_widens_with_every_stagnant_generation() {
    let s = shared(5);
    Mutation::<ToyArgs, Toy>::select(ToyArgs { start: 5, shared: s.clone() }, 2).unwrap();
    // Ten children of the first candidate, ten of each of the ten members
    // of the first generation, then eleven of each of the ten members of
    // the second.
    assert_eq!(*s.mutations.lock().unwrap(), 10 + 10 * 10 + 10 * 11);
}

#[test]
fn no_retries_report_nothing() {
    let s = shared(0);
    let best =
        Mutation::<ToyArgs, Toy>::select(ToyArgs { start: 9, shared: s.clone() }, 0).unwrap();
    assert_eq!(best.value, 7);
    assert!(s.reports.lock().unwrap().is_empty());
}

#[test]
fn failed_generation_fails_the_search() {
    let r = Mutation::<ToyArgs, Toy>::select(ToyArgs { start: u64::MAX, shared: shared(0) }, 2);
    assert_eq!(r.err(), Some(EvolveError::UnsatisfiableConstraints));
}

#[test]
fn failed_mutation_fails_the_search() {
    let mut s = shared(0);
    s.fail_at = Some(6);
    let r = Mutation::<ToyArgs, Toy>::select(ToyArgs { start: 9, shared: s.clone() }, 2);
    assert_eq!(r.err(), Some(EvolveError::CoverageOverflow));
    assert_eq!(*s.reports.lock().unwrap(), vec![(1, 7), (2, 6)]);
}

#[test]
fn observer_hook_may_be_left_out() {
    let best = Mutation::<u64, Quiet>::select(1 << 20, 2).unwrap();
    assert_eq!(best.0, 0);
}

/// A genome that draws its children from a fixed list, in turn, and notes
/// every child it gave.
#[derive(Clone)]
struct Scripted {
    value: u64,
    script: Arc<Mutex<(usize, Vec<u64>)>>,
    bred: Arc<Mutex<Vec<u64>>>,
}

impl Selection<Scripted> for Scripted {
    fn rating(&self) -> u64 {
        self.value
    }

    fn mutate(&self) -> Result<Self, EvolveError> {
        let mut script = self.script.lock().unwrap();
        let at = script.0;
        script.0 += 1;
        let value = script.1[at % script.1.len()];
        self.bred.lock().unwrap().push(value);
        Ok(Scripted { value, script: self.script.clone(), bred: self.bred.clone() })
    }

    fn generate(args: Scripted) -> Result<Self, EvolveError> {
        Ok(args)
    }

    fn fitness(&self) -> u64 {
        self.value
    }
}

#[test]
fn elitism_never_loses_the_best_candidate() {
    let values = vec![90, 40, 77, 12, 95, 63, 30, 88, 12, 51, 70, 99, 45];
    let seed = Scripted {
        value: 100,
        script: Arc::new(Mutex::new((0, values))),
        bred: Arc::new(Mutex::new(Vec::new())),
    };
    let bred = seed.bred.clone();
    let best = Mutation::<Scripted, Scripted>::select(seed, 3).unwrap();
    let bred = bred.lock().unwrap();
    assert!(bred.len() > 100);
    assert_eq!(best.value, *bred.iter().min().unwrap());
    assert_eq!(best.value, 12);
}

#[test]
fn copy_of_an_evaluated_candidate_keeps_its_fitness() {
    let s = shared(0);
    let m = toy(42, 7, &s);
    let copy = m.clone();
    assert_eq!(copy.fitness(), 42);
    assert_eq!(copy.dna().tag, 7);
    assert_eq!(m.fitness(), 42);
}
