//! The population manager: seeding, resizing and one generation of
//! selection, crossover, mutation and elitism.
//!
//! Fitness reaches this module as scores: one `u64` per chromosome, the
//! chromosome's fitness in parts of `FITNESS_SCALE`, in population order.

use crate::gene::{crossover_order, is_one_move, Gene};
use crate::probs::{Bernoulli, Probs};
use crate::selection::{as_ints, total, WeightedChoice};
use crate::world::{Color, World};
use rand::rngs::StdRng;
use vstd::prelude::*;

verus! {

/// A score is a fitness value in parts of this.
pub const FITNESS_SCALE: u64 = 1_000_000;

/// Added to every selection weight so that each is positive (a fitness of 0.0001).
pub const SELECTION_EPSILON: u64 = 100;

/// `m` is the lowest of `scores`.
pub open spec fn is_lowest(scores: Seq<u64>, m: u64) -> bool {
    &&& exists|i: int| 0 <= i < scores.len() && scores[i] == m
    &&& forall|j: int| 0 <= j < scores.len() ==> m <= #[trigger] scores[j]
}

/// `i` is the last position of the highest of `scores`.
pub open spec fn is_fittest_index(scores: Seq<u64>, i: int) -> bool {
    &&& 0 <= i < scores.len()
    &&& forall|j: int| 0 <= j < scores.len() ==> #[trigger] scores[j] <= scores[i]
    &&& forall|j: int| i < j < scores.len() ==> #[trigger] scores[j] < scores[i]
}

/// The selection weight of each chromosome: its score above the lowest one,
/// plus `SELECTION_EPSILON`.
pub open spec fn selection_weights(scores: Seq<u64>, lowest: u64) -> Seq<int> {
    scores.map_values(|s: u64| s - lowest + SELECTION_EPSILON)
}

/// The first chromosome of `after` is an unchanged copy of the fittest of `before`.
pub open spec fn keeps_elite(before: Seq<Gene>, scores: Seq<u64>, after: Seq<Gene>) -> bool {
    &&& after.len() > 0
    &&& exists|e: int|
        #[trigger] is_fittest_index(scores, e) && after[0]@ == before[e]@ && after[0].probs_view()
            == before[e].probs_view()
}

/// `child` is a crossover of two members of `parents`, unmutated.
pub open spec fn is_crossover_child(parents: Seq<Gene>, child: Seq<usize>) -> bool {
    exists|i: int, j: int, start: int, end: int|
        0 <= i < parents.len() && 0 <= j < parents.len() && 0 <= start <= end <= parents[i]@.len()
            && child == #[trigger] crossover_order(parents[i]@, parents[j]@, start, end)
}

/// `child` is a crossover of two members of `parents`, mutated at most once.
pub open spec fn is_offspring(parents: Seq<Gene>, child: Seq<usize>) -> bool {
    exists|i: int, j: int, start: int, end: int|
        0 <= i < parents.len() && 0 <= j < parents.len() && 0 <= start <= end <= parents[i]@.len()
            && (child == #[trigger] crossover_order(parents[i]@, parents[j]@, start, end)
            || is_one_move(crossover_order(parents[i]@, parents[j]@, start, end), child))
}

/// Elitism: when each score is the fitness of its chromosome, a generation
/// that keeps the elite holds a chromosome at least as fit as every
/// chromosome of the generation before, so the best fitness never drops.
pub proof fn lemma_elitism(
    before: Seq<Gene>,
    scores: Seq<u64>,
    after: Seq<Gene>,
    fitness: spec_fn(Seq<usize>) -> int,
)
    requires
        scores.len() == before.len(),
        forall|i: int| 0 <= i < before.len() ==> scores[i] == fitness(#[trigger] before[i]@),
        keeps_elite(before, scores, after),
    ensures
        first_is_at_least(before, after, fitness),
{
    let e = choose|e: int|
        #[trigger] is_fittest_index(scores, e) && after[0]@ == before[e]@ && after[0].probs_view()
            == before[e].probs_view();
    assert forall|j: int| 0 <= j < before.len() implies fitness(after[0]@) >= fitness(
        #[trigger] before[j]@,
    ) by {
        assert(scores[j] <= scores[e]);
        assert(scores[e] == fitness(before[e]@));
    }
}

/// The first chromosome of `after` is at least as fit as every chromosome of `before`.
pub open spec fn first_is_at_least(
    before: Seq<Gene>,
    after: Seq<Gene>,
    fitness: spec_fn(Seq<usize>) -> int,
) -> bool {
    &&& after.len() > 0
    &&& forall|j: int| 0 <= j < before.len() ==> fitness(after[0]@) >= fitness(#[trigger] before[j]@)
}

/// Elitism over any number of generations: when each generation's first
/// chromosome is at least as fit as every chromosome of the generation
/// before (as `lemma_elitism` gives for each step), the first chromosome of
/// the last generation is at least as fit as every chromosome of the first.
pub proof fn lemma_elitism_over_generations(
    generations: Seq<Seq<Gene>>,
    fitness: spec_fn(Seq<usize>) -> int,
)
    requires
        generations.len() >= 2,
        forall|g: int|
            0 <= g < generations.len() - 1 ==> first_is_at_least(
                #[trigger] generations[g],
                generations[g + 1],
                fitness,
            ),
    ensures
        first_is_at_least(generations[0], generations.last(), fitness),
    decreases generations.len(),
{
    if generations.len() > 2 {
        let shorter = generations.drop_last();
        assert forall|g: int| 0 <= g < shorter.len() - 1 implies first_is_at_least(
            #[trigger] shorter[g],
            shorter[g + 1],
            fitness,
        ) by {
            assert(first_is_at_least(generations[g], generations[g + 1], fitness));
        }
        lemma_elitism_over_generations(shorter, fitness);
        let n = generations.len() - 1;
        assert(first_is_at_least(generations[n - 1], generations[n], fitness));
        assert forall|j: int| 0 <= j < generations[0].len() implies fitness(
            generations.last()[0]@,
        ) >= fitness(#[trigger] generations[0][j]@) by {
            assert(shorter.last() == generations[n - 1]);
            assert(fitness(generations[n][0]@) >= fitness(generations[n - 1][0]@));
        }
    } else {
        assert(first_is_at_least(generations[0], generations[1], fitness));
    }
}

/// A step could not weigh the population: the selection weights sum to more
/// than a `u64` holds.
#[derive(Clone, Copy, Debug, PartialEq, Eq, Structural)]
pub enum StepError {
    WeightOverflow,
}

/// The population manager.
#[derive(Clone, Debug)]
pub struct GeneticAlgorithm {
    world: World,
    population: Vec<Gene>,
    generation_idx: usize,
    mutation_rate: Bernoulli,
}

impl GeneticAlgorithm {
    /// The palette.
    pub closed spec fn world_view(&self) -> Seq<Color> {
        self.world@
    }

    /// The chromosomes of the current generation.
    pub closed spec fn population_view(&self) -> Seq<Gene> {
        self.population@
    }

    /// The number of steps taken.
    pub closed spec fn generation(&self) -> nat {
        self.generation_idx as nat
    }

    /// The chance that a child is mutated.
    pub closed spec fn mutation_rate_view(&self) -> Bernoulli {
        self.mutation_rate
    }

    /// Every chromosome is a permutation of the palette's indices.
    pub open spec fn wf(&self) -> bool {
        forall|i: int|
            0 <= i < self.population_view().len() ==> (#[trigger] self.population_view()[i]).wf()
                && self.population_view()[i]@.len() == self.world_view().len()
    }

    /// An unpopulated manager over `world`, at generation 0, with a mutation rate of 0.1.
    pub fn new(world: World) -> (r: GeneticAlgorithm)
        ensures
            r.world_view() == world@,
            r.population_view().len() == 0,
            r.generation() == 0,
            r.mutation_rate_view().chance() == 100_000,
            r.wf(),
    {
        GeneticAlgorithm::with_population(world, Vec::new())
    }

    fn with_population(world: World, population: Vec<Gene>) -> (r: GeneticAlgorithm)
        ensures
            r.world_view() == world@,
            r.population_view() == population@,
            r.generation() == 0,
            r.mutation_rate_view().chance() == 100_000,
    {
        // 100_000 parts is in range, so the error arm is never taken.
        let mutation_rate = match Bernoulli::new(100_000) {
            Ok(b) => b,
            Err(_) => Probs::new().rotation,
        };
        GeneticAlgorithm { world, population, generation_idx: 0, mutation_rate }
    }

    /// The palette.
    pub fn world(&self) -> (r: &World)
        ensures
            r@ == self.world_view(),
    {
        &self.world
    }

    /// The chromosomes of the current generation.
    pub fn population(&self) -> (r: &Vec<Gene>)
        ensures
            r@ == self.population_view(),
    {
        &self.population
    }

    /// The chance that a child is mutated.
    pub fn mutation_rate(&self) -> (r: Bernoulli)
        ensures
            r == self.mutation_rate_view(),
    {
        self.mutation_rate
    }

    /// Sets the chance that a child is mutated; it is read by later steps only.
    pub fn set_mutation_rate(&mut self, rate: Bernoulli)
        ensures
            final(self).mutation_rate_view() == rate,
            final(self).world_view() == old(self).world_view(),
            final(self).population_view() == old(self).population_view(),
            final(self).generation() == old(self).generation(),
    {
        self.mutation_rate = rate;
    }

    /// The number of steps taken.
    pub fn generation_idx(&self) -> (r: usize)
        ensures
            r == self.generation(),
    {
        self.generation_idx
    }

    /// The fittest chromosome by `scores` (the last of equals) and its score,
    /// or `None` when the population is empty.
    pub fn fittest(&self, scores: &Vec<u64>) -> (r: Option<(&Gene, u64)>)
        requires
            scores@.len() == self.population_view().len(),
        ensures
            r is None <==> self.population_view().len() == 0,
            r matches Some((g, s)) ==> exists|i: int|
                #[trigger] is_fittest_index(scores@, i) && *g == self.population_view()[i] && s
                    == scores@[i],
    {
        if self.population.len() == 0 {
            return None;
        }
        let best = last_highest(scores);
        Some((&self.population[best], scores[best]))
    }

    /// Appends `count` uniformly shuffled chromosomes with the starting probabilities.
    pub fn populate(&mut self, count: usize, rng: &mut StdRng)
        requires
            old(self).wf(),
        ensures
            final(self).wf(),
            final(self).population_view().len() == old(self).population_view().len() + count,
            final(self).population_view().subrange(0, old(self).population_view().len() as int)
                == old(self).population_view(),
            forall|i: int|
                old(self).population_view().len() <= i < final(self).population_view().len()
                    ==> (#[trigger] final(self).population_view()[i]).has_start_probs(),
            final(self).world_view() == old(self).world_view(),
            final(self).generation() == old(self).generation(),
            final(self).mutation_rate_view() == old(self).mutation_rate_view(),
    {
        let mut fresh = self.world.generate_population(count, rng);
        let ghost before = self.population_view();
        let ghost added = fresh@;
        assert(forall|k: int|
            0 <= k < before.len() ==> (#[trigger] before[k]).wf() && before[k]@.len()
                == self.world_view().len());
        self.population.append(&mut fresh);
        assert(self.population_view().subrange(0, before.len() as int) =~= before);
        assert forall|k: int| 0 <= k < self.population_view().len() implies (
        #[trigger] self.population_view()[k]).wf() && self.population_view()[k]@.len()
            == self.world_view().len() by {
            if k < before.len() {
                assert(self.population_view()[k] == before[k]);
            } else {
                assert(self.population_view()[k] == added[k - before.len()]);
            }
        }
        assert forall|k: int|
            before.len() <= k < self.population_view().len() implies (
        #[trigger] self.population_view()[k]).has_start_probs() by {
            assert(self.population_view()[k] == added[k - before.len()]);
        }
    }

    /// Grows the population to `new_size` with copies of its fittest
    /// chromosome by `scores` (the last of equals), or seeds it from scratch
    /// when it is empty; shrinks it by dropping chromosomes from the end.
    pub fn set_population_size(&mut self, new_size: usize, scores: &Vec<u64>, rng: &mut StdRng)
        requires
            old(self).wf(),
            scores@.len() == old(self).population_view().len(),
        ensures
            final(self).wf(),
            final(self).population_view().len() == new_size,
            final(self).world_view() == old(self).world_view(),
            final(self).generation() == old(self).generation(),
            final(self).mutation_rate_view() == old(self).mutation_rate_view(),
            old(self).population_view().len() == 0 ==> forall|i: int|
                0 <= i < new_size ==> (#[trigger] final(self).population_view()[i]).has_start_probs(),
            new_size <= old(self).population_view().len() ==> final(self).population_view()
                == old(self).population_view().subrange(0, new_size as int),
            0 < old(self).population_view().len() < new_size ==> {
                &&& final(self).population_view().subrange(
                    0,
                    old(self).population_view().len() as int,
                ) == old(self).population_view()
                &&& exists|e: int|
                    #[trigger] is_fittest_index(scores@, e) && forall|i: int|
                        old(self).population_view().len() <= i < new_size ==> (
                        #[trigger] final(self).population_view()[i])@ == old(
                            self,
                        ).population_view()[e]@ && final(self).population_view()[i].probs_view()
                            == old(self).population_view()[e].probs_view()
            },
    {
        if self.population.len() == 0 {
            self.populate(new_size, rng);
            return;
        }
        if new_size <= self.population.len() {
            let ghost before = self.population_view();
            assert(forall|k: int|
                0 <= k < before.len() ==> (#[trigger] before[k]).wf() && before[k]@.len()
                    == self.world_view().len());
            self.population.truncate(new_size);
            assert forall|k: int| 0 <= k < self.population_view().len() implies (
            #[trigger] self.population_view()[k]).wf() && self.population_view()[k]@.len()
                == self.world_view().len() by {
                assert(self.population_view()[k] == before[k]);
            }
            return;
        }
        let best = last_highest(scores);
        let elite = self.population[best].duplicate();
        assert(self.population_view()[best as int].wf());
        while self.population.len() < new_size
            invariant
                old(self).population@.len() <= self.population@.len() <= new_size,
                best < old(self).population@.len(),
                elite@ == old(self).population@[best as int]@,
                elite.probs_view() == old(self).population@[best as int].probs_view(),
                elite@.len() == self.world@.len(),
                elite.wf(),
                self.world@ == old(self).world@,
                self.generation_idx == old(self).generation_idx,
                self.mutation_rate == old(self).mutation_rate_view(),
                self.wf(),
                self.population@.subrange(0, old(self).population@.len() as int)
                    == old(self).population@,
                forall|i: int|
                    old(self).population@.len() <= i < self.population@.len() ==> (
                    #[trigger] self.population@[i])@ == elite@ && self.population@[i].probs_view()
                        == elite.probs_view(),
            decreases new_size - self.population@.len(),
        {
            let ghost before = self.population_view();
            let ghost world = self.world_view();
            assert(forall|k: int|
                0 <= k < before.len() ==> (#[trigger] before[k]).wf() && before[k]@.len()
                    == world.len());
            self.population.push(elite.duplicate());
            assert(self.population@.subrange(0, old(self).population@.len() as int)
                =~= before.subrange(0, old(self).population@.len() as int));
            assert forall|k: int| 0 <= k < self.population_view().len() implies (
            #[trigger] self.population_view()[k]).wf() && self.population_view()[k]@.len()
                == self.world_view().len() by {
                if k < before.len() {
                    assert(self.population_view()[k] == before[k]);
                }
            }
        }
        assert(is_fittest_index(scores@, best as int));
    }

    /// Advances one generation. `scores[i]` is the fitness score of the
    /// `i`-th chromosome. The fittest chromosome survives as the first of the
    /// next generation; the others are children of parents drawn with weights
    /// `score - lowest score + SELECTION_EPSILON`, each mutated with
    /// probability `mutation_rate`.
    pub fn step(&mut self, scores: &Vec<u64>, rng: &mut StdRng) -> (r: Result<(), StepError>)
        requires
            old(self).wf(),
            old(self).population_view().len() > 0,
            scores@.len() == old(self).population_view().len(),
            old(self).world_view().len() > 0,
            old(self).world_view().len() >= 3 || old(self).mutation_rate_view().chance() == 0,
            old(self).generation() < usize::MAX,
        ensures
            r is Err <==> exists|m: u64|
                #[trigger] is_lowest(scores@, m) && total(selection_weights(scores@, m))
                    > u64::MAX,
            r is Err ==> *final(self) == *old(self),
            r is Ok ==> {
                &&& final(self).wf()
                &&& final(self).population_view().len() == old(self).population_view().len()
                &&& keeps_elite(old(self).population_view(), scores@, final(self).population_view())
                &&& forall|i: int|
                    1 <= i < final(self).population_view().len() ==> is_offspring(
                        old(self).population_view(),
                        (#[trigger] final(self).population_view()[i])@,
                    )
                &&& old(self).mutation_rate_view().chance() == 0 ==> forall|i: int|
                    1 <= i < final(self).population_view().len() ==> is_crossover_child(
                        old(self).population_view(),
                        (#[trigger] final(self).population_view()[i])@,
                    )
                &&& final(self).generation() == old(self).generation() + 1
                &&& final(self).world_view() == old(self).world_view()
                &&& final(self).mutation_rate_view() == old(self).mutation_rate_view()
            },
    {
        let size = self.population.len();
        let lowest = lowest_score(scores);
        let best = last_highest(scores);
        let ghost w = selection_weights(scores@, lowest);
        let mut weights: Vec<u64> = Vec::new();
        let mut i: usize = 0;
        while i < size
            invariant
                i <= size == scores@.len(),
                is_lowest(scores@, lowest),
                w == selection_weights(scores@, lowest),
                weights@.len() == i,
                as_ints(weights@) == w.take(i as int),
            decreases size - i,
        {
            let over = scores[i] - lowest;
            match over.checked_add(SELECTION_EPSILON) {
                Some(weight) => {
                    let ghost prior = weights@;
                    weights.push(weight);
                    assert(as_ints(prior) =~= w.take(i as int));
                    assert(as_ints(weights@) =~= w.take(i + 1));
                },
                None => {
                    proof {
                        assert forall|k: int| 0 <= k < w.len() implies #[trigger] w[k] >= 0 by {
                            assert(scores@[k] >= lowest);
                        }
                        crate::selection::lemma_prefix_total_le(w, i + 1);
                        assert(w.take(i + 1).drop_last() =~= w.take(i as int));
                        assert(total(w.take(i as int)) >= 0) by {
                            lemma_total_nonneg(w.take(i as int));
                        }
                    }
                    return Err(StepError::WeightOverflow);
                },
            }
            i += 1;
        }
        proof {
            assert(w.take(size as int) =~= w);
            lemma_total_positive(w);
            lemma_lowest_unique(scores@, lowest);
        }
        let chooser = match WeightedChoice::new(&weights) {
            Some(c) => c,
            None => {
                return Err(StepError::WeightOverflow);
            },
        };
        let mut next: Vec<Gene> = Vec::new();
        next.push(self.population[best].duplicate());
        while next.len() < size
            invariant
                1 <= next@.len() <= size == self.population@.len(),
                self.wf(),
                chooser.weights().len() == size,
                self.world@.len() > 0,
                self.world@.len() >= 3 || self.mutation_rate.chance() == 0,
                next@[0]@ == self.population@[best as int]@,
                next@[0].probs_view() == self.population@[best as int].probs_view(),
                forall|k: int|
                    0 <= k < next@.len() ==> (#[trigger] next@[k]).wf() && next@[k]@.len()
                        == self.world@.len(),
                forall|k: int|
                    1 <= k < next@.len() ==> is_offspring(self.population@, (#[trigger] next@[k])@),
                self.mutation_rate.chance() == 0 ==> forall|k: int|
                    1 <= k < next@.len() ==> is_crossover_child(
                        self.population@,
                        (#[trigger] next@[k])@,
                    ),
            decreases size - next@.len(),
        {
            let a = chooser.sample(rng);
            let b = chooser.sample(rng);
            let parent_1 = &self.population[a];
            let parent_2 = &self.population[b];
            assert(self.population_view()[a as int].wf());
            assert(self.population_view()[b as int].wf());
            let mut child = Gene::crossover(parent_1, parent_2, rng);
            let ghost crossed = child@;
            if self.mutation_rate.sample(rng) {
                self.world.mutate(&mut child, rng);
            }
            proof {
                let (start, end) = choose|start: int, end: int|
                    0 <= start <= end <= parent_1@.len() && crossed == #[trigger] crossover_order(
                        parent_1@,
                        parent_2@,
                        start,
                        end,
                    );
                assert(crossed == crossover_order(
                    self.population@[a as int]@,
                    self.population@[b as int]@,
                    start,
                    end,
                ));
                assert(is_offspring(self.population@, child@));
                if self.mutation_rate.chance() == 0 {
                    assert(child@ == crossed);
                    assert(is_crossover_child(self.population@, child@));
                }
            }
            next.push(child);
        }
        self.population = next;
        self.generation_idx = self.generation_idx + 1;
        Ok(())
    }
}

proof fn lemma_total_nonneg(w: Seq<int>)
    requires
        forall|k: int| 0 <= k < w.len() ==> #[trigger] w[k] >= 0,
    ensures
        total(w) >= 0,
    decreases w.len(),
{
    if w.len() > 0 {
        lemma_total_nonneg(w.drop_last());
    }
}

proof fn lemma_total_positive(w: Seq<int>)
    requires
        w.len() > 0,
        forall|k: int| 0 <= k < w.len() ==> #[trigger] w[k] > 0,
    ensures
        total(w) > 0,
{
    lemma_total_nonneg(w.drop_last());
}

/// The lowest score is a single value.
proof fn lemma_lowest_unique(scores: Seq<u64>, m: u64)
    requires
        is_lowest(scores, m),
    ensures
        forall|n: u64| #[trigger] is_lowest(scores, n) ==> n == m,
{
    assert forall|n: u64| #[trigger] is_lowest(scores, n) implies n == m by {
        let i = choose|i: int| 0 <= i < scores.len() && scores[i] == m;
        let j = choose|j: int| 0 <= j < scores.len() && scores[j] == n;
        assert(m <= scores[j]);
        assert(n <= scores[i]);
    }
}

/// The lowest of `scores`.
fn lowest_score(scores: &Vec<u64>) -> (r: u64)
    requires
        scores@.len() > 0,
    ensures
        is_lowest(scores@, r),
{
    let mut lowest = scores[0];
    let mut i: usize = 1;
    while i < scores.len()
        invariant
            1 <= i <= scores@.len(),
            exists|k: int| 0 <= k < i && scores@[k] == lowest,
            forall|j: int| 0 <= j < i ==> lowest <= #[trigger] scores@[j],
        decreases scores@.len() - i,
    {
        if scores[i] < lowest {
            lowest = scores[i];
        }
        i += 1;
    }
    lowest
}

/// The last position of the highest of `scores`.
fn last_highest(scores: &Vec<u64>) -> (r: usize)
    requires
        scores@.len() > 0,
    ensures
        is_fittest_index(scores@, r as int),
{
    let mut best: usize = 0;
    let mut i: usize = 1;
    while i < scores.len()
        invariant
            1 <= i <= scores@.len(),
            best < i,
            forall|j: int| 0 <= j < i ==> #[trigger] scores@[j] <= scores@[best as int],
            forall|j: int| best < j < i ==> #[trigger] scores@[j] < scores@[best as int],
        decreases scores@.len() - i,
    {
        if scores[i] >= scores[best] {
            best = i;
        }
        i += 1;
    }
    best
}

} // verus!
