//! The generational search: selection of an elite, reproduction by crossover
//! and mutation, and the extraction of the best tour found.

use crate::crossover::{crossed, mutated, MILLION};
use crate::encoding::{decode, is_permutation, revert};
use crate::individual::Individual;
use crate::random::uniform_below;
use crate::tsp::{tour_length, DistanceTable};
use rand::rngs::StdRng;
use vstd::prelude::*;
use vstd::seq_lib::*;

verus! {

/// The parameters of a search. Both rates are given in millionths.
#[derive(Clone, Copy, Debug)]
pub struct GAOptions {
    /// How many individuals a generation holds.
    pub pool_size: usize,
    /// The share of a generation that survives as its elite.
    pub elitism: i64,
    /// The chance with which a gene taken over in a crossover mutates.
    pub mutation_rate: i64,
    /// How many generations follow the first.
    pub generations: usize,
}

/// Why a search was not started.
#[derive(Clone, Copy, Debug, PartialEq, Eq, Structural)]
pub enum ConfigError {
    /// The pool holds no individual.
    EmptyPool,
    /// The elitism is below zero or above one.
    ElitismOutOfRange,
    /// The mutation rate is below zero.
    NegativeMutationRate,
}

impl GAOptions {
    /// What is wrong with the options, if anything: the first of the faults
    /// in the order of `ConfigError`.
    pub open spec fn fault(&self) -> Option<ConfigError> {
        if self.pool_size == 0 {
            Some(ConfigError::EmptyPool)
        } else if self.elitism < 0 || self.elitism > MILLION {
            Some(ConfigError::ElitismOutOfRange)
        } else if self.mutation_rate < 0 {
            Some(ConfigError::NegativeMutationRate)
        } else {
            None
        }
    }

    /// Whether a search can run on these options.
    pub open spec fn valid(&self) -> bool {
        self.fault().is_none()
    }

    /// How many individuals survive a generation: the share `elitism` of the
    /// pool, rounded down, but no fewer than the two that a crossover needs,
    /// and no more than the pool holds.
    pub open spec fn elite_count(&self) -> int {
        let share = self.pool_size * self.elitism / (MILLION as int);
        if self.pool_size < 2 {
            self.pool_size as int
        } else if share < 2 {
            2
        } else {
            share
        }
    }

    /// The chance of a mutation as `mutate_span` takes it: a rate above one
    /// is certain.
    pub open spec fn mutation_chance(&self) -> u32 {
        if self.mutation_rate >= MILLION {
            MILLION
        } else {
            self.mutation_rate as u32
        }
    }

    /// Checks the options before a search.
    pub fn validate(&self) -> (checked: Result<(), ConfigError>)
        ensures
            match checked {
                Ok(_) => self.fault().is_none(),
                Err(error) => self.fault() == Some(error),
            },
    {
        if self.pool_size == 0 {
            Err(ConfigError::EmptyPool)
        } else if self.elitism < 0 || self.elitism > MILLION as i64 {
            Err(ConfigError::ElitismOutOfRange)
        } else if self.mutation_rate < 0 {
            Err(ConfigError::NegativeMutationRate)
        } else {
            Ok(())
        }
    }

    /// The number of individuals that survive a generation.
    pub fn elites(&self) -> (count: usize)
        requires
            self.valid(),
        ensures
            count == self.elite_count(),
            count <= self.pool_size,
    {
        if self.pool_size < 2 {
            return self.pool_size;
        }
        proof {
            let p = self.pool_size as int;
            let e = self.elitism as int;
            assert(0 <= p * e <= p * 1_000_000) by (nonlinear_arith)
                requires
                    0 <= p,
                    0 <= e <= 1_000_000,
            ;
            assert(p * 1_000_000 <= u128::MAX) by (nonlinear_arith)
                requires
                    p <= u64::MAX,
            ;
            assert(p * e / 1_000_000 <= p) by (nonlinear_arith)
                requires
                    0 <= p * e <= p * 1_000_000,
            ;
        }
        let product: u128 = (self.pool_size as u128) * (self.elitism as u128);
        let share: u128 = product / (MILLION as u128);
        if share < 2 {
            2
        } else {
            share as usize
        }
    }

    /// The mutation rate in the form that `mutate_span` takes.
    pub fn chance(&self) -> (rate: u32)
        requires
            self.valid(),
        ensures
            rate == self.mutation_chance(),
    {
        if self.mutation_rate >= MILLION as i64 {
            MILLION
        } else {
            self.mutation_rate as u32
        }
    }
}

/// The second parent, from the draw of the first and a draw among the
/// others: the draw counts the members with the first left out, so from the
/// first on it names the member one further up.
pub fn second_parent(first: usize, other: usize) -> (second: usize)
    requires
        other < usize::MAX,
    ensures
        second == if other >= first {
            other + 1
        } else {
            other as int
        },
        second != first,
{
    if other >= first {
        other + 1
    } else {
        other
    }
}

/// Draws two different indices below `count`.
pub fn pick_parents(count: usize, rng: &mut StdRng) -> (picked: (usize, usize))
    requires
        count >= 2,
    ensures
        picked.0 < count,
        picked.1 < count,
        picked.0 != picked.1,
{
    let first = uniform_below(rng, count);
    let other = uniform_below(rng, count - 1);
    (first, second_parent(first, other))
}

/// Whether every individual of a population is one over the cities of
/// `table`.
pub open spec fn all_wf(population: Seq<Individual>, table: &DistanceTable) -> bool {
    forall|i: int| 0 <= i < population.len() ==> (#[trigger] population[i]).wf(table)
}

/// Whether a population stands best first: no individual is followed by a
/// fitter one.
pub open spec fn best_first(population: Seq<Individual>) -> bool {
    forall|i: int, j: int|
        0 <= i < j < population.len() ==> population[i].length <= population[j].length
}

/// Two populations of the same individuals hold as many, and each member of
/// the one is a member of the other.
pub proof fn lemma_same_members(one: Seq<Individual>, other: Seq<Individual>)
    requires
        one.to_multiset() == other.to_multiset(),
    ensures
        one.len() == other.len(),
        forall|i: int| 0 <= i < one.len() ==> other.contains(#[trigger] one[i]),
{
    to_multiset_len(one);
    to_multiset_len(other);
    assert forall|i: int| 0 <= i < one.len() implies other.contains(#[trigger] one[i]) by {
        assert(one.contains(one[i]));
        to_multiset_contains(one, one[i]);
        to_multiset_contains(other, one[i]);
    }
}

/// Puts a population in order, best first.
pub fn sort_population(population: &mut Vec<Individual>)
    ensures
        best_first(final(population)@),
        final(population)@.to_multiset() == old(population)@.to_multiset(),
{
    let n = population.len();
    let mut i: usize = 1;
    while i < n
        invariant
            population.len() == n,
            1 <= i,
            population@.to_multiset() == old(population)@.to_multiset(),
            forall|a: int, b: int|
                0 <= a < b < i && b < n ==> population[a].length <= population[b].length,
        decreases n - i,
    {
        let length = population[i].length;
        let mut k: usize = i;
        while k > 0 && population[k - 1].length > length
            invariant
                population.len() == n,
                k <= i < n,
                length == population[i as int].length,
                forall|m: int| k <= m < i ==> population[m].length > length,
            decreases k,
        {
            k -= 1;
        }
        if k < i {
            let ghost before = population@;
            let moved = population.remove(i);
            population.insert(k, moved);
            proof {
                to_multiset_remove(before, i as int);
                to_multiset_insert(before.remove(i as int), k as int, moved);
                to_multiset_contains(before, moved);
                assert(before.contains(moved));
                assert(population@.to_multiset() =~= before.to_multiset());
                assert forall|a: int, b: int| 0 <= a < b < i + 1 implies population[a].length
                    <= population[b].length by {
                    let from_a = if a < k { a } else { a - 1 };
                    let from_b = if b < k { b } else { b - 1 };
                    if a != k {
                        assert(population[a] == before[from_a]);
                    }
                    if b != k {
                        assert(population[b] == before[from_b]);
                    }
                }
            }
        }
        i += 1;
    }
}

/// Draws the first generation: `pool_size` random individuals.
pub fn initial_population(table: &DistanceTable, pool_size: usize, rng: &mut StdRng) -> (population:
    Vec<Individual>)
    requires
        table.wf(),
        table.size() > 0,
    ensures
        population.len() == pool_size,
        all_wf(population@, table),
{
    let mut population: Vec<Individual> = Vec::new();
    let mut i: usize = 0;
    while i < pool_size
        invariant
            table.wf(),
            table.size() > 0,
            i <= pool_size,
            population.len() == i,
            all_wf(population@, table),
        decreases pool_size - i,
    {
        population.push(Individual::random(table, rng));
        i += 1;
    }
    population
}

/// Whether `child` can come of a crossover of two different members of
/// `elites`, mutated at `rate` millionths.
pub open spec fn offspring_of(child: Individual, elites: Seq<Individual>, rate: u32) -> bool {
    exists|a: int, b: int, points: (usize, usize)|
        {
            &&& 0 <= a < elites.len()
            &&& 0 <= b < elites.len()
            &&& a != b
            &&& points.0 < child.chromosome@.len()
            &&& points.1 < child.chromosome@.len()
            &&& #[trigger] mutated(
                child.chromosome@,
                crossed(elites[a].chromosome@, elites[b].chromosome@, points),
                points,
                rate,
            )
        }
}

/// Fills a population up to `pool_size` with the children of its members.
///
/// The members on entry are the parents. Two different ones are drawn for
/// each crossover, and both children join the population; where only one
/// place is left, the second child is dropped.
pub fn reproduce(
    population: &mut Vec<Individual>,
    table: &DistanceTable,
    pool_size: usize,
    rate: u32,
    rng: &mut StdRng,
)
    requires
        table.wf(),
        table.size() > 0,
        all_wf(old(population)@, table),
        old(population).len() <= pool_size,
        old(population).len() >= 2 || old(population).len() == pool_size,
    ensures
        final(population).len() == pool_size,
        final(population)@.subrange(0, old(population).len() as int) == old(population)@,
        all_wf(final(population)@, table),
        forall|j: int|
            old(population).len() <= j < pool_size ==> offspring_of(
                #[trigger] final(population)[j],
                old(population)@,
                rate,
            ),
{
    let elites = population.len();
    let ghost parents = population@;
    assert(population@.subrange(0, elites as int) =~= parents);
    while population.len() < pool_size
        invariant
            table.wf(),
            table.size() > 0,
            parents.len() == elites,
            elites >= 2 || elites == pool_size,
            elites <= population.len() <= pool_size,
            population@.subrange(0, elites as int) == parents,
            all_wf(population@, table),
            forall|j: int|
                elites <= j < population.len() ==> offspring_of(
                    #[trigger] population[j],
                    parents,
                    rate,
                ),
        decreases pool_size - population.len(),
    {
        let picked = pick_parents(elites, rng);
        let ghost before = population@;
        assert(before[picked.0 as int] == before.subrange(0, elites as int)[picked.0 as int]);
        assert(before[picked.1 as int] == before.subrange(0, elites as int)[picked.1 as int]);
        let children = population[picked.0].crossover(&population[picked.1], table, rate, rng);
        let (first, second) = children;
        proof {
            let points = choose|points: (usize, usize)|
                {
                    &&& points.0 < table.size()
                    &&& points.1 < table.size()
                    &&& mutated(
                        first.chromosome@,
                        crossed(
                            parents[picked.0 as int].chromosome@,
                            parents[picked.1 as int].chromosome@,
                            points,
                        ),
                        points,
                        rate,
                    )
                    &&& mutated(
                        second.chromosome@,
                        crossed(
                            parents[picked.1 as int].chromosome@,
                            parents[picked.0 as int].chromosome@,
                            points,
                        ),
                        points,
                        rate,
                    )
                };
            assert(offspring_of(first, parents, rate));
            assert(offspring_of(second, parents, rate));
        }
        population.push(first);
        assert(population@.subrange(0, elites as int) =~= parents);
        if population.len() < pool_size {
            population.push(second);
            assert(population@.subrange(0, elites as int) =~= parents);
        }
    }
}

/// Replaces a generation by the next: the elite survives, the children of
/// the elite fill the other places, and the whole stands best first again.
pub fn next_generation(
    population: &mut Vec<Individual>,
    table: &DistanceTable,
    options: &GAOptions,
    rng: &mut StdRng,
)
    requires
        table.wf(),
        table.size() > 0,
        options.valid(),
        old(population).len() == options.pool_size,
        all_wf(old(population)@, table),
        best_first(old(population)@),
    ensures
        final(population).len() == options.pool_size,
        all_wf(final(population)@, table),
        best_first(final(population)@),
        forall|k: int|
            0 <= k < options.elite_count() ==> final(population)@.contains(
                #[trigger] old(population)[k],
            ),
        forall|j: int|
            0 <= j < options.pool_size ==> {
                ||| old(population)@.subrange(0, options.elite_count()).contains(
                    #[trigger] final(population)[j],
                )
                ||| offspring_of(
                    final(population)[j],
                    old(population)@.subrange(0, options.elite_count()),
                    options.mutation_chance(),
                )
            },
        final(population)[0].length <= old(population)[0].length,
{
    let count = options.elites();
    let rate = options.chance();
    let ghost elite = population@.subrange(0, count as int);
    population.truncate(count);
    reproduce(population, table, options.pool_size, rate, rng);
    let ghost grown = population@;
    sort_population(population);
    proof {
        lemma_same_members(grown, population@);
        lemma_same_members(population@, grown);
        assert forall|k: int| 0 <= k < count implies population@.contains(
            #[trigger] old(population)[k],
        ) by {
            assert(old(population)[k] == elite[k]);
            assert(elite[k] == grown.subrange(0, count as int)[k]);
            assert(grown[k] == old(population)[k]);
        }
        assert forall|j: int| 0 <= j < options.pool_size implies {
            &&& (#[trigger] population[j]).wf(table)
            &&& (elite.contains(population[j]) || offspring_of(population[j], elite, rate))
        } by {
            let m = choose|m: int| 0 <= m < grown.len() && grown[m] == population[j];
            if m < count {
                assert(grown[m] == grown.subrange(0, count as int)[m]);
                assert(elite[m] == population[j]);
            }
        }
        let kept = choose|m: int| 0 <= m < population.len() && population[m] == old(
            population,
        )[0];
        assert(population[0].length <= population[kept].length);
    }
}

/// Takes the best tour out of a population that stands best first.
pub fn best_tour(population: &Vec<Individual>, table: &DistanceTable) -> (best: (Vec<usize>, u128))
    requires
        table.size() > 0,
        population.len() > 0,
        all_wf(population@, table),
        best_first(population@),
    ensures
        best.0@ == decode(population[0].chromosome@),
        is_permutation(best.0@),
        best.0@.len() == table.size(),
        best.1 == tour_length(table@, best.0@),
        forall|i: int| 0 <= i < population.len() ==> best.1 <= (#[trigger] population[i]).length,
{
    assert(population[0].wf(table));
    (revert(&population[0].chromosome), population[0].length)
}

/// What a search returns.
#[derive(Clone, Debug)]
pub struct Solution {
    /// The best tour of the last generation.
    pub tour: Vec<usize>,
    /// The length of that tour.
    pub length: u128,
    /// The length of the best tour of every generation, from the first one
    /// drawn to the last.
    pub progress: Vec<u128>,
}

impl Solution {
    /// What holds of the solution of a search over the cities of `table`
    /// that replaced its first generation `generations` times: the tour
    /// visits every city once and has the length given; every generation
    /// left its best length, and none was worse than the one before; the
    /// tour is the best of the last generation.
    pub open spec fn wf(&self, table: &DistanceTable, generations: usize) -> bool {
        &&& is_permutation(self.tour@)
        &&& self.tour@.len() == table.size()
        &&& self.length == tour_length(table@, self.tour@)
        &&& self.progress@.len() == generations + 1
        &&& forall|k: int, l: int|
            0 <= k <= l <= generations ==> self.progress[l] <= self.progress[k]
        &&& self.length == self.progress[generations as int]
    }
}

/// Searches for a short closed tour through the cities of `table`.
///
/// Draws a first generation, replaces it `options.generations` times by the
/// next, and returns the best tour of the last one. Options that are not
/// valid are refused before anything is drawn.
pub fn solve(table: &DistanceTable, options: GAOptions, rng: &mut StdRng) -> (found: Result<
    Solution,
    ConfigError,
>)
    requires
        table.wf(),
        table.size() > 0,
    ensures
        match found {
            Ok(solution) => options.valid() && solution.wf(table, options.generations),
            Err(error) => options.fault() == Some(error),
        },
{
    match options.validate() {
        Err(error) => {
            return Err(error);
        },
        Ok(_) => {},
    }
    let mut population = initial_population(table, options.pool_size, rng);
    let ghost drawn = population@;
    sort_population(&mut population);
    proof {
        lemma_same_members(population@, drawn);
    }
    let mut progress: Vec<u128> = Vec::new();
    progress.push(population[0].length);
    let mut generation: usize = 0;
    while generation < options.generations
        invariant
            table.wf(),
            table.size() > 0,
            options.valid(),
            generation <= options.generations,
            population.len() == options.pool_size,
            all_wf(population@, table),
            best_first(population@),
            progress.len() == generation + 1,
            forall|k: int, l: int| 0 <= k <= l <= generation ==> progress[l] <= progress[k],
            population[0].length == progress[generation as int],
        decreases options.generations - generation,
    {
        next_generation(&mut population, table, &options, rng);
        progress.push(population[0].length);
        generation += 1;
    }
    let (tour, length) = best_tour(&population, table);
    Ok(Solution { tour, length, progress })
}

} // verus!
