//! Individuals: a chromosome together with the length of its tour.
//!
//! The fitness of an individual is the reciprocal of that length, so the
//! shorter of two tours is the fitter; a tour of length zero has a fitness
//! above every other.

use crate::crossover::{crossed, crossover, mutate_span, mutated};
use crate::encoding::{
    decode, invert, is_chromosome, is_permutation, lemma_decode_encode, lemma_rearranged_tour,
    revert,
};
use crate::random::{shuffle, uniform_below};
use crate::tsp::{total_distance, tour_length, DistanceTable};
use rand::rngs::StdRng;
use vstd::prelude::*;

verus! {

/// Whether the reciprocal of `length` is greater than that of `other`, the
/// reciprocal of zero being greater than any other.
pub open spec fn fitness_exceeds(length: nat, other: nat) -> bool {
    other > 0 && (length == 0 || 1 * other > 1 * length)
}

/// The shorter of two tours, and only it, has the greater fitness.
pub proof fn lemma_shorter_is_fitter(length: nat, other: nat)
    ensures
        length < other <==> fitness_exceeds(length, other),
{
}

/// A candidate tour, held as its chromosome, with the length of the tour.
#[derive(Clone, Debug)]
pub struct Individual {
    pub chromosome: Vec<usize>,
    pub length: u128,
}

impl Individual {
    /// The invariant of an individual over the cities of `table`: its
    /// chromosome has a gene for each city, and its length is that of the
    /// tour the chromosome stands for.
    pub open spec fn wf(&self, table: &DistanceTable) -> bool {
        &&& self.chromosome@.len() == table.size()
        &&& is_chromosome(self.chromosome@)
        &&& self.length == tour_length(table@, decode(self.chromosome@))
    }

    /// Makes the individual of a chromosome, scoring its tour.
    pub fn new(chromosome: &Vec<usize>, table: &DistanceTable) -> (made: Individual)
        requires
            table.wf(),
            table.size() > 0,
            chromosome.len() == table.size(),
            is_chromosome(chromosome@),
        ensures
            made.chromosome@ == chromosome@,
            made.length == tour_length(table@, decode(chromosome@)),
            made.wf(table),
    {
        let tour = revert(chromosome);
        Individual { chromosome: chromosome.clone(), length: total_distance(table, &tour) }
    }

    /// Draws an individual: every gene comes from the range of its position.
    pub fn random(table: &DistanceTable, rng: &mut StdRng) -> (drawn: Individual)
        requires
            table.wf(),
            table.size() > 0,
        ensures
            drawn.wf(table),
    {
        let n = table.len();
        let mut chromosome: Vec<usize> = Vec::new();
        let mut i: usize = 0;
        while i < n
            invariant
                i <= n,
                chromosome.len() == i,
                forall|k: int| 0 <= k < i ==> #[trigger] chromosome[k] + k < n,
            decreases n - i,
        {
            let gene = uniform_below(rng, n - i);
            chromosome.push(gene);
            i += 1;
        }
        Individual::new(&chromosome, table)
    }

    /// Breeds two children: cuts both parents at two random points, swaps
    /// the genes between the points, and mutates each swapped gene with a
    /// chance of `mutation_rate` in a million. The first child grows from
    /// `self`, the second from `other`.
    pub fn crossover(
        &self,
        other: &Self,
        table: &DistanceTable,
        mutation_rate: u32,
        rng: &mut StdRng,
    ) -> (children: (Individual, Individual))
        requires
            table.wf(),
            table.size() > 0,
            self.wf(table),
            other.wf(table),
        ensures
            children.0.wf(table),
            children.1.wf(table),
            exists|points: (usize, usize)|
                {
                    &&& points.0 < table.size()
                    &&& points.1 < table.size()
                    &&& mutated(
                        children.0.chromosome@,
                        crossed(self.chromosome@, other.chromosome@, points),
                        points,
                        mutation_rate,
                    )
                    &&& mutated(
                        children.1.chromosome@,
                        crossed(other.chromosome@, self.chromosome@, points),
                        points,
                        mutation_rate,
                    )
                },
    {
        let len = self.chromosome.len();
        let points = (uniform_below(rng, len), uniform_below(rng, len));
        let (mut first, mut second) = crossover((&self.chromosome, &other.chromosome), points);
        mutate_span(&mut first, points, mutation_rate, rng);
        mutate_span(&mut second, points, mutation_rate, rng);
        (Individual::new(&first, table), Individual::new(&second, table))
    }

    /// Whether this individual is fitter than `other`.
    pub fn fitter_than(&self, other: &Self) -> (fitter: bool)
        ensures
            fitter == fitness_exceeds(self.length as nat, other.length as nat),
    {
        self.length < other.length
    }
}

/// Draws an individual by shuffling the cities into a tour.
pub fn random_individual(table: &DistanceTable, rng: &mut StdRng) -> (drawn: Individual)
    requires
        table.wf(),
        table.size() > 0,
    ensures
        drawn.wf(table),
{
    let n = table.len();
    let mut perm: Vec<usize> = Vec::new();
    let mut i: usize = 0;
    while i < n
        invariant
            i <= n,
            perm.len() == i,
            forall|k: int| 0 <= k < i ==> perm[k] == k,
        decreases n - i,
    {
        perm.push(i);
        i += 1;
    }
    let ghost ordered = perm@;
    shuffle(&mut perm, rng);
    proof {
        lemma_rearranged_tour(ordered, perm@);
        lemma_decode_encode(perm@);
        vstd::seq_lib::to_multiset_len(ordered);
        vstd::seq_lib::to_multiset_len(perm@);
    }
    let length = total_distance(table, &perm);
    Individual { chromosome: invert(&perm), length }
}

} // verus!
