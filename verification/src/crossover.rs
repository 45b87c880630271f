//! Two-point crossover over chromosomes, and per-gene mutation.
//!
//! Both work on chromosomes rather than tours: every position of a
//! chromosome has a range of its own, so genes can be swapped between
//! parents, or drawn afresh, and the result is a chromosome again.

use crate::encoding::is_chromosome;
use crate::random::uniform_below;
use rand::rngs::StdRng;
use vstd::prelude::*;

verus! {

/// The denominator of a rate: rates are given in millionths.
pub const MILLION: u32 = 1_000_000;

/// How many steps forward lead from `from` to `to` on a ring of `n` positions.
pub open spec fn cyclic_distance(n: int, from: int, to: int) -> int {
    if from <= to {
        to - from
    } else {
        n - from + to
    }
}

/// Whether position `j` lies in the span between two cut points: from the
/// first up to but excluding the second, going round the end of the
/// chromosome where the second is the smaller one.
pub open spec fn in_span(points: (usize, usize), j: int) -> bool {
    if points.0 <= points.1 {
        points.0 <= j < points.1
    } else {
        j >= points.0 || j < points.1
    }
}

/// The span holds the positions that a walk from the first cut point reaches
/// in fewer steps than lie between the two points.
pub proof fn lemma_span_is_walk(n: int, points: (usize, usize), j: int)
    requires
        points.0 < n,
        points.1 < n,
        0 <= j < n,
    ensures
        in_span(points, j) <==> cyclic_distance(n, points.0 as int, j) < cyclic_distance(
            n,
            points.0 as int,
            points.1 as int,
        ),
{
}

/// The child that keeps `own` outside the span and takes `other` inside it.
pub open spec fn crossed(own: Seq<usize>, other: Seq<usize>, points: (usize, usize)) -> Seq<usize> {
    Seq::new(
        own.len(),
        |j: int|
            if in_span(points, j) {
                other[j]
            } else {
                own[j]
            },
    )
}

/// Crossing two chromosomes gives a chromosome.
pub proof fn lemma_crossed_valid(own: Seq<usize>, other: Seq<usize>, points: (usize, usize))
    requires
        is_chromosome(own),
        is_chromosome(other),
        own.len() == other.len(),
    ensures
        is_chromosome(crossed(own, other, points)),
{
    let child = crossed(own, other, points);
    assert forall|j: int| 0 <= j < child.len() implies #[trigger] child[j] + j < child.len() by {
        assert(own[j] + j < own.len());
        assert(other[j] + j < other.len());
    }
}

/// With both cut points equal, the span is empty and the child is a copy.
pub proof fn lemma_equal_cuts_copy(own: Seq<usize>, other: Seq<usize>, points: (usize, usize))
    requires
        points.0 == points.1,
    ensures
        crossed(own, other, points) == own,
{
    assert(crossed(own, other, points) =~= own);
}

/// Swaps the genes of two parents between two cut points.
///
/// The span starts at `points.0` and ends before `points.1`, going round
/// the end of the chromosome where the second point is the smaller one.
pub fn crossover(parents: (&Vec<usize>, &Vec<usize>), points: (usize, usize)) -> (offsprings: (
    Vec<usize>,
    Vec<usize>,
))
    requires
        parents.0.len() == parents.1.len(),
        points.0 < parents.0.len(),
        points.1 < parents.0.len(),
    ensures
        offsprings.0@ == crossed(parents.0@, parents.1@, points),
        offsprings.1@ == crossed(parents.1@, parents.0@, points),
        is_chromosome(parents.0@) && is_chromosome(parents.1@) ==> is_chromosome(offsprings.0@)
            && is_chromosome(offsprings.1@),
{
    let len = parents.0.len();
    let pns = if points.0 <= points.1 {
        points.1 - points.0
    } else {
        len - points.0 + points.1
    };
    let mut first = parents.0.clone();
    let mut second = parents.1.clone();
    let mut i: usize = 0;
    let mut j: usize = points.0;
    while i < pns
        invariant
            len == parents.0.len(),
            len == parents.1.len(),
            points.0 < len,
            points.1 < len,
            pns == cyclic_distance(len as int, points.0 as int, points.1 as int),
            i <= pns,
            j < len,
            cyclic_distance(len as int, points.0 as int, j as int) == i,
            first.len() == len,
            second.len() == len,
            forall|k: int|
                0 <= k < len ==> #[trigger] first[k] == if cyclic_distance(
                    len as int,
                    points.0 as int,
                    k,
                ) < i {
                    parents.1[k]
                } else {
                    parents.0[k]
                },
            forall|k: int|
                0 <= k < len ==> #[trigger] second[k] == if cyclic_distance(
                    len as int,
                    points.0 as int,
                    k,
                ) < i {
                    parents.0[k]
                } else {
                    parents.1[k]
                },
        decreases pns - i,
    {
        first[j] = parents.1[j];
        second[j] = parents.0[j];
        j = if j + 1 == len {
            0
        } else {
            j + 1
        };
        i += 1;
    }
    proof {
        assert(first@ =~= crossed(parents.0@, parents.1@, points));
        assert(second@ =~= crossed(parents.1@, parents.0@, points));
        if is_chromosome(parents.0@) && is_chromosome(parents.1@) {
            lemma_crossed_valid(parents.0@, parents.1@, points);
            lemma_crossed_valid(parents.1@, parents.0@, points);
        }
    }
    (first, second)
}

/// What mutation at `rate` millionths can make of `before`: genes outside
/// the span stay; a gene inside it stays, unless the rate is certain, or is
/// any value of its position's range, unless the rate is zero.
pub open spec fn mutated(
    after: Seq<usize>,
    before: Seq<usize>,
    points: (usize, usize),
    rate: u32,
) -> bool {
    &&& after.len() == before.len()
    &&& forall|j: int|
        0 <= j < after.len() ==> if in_span(points, j) {
            ||| rate < MILLION && #[trigger] after[j] == before[j]
            ||| rate > 0 && after[j] + j < after.len()
        } else {
            after[j] == before[j]
        }
}

/// At rate zero nothing mutates.
pub proof fn lemma_no_mutation(after: Seq<usize>, before: Seq<usize>, points: (usize, usize))
    requires
        mutated(after, before, points, 0),
    ensures
        after == before,
{
    assert(after =~= before);
}

/// With both cut points equal no gene is swapped and none mutates: the
/// child is a copy, whatever the rate.
pub proof fn lemma_equal_cuts_breed_copy(
    child: Seq<usize>,
    own: Seq<usize>,
    other: Seq<usize>,
    points: (usize, usize),
    rate: u32,
)
    requires
        points.0 == points.1,
        mutated(child, crossed(own, other, points), points, rate),
    ensures
        child == own,
{
    assert(child =~= own);
}

/// Mutation makes a chromosome of a chromosome.
pub proof fn lemma_mutated_valid(
    after: Seq<usize>,
    before: Seq<usize>,
    points: (usize, usize),
    rate: u32,
)
    requires
        is_chromosome(before),
        mutated(after, before, points, rate),
    ensures
        is_chromosome(after),
{
    assert forall|j: int| 0 <= j < after.len() implies #[trigger] after[j] + j < after.len() by {
        assert(before[j] + j < before.len());
    }
}

/// Whether a gene mutates: it does where its draw, one of a million equally
/// likely values, lies below the rate.
pub fn mutation_due(chance: usize, rate: u32) -> (due: bool)
    ensures
        due == (chance < rate),
{
    chance < rate as usize
}

/// Puts a freshly drawn value in the place of the gene at `position`.
pub fn replace_gene(genes: &mut Vec<usize>, position: usize, fresh: usize)
    requires
        position < old(genes).len(),
    ensures
        final(genes)@ == old(genes)@.update(position as int, fresh),
{
    genes[position] = fresh;
}

/// Mutates the genes in the span between two cut points, each with a chance
/// of `rate` in a million: a gene that mutates is drawn afresh from the
/// range of its position.
pub fn mutate_span(genes: &mut Vec<usize>, points: (usize, usize), rate: u32, rng: &mut StdRng)
    requires
        points.0 < old(genes).len(),
        points.1 < old(genes).len(),
    ensures
        mutated(final(genes)@, old(genes)@, points, rate),
        is_chromosome(old(genes)@) ==> is_chromosome(final(genes)@),
{
    let len = genes.len();
    let pns = if points.0 <= points.1 {
        points.1 - points.0
    } else {
        len - points.0 + points.1
    };
    let ghost before = genes@;
    let mut i: usize = 0;
    let mut j: usize = points.0;
    while i < pns
        invariant
            before.len() == len,
            genes.len() == len,
            points.0 < len,
            points.1 < len,
            pns == cyclic_distance(len as int, points.0 as int, points.1 as int),
            i <= pns,
            j < len,
            cyclic_distance(len as int, points.0 as int, j as int) == i,
            forall|k: int|
                0 <= k < len ==> if cyclic_distance(len as int, points.0 as int, k) < i {
                    ||| rate < MILLION && #[trigger] genes[k] == before[k]
                    ||| rate > 0 && genes[k] + k < len
                } else {
                    genes[k] == before[k]
                },
        decreases pns - i,
    {
        let chance = uniform_below(rng, MILLION as usize);
        if mutation_due(chance, rate) {
            let fresh = uniform_below(rng, len - j);
            replace_gene(genes, j, fresh);
        }
        j = if j + 1 == len {
            0
        } else {
            j + 1
        };
        i += 1;
    }
    proof {
        assert forall|k: int| 0 <= k < len implies if in_span(points, k) {
            ||| rate < MILLION && #[trigger] genes[k] == before[k]
            ||| rate > 0 && genes[k] + k < len
        } else {
            genes[k] == before[k]
        } by {
            lemma_span_is_walk(len as int, points, k);
        }
        if is_chromosome(before) {
            lemma_mutated_valid(genes@, before, points, rate);
        }
    }
}

} // verus!
