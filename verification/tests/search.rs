use rand::rngs::StdRng;
use rand::SeedableRng;
use tsp_genetic::encoding::{invert, is_valid_chromosome, is_valid_tour, revert};
use tsp_genetic::ga::{
    best_tour, initial_population, next_generation, pick_parents, reproduce, second_parent, solve,
    sort_population, ConfigError, GAOptions,
};
use tsp_genetic::individual::{random_individual, Individual};
use tsp_genetic::tsp::{total_distance, DistanceTable};

/// Cities on a line, one unit apart: the distance is the difference.
fn line(n: usize) -> DistanceTable {
    let rows = (0..n)
        .map(|i| (0..n).map(|j| if i < j { (j - i) as u64 } else { (i - j) as u64 }).collect())
        .collect();
    DistanceTable::new(rows).unwrap()
}

fn lopsided() -> DistanceTable {
    DistanceTable::new(vec![vec![0, 1, 2], vec![3, 0, 4], vec![5, 6, 0]]).unwrap()
}

fn options(pool_size: usize, elitism: i64, mutation_rate: i64, generations: usize) -> GAOptions {
    GAOptions { pool_size, elitism, mutation_rate, generations }
}

fn lengths(population: &Vec<Individual>) -> Vec<u128> {
    population.iter().map(|individual| individual.length).collect()
}

fn check_individual(individual: &Individual, table: &DistanceTable) {
    assert_eq!(individual.chromosome.len(), table.len());
    assert!(is_valid_chromosome(&individual.chromosome));
    let tour = revert(&individual.chromosome);
    assert!(is_valid_tour(&tour));
    assert_eq!(individual.length, total_distance(table, &tour));
}

#[test]
fn table_must_be_square() {
    assert!(DistanceTable::new(vec![]).is_some());
    assert!(DistanceTable::new(vec![vec![0]]).is_some());
    assert!(DistanceTable::new(vec![vec![0, 1], vec![1, 0]]).is_some());
    assert!(DistanceTable::new(vec![vec![0, 1], vec![1]]).is_none());
    assert!(DistanceTable::new(vec![vec![0, 1, 2], vec![1, 0, 2]]).is_none());
    assert!(DistanceTable::new(vec![vec![]]).is_none());
}

#[test]
fn table_hands_out_its_entries() {
    let table = lopsided();
    assert_eq!(table.len(), 3);
    assert_eq!(table.distance(0, 1), 1);
    assert_eq!(table.distance(1, 0), 3);
    assert_eq!(table.distance(2, 1), 6);
    assert_eq!(table.distance(2, 2), 0);
}

#[test]
fn total_distance_sums_the_legs_and_the_way_back() {
    let table = lopsided();
    assert_eq!(total_distance(&table, &vec![0, 1, 2]), 10);
    assert_eq!(total_distance(&table, &vec![2, 0, 1]), 10);
    assert_eq!(total_distance(&table, &vec![0, 2, 1]), 11);
    assert_eq!(total_distance(&line(5), &vec![0, 1, 2, 3, 4]), 8);
    assert_eq!(total_distance(&line(5), &vec![0, 4, 1, 3, 2]), 12);
}

#[test]
fn total_distance_of_the_smallest_worlds() {
    assert_eq!(total_distance(&line(0), &vec![]), 0);
    assert_eq!(total_distance(&line(1), &vec![0]), 0);
    let one = DistanceTable::new(vec![vec![7]]).unwrap();
    assert_eq!(total_distance(&one, &vec![0]), 7);
}

#[test]
fn total_distance_does_not_overflow() {
    let far = DistanceTable::new(vec![vec![u64::MAX, u64::MAX], vec![u64::MAX, u64::MAX]]).unwrap();
    assert_eq!(total_distance(&far, &vec![0, 1]), 2 * (u64::MAX as u128));
}

#[test]
fn new_individual_scores_the_decoded_tour() {
    let table = lopsided();
    let plain = Individual::new(&vec![0, 0, 0], &table);
    assert_eq!(plain.chromosome, vec![0, 0, 0]);
    assert_eq!(plain.length, 10);
    let other = Individual::new(&vec![0, 1, 0], &table);
    assert_eq!(other.chromosome, vec![0, 1, 0]);
    assert_eq!(other.length, 11);
}

#[test]
fn shorter_tour_is_fitter() {
    let table = lopsided();
    let short = Individual::new(&vec![0, 0, 0], &table);
    let long = Individual::new(&vec![0, 1, 0], &table);
    let equal = Individual::new(&vec![1, 1, 0], &table);
    assert!(short.fitter_than(&long));
    assert!(!long.fitter_than(&short));
    assert!(!short.fitter_than(&equal));
    assert!(!equal.fitter_than(&short));
}

#[test]
fn tour_of_length_zero_is_fitter_than_any_other() {
    let still = Individual::new(&vec![0], &line(1));
    assert_eq!(still.length, 0);
    let moving = Individual { chromosome: vec![0], length: 1 };
    assert!(still.fitter_than(&moving));
    assert!(!moving.fitter_than(&still));
    assert!(!still.fitter_than(&still));
}

#[test]
fn random_individual_has_each_gene_in_its_range() {
    let table = line(9);
    let mut rng = StdRng::seed_from_u64(1);
    for _ in 0..200 {
        let drawn = Individual::random(&table, &mut rng);
        check_individual(&drawn, &table);
        for (i, gene) in drawn.chromosome.iter().enumerate() {
            assert!(*gene < 9 - i);
        }
    }
}

#[test]
fn random_draws_reach_every_tour_of_three_cities() {
    let table = line(3);
    let mut rng = StdRng::seed_from_u64(2);
    let mut seen: Vec<Vec<usize>> = Vec::new();
    for _ in 0..200 {
        let tour = revert(&Individual::random(&table, &mut rng).chromosome);
        if !seen.contains(&tour) {
            seen.push(tour);
        }
    }
    assert_eq!(seen.len(), 6);
}

#[test]
fn shuffled_individual_is_a_tour_with_its_length() {
    let table = line(9);
    let mut rng = StdRng::seed_from_u64(3);
    let mut moved = false;
    for _ in 0..50 {
        let drawn = random_individual(&table, &mut rng);
        check_individual(&drawn, &table);
        let tour = revert(&drawn.chromosome);
        assert_eq!(invert(&tour), drawn.chromosome);
        if tour != (0..9).collect::<Vec<usize>>() {
            moved = true;
        }
    }
    assert!(moved);
}

#[test]
fn children_at_rate_zero_are_a_crossover_of_their_parents() {
    let table = line(7);
    let one = Individual::new(&vec![4, 1, 1, 1, 2, 0, 0], &table);
    let two = Individual::new(&vec![3, 1, 2, 1, 0, 1, 0], &table);
    let mut rng = StdRng::seed_from_u64(4);
    for _ in 0..100 {
        let (first, second) = one.crossover(&two, &table, 0, &mut rng);
        check_individual(&first, &table);
        check_individual(&second, &table);
        for j in 0..7 {
            let kept = first.chromosome[j] == one.chromosome[j]
                && second.chromosome[j] == two.chromosome[j];
            let swapped = first.chromosome[j] == two.chromosome[j]
                && second.chromosome[j] == one.chromosome[j];
            assert!(kept || swapped);
        }
    }
}

#[test]
fn children_under_mutation_are_individuals() {
    let table = line(7);
    let one = Individual::new(&vec![4, 1, 1, 1, 2, 0, 0], &table);
    let two = Individual::new(&vec![3, 1, 2, 1, 0, 1, 0], &table);
    let mut rng = StdRng::seed_from_u64(5);
    for rate in [1, 5_000, 500_000, 1_000_000] {
        for _ in 0..50 {
            let (first, second) = one.crossover(&two, &table, rate, &mut rng);
            check_individual(&first, &table);
            check_individual(&second, &table);
        }
    }
}

#[test]
fn parents_are_two_different_members() {
    let mut rng = StdRng::seed_from_u64(6);
    for count in 2..6 {
        let mut seen = vec![vec![false; count]; count];
        for _ in 0..400 {
            let (a, b) = pick_parents(count, &mut rng);
            assert!(a < count);
            assert!(b < count);
            assert_ne!(a, b);
            seen[a][b] = true;
        }
        for a in 0..count {
            for b in 0..count {
                assert_eq!(seen[a][b], a != b);
            }
        }
    }
}

#[test]
fn options_are_checked_in_order() {
    assert_eq!(options(10, 150_000, 5_000, 3).validate(), Ok(()));
    assert_eq!(options(1, 0, 0, 0).validate(), Ok(()));
    assert_eq!(options(10, 1_000_000, 2_000_000, 3).validate(), Ok(()));
    assert_eq!(options(0, 150_000, 5_000, 3).validate(), Err(ConfigError::EmptyPool));
    assert_eq!(options(0, -1, -1, 3).validate(), Err(ConfigError::EmptyPool));
    assert_eq!(options(10, -1, 5_000, 3).validate(), Err(ConfigError::ElitismOutOfRange));
    assert_eq!(options(10, 1_000_001, -1, 3).validate(), Err(ConfigError::ElitismOutOfRange));
    assert_eq!(options(10, 150_000, -1, 3).validate(), Err(ConfigError::NegativeMutationRate));
}

#[test]
fn elite_is_the_share_rounded_down_and_at_least_two() {
    assert_eq!(options(100, 150_000, 0, 0).elites(), 15);
    assert_eq!(options(100, 159_999, 0, 0).elites(), 15);
    assert_eq!(options(100, 1_000_000, 0, 0).elites(), 100);
    assert_eq!(options(10, 500_000, 0, 0).elites(), 5);
    assert_eq!(options(100, 0, 0, 0).elites(), 2);
    assert_eq!(options(100, 19_999, 0, 0).elites(), 2);
    assert_eq!(options(3, 999_999, 0, 0).elites(), 2);
    assert_eq!(options(2, 0, 0, 0).elites(), 2);
    assert_eq!(options(1, 1_000_000, 0, 0).elites(), 1);
    assert_eq!(options(usize::MAX, 1_000_000, 0, 0).elites(), usize::MAX);
}

#[test]
fn mutation_chance_is_capped_at_certainty() {
    assert_eq!(options(10, 0, 0, 0).chance(), 0);
    assert_eq!(options(10, 0, 5_000, 0).chance(), 5_000);
    assert_eq!(options(10, 0, 1_000_000, 0).chance(), 1_000_000);
    assert_eq!(options(10, 0, i64::MAX, 0).chance(), 1_000_000);
}

#[test]
fn sorting_puts_the_shortest_first_and_keeps_everyone() {
    let mut population: Vec<Individual> = [5u128, 3, 9, 3, 0, 7, 1]
        .iter()
        .enumerate()
        .map(|(tag, length)| Individual { chromosome: vec![tag], length: *length })
        .collect();
    sort_population(&mut population);
    assert_eq!(lengths(&population), vec![0, 1, 3, 3, 5, 7, 9]);
    let mut tags: Vec<usize> = population.iter().map(|individual| individual.chromosome[0]).collect();
    tags.sort();
    assert_eq!(tags, vec![0, 1, 2, 3, 4, 5, 6]);
    for individual in &population {
        let tag = individual.chromosome[0];
        assert_eq!(individual.length, [5u128, 3, 9, 3, 0, 7, 1][tag]);
    }
}

#[test]
fn sorting_the_smallest_populations() {
    let mut none: Vec<Individual> = Vec::new();
    sort_population(&mut none);
    assert!(none.is_empty());
    let mut one = vec![Individual { chromosome: vec![0], length: 4 }];
    sort_population(&mut one);
    assert_eq!(lengths(&one), vec![4]);
}

#[test]
fn first_generation_fills_the_pool() {
    let table = line(6);
    let mut rng = StdRng::seed_from_u64(7);
    for pool_size in [0, 1, 2, 17] {
        let population = initial_population(&table, pool_size, &mut rng);
        assert_eq!(population.len(), pool_size);
        for individual in &population {
            check_individual(individual, &table);
        }
    }
}

#[test]
fn reproduction_fills_the_pool_exactly() {
    let table = line(6);
    let mut rng = StdRng::seed_from_u64(8);
    for pool_size in [3, 4, 5, 10, 11] {
        let mut population = initial_population(&table, 3, &mut rng);
        let parents: Vec<Vec<usize>> =
            population.iter().map(|individual| individual.chromosome.clone()).collect();
        reproduce(&mut population, &table, pool_size, 0, &mut rng);
        assert_eq!(population.len(), pool_size);
        for (k, parent) in parents.iter().enumerate() {
            assert_eq!(&population[k].chromosome, parent);
        }
        for individual in &population {
            check_individual(individual, &table);
        }
        for child in &population[3..] {
            for j in 0..6 {
                assert!(parents.iter().any(|parent| parent[j] == child.chromosome[j]));
            }
        }
    }
}

#[test]
fn next_generation_keeps_the_elite_and_the_size() {
    let table = line(8);
    let mut rng = StdRng::seed_from_u64(9);
    let chosen = options(21, 150_000, 5_000, 0);
    let mut population = initial_population(&table, 21, &mut rng);
    sort_population(&mut population);
    for _ in 0..20 {
        let elite: Vec<Vec<usize>> =
            population[..3].iter().map(|individual| individual.chromosome.clone()).collect();
        let best = population[0].length;
        next_generation(&mut population, &table, &chosen, &mut rng);
        assert_eq!(population.len(), 21);
        assert!(population[0].length <= best);
        for pair in population.windows(2) {
            assert!(pair[0].length <= pair[1].length);
        }
        for individual in &population {
            check_individual(individual, &table);
        }
        for survivor in &elite {
            assert!(population.iter().any(|individual| &individual.chromosome == survivor));
        }
    }
}

#[test]
fn full_elitism_leaves_the_generation_as_it_is() {
    let table = line(8);
    let mut rng = StdRng::seed_from_u64(10);
    let mut population = initial_population(&table, 9, &mut rng);
    sort_population(&mut population);
    let before: Vec<Vec<usize>> =
        population.iter().map(|individual| individual.chromosome.clone()).collect();
    next_generation(&mut population, &table, &options(9, 1_000_000, 1_000_000, 0), &mut rng);
    let after: Vec<Vec<usize>> =
        population.iter().map(|individual| individual.chromosome.clone()).collect();
    assert_eq!(after, before);
}

#[test]
fn solve_refuses_options_that_are_not_valid() {
    let table = line(5);
    let mut rng = StdRng::seed_from_u64(20);
    assert_eq!(solve(&table, options(0, 150_000, 0, 5), &mut rng).err(), Some(ConfigError::EmptyPool));
    assert_eq!(
        solve(&table, options(10, 1_500_000, 0, 5), &mut rng).err(),
        Some(ConfigError::ElitismOutOfRange)
    );
    assert_eq!(
        solve(&table, options(10, -150_000, 0, 5), &mut rng).err(),
        Some(ConfigError::ElitismOutOfRange)
    );
    assert_eq!(
        solve(&table, options(10, 150_000, -5, 5), &mut rng).err(),
        Some(ConfigError::NegativeMutationRate)
    );
}

#[test]
fn solve_runs_every_generation_and_returns_a_tour() {
    let table = line(10);
    let mut rng = StdRng::seed_from_u64(21);
    for generations in [0, 1, 2, 25] {
        let solution = solve(&table, options(30, 150_000, 5_000, generations), &mut rng).unwrap();
        assert_eq!(solution.progress.len(), generations + 1);
        assert_eq!(solution.tour.len(), 10);
        assert!(is_valid_tour(&solution.tour));
        let mut cities = solution.tour.clone();
        cities.sort();
        assert_eq!(cities, (0..10).collect::<Vec<usize>>());
        assert_eq!(solution.length, total_distance(&table, &solution.tour));
        assert_eq!(solution.length, solution.progress[generations]);
    }
}

#[test]
fn best_length_never_grows() {
    let table = line(12);
    for (seed, elitism) in [(30u64, 0i64), (31, 150_000), (32, 500_000), (33, 1_000_000)] {
        let mut rng = StdRng::seed_from_u64(seed);
        let solution = solve(&table, options(20, elitism, 20_000, 40), &mut rng).unwrap();
        for pair in solution.progress.windows(2) {
            assert!(pair[1] <= pair[0]);
        }
    }
}

#[test]
fn search_finds_the_shortest_tour_of_a_small_world() {
    // On a line every tour is at least twice the span; going there and back is.
    let table = line(6);
    let mut rng = StdRng::seed_from_u64(40);
    let solution = solve(&table, options(60, 200_000, 20_000, 60), &mut rng).unwrap();
    assert_eq!(solution.length, 10);
}

#[test]
fn same_seed_gives_the_same_search() {
    let table = line(11);
    let chosen = options(25, 150_000, 10_000, 30);
    let one = solve(&table, chosen, &mut StdRng::seed_from_u64(50)).unwrap();
    let two = solve(&table, chosen, &mut StdRng::seed_from_u64(50)).unwrap();
    assert_eq!(one.progress, two.progress);
    assert_eq!(one.tour, two.tour);
    assert_eq!(one.length, two.length);
}

#[test]
fn pool_of_one_is_its_own_elite() {
    let table = line(4);
    let mut rng = StdRng::seed_from_u64(60);
    let solution = solve(&table, options(1, 0, 1_000_000, 10), &mut rng).unwrap();
    assert_eq!(solution.progress.len(), 11);
    assert!(solution.progress.iter().all(|length| *length == solution.length));
    assert!(is_valid_tour(&solution.tour));
}

#[test]
fn single_city_has_a_tour_of_length_zero() {
    let table = line(1);
    let mut rng = StdRng::seed_from_u64(61);
    let solution = solve(&table, options(4, 500_000, 1_000_000, 3), &mut rng).unwrap();
    assert_eq!(solution.tour, vec![0]);
    assert_eq!(solution.length, 0);
    assert_eq!(solution.progress, vec![0, 0, 0, 0]);
}

#[test]
fn best_tour_is_the_first_of_a_sorted_population() {
    let table = lopsided();
    let mut population = vec![
        Individual::new(&vec![0, 1, 0], &table),
        Individual::new(&vec![1, 1, 0], &table),
        Individual::new(&vec![0, 1, 0], &table),
    ];
    sort_population(&mut population);
    let (tour, length) = best_tour(&population, &table);
    assert_eq!(tour, vec![2, 0, 1]);
    assert_eq!(length, 10);
}

#[test]
fn second_parent_steps_over_the_first() {
    assert_eq!(second_parent(0, 0), 1);
    assert_eq!(second_parent(0, 3), 4);
    assert_eq!(second_parent(2, 0), 0);
    assert_eq!(second_parent(2, 1), 1);
    assert_eq!(second_parent(2, 2), 3);
    assert_eq!(second_parent(2, 3), 4);
    assert_eq!(second_parent(4, 3), 3);
    assert_eq!(second_parent(usize::MAX, usize::MAX - 1), usize::MAX - 1);
}

#[test]
fn second_parent_reaches_every_other_member_once() {
    for count in 2..7usize {
        for first in 0..count {
            let reached: Vec<usize> =
                (0..count - 1).map(|other| second_parent(first, other)).collect();
            let others: Vec<usize> = (0..count).filter(|member| *member != first).collect();
            assert_eq!(reached, others);
        }
    }
}
