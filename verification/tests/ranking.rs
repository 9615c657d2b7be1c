use hsaga::harmony::Harmony;
use hsaga::population::sort_population;
use std::cmp::Ordering;

fn harmony_of(cases: &[[usize; 3]]) -> Harmony {
    let mut harmony = Harmony::new(3, 2, 2, false).unwrap();
    for case in cases {
        harmony.add_test_case(case.to_vec());
    }
    harmony
}

// fitness 3, size 1
fn single() -> Harmony {
    harmony_of(&[[0, 0, 0]])
}

// fitness 6, size 2
fn pair() -> Harmony {
    harmony_of(&[[0, 0, 0], [1, 1, 1]])
}

// fitness 7, size 3
fn triple() -> Harmony {
    harmony_of(&[[0, 0, 0], [0, 0, 1], [0, 1, 0]])
}

#[test]
fn the_fixtures_are_what_they_say() {
    assert_eq!((single().fitness(), single().size()), (3, 1));
    assert_eq!((pair().fitness(), pair().size()), (6, 2));
    assert_eq!((triple().fitness(), triple().size()), (7, 3));
}

#[test]
fn more_coverage_ranks_before() {
    assert!(pair().ranks_before(&single()));
    assert!(!single().ranks_before(&pair()));
    assert!(pair() < single());
    assert!(single() > pair());
    assert_eq!(pair().partial_cmp(&single()), Some(Ordering::Less));
    assert_eq!(single().partial_cmp(&pair()), Some(Ordering::Greater));
}

#[test]
fn among_equal_coverage_the_smaller_ranks_before() {
    let two = pair();
    let three = harmony_of(&[[0, 0, 0], [0, 0, 1], [0, 1, 0]]).clone_replacing(1, &vec![0, 0, 0]);
    assert_eq!((three.fitness(), three.size()), (5, 3));
    let three_six = harmony_of(&[[0, 0, 0], [1, 1, 1]]).clone_replacing(0, &vec![0, 0, 0]);
    assert_eq!((three_six.fitness(), three_six.size()), (6, 2));
    let padded = harmony_of(&[[0, 0, 0], [0, 0, 1], [1, 1, 1]]).clone_replacing(1, &vec![0, 0, 0]);
    assert_eq!((padded.fitness(), padded.size()), (6, 3));
    assert!(two.ranks_before(&padded));
    assert!(!padded.ranks_before(&two));
    assert!(two < padded);
    assert_eq!(padded.partial_cmp(&two), Some(Ordering::Greater));
    // more coverage wins over a smaller size
    assert!(padded.ranks_before(&single()));
}

#[test]
fn harmonies_of_equal_coverage_and_size_rank_alike() {
    let a = harmony_of(&[[0, 0, 0], [1, 1, 1]]);
    let b = harmony_of(&[[0, 0, 1], [1, 1, 0]]);
    assert!(a == b);
    assert!(!(a != b));
    assert!(!a.ranks_before(&b));
    assert!(!b.ranks_before(&a));
    assert_eq!(a.partial_cmp(&b), Some(Ordering::Equal));
    assert!(a <= b && a >= b);
    assert!(a != single());
}

#[test]
fn sort_population_puts_the_best_first() {
    let mut population = vec![single(), triple(), pair(), single()];
    sort_population(&mut population);
    let ranks: Vec<(usize, usize)> = population.iter().map(|h| (h.fitness(), h.size())).collect();
    assert_eq!(ranks, vec![(7, 3), (6, 2), (3, 1), (3, 1)]);
}

#[test]
fn sort_population_keeps_the_order_of_those_that_rank_alike() {
    let first = harmony_of(&[[0, 0, 0]]);
    let second = harmony_of(&[[1, 1, 1]]);
    let third = harmony_of(&[[0, 1, 0]]);
    let mut population = vec![first, pair(), second, third];
    sort_population(&mut population);
    let heads: Vec<Vec<usize>> = population.iter().map(|h| h.test_suite()[0].clone()).collect();
    assert_eq!(heads, vec![vec![0, 0, 0], vec![0, 0, 0], vec![1, 1, 1], vec![0, 1, 0]]);
    assert_eq!(population[0].size(), 2);
    // sorting again changes nothing
    sort_population(&mut population);
    let again: Vec<Vec<usize>> = population.iter().map(|h| h.test_suite()[0].clone()).collect();
    assert_eq!(again, heads);
}

#[test]
fn sort_population_of_none_and_of_one() {
    let mut none: Vec<Harmony> = Vec::new();
    sort_population(&mut none);
    assert!(none.is_empty());
    let mut one = vec![pair()];
    sort_population(&mut one);
    assert_eq!(one.len(), 1);
    assert_eq!(one[0].fitness(), 6);
}

#[test]
fn a_clone_of_a_harmony_is_that_harmony() {
    let harmony = triple();
    let copy = harmony.clone();
    assert_eq!(copy.test_suite(), harmony.test_suite());
    assert_eq!(copy.weight_list(), harmony.weight_list());
    assert_eq!(copy.ca_map(), harmony.ca_map());
    assert_eq!(copy.fitness(), harmony.fitness());
    assert_eq!(copy.size(), harmony.size());
}
