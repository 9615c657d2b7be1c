use hsaga::config::{exhaustive_size, full_coverage, Config, ConfigError, UNIT};
use hsaga::harmony::Harmony;
use hsaga::search::{draw_move, evolve, hsaga, populate, replay, Move, RunOutcome};

fn recorded_seeds() -> Vec<Vec<usize>> {
    vec![vec![1, 0, 1], vec![1, 1, 0], vec![1, 1, 1]]
}

fn recorded_moves() -> Vec<Move> {
    vec![
        Move::Guided { harmony: 2, member: 0, r1: 8888332192509131, r2: 8010397172694565 },
        Move::Guided { harmony: 1, member: 0, r1: 751416242921112, r2: 8974857476622501 },
        Move::Guided { harmony: 2, member: 0, r1: 4805439052324753, r2: 6759969588773936 },
        Move::Resample { harmony: 0, position: 1, replacement: vec![1, 0, 0] },
        Move::Guided { harmony: 1, member: 0, r1: 3722573253626326, r2: 560940173188447 },
        Move::Guided { harmony: 0, member: 2, r1: 4331991914828533, r2: 3872602768177305 },
        Move::Guided { harmony: 2, member: 1, r1: 2045921912495705, r2: 6625439099782383 },
        Move::Guided { harmony: 0, member: 0, r1: 8136124331455266, r2: 2490706856863376 },
        Move::Resample { harmony: 1, position: 0, replacement: vec![0, 0, 1] },
        Move::Guided { harmony: 1, member: 1, r1: 4024131310368479, r2: 2214500668249421 },
        Move::Resample { harmony: 0, position: 0, replacement: vec![0, 1, 1] },
        Move::Guided { harmony: 0, member: 0, r1: 2836421753313545, r2: 272948804420826 },
        Move::Resample { harmony: 0, position: 2, replacement: vec![1, 1, 0] },
    ]
}

fn ranks_of(population: &Vec<Harmony>) -> Vec<(usize, usize)> {
    population.iter().map(|h| (h.fitness(), h.size())).collect()
}

fn suites_of(population: &Vec<Harmony>) -> Vec<Vec<Vec<usize>>> {
    population.iter().map(|h| h.test_suite().clone()).collect()
}

#[test]
fn populate_seeds_one_harmony_for_each_seed() {
    let population = populate(3, 2, 2, false, &recorded_seeds()).unwrap();
    assert_eq!(ranks_of(&population), vec![(3, 1), (3, 1), (3, 1)]);
    assert_eq!(
        suites_of(&population),
        vec![vec![vec![1, 0, 1]], vec![vec![1, 1, 0]], vec![vec![1, 1, 1]]]
    );
}

#[test]
fn populate_refuses_a_bad_space_no_seed_and_a_foreign_seed() {
    assert!(matches!(
        populate(2, 2, 2, false, &recorded_seeds()),
        Err(ConfigError::TooFewParameters)
    ));
    assert!(matches!(populate(3, 2, 2, false, &vec![]), Err(ConfigError::EmptyPopulation)));
    assert!(matches!(
        populate(3, 2, 2, false, &vec![vec![0, 0, 0], vec![0, 2, 0]]),
        Err(ConfigError::ForeignTestCase)
    ));
    assert!(matches!(
        populate(3, 2, 2, false, &vec![vec![0, 0]]),
        Err(ConfigError::ForeignTestCase)
    ));
    // the space is looked at first, then the number of seeds
    assert!(matches!(populate(3, 1, 2, false, &vec![]), Err(ConfigError::AlphabetOutOfRange)));
}

#[test]
fn evolve_makes_the_recorded_generations() {
    let mut population = populate(3, 2, 2, false, &recorded_seeds()).unwrap();
    let expected: Vec<Vec<(usize, usize)>> = vec![
        vec![(5, 2), (3, 1), (3, 1)],
        vec![(5, 2), (3, 1), (3, 1)],
        vec![(5, 2), (5, 2), (3, 1)],
        vec![(6, 2), (5, 2), (5, 2)],
        vec![(7, 3), (6, 2), (5, 2)],
        vec![(7, 3), (6, 2), (5, 2)],
        vec![(7, 3), (6, 2), (5, 2)],
        vec![(7, 3), (6, 2), (5, 2)],
        vec![(7, 3), (6, 2), (6, 2)],
        vec![(7, 3), (6, 2), (6, 2)],
        vec![(8, 3), (7, 3), (6, 2)],
        vec![(10, 4), (7, 3), (6, 2)],
        vec![(12, 4), (10, 4), (7, 3)],
    ];
    for (mv, ranks) in recorded_moves().iter().zip(expected.iter()) {
        assert!(evolve(&mut population, mv));
        assert_eq!(&ranks_of(&population), ranks);
    }
    assert_eq!(
        suites_of(&population),
        vec![
            vec![vec![0, 1, 1], vec![1, 0, 1], vec![1, 1, 0], vec![0, 0, 0]],
            vec![vec![0, 1, 1], vec![1, 0, 1], vec![1, 0, 0], vec![0, 0, 0]],
            vec![vec![1, 1, 1], vec![1, 0, 1], vec![1, 0, 0]],
        ]
    );
}

#[test]
fn evolve_guided_move_offers_the_candidate_to_the_chosen_harmony() {
    let mut population = populate(3, 2, 2, false, &recorded_seeds()).unwrap();
    // 111 pulled toward the best harmony's 101 by any draw above zero gives 101
    assert!(evolve(&mut population, &Move::Guided { harmony: 2, member: 0, r1: 0, r2: 1 }));
    assert_eq!(
        suites_of(&population),
        vec![vec![vec![1, 1, 1], vec![1, 0, 1]], vec![vec![1, 0, 1]], vec![vec![1, 1, 0]]]
    );
    assert_eq!(population[0].weight_list(), &vec![3, 2]);
}

#[test]
fn evolve_guided_move_that_adds_nothing_leaves_the_population() {
    let mut population = populate(3, 2, 2, false, &recorded_seeds()).unwrap();
    let before = suites_of(&population);
    // without a pull the candidate is the test case itself
    assert!(evolve(&mut population, &Move::Guided { harmony: 1, member: 0, r1: 0, r2: 0 }));
    assert_eq!(suites_of(&population), before);
}

#[test]
fn evolve_resampling_replaces_the_worst_only_by_a_better_copy() {
    let mut population = populate(3, 2, 2, false, &recorded_seeds()).unwrap();
    let before = suites_of(&population);
    // a copy of one test case ranks like the worst and is dropped
    assert!(evolve(
        &mut population,
        &Move::Resample { harmony: 0, position: 0, replacement: vec![0, 0, 0] }
    ));
    assert_eq!(suites_of(&population), before);
    assert!(evolve(&mut population, &Move::Guided { harmony: 2, member: 0, r1: 0, r2: 1 }));
    // a copy of the grown harmony is better than the worst and takes its place
    assert!(evolve(
        &mut population,
        &Move::Resample { harmony: 0, position: 1, replacement: vec![0, 0, 0] }
    ));
    assert_eq!(ranks_of(&population), vec![(6, 2), (5, 2), (3, 1)]);
    assert_eq!(
        suites_of(&population),
        vec![
            vec![vec![1, 1, 1], vec![0, 0, 0]],
            vec![vec![1, 1, 1], vec![1, 0, 1]],
            vec![vec![1, 0, 1]],
        ]
    );
}

#[test]
fn evolve_passes_over_a_move_that_does_not_fit() {
    let mut population = populate(3, 2, 2, false, &recorded_seeds()).unwrap();
    let before = suites_of(&population);
    let misfits = vec![
        Move::Guided { harmony: 3, member: 0, r1: 0, r2: 0 },
        Move::Guided { harmony: 0, member: 1, r1: 0, r2: 0 },
        Move::Guided { harmony: 0, member: 0, r1: UNIT, r2: 0 },
        Move::Guided { harmony: 0, member: 0, r1: 0, r2: UNIT },
        Move::Resample { harmony: 3, position: 0, replacement: vec![0, 0, 0] },
        Move::Resample { harmony: 0, position: 1, replacement: vec![0, 0, 0] },
        Move::Resample { harmony: 0, position: 0, replacement: vec![0, 0] },
        Move::Resample { harmony: 0, position: 0, replacement: vec![0, 2, 0] },
    ];
    for mv in misfits.iter() {
        assert!(!evolve(&mut population, mv));
        assert_eq!(suites_of(&population), before);
    }
}

#[test]
fn replay_gives_the_recorded_run() {
    let outcome = replay(3, 2, 2, false, &recorded_seeds(), &recorded_moves()).unwrap();
    assert!(outcome.is_converged());
    let best = outcome.into_harmony();
    assert_eq!(
        best.test_suite(),
        &vec![vec![0, 1, 1], vec![1, 0, 1], vec![1, 1, 0], vec![0, 0, 0]]
    );
    assert_eq!(best.weight_list(), &vec![3, 3, 3, 3]);
    assert_eq!(best.fitness(), 12);
    assert_eq!(best.size(), 4);
    assert!(best.ca_map().iter().all(|row| row.iter().all(|&cell| cell != 0)));
}

#[test]
fn replay_with_the_same_seeds_and_moves_gives_the_same_suites() {
    for print_map in [false, true] {
        for upto in 0..=13 {
            let moves: Vec<Move> = recorded_moves().into_iter().take(upto).collect();
            let first = replay(3, 2, 2, print_map, &recorded_seeds(), &moves).unwrap();
            let second = replay(3, 2, 2, print_map, &recorded_seeds(), &moves).unwrap();
            assert_eq!(first.is_converged(), second.is_converged());
            assert_eq!(first.best().test_suite(), second.best().test_suite());
            assert_eq!(first.best().weight_list(), second.best().weight_list());
            assert_eq!(first.best().ca_map(), second.best().ca_map());
            assert_eq!(first.best().fitness(), second.best().fitness());
            assert_eq!(first.is_converged(), upto == 13);
        }
    }
}

#[test]
fn replay_ends_with_the_first_generation_that_covers_every_cell() {
    let mut moves = recorded_moves();
    moves.push(Move::Resample { harmony: 0, position: 0, replacement: vec![1, 1, 1] });
    moves.push(Move::Guided { harmony: 1, member: 0, r1: 5, r2: 5 });
    let outcome = replay(3, 2, 2, false, &recorded_seeds(), &moves).unwrap();
    assert!(matches!(outcome, RunOutcome::Converged(_)));
    assert_eq!(
        outcome.best().test_suite(),
        &vec![vec![0, 1, 1], vec![1, 0, 1], vec![1, 1, 0], vec![0, 0, 0]]
    );
}

#[test]
fn replay_out_of_moves_gives_the_best_so_far() {
    let moves: Vec<Move> = recorded_moves().into_iter().take(5).collect();
    let outcome = replay(3, 2, 2, false, &recorded_seeds(), &moves).unwrap();
    assert!(matches!(outcome, RunOutcome::OutOfBudget(_)));
    assert!(!outcome.is_converged());
    assert_eq!(outcome.best().test_suite(), &vec![vec![1, 1, 1], vec![1, 0, 1], vec![1, 0, 0]]);
    assert_eq!(outcome.best().fitness(), 7);
    let none = replay(3, 2, 2, false, &recorded_seeds(), &vec![]).unwrap();
    assert!(!none.is_converged());
    assert_eq!(none.best().test_suite(), &vec![vec![1, 0, 1]]);
}

#[test]
fn replay_records_the_covering_test_case_when_asked() {
    let outcome = replay(3, 2, 2, true, &recorded_seeds(), &recorded_moves()).unwrap();
    let best = outcome.into_harmony();
    // suite 011, 101, 110, 000; pairs (0,1), (0,2), (1,2); cells 00, 01, 10, 11
    assert_eq!(best.ca_map(), &vec![vec![4, 1, 2, 3], vec![4, 1, 3, 2], vec![4, 2, 3, 1]]);
}

#[test]
fn replay_refuses_what_populate_refuses() {
    assert!(matches!(
        replay(3, 2, 1, false, &recorded_seeds(), &recorded_moves()),
        Err(ConfigError::StrengthOutOfRange)
    ));
    assert!(matches!(
        replay(3, 2, 2, false, &vec![], &recorded_moves()),
        Err(ConfigError::EmptyPopulation)
    ));
    assert!(matches!(
        replay(3, 2, 2, false, &vec![vec![0, 0, 7]], &recorded_moves()),
        Err(ConfigError::ForeignTestCase)
    ));
}

#[test]
fn draw_move_fits_the_population() {
    let population = populate(4, 3, 2, false, &vec![vec![0, 1, 2, 0], vec![2, 2, 1, 0]]).unwrap();
    let mut guided = 0;
    let mut resampled = 0;
    for _ in 0..400 {
        match draw_move(&population, UNIT / 2) {
            Move::Guided { harmony, member, r1, r2 } => {
                assert!(harmony < 2 && member == 0 && r1 < UNIT && r2 < UNIT);
                guided += 1;
            }
            Move::Resample { harmony, position, replacement } => {
                assert!(harmony < 2 && position == 0);
                assert!(population[harmony].admits(&replacement));
                resampled += 1;
            }
        }
    }
    assert!(guided > 0 && resampled > 0);
}

#[test]
fn draw_move_follows_the_adjustment_rate_at_its_ends() {
    let population = populate(3, 2, 2, false, &recorded_seeds()).unwrap();
    for _ in 0..100 {
        assert!(matches!(draw_move(&population, UNIT), Move::Guided { .. }));
        assert!(matches!(draw_move(&population, 0), Move::Resample { .. }));
    }
}

#[test]
fn hsaga_refuses_a_bad_configuration() {
    let few = Config { p_num: 2, p_values: 2, t_value: 2, harmony_size: 5, adjust_rate: 0 };
    assert!(matches!(hsaga(&few, false, 10), Err(ConfigError::TooFewParameters)));
    let strength = Config { p_num: 3, p_values: 2, t_value: 3, harmony_size: 5, adjust_rate: 0 };
    assert!(matches!(hsaga(&strength, false, 10), Err(ConfigError::StrengthOutOfRange)));
    let alphabet = Config { p_num: 3, p_values: 11, t_value: 2, harmony_size: 5, adjust_rate: 0 };
    assert!(matches!(hsaga(&alphabet, false, 10), Err(ConfigError::AlphabetOutOfRange)));
    let large = Config { p_num: 200, p_values: 10, t_value: 19, harmony_size: 5, adjust_rate: 0 };
    assert!(matches!(hsaga(&large, false, 10), Err(ConfigError::SpaceTooLarge)));
    let empty = Config { p_num: 3, p_values: 2, t_value: 2, harmony_size: 0, adjust_rate: 0 };
    assert!(matches!(hsaga(&empty, false, 10), Err(ConfigError::EmptyPopulation)));
    let rate = Config { p_num: 3, p_values: 2, t_value: 2, harmony_size: 5, adjust_rate: UNIT + 1 };
    assert!(matches!(hsaga(&rate, false, 10), Err(ConfigError::RateOutOfRange)));
}

#[test]
fn hsaga_without_generations_gives_a_seeded_harmony() {
    let config = Config { p_num: 4, p_values: 3, t_value: 2, harmony_size: 4, adjust_rate: UNIT / 2 };
    let outcome = hsaga(&config, false, 0).unwrap();
    assert!(matches!(outcome, RunOutcome::OutOfBudget(_)));
    assert_eq!(outcome.best().size(), 1);
    assert_eq!(outcome.best().fitness(), 6);
}

#[test]
fn end_to_end_three_binary_parameters_pairwise() {
    assert_eq!(full_coverage(3, 2, 2), Some(12));
    assert_eq!(exhaustive_size(3, 2), Some(8));
    let config =
        Config { p_num: 3, p_values: 2, t_value: 2, harmony_size: 5, adjust_rate: UNIT / 10 * 7 };
    let mut converged = 0;
    for _ in 0..200 {
        if converged >= 3 {
            break;
        }
        let outcome = hsaga(&config, false, 3000).unwrap();
        let done = outcome.is_converged();
        let best = outcome.into_harmony();
        assert_eq!(done, best.fitness() == 12);
        assert_eq!(best.fitness(), best.weight_list().iter().sum::<usize>());
        if done {
            converged += 1;
            assert!(4 <= best.size() && best.size() <= 8);
            assert_eq!(best.size(), best.test_suite().len());
            assert!(best.ca_map().iter().all(|row| row.iter().all(|&cell| cell != 0)));
        } else {
            assert!(best.fitness() < 12);
        }
    }
    assert!(converged > 0);
}

#[test]
fn end_to_end_four_ternary_parameters_pairwise() {
    assert_eq!(full_coverage(4, 3, 2), Some(54));
    let config =
        Config { p_num: 4, p_values: 3, t_value: 2, harmony_size: 5, adjust_rate: UNIT / 2 };
    let mut found = None;
    for _ in 0..10 {
        let outcome = hsaga(&config, true, 200_000).unwrap();
        if outcome.is_converged() {
            found = Some(outcome.into_harmony());
            break;
        }
    }
    let best = found.unwrap();
    assert_eq!(best.fitness(), 54);
    // decode the suite: every pair of parameters takes every pair of symbols
    let mut pairs = 0;
    for first in 0..4 {
        for second in (first + 1)..4 {
            pairs += 1;
            for a in 0..3 {
                for b in 0..3 {
                    let times = best
                        .test_suite()
                        .iter()
                        .filter(|case| case[first] == a && case[second] == b)
                        .count();
                    assert!(times >= 1);
                }
            }
        }
    }
    assert_eq!(pairs, 6);
    // with recording, every cell names a test case of the suite that covers it
    assert!(best.ca_map().iter().all(|row| row.iter().all(|&c| 1 <= c && c <= best.size())));
    assert!(best.size() >= 9);
}
