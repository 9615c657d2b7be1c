use hsaga::config::ConfigError;
use hsaga::harmony::{copy_case, Harmony};

fn sum_of(weights: &Vec<usize>) -> usize {
    weights.iter().sum()
}

fn covered_cells(map: &Vec<Vec<usize>>) -> usize {
    map.iter().map(|row| row.iter().filter(|&&cell| cell != 0).count()).sum()
}

fn accounts_add_up(harmony: &Harmony) {
    assert_eq!(harmony.fitness(), sum_of(harmony.weight_list()));
    assert_eq!(harmony.size(), harmony.test_suite().len());
    assert_eq!(harmony.size(), harmony.weight_list().len());
    assert_eq!(harmony.fitness(), covered_cells(harmony.ca_map()));
}

#[test]
fn new_makes_a_blank_harmony() {
    let harmony = Harmony::new(4, 3, 2, true).unwrap();
    assert_eq!(harmony.p_num(), 4);
    assert_eq!(harmony.p_values(), 3);
    assert_eq!(harmony.t_value(), 2);
    assert!(harmony.print_map());
    assert_eq!(harmony.size(), 0);
    assert_eq!(harmony.fitness(), 0);
    assert!(harmony.test_suite().is_empty());
    assert!(harmony.weight_list().is_empty());
    assert_eq!(harmony.ca_map(), &vec![vec![0; 9]; 6]);
    assert_eq!(harmony.comb_indices().len(), 6);
    accounts_add_up(&harmony);
}

#[test]
fn new_rejects_too_few_parameters() {
    assert!(matches!(Harmony::new(2, 2, 2, false), Err(ConfigError::TooFewParameters)));
}

#[test]
fn new_rejects_a_strength_out_of_range() {
    assert!(matches!(Harmony::new(3, 2, 1, false), Err(ConfigError::StrengthOutOfRange)));
    assert!(matches!(Harmony::new(3, 2, 3, false), Err(ConfigError::StrengthOutOfRange)));
}

#[test]
fn new_rejects_an_alphabet_out_of_range() {
    assert!(matches!(Harmony::new(3, 1, 2, false), Err(ConfigError::AlphabetOutOfRange)));
    assert!(matches!(Harmony::new(3, 11, 2, false), Err(ConfigError::AlphabetOutOfRange)));
}

#[test]
fn new_rejects_a_space_too_large() {
    assert!(matches!(Harmony::new(200, 10, 19, false), Err(ConfigError::SpaceTooLarge)));
}

#[test]
fn admits_tells_test_cases_of_the_space() {
    let harmony = Harmony::new(3, 2, 2, false).unwrap();
    assert!(harmony.admits(&vec![0, 1, 0]));
    assert!(harmony.admits(&vec![1, 1, 1]));
    assert!(!harmony.admits(&vec![0, 1]));
    assert!(!harmony.admits(&vec![0, 1, 0, 0]));
    assert!(!harmony.admits(&vec![0, 2, 0]));
    assert!(!harmony.admits(&vec![]));
}

#[test]
fn first_test_case_weighs_one_cell_for_each_subset() {
    let mut harmony = Harmony::new(3, 2, 2, false).unwrap();
    assert_eq!(harmony.check_against(&vec![0, 1, 0]), 3);
    harmony.add_test_case(vec![0, 1, 0]);
    assert_eq!(harmony.size(), 1);
    assert_eq!(harmony.fitness(), 3);
    assert_eq!(harmony.weight_list(), &vec![3]);
    assert_eq!(harmony.test_suite(), &vec![vec![0, 1, 0]]);
    // pairs (0,1) -> 01, (0,2) -> 00, (1,2) -> 10
    assert_eq!(harmony.ca_map(), &vec![vec![0, 1, 0, 0], vec![1, 0, 0, 0], vec![0, 0, 1, 0]]);
    accounts_add_up(&harmony);
}

#[test]
fn check_against_counts_new_cells_and_changes_nothing() {
    let mut harmony = Harmony::new(3, 2, 2, false).unwrap();
    harmony.add_test_case(vec![0, 0, 0]);
    let map = harmony.ca_map().clone();
    assert_eq!(harmony.check_against(&vec![0, 0, 1]), 2);
    assert_eq!(harmony.check_against(&vec![1, 1, 1]), 3);
    assert_eq!(harmony.check_against(&vec![0, 0, 0]), 0);
    // asking twice gives the same answer
    assert_eq!(harmony.check_against(&vec![0, 0, 1]), 2);
    assert_eq!(harmony.ca_map(), &map);
    assert_eq!(harmony.size(), 1);
    assert_eq!(harmony.fitness(), 3);
}

#[test]
fn add_test_case_admits_what_covers_something_new() {
    let mut harmony = Harmony::new(3, 2, 2, false).unwrap();
    harmony.add_test_case(vec![0, 0, 0]);
    harmony.add_test_case(vec![0, 0, 1]);
    assert_eq!(harmony.size(), 2);
    assert_eq!(harmony.fitness(), 5);
    assert_eq!(harmony.weight_list(), &vec![3, 2]);
    assert_eq!(harmony.test_suite(), &vec![vec![0, 0, 0], vec![0, 0, 1]]);
    accounts_add_up(&harmony);
}

#[test]
fn add_test_case_drops_what_covers_nothing_new() {
    let mut harmony = Harmony::new(3, 2, 2, true).unwrap();
    harmony.add_test_case(vec![0, 0, 0]);
    harmony.add_test_case(vec![0, 1, 1]);
    let suite = harmony.test_suite().clone();
    let weights = harmony.weight_list().clone();
    let map = harmony.ca_map().clone();
    let fitness = harmony.fitness();
    let size = harmony.size();
    harmony.add_test_case(vec![0, 0, 0]);
    harmony.add_test_case(vec![0, 1, 1]);
    assert_eq!(harmony.test_suite(), &suite);
    assert_eq!(harmony.weight_list(), &weights);
    assert_eq!(harmony.ca_map(), &map);
    assert_eq!(harmony.fitness(), fitness);
    assert_eq!(harmony.size(), size);
}

#[test]
fn covered_cells_stay_as_they_are() {
    let mut harmony = Harmony::new(4, 3, 2, true).unwrap();
    let cases = vec![
        vec![0, 0, 0, 0],
        vec![0, 1, 1, 1],
        vec![0, 1, 2, 2],
        vec![1, 1, 1, 0],
        vec![0, 0, 0, 0],
        vec![2, 2, 2, 2],
        vec![2, 1, 0, 2],
    ];
    for case in cases {
        let before = harmony.ca_map().clone();
        harmony.add_test_case(case);
        let after = harmony.ca_map();
        for (row_before, row_after) in before.iter().zip(after.iter()) {
            assert_eq!(row_before.len(), row_after.len());
            for (cell_before, cell_after) in row_before.iter().zip(row_after.iter()) {
                if *cell_before != 0 {
                    assert_eq!(cell_before, cell_after);
                }
            }
        }
        accounts_add_up(&harmony);
    }
}

#[test]
fn cells_record_the_first_test_case_that_covered_them() {
    let mut harmony = Harmony::new(3, 2, 2, true).unwrap();
    harmony.add_test_case(vec![0, 0, 0]);
    harmony.add_test_case(vec![0, 0, 1]);
    harmony.add_test_case(vec![1, 1, 1]);
    // pairs (0,1), (0,2), (1,2); cells 00, 01, 10, 11
    assert_eq!(harmony.ca_map(), &vec![vec![1, 0, 0, 3], vec![1, 2, 0, 3], vec![1, 2, 0, 3]]);
    assert_eq!(harmony.weight_list(), &vec![3, 2, 3]);
}

#[test]
fn cells_hold_a_plain_mark_without_recording() {
    let mut harmony = Harmony::new(3, 2, 2, false).unwrap();
    harmony.add_test_case(vec![0, 0, 0]);
    harmony.add_test_case(vec![0, 0, 1]);
    harmony.add_test_case(vec![1, 1, 1]);
    assert_eq!(harmony.ca_map(), &vec![vec![1, 0, 0, 1], vec![1, 1, 0, 1], vec![1, 1, 0, 1]]);
}

#[test]
fn full_fitness_means_no_uncovered_cell_and_the_other_way_round() {
    let mut harmony = Harmony::new(3, 2, 2, false).unwrap();
    let cases = vec![vec![0, 0, 0], vec![0, 1, 1], vec![1, 0, 1], vec![1, 1, 0]];
    for case in cases {
        assert!(harmony.fitness() < 12);
        assert!(harmony.ca_map().iter().any(|row| row.iter().any(|&cell| cell == 0)));
        harmony.add_test_case(case);
    }
    assert_eq!(harmony.fitness(), 12);
    assert_eq!(harmony.size(), 4);
    assert!(harmony.ca_map().iter().all(|row| row.iter().all(|&cell| cell != 0)));
    // nothing can be added to a harmony that covers every cell
    for a in 0..2 {
        for b in 0..2 {
            for c in 0..2 {
                assert_eq!(harmony.check_against(&vec![a, b, c]), 0);
            }
        }
    }
}

#[test]
fn init_seeds_a_blank_harmony_with_one_test_case() {
    for _ in 0..50 {
        let mut harmony = Harmony::new(4, 3, 2, false).unwrap();
        harmony.init();
        assert_eq!(harmony.size(), 1);
        assert_eq!(harmony.fitness(), 6);
        assert_eq!(harmony.weight_list(), &vec![6]);
        assert!(harmony.admits(&harmony.test_suite()[0]));
        accounts_add_up(&harmony);
    }
}

#[test]
fn create_test_case_draws_a_symbol_for_each_parameter() {
    let harmony = Harmony::new(5, 2, 2, false).unwrap();
    let mut seen = [false; 2];
    for _ in 0..200 {
        let test_case = harmony.create_test_case();
        assert_eq!(test_case.len(), 5);
        for &symbol in test_case.iter() {
            assert!(symbol < 2);
            seen[symbol] = true;
        }
    }
    assert!(seen[0] && seen[1]);
}

#[test]
fn get_random_test_case_draws_from_the_suite() {
    let mut harmony = Harmony::new(3, 3, 2, false).unwrap();
    harmony.add_test_case(vec![0, 0, 0]);
    harmony.add_test_case(vec![1, 1, 1]);
    harmony.add_test_case(vec![2, 2, 2]);
    let mut seen = [false; 3];
    for _ in 0..300 {
        let test_case = harmony.get_random_test_case();
        assert!(harmony.test_suite().contains(&test_case));
        seen[test_case[0]] = true;
    }
    assert!(seen.iter().all(|&s| s));
}

#[test]
fn last_test_case_is_the_latest_admitted() {
    let mut harmony = Harmony::new(3, 3, 2, false).unwrap();
    harmony.add_test_case(vec![0, 0, 0]);
    harmony.add_test_case(vec![1, 2, 1]);
    harmony.add_test_case(vec![0, 0, 0]);
    assert_eq!(harmony.last_test_case(), &vec![1, 2, 1]);
}

#[test]
fn copy_case_copies() {
    assert_eq!(copy_case(&vec![3, 1, 4, 1, 5]), vec![3, 1, 4, 1, 5]);
    assert_eq!(copy_case(&vec![]), Vec::<usize>::new());
}
