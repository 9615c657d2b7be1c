use hsaga::config::UNIT;
use hsaga::harmony::Harmony;

fn suite_of_three() -> Harmony {
    let mut harmony = Harmony::new(3, 2, 2, true).unwrap();
    harmony.add_test_case(vec![0, 0, 0]);
    harmony.add_test_case(vec![0, 1, 1]);
    harmony.add_test_case(vec![1, 0, 1]);
    harmony
}

#[test]
fn clone_replacing_rebuilds_the_bookkeeping() {
    let harmony = suite_of_three();
    assert_eq!(harmony.weight_list(), &vec![3, 3, 3]);
    let copy = harmony.clone_replacing(1, &vec![0, 0, 1]);
    assert_eq!(copy.test_suite(), &vec![vec![0, 0, 0], vec![0, 0, 1], vec![1, 0, 1]]);
    assert_eq!(copy.size(), 3);
    assert_eq!(copy.weight_list(), &vec![3, 2, 2]);
    assert_eq!(copy.fitness(), 7);
    // pairs (0,1), (0,2), (1,2); cells 00, 01, 10, 11
    assert_eq!(copy.ca_map(), &vec![vec![1, 0, 3, 0], vec![1, 2, 0, 3], vec![1, 2, 0, 0]]);
    // the source is as it was
    assert_eq!(harmony.test_suite(), &vec![vec![0, 0, 0], vec![0, 1, 1], vec![1, 0, 1]]);
    assert_eq!(harmony.fitness(), 9);
}

#[test]
fn clone_replacing_keeps_a_test_case_that_adds_nothing() {
    let harmony = suite_of_three();
    let copy = harmony.clone_replacing(2, &vec![0, 0, 0]);
    assert_eq!(copy.size(), 3);
    assert_eq!(copy.test_suite(), &vec![vec![0, 0, 0], vec![0, 1, 1], vec![0, 0, 0]]);
    assert_eq!(copy.weight_list(), &vec![3, 3, 0]);
    assert_eq!(copy.fitness(), 6);
}

#[test]
fn clone_replacing_keeps_later_test_cases_that_add_nothing() {
    let mut harmony = Harmony::new(3, 2, 2, false).unwrap();
    harmony.add_test_case(vec![0, 0, 0]);
    harmony.add_test_case(vec![0, 0, 1]);
    harmony.add_test_case(vec![0, 1, 1]);
    assert_eq!(harmony.weight_list(), &vec![3, 2, 2]);
    // with 011 first, 001 adds one cell only and 011 itself comes again with nothing
    let copy = harmony.clone_replacing(0, &vec![0, 1, 1]);
    assert_eq!(copy.size(), 3);
    assert_eq!(copy.weight_list(), &vec![3, 2, 0]);
    assert_eq!(copy.fitness(), 5);
}

#[test]
fn clone_replacing_may_gain_coverage() {
    let mut harmony = Harmony::new(3, 2, 2, false).unwrap();
    harmony.add_test_case(vec![0, 0, 0]);
    harmony.add_test_case(vec![0, 0, 1]);
    let copy = harmony.clone_replacing(1, &vec![1, 1, 1]);
    assert_eq!(copy.weight_list(), &vec![3, 3]);
    assert_eq!(copy.fitness(), 6);
    assert!(copy.ranks_before(&harmony));
}

#[test]
fn randomized_clone_keeps_the_size_and_all_but_one_test_case() {
    let mut harmony = Harmony::new(4, 3, 2, false).unwrap();
    harmony.add_test_case(vec![0, 0, 0, 0]);
    harmony.add_test_case(vec![1, 1, 1, 1]);
    harmony.add_test_case(vec![2, 2, 2, 2]);
    harmony.add_test_case(vec![0, 1, 2, 0]);
    for _ in 0..200 {
        let copy = harmony.randomized_clone();
        assert_eq!(copy.size(), harmony.size());
        assert_eq!(copy.test_suite().len(), 4);
        let differing = copy
            .test_suite()
            .iter()
            .zip(harmony.test_suite().iter())
            .filter(|(a, b)| a != b)
            .count();
        assert!(differing <= 1);
        assert!(copy.test_suite().iter().all(|case| copy.admits(case)));
        assert_eq!(copy.fitness(), copy.weight_list().iter().sum::<usize>());
        assert_eq!(copy.size(), copy.weight_list().len());
        assert_eq!(copy.p_num(), 4);
        assert_eq!(copy.p_values(), 3);
        assert_eq!(copy.t_value(), 2);
        assert!(!copy.print_map());
    }
    assert_eq!(harmony.size(), 4);
    assert_eq!(harmony.fitness(), 6 + 6 + 6 + 5);
}

#[test]
fn randomized_clone_of_a_single_test_case() {
    let mut harmony = Harmony::new(3, 2, 2, false).unwrap();
    harmony.add_test_case(vec![1, 0, 1]);
    for _ in 0..20 {
        let copy = harmony.randomized_clone();
        assert_eq!(copy.size(), 1);
        assert_eq!(copy.fitness(), 3);
    }
}

#[test]
fn guided_candidate_is_pulled_toward_the_latest_and_the_reference() {
    let mut harmony = Harmony::new(4, 10, 2, false).unwrap();
    harmony.add_test_case(vec![0, 1, 5, 3]);
    harmony.add_test_case(vec![2, 0, 9, 3]);
    let candidate = harmony.guided_candidate(0, UNIT / 2, UNIT / 2, &vec![2, 1, 0, 3]);
    assert_eq!(candidate, vec![1, 0, 4, 3]);
    // the latest test case pulled toward itself and a reference
    let other = harmony.guided_candidate(1, UNIT - 1, UNIT - 1, &vec![9, 9, 9, 9]);
    // 2 + 0.63 * 7 = 6.41; 0 + 0.63 * 9 = 5.67; 9; 3 + 0.63 * 6 = 6.78
    assert_eq!(other, vec![6, 5, 9, 6]);
}

#[test]
fn guided_candidate_is_not_admitted_by_itself() {
    let mut harmony = Harmony::new(3, 2, 2, false).unwrap();
    harmony.add_test_case(vec![1, 1, 1]);
    let candidate = harmony.guided_candidate(0, 0, 0, &vec![0, 0, 0]);
    assert_eq!(candidate, vec![1, 1, 1]);
    assert_eq!(harmony.size(), 1);
}

#[test]
fn pso_stays_within_the_alphabet() {
    for p_values in 2..=10usize {
        let mut harmony = Harmony::new(4, p_values, 2, false).unwrap();
        harmony.add_test_case(vec![0, p_values - 1, 0, p_values - 1]);
        harmony.add_test_case(vec![p_values - 1, 0, 0, p_values - 1]);
        harmony.add_test_case(vec![1, 1, 1, 1]);
        for _ in 0..100 {
            let candidate = harmony.pso(vec![p_values - 1, p_values - 1, 0, 0]);
            assert_eq!(candidate.len(), 4);
            assert!(candidate.iter().all(|&value| value <= p_values - 1));
            assert!(harmony.admits(&candidate));
        }
        assert_eq!(harmony.size(), 3);
    }
}

#[test]
fn pso_between_equal_test_cases_stays() {
    let mut harmony = Harmony::new(3, 5, 2, false).unwrap();
    harmony.add_test_case(vec![4, 2, 0]);
    for _ in 0..20 {
        assert_eq!(harmony.pso(vec![4, 2, 0]), vec![4, 2, 0]);
    }
}
