use portfolio_solver::datastructures::{Algorithm, Instance};
use portfolio_solver::solver::{
    get_b_start, postprocess_solution, round_to_sum, start_matrix, Fraction, RoundingError,
};

fn tenths(values: &[u64]) -> Vec<Fraction> {
    values.iter().map(|&v| Fraction { numerator: v, denominator: 10 }).collect()
}

#[test]
fn test_round_to_sum() {
    let fractions = tenths(&[24, 16, 8, 19, 16]);
    let steps = vec![1, 2, 4, 8, 1];
    let sum = 20;
    let shares: Vec<f64> =
        round_to_sum(&fractions, &steps, sum).unwrap().iter().map(|&s| s as f64).collect();
    assert_eq!(shares, vec![2.0, 2.0, 1.0, 1.0, 2.0]);
}

#[test]
fn round_to_sum_rejects_unequal_lengths() {
    let fractions = tenths(&[24, 16]);
    assert_eq!(round_to_sum(&fractions, &vec![1], 20), Err(RoundingError::LengthMismatch));
}

#[test]
fn round_to_sum_names_each_obstacle() {
    let zero_denominator = vec![Fraction { numerator: 1, denominator: 0 }];
    assert_eq!(round_to_sum(&zero_denominator, &vec![1], 20), Err(RoundingError::ZeroDenominator));
    assert_eq!(round_to_sum(&tenths(&[24]), &vec![0], 20), Err(RoundingError::ZeroStep));
    assert_eq!(round_to_sum(&tenths(&[24, 16]), &vec![5, 5], 14),
        Err(RoundingError::BudgetExceeded));
    assert_eq!(round_to_sum(&tenths(&[24, 16]), &vec![5, 5], 15), Ok(vec![2, 1]));
    assert_eq!(round_to_sum(&[], &vec![], 15), Ok(vec![]));
}

#[test]
fn round_to_sum_prefers_the_first_of_equal_losses() {
    // both shares lose one half; one cores is left, and the first share gets it
    let halves = vec![Fraction { numerator: 3, denominator: 2 }, Fraction { numerator: 5,
        denominator: 2 }];
    assert_eq!(round_to_sum(&halves, &vec![1, 1], 4), Ok(vec![2, 2]));
    let halves = vec![Fraction { numerator: 5, denominator: 2 }, Fraction { numerator: 3,
        denominator: 2 }];
    assert_eq!(round_to_sum(&halves, &vec![1, 1], 4), Ok(vec![3, 1]));
}

#[test]
fn round_to_sum_stops_when_no_step_fits() {
    // 2 * 4 + 1 * 8 = 16 of 19 cores are taken, and neither step fits the 3 that are left
    let shares = round_to_sum(&tenths(&[29, 19]), &vec![4, 8], 19).unwrap();
    assert_eq!(shares, vec![2, 1]);
    // with a step of one the sum is reached: the largest loss first, then again from the top
    let shares = round_to_sum(&tenths(&[29, 19, 5]), &vec![4, 8, 1], 19).unwrap();
    assert_eq!(shares, vec![2, 1, 3]);
    assert_eq!(2 * 4 + 8 + 3, 19);
}

#[test]
fn initial_assignment_follows_the_wins() {
    let algorithms = vec![
        Algorithm::new("a".into(), 1),
        Algorithm::new("b".into(), 1),
        Algorithm::new("c".into(), 2),
    ];
    // shares: 3/4 * 8 = 6, 0, 1/4 * 8 / 2 = 1
    assert_eq!(get_b_start(&vec![3, 0, 1], &algorithms, 4, 8), Ok(vec![6, 0, 1]));
    // shares: 2/3 * 8 = 5.33, 1/3 * 8 = 2.67, 0: the second share lost more
    assert_eq!(get_b_start(&vec![2, 1, 0], &algorithms, 3, 8), Ok(vec![5, 3, 0]));
    assert_eq!(get_b_start(&vec![2, 1], &algorithms, 3, 8), Err(RoundingError::LengthMismatch));
    assert_eq!(get_b_start(&vec![2, 1, 0], &algorithms, 0, 8), Err(RoundingError::ZeroDenominator));
}

#[test]
fn portfolio_is_read_from_the_assignment_matrix() {
    let algorithms = vec![Algorithm::new("a".into(), 1), Algorithm::new("b".into(), 2)];
    let solution = vec![false, false, true, false, true, false, false, false];
    let portfolio = postprocess_solution(&solution, 2, 4, &algorithms, "final_portfolio", true);
    assert_eq!(portfolio.name, "final_portfolio_opt");
    assert_eq!(portfolio.resource_assignments, vec![(algorithms[0].clone(), 3),
        (algorithms[1].clone(), 1)]);
    let portfolio = postprocess_solution(&vec![false; 8], 2, 4, &algorithms, "initial_portfolio", false);
    assert_eq!(portfolio.name, "initial_portfolio");
    assert_eq!(portfolio.resource_assignments, vec![(algorithms[0].clone(), 0),
        (algorithms[1].clone(), 0)]);
}

#[test]
fn start_matrix_marks_the_given_replica_counts() {
    assert_eq!(
        start_matrix(&vec![3, 0], 2, 4),
        Some(vec![false, false, true, false, false, false, false, false])
    );
    assert_eq!(start_matrix(&vec![4], 2, 4).unwrap()[3], true);
    assert_eq!(start_matrix(&vec![5], 2, 4), None);
    assert_eq!(start_matrix(&vec![1, 1, 1], 2, 4), None);
}

#[test]
fn wins_within_the_number_of_instances_can_always_be_rounded() {
    let algorithms = vec![
        Algorithm::new("a".into(), 3),
        Algorithm::new("b".into(), 2),
        Algorithm::new("c".into(), 5),
    ];
    for counts in [vec![4, 0, 0], vec![0, 0, 4], vec![1, 1, 2], vec![1, 1, 1], vec![0, 0, 0]] {
        for num_cores in 0..12 {
            let shares = get_b_start(&counts, &algorithms, 4, num_cores).unwrap();
            let occupied: u32 = (0..3).map(|i| shares[i] * algorithms[i].num_threads).sum();
            assert!(occupied <= num_cores);
        }
    }
    // more wins than instances ask for more than there is
    assert_eq!(get_b_start(&vec![4, 4, 0], &algorithms, 4, 12),
        Err(RoundingError::BudgetExceeded));
}
