use portfolio_solver::csv_parser::estimates::{
    quality_statistics, stats_by_normal_approximation, EstimateError,
};
use portfolio_solver::csv_parser::utils::InstanceQuality;
use portfolio_solver::csv_parser::{Data, DataError};
use portfolio_solver::datastructures::{Algorithm, Instance};
use portfolio_solver::estimator::SpreadTable;
use portfolio_solver::fixed::{isqrt, mean_of, normalize_quality, SCALE, WORST};
use portfolio_solver::sampling::sample_minimum;
use portfolio_solver::table::RunRecord;

fn fixed(x: f64) -> u64 {
    (x * SCALE as f64).round() as u64
}

fn run(instance: &str, algorithm: &str, quality: f64) -> RunRecord {
    RunRecord {
        algorithm: Algorithm::new(algorithm.to_string(), 1),
        instance: Instance::named(instance),
        quality: fixed(quality),
        time: SCALE,
        log_time: 0,
        valid: true,
    }
}

fn spreads(upto: u32) -> SpreadTable {
    let values = (1..=upto).map(|s| fixed((2.0 * (s as f64).ln()).sqrt())).collect();
    SpreadTable::new(values).unwrap()
}

fn one_algorithm() -> Vec<RunRecord> {
    [10.0, 8.0, 9.0, 7.0]
        .iter()
        .map(|&q| run("graph1", "algo1", q))
        .chain([20.0].iter().map(|&q| run("graph2", "algo1", q)))
        .collect()
}

#[test]
fn mean_and_standard_deviation_of_qualities() {
    // mean 8.5; squared distances 2.25 + 0.25 + 0.25 + 2.25 = 5; sqrt(5 / 3) = 1.290994...
    let values = vec![fixed(10.0), fixed(8.0), fixed(9.0), fixed(7.0)];
    assert_eq!(quality_statistics(&values), Some((8_500_000, 1_290_994)));
    assert_eq!(quality_statistics(&vec![fixed(3.0)]), Some((3_000_000, 0)));
    assert_eq!(quality_statistics(&vec![4, 4, 4]), Some((4, 0)));
    // the mean is rounded down
    assert_eq!(quality_statistics(&vec![1, 2]), Some((1, 1)));
    // squared distances beyond 128 bits leave no standard deviation
    assert_eq!(quality_statistics(&vec![0, u64::MAX, 0, u64::MAX, 0, u64::MAX]),
        Some((u64::MAX / 2, 0)));
    assert_eq!(quality_statistics(&vec![0, u64::MAX]), Some((u64::MAX / 2,
        13_043_817_825_332_782_211)));
    assert_eq!(quality_statistics(&vec![u64::MAX, u64::MAX]), Some((u64::MAX, 0)));
    assert_eq!(quality_statistics(&vec![]), None);
}

#[test]
fn square_roots_are_rounded_down() {
    assert_eq!(isqrt(0), 0);
    assert_eq!(isqrt(1), 1);
    assert_eq!(isqrt(3), 1);
    assert_eq!(isqrt(4), 2);
    assert_eq!(isqrt(99), 9);
    assert_eq!(isqrt(1_666_666_666_666), 1_290_994);
    assert_eq!(isqrt(u128::MAX), u64::MAX);
    assert_eq!(isqrt((u64::MAX as u128) * (u64::MAX as u128) - 1), u64::MAX - 1);
}

#[test]
fn means_are_rounded_down() {
    assert_eq!(mean_of(7, 2), 3);
    assert_eq!(mean_of(-7, 2), -4);
    assert_eq!(mean_of(-8, 2), -4);
    assert_eq!(mean_of(0, 5), 0);
    assert_eq!(mean_of(-1, 1_000), -1);
    assert_eq!(mean_of(i128::MIN, 1), i128::MIN);
    assert_eq!(mean_of(i128::MIN, 2), i128::MIN / 2);
    assert_eq!(mean_of(i128::MIN, 3), i128::MIN / 3 - 1);
    assert_eq!(mean_of(i128::MAX, usize::MAX), i128::MAX / usize::MAX as i128);
}

#[test]
fn a_quality_of_zero_counts_as_one() {
    assert_eq!(normalize_quality(0), SCALE);
    assert_eq!(normalize_quality(1), 1);
    assert_eq!(normalize_quality(u64::MAX), u64::MAX);
}

#[test]
fn estimates_under_the_normal_approximation() {
    let stats = stats_by_normal_approximation(&one_algorithm(), 2, &spreads(4), &vec![]).unwrap();
    let listed: Vec<(&str, u32, u64)> =
        stats.iter().map(|r| (r.instance.name.as_str(), r.sample_size, r.e_min)).collect();
    // graph1: 8.5 for one replica; 8.5 - 1.290994 * 1.177410 = 6.979971 is below the best run
    // graph2: a single run has no standard deviation
    assert_eq!(listed, vec![
        ("graph1", 1, 8_500_000),
        ("graph1", 2, 7_000_000),
        ("graph2", 1, 20_000_000),
        ("graph2", 2, 20_000_000)
    ]);
}

#[test]
fn estimates_are_held_to_the_given_lower_bounds() {
    let bounds = vec![
        InstanceQuality { instance: Instance::named("graph1"), best_quality: fixed(5.0) },
        InstanceQuality { instance: Instance::named("graph2"), best_quality: fixed(25.0) },
        InstanceQuality { instance: Instance::named("graph1"), best_quality: fixed(8.0) },
    ];
    let stats = stats_by_normal_approximation(&one_algorithm(), 2, &spreads(4), &bounds).unwrap();
    let e_min: Vec<u64> = stats.iter().map(|r| r.e_min).collect();
    assert_eq!(e_min, vec![8_500_000, 6_979_971, 25_000_000, 25_000_000]);
}

#[test]
fn estimates_need_a_spread_for_every_number_of_replicas() {
    assert_eq!(
        stats_by_normal_approximation(&one_algorithm(), 5, &spreads(4), &vec![]),
        Err(EstimateError::MissingSpread)
    );
    assert!(stats_by_normal_approximation(&one_algorithm(), 4, &spreads(4), &vec![]).is_ok());
    assert_eq!(stats_by_normal_approximation(&one_algorithm(), 0, &spreads(4), &vec![]),
        Ok(vec![]));
}

#[test]
fn data_from_statistics() {
    let mut df = one_algorithm();
    df.push(run("graph2", "algo2", 15.0));
    df.push(run("graph2", "algo2", 17.0));
    let data = Data::from_statistics(&df, 2, i64::MAX, &spreads(2), &vec![]).unwrap();
    assert_eq!(data.num_instances, 2);
    assert_eq!(data.num_algorithms, 2);
    assert_eq!(data.best_per_instance.to_vec(), vec![fixed(7.0), fixed(15.0)]);
    assert_eq!(data.best_per_instance_count.map(|c| c.to_vec()), Some(vec![1, 1]));
    assert_eq!(data.expected_best_quality.dim(), (2, 2, 2));
    assert_eq!(data.expected_best_quality.get(0, 0, 0), Some(8_500_000));
    assert_eq!(data.expected_best_quality.get(0, 0, 1), Some(7_000_000));
    assert_eq!(data.expected_best_quality.get(0, 1, 0), Some(WORST));
    assert_eq!(data.expected_best_quality.get(0, 1, 1), Some(WORST));
    assert_eq!(data.expected_best_quality.get(1, 0, 0), Some(20_000_000));
    assert_eq!(data.expected_best_quality.get(1, 0, 1), Some(20_000_000));
    // 16 - sqrt(2) * 1.177410 = 14.334891 is below the best run
    assert_eq!(data.expected_best_quality.get(1, 1, 0), Some(16_000_000));
    assert_eq!(data.expected_best_quality.get(1, 1, 1), Some(15_000_000));
    assert!(matches!(
        Data::from_statistics(&df, 3, i64::MAX, &spreads(2), &vec![]),
        Err(DataError::MissingSpread)
    ));
    assert!(matches!(
        Data::from_statistics(&vec![], 2, i64::MAX, &spreads(2), &vec![]),
        Err(DataError::EmptyDataframe)
    ));
    assert!(matches!(
        Data::from_statistics(&df, 2, i64::MIN, &spreads(2), &vec![]),
        Err(DataError::NoPortfolio)
    ));
}

#[test]
fn the_least_value_of_a_sample() {
    assert_eq!(sample_minimum(&vec![5, 3, 9, 3]), Some(3));
    assert_eq!(sample_minimum(&vec![7]), Some(7));
    assert_eq!(sample_minimum(&vec![]), None);
}
