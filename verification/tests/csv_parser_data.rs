use portfolio_solver::csv_parser::utils::InstanceQuality;
use portfolio_solver::csv_parser::{
    assemble, e_min_column, estimated_cells, expected_cells, Data, DataError,
};
use portfolio_solver::estimator::SpreadTable;
use portfolio_solver::sampling::sample_request;
use portfolio_solver::table::StatRow;
use portfolio_solver::datastructures::{Algorithm, Instance};
use portfolio_solver::fixed::{SCALE, WORST};
use portfolio_solver::table::RunRecord;

fn fixed(x: f64) -> u64 {
    (x * SCALE as f64).round() as u64
}

/// The natural logarithm of a slowdown ratio, on the grid.
fn log_ratio(ratio: f64) -> i64 {
    (ratio.ln() * SCALE as f64).round() as i64
}

fn run(instance: &str, algorithm: &str, quality: f64, time: f64, valid: bool) -> RunRecord {
    RunRecord {
        algorithm: Algorithm::new(algorithm.to_string(), 1),
        instance: Instance::named(instance),
        quality: fixed(quality),
        time: fixed(time),
        log_time: (time.ln() * SCALE as f64).round() as i32,
        valid,
    }
}

fn two_algorithms() -> Vec<RunRecord> {
    let mut df = Vec::new();
    let algo1 = [[20.0, 18.0], [18.0, 18.0], [10.0, 12.0], [8.0, 9.0]];
    let algo2 = [[9.0, 11.0], [7.0, 7.0], [22.0, 24.0], [24.0, 30.0]];
    for (i, name) in ["graph1", "graph2", "graph3", "graph4"].iter().enumerate() {
        for seed in 0..2 {
            df.push(run(name, "algo1", algo1[i][seed], 1.0, true));
            df.push(run(name, "algo2", algo2[i][seed], 1.0, true));
        }
    }
    df
}

#[test]
fn data_from_a_table_of_two_algorithms() {
    let k = 2;
    let data = Data::from_normalized_dataframe(&two_algorithms(), k, i64::MAX).unwrap();
    assert_eq!(data.num_instances, 4);
    assert_eq!(data.num_algorithms, 2);
    assert_eq!(data.algorithms.to_vec(), vec![
        Algorithm::new("algo1".into(), 1),
        Algorithm::new("algo2".into(), 1)
    ]);
    assert_eq!(data.best_per_instance.to_vec(), vec![fixed(9.0), fixed(7.0), fixed(10.0),
        fixed(8.0)]);
    assert_eq!(data.best_per_instance_count.map(|c| c.to_vec()), Some(vec![2, 2]));
    assert_eq!(data.expected_best_quality.dim(), (4, 2, 2));
    // every estimate is a quality that the algorithm reached on the instance
    let reached = |i: usize, j: usize| -> Vec<u64> {
        let algo1 = [[20.0, 18.0], [18.0, 18.0], [10.0, 12.0], [8.0, 9.0]];
        let algo2 = [[9.0, 11.0], [7.0, 7.0], [22.0, 24.0], [24.0, 30.0]];
        let values = if j == 0 { algo1[i] } else { algo2[i] };
        values.iter().map(|&v| fixed(v)).collect()
    };
    for i in 0..4 {
        for j in 0..2 {
            for s in 0..2 {
                let cell = data.expected_best_quality.get(i, j, s).unwrap();
                assert!(reached(i, j).contains(&cell));
            }
        }
    }
    assert_eq!(data.expected_best_quality.get(1, 1, 0), Some(fixed(7.0)));
    assert_eq!(data.expected_best_quality.get(4, 0, 0), None);
    assert_eq!(data.expected_best_quality.get(0, 2, 0), None);
    assert_eq!(data.expected_best_quality.get(0, 0, 2), None);
}

#[test]
fn data_ignores_invalid_rows() {
    let mut df = Vec::new();
    for name in ["graph1", "graph2", "graph3", "graph4"] {
        df.push(run(name, "algo6", 20.0, 1.0, true));
        df.push(run(name, "algo6", 10.0, 1.0, false));
    }
    let data = Data::from_normalized_dataframe(&df, 2, i64::MAX).unwrap();
    assert_eq!(data.num_instances, 4);
    assert_eq!(data.num_algorithms, 1);
    assert_eq!(data.best_per_instance.to_vec(), vec![fixed(20.0); 4]);
}

#[test]
fn data_fills_a_missing_algorithm_with_the_worst_value() {
    let df = vec![
        run("graph1", "algo2", 16.0, 1.0, true),
        run("graph1", "algo5", 17.0, 1.0, true),
        run("graph2", "algo2", 7.0, 1.0, true),
    ];
    let data = Data::from_normalized_dataframe(&df, 2, i64::MAX).unwrap();
    assert_eq!(data.num_instances, 2);
    assert_eq!(data.num_algorithms, 2);
    assert_eq!(data.best_per_instance.to_vec(), vec![fixed(16.0), fixed(7.0)]);
    assert_eq!(data.expected_best_quality.get(0, 1, 0), Some(fixed(17.0)));
    assert_eq!(data.expected_best_quality.get(1, 0, 1), Some(fixed(7.0)));
    assert_eq!(data.expected_best_quality.get(1, 1, 0), Some(WORST));
    assert_eq!(data.expected_best_quality.get(1, 1, 1), Some(WORST));
}

#[test]
fn data_replaces_a_quality_of_zero_by_one() {
    let df = vec![
        run("graph1", "algo2", 5.0, 1.0, true),
        run("graph1", "algo3", 0.0, 1.0, true),
        run("graph2", "algo2", 7.0, 1.0, true),
    ];
    let data = Data::from_normalized_dataframe(&df, 1, i64::MAX).unwrap();
    assert_eq!(data.best_per_instance.to_vec(), vec![fixed(1.0), fixed(7.0)]);
}

#[test]
fn data_counts_wins_with_ties_going_to_the_first_algorithm() {
    // both algorithms reach the best quality on graph1; the rows name the later one first
    let df = vec![
        run("graph1", "algo2", 5.0, 1.0, true),
        run("graph1", "algo1", 5.0, 1.0, true),
        run("graph2", "algo2", 3.0, 1.0, true),
        run("graph2", "algo1", 4.0, 1.0, true),
    ];
    let data = Data::from_normalized_dataframe(&df, 1, i64::MAX).unwrap();
    assert_eq!(data.best_per_instance_count.map(|c| c.to_vec()), Some(vec![1, 1]));
}

#[test]
fn data_without_valid_rows_is_an_error() {
    let df = vec![run("graph1", "algo1", 5.0, 1.0, false)];
    assert!(matches!(
        Data::from_normalized_dataframe(&df, 2, i64::MAX),
        Err(DataError::EmptyDataframe)
    ));
    assert!(matches!(
        Data::from_normalized_dataframe(&vec![], 2, i64::MAX),
        Err(DataError::EmptyDataframe)
    ));
}

#[test]
fn data_with_too_strict_a_slowdown_ratio_is_an_error() {
    let df = vec![
        run("graph1", "algo1", 5.0, 3.0, true),
        run("graph1", "algo2", 6.0, 3.0, true),
    ];
    assert!(matches!(Data::from_normalized_dataframe(&df, 2, i64::MIN), Err(DataError::NoPortfolio)));
}

#[test]
fn data_under_a_slowdown_ratio_keeps_the_fast_algorithms() {
    let mut df = Vec::new();
    for name in ["graph1", "graph2"] {
        df.push(run(name, "quick", 5.0, 2.0, true));
        df.push(run(name, "slow", 4.0, 40.0, true));
    }
    // the best runs are those of "slow", at 40 seconds; "quick" stays under half of that
    let data = Data::from_normalized_dataframe(&df, 1, log_ratio(0.5)).unwrap();
    assert_eq!(data.algorithms.to_vec(), vec![Algorithm::new("quick".into(), 1)]);
    assert_eq!(data.best_per_instance.to_vec(), vec![fixed(5.0), fixed(5.0)]);
}

#[test]
fn data_new_takes_vectors_as_they_are() {
    let algorithms = vec![Algorithm::new("a".into(), 1), Algorithm::new("b".into(), 2)];
    let stats: Vec<u64> = (0..12).collect();
    let data = Data::new(&algorithms, &[3, 4], Some(&[1, 1]), &stats, 3).unwrap();
    assert_eq!(data.num_instances, 2);
    assert_eq!(data.num_algorithms, 2);
    assert_eq!(data.algorithms.to_vec(), algorithms);
    assert_eq!(data.best_per_instance.to_vec(), vec![3, 4]);
    assert_eq!(data.best_per_instance_count.map(|c| c.to_vec()), Some(vec![1, 1]));
    assert_eq!(data.expected_best_quality.dim(), (2, 2, 3));
    for i in 0..2 {
        for j in 0..2 {
            for s in 0..3 {
                let flat = ((i * 2 + j) * 3 + s) as u64;
                assert_eq!(data.expected_best_quality.get(i, j, s), Some(flat));
            }
        }
    }
    let data = Data::new(&algorithms, &[3, 4], None, &stats, 3).unwrap();
    assert!(data.best_per_instance_count.is_none());
    assert_eq!(data.to_text(), "m: 2, n: 2");
}

#[test]
fn data_new_rejects_a_wrong_number_of_values() {
    let algorithms = vec![Algorithm::new("a".into(), 1), Algorithm::new("b".into(), 2)];
    let stats: Vec<u64> = (0..11).collect();
    assert!(matches!(Data::new(&algorithms, &[3, 4], None, &stats, 3), Err(DataError::Shape)));
    assert!(matches!(Data::new(&algorithms, &[3, 4], None, &stats, 0), Err(DataError::Shape)));
    assert!(Data::new(&algorithms, &[3, 4], None, &[], 0).is_ok());
}

#[test]
fn the_sampler_is_asked_for_as_many_values_as_replicas_and_seeded_with_their_number() {
    assert_eq!(sample_request(1), (1, 1));
    assert_eq!(sample_request(7), (7, 7));
    assert_eq!(sample_request(u32::MAX), (u32::MAX as usize, u32::MAX as u64));
}

#[test]
fn expected_cells_hold_the_least_of_a_pair_from_as_many_replicas_as_it_has_runs() {
    let df = two_algorithms();
    let cells = expected_cells(&df, 3).unwrap();
    assert_eq!(cells.len(), 4 * 2 * 3);
    let least = [[18.0, 9.0], [18.0, 7.0], [10.0, 22.0], [8.0, 24.0]];
    for i in 0..4 {
        for j in 0..2 {
            assert_eq!(cells[(i * 2 + j) * 3 + 1], fixed(least[i][j]));
            assert_eq!(cells[(i * 2 + j) * 3 + 2], fixed(least[i][j]));
        }
    }
    assert_eq!(expected_cells(&df, 0), Ok(vec![]));
    assert_eq!(expected_cells(&vec![], 3), Ok(vec![]));
}

#[test]
fn expected_cells_of_a_missing_pair_are_the_worst_value() {
    let df = vec![
        run("graph1", "algo1", 5.0, 1.0, true),
        run("graph2", "algo1", 6.0, 1.0, true),
        run("graph2", "algo2", 4.0, 1.0, true),
    ];
    assert_eq!(expected_cells(&df, 2), Ok(vec![
        fixed(5.0), fixed(5.0), WORST, WORST,
        fixed(6.0), fixed(6.0), fixed(4.0), fixed(4.0)
    ]));
}

#[test]
fn estimated_cells_need_a_spread_for_every_number_of_replicas() {
    let df = vec![
        run("graph1", "algo1", 5.0, 1.0, true),
        run("graph1", "algo1", 5.0, 1.0, true),
    ];
    let spreads = SpreadTable::new(vec![0, 1_177_410]).unwrap();
    let no_bounds: Vec<InstanceQuality> = vec![];
    // without deviation the estimate is the mean
    assert_eq!(estimated_cells(&df, 2, &spreads, &no_bounds), Ok(vec![fixed(5.0), fixed(5.0)]));
    assert_eq!(estimated_cells(&df, 3, &spreads, &no_bounds), Err(DataError::MissingSpread));
}

#[test]
fn the_estimates_of_a_table_are_its_last_column() {
    let row = |size: u32, e_min: f64| StatRow {
        instance: Instance::named("graph1"),
        algorithm: Algorithm::new("algo1".into(), 1),
        sample_size: size,
        e_min: fixed(e_min),
    };
    assert_eq!(e_min_column(&vec![row(1, 5.0), row(2, 4.0), row(3, 4.5)]),
        vec![fixed(5.0), fixed(4.0), fixed(4.5)]);
    assert_eq!(e_min_column(&vec![]), Vec::<u64>::new());
}

#[test]
fn data_is_put_together_from_runs_and_cells_of_the_right_number() {
    let df = vec![
        run("graph1", "algo1", 5.0, 1.0, true),
        run("graph1", "algo2", 3.0, 1.0, true),
        run("graph2", "algo1", 6.0, 1.0, true),
        run("graph2", "algo2", 7.0, 1.0, true),
    ];
    let cells: Vec<u64> = (1..=8).collect();
    let data = assemble(&df, cells, 2).unwrap();
    assert_eq!(data.num_instances, 2);
    assert_eq!(data.num_algorithms, 2);
    assert_eq!(data.best_per_instance.to_vec(), vec![fixed(3.0), fixed(6.0)]);
    assert_eq!(data.best_per_instance_count.map(|c| c.to_vec()), Some(vec![1, 1]));
    assert_eq!(data.expected_best_quality.dim(), (2, 2, 2));
    assert_eq!(data.expected_best_quality.get(0, 0, 0), Some(1));
    assert_eq!(data.expected_best_quality.get(0, 1, 1), Some(4));
    assert_eq!(data.expected_best_quality.get(1, 0, 1), Some(6));
    assert_eq!(data.expected_best_quality.get(1, 1, 1), Some(8));
    assert!(matches!(assemble(&df, (1..=7).collect(), 2), Err(DataError::Shape)));
    assert!(matches!(assemble(&df, (1..=8).collect(), 3), Err(DataError::Shape)));
    assert!(matches!(assemble(&df, vec![], 0), Ok(_)));
}

#[test]
fn data_for_no_replicas_has_an_empty_tensor() {
    let data = Data::from_normalized_dataframe(&two_algorithms(), 0, i64::MAX).unwrap();
    assert_eq!(data.expected_best_quality.dim(), (4, 2, 0));
    assert_eq!(data.best_per_instance.to_vec(), vec![fixed(9.0), fixed(7.0), fixed(10.0),
        fixed(8.0)]);
}
