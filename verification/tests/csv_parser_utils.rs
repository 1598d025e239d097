use portfolio_solver::csv_parser::utils::{
    best_per_instance, best_per_instance_count, best_per_instance_time, cleanup_missing_rows,
    extract_algorithm_columns, filter_algorithms_by_slowdown, stats_by_sampling, CleanupError,
    FilterError,
};
use portfolio_solver::csv_parser::slowdown::{slowdown_reference, Reference};
use portfolio_solver::datastructures::{Algorithm, Instance};
use portfolio_solver::fixed::{SCALE, WORST};
use portfolio_solver::table::{RunRecord, StatRow};

fn fixed(x: f64) -> u64 {
    (x * SCALE as f64).round() as u64
}

/// The natural logarithm of a slowdown ratio, on the grid.
fn log_ratio(ratio: f64) -> i64 {
    (ratio.ln() * SCALE as f64).round() as i64
}

fn units(x: u64) -> f64 {
    x as f64 / SCALE as f64
}

fn run(instance: &str, algorithm: &str, num_threads: u32, quality: f64, time: f64) -> RunRecord {
    RunRecord {
        algorithm: Algorithm::new(algorithm.to_string(), num_threads),
        instance: Instance::named(instance),
        quality: fixed(quality),
        time: fixed(time),
        log_time: (time.ln() * SCALE as f64).round() as i32,
        valid: true,
    }
}

fn table(
    instances: &[&str],
    algorithms: &[&str],
    qualities: &[f64],
    times: &[f64],
) -> Vec<RunRecord> {
    (0..instances.len())
        .map(|i| run(instances[i], algorithms[i], 1, qualities[i], times[i]))
        .collect()
}

#[test]
fn test_best_per_instance_count() {
    let df = table(
        &["graph1", "graph1", "graph1", "graph2", "graph2", "graph2"],
        &["algo1", "algo2", "algo3", "algo1", "algo2", "algo3"],
        &[1.0, 2.0, 2.0, 2.0, 1.0, 2.0],
        &[1.0; 6],
    );
    let ranking = best_per_instance_count(&df);
    let counts: Vec<f64> = ranking.iter().map(|c| c.count as f64).collect();
    assert_eq!(counts, vec![1.0, 1.0, 0.0]);
}

#[test]
fn test_stats_by_sampling() {
    let df = table(
        &["graph1", "graph1", "graph1", "graph1", "graph2", "graph2", "graph2", "graph2"],
        &["algo1", "algo1", "algo1", "algo1", "algo1", "algo1", "algo1", "algo1"],
        &[10.0, 8.0, 9.0, 7.0, 20.0, 18.0, 22.0, 19.0],
        &[1.0; 8],
    );
    let stats_df = stats_by_sampling(&df, 4).unwrap();
    let e_min: Vec<f64> = stats_df.iter().map(|row| units(row.e_min)).collect();
    // a draw never holds a run twice: three of four runs hold one of the two
    // best, and all four hold the best
    assert_eq!(e_min, vec![9.0, 7.0, 8.0, 7.0, 22.0, 19.0, 18.0, 18.0]);
    assert_eq!(stats_by_sampling(&df, 4).unwrap(), stats_df);
}

#[test]
fn test_algorithm_slowdown_filtering() {
    let df = table(
        &["graph1", "graph1", "graph1", "graph2", "graph2", "graph2"],
        &["algo1", "algo2", "algo3", "algo1", "algo2", "algo3"],
        &[1.0, 2.0, 2.0, 2.0, 1.0, 2.0],
        &[2.0, 2.0, 1.0, 2.0, 2.0, 1.0],
    );
    // the best runs take 2 seconds each, and no algorithm stays under half of that
    let filtered_df = filter_algorithms_by_slowdown(&df, log_ratio(0.5)).unwrap();
    let algorithms: Vec<String> =
        filtered_df.iter().map(|row| row.algorithm.algorithm.clone()).collect();
    assert_eq!(algorithms, Vec::<String>::new());
    assert_eq!(filtered_df, vec![]);
    // a little more than half lets the algorithm through that takes 1 second
    let filtered_df = filter_algorithms_by_slowdown(&df, log_ratio(0.51)).unwrap();
    assert_eq!(filtered_df, vec![df[2].clone(), df[5].clone()]);
    // the others take 2 seconds and need a ratio above one
    assert_eq!(filter_algorithms_by_slowdown(&df, log_ratio(1.0)).unwrap().len(), 2);
    assert_eq!(filter_algorithms_by_slowdown(&df, log_ratio(1.01)).unwrap(), df);
}

#[test]
fn slowdown_filter_rejects_the_empty_table() {
    assert_eq!(filter_algorithms_by_slowdown(&vec![], log_ratio(0.5)),
        Err(FilterError::EmptyDataframe));
}

#[test]
fn slowdown_filter_keeps_everything_under_a_huge_ratio() {
    let df = table(
        &["graph1", "graph1", "graph2", "graph2"],
        &["algo1", "algo2", "algo1", "algo2"],
        &[1.0, 2.0, 2.0, 1.0],
        &[3.0, 50.0, 4.0, 60.0],
    );
    assert_eq!(filter_algorithms_by_slowdown(&df, i64::MAX).unwrap(), df);
}

#[test]
fn slowdown_filter_measures_against_one_when_the_best_runs_take_no_time() {
    // every best run takes next to no time, so the algorithms are measured against one second
    let df = table(
        &["graph1", "graph1", "graph2", "graph2"],
        &["fast", "slow", "fast", "slow"],
        &[1.0, 2.0, 1.0, 2.0],
        &[1e-16, 2.0, 1e-16, 2.0],
    );
    // 2 < 3 * 1
    let kept = filter_algorithms_by_slowdown(&df, log_ratio(3.0)).unwrap();
    assert_eq!(kept, df);
    // 2 >= 1.5 * 1
    let kept = filter_algorithms_by_slowdown(&df, log_ratio(1.5)).unwrap();
    assert_eq!(kept, vec![df[0].clone(), df[2].clone()]);
    // best runs of a millisecond are measured against as they are
    let df = table(
        &["graph1", "graph1", "graph2", "graph2"],
        &["fast", "slow", "fast", "slow"],
        &[1.0, 2.0, 1.0, 2.0],
        &[0.001, 2.0, 0.001, 2.0],
    );
    let kept = filter_algorithms_by_slowdown(&df, log_ratio(3.0)).unwrap();
    assert_eq!(kept, vec![df[0].clone(), df[2].clone()]);
}

#[test]
fn best_per_instance_is_the_lowest_quality_across_algorithms() {
    let df = table(
        &["g1", "g2", "g3", "g4", "g1", "g2", "g3", "g4"],
        &["algo1", "algo1", "algo1", "algo1", "algo2", "algo2", "algo2", "algo2"],
        &[20.0, 18.0, 10.0, 8.0, 9.0, 7.0, 22.0, 24.0],
        &[1.0; 8],
    );
    let best: Vec<f64> = best_per_instance(&df).iter().map(|b| units(b.best_quality)).collect();
    assert_eq!(best, vec![9.0, 7.0, 10.0, 8.0]);
}

#[test]
fn best_per_instance_lists_instances_in_ascending_order() {
    let df = table(
        &["zeta", "alpha", "zeta", "beta"],
        &["a", "a", "b", "b"],
        &[3.0, 5.0, 2.0, 4.0],
        &[1.0; 4],
    );
    let best = best_per_instance(&df);
    let names: Vec<&str> = best.iter().map(|b| b.instance.name.as_str()).collect();
    assert_eq!(names, vec!["alpha", "beta", "zeta"]);
    assert_eq!(best.iter().map(|b| b.best_quality).collect::<Vec<_>>(), vec![
        fixed(5.0),
        fixed(4.0),
        fixed(2.0)
    ]);
}

#[test]
fn best_time_is_the_time_of_the_first_best_run() {
    let df = table(
        &["g1", "g1", "g1", "g2"],
        &["a", "b", "c", "a"],
        &[2.0, 1.0, 1.0, 4.0],
        &[1.5, 2.5, 3.5, 4.5],
    );
    let best = best_per_instance_time(&df);
    assert_eq!(best.iter().map(|b| units(b.best_time)).collect::<Vec<_>>(), vec![2.5, 4.5]);
}

#[test]
fn count_lists_every_algorithm_even_without_wins() {
    let df = table(
        &["g1", "g1", "g1", "g2", "g2", "g2"],
        &["c", "b", "a", "c", "b", "a"],
        &[1.0, 2.0, 3.0, 1.0, 2.0, 3.0],
        &[1.0; 6],
    );
    let counts = best_per_instance_count(&df);
    assert_eq!(counts.len(), 3);
    let listed: Vec<(&str, usize)> =
        counts.iter().map(|c| (c.algorithm.algorithm.as_str(), c.count)).collect();
    assert_eq!(listed, vec![("a", 0), ("b", 0), ("c", 2)]);
}

#[test]
fn algorithms_are_ordered_by_name_then_threads() {
    let mut df = table(&["g1", "g1", "g1"], &["b", "a", "a"], &[1.0; 3], &[1.0; 3]);
    df[1].algorithm.num_threads = 4;
    df[2].algorithm.num_threads = 2;
    df.push(df[0].clone());
    let algorithms = extract_algorithm_columns(&df);
    assert_eq!(algorithms.to_vec(), vec![
        Algorithm::new("a".into(), 2),
        Algorithm::new("a".into(), 4),
        Algorithm::new("b".into(), 1)
    ]);
}

fn stat(instance: &str, algorithm: &str, sample_size: u32, e_min: f64) -> StatRow {
    StatRow {
        instance: Instance::named(instance),
        algorithm: Algorithm::new(algorithm.to_string(), 1),
        sample_size,
        e_min: fixed(e_min),
    }
}

#[test]
fn cleanup_fills_missing_combinations_with_the_worst_value() {
    let df = vec![
        stat("g1", "a", 1, 5.0),
        stat("g1", "a", 2, 4.0),
        stat("g2", "b", 1, 7.0),
        stat("g2", "b", 2, 6.0),
    ];
    let clean = cleanup_missing_rows(&df, 2).unwrap();
    assert_eq!(clean.len(), 2 * 2 * 2);
    let worst = |instance: &str, algorithm: &str, s: u32| StatRow {
        instance: Instance::named(instance),
        algorithm: Algorithm::new(algorithm.to_string(), 1),
        sample_size: s,
        e_min: WORST,
    };
    assert_eq!(clean, vec![
        stat("g1", "a", 1, 5.0),
        stat("g1", "a", 2, 4.0),
        worst("g1", "b", 1),
        worst("g1", "b", 2),
        worst("g2", "a", 1),
        worst("g2", "a", 2),
        stat("g2", "b", 1, 7.0),
        stat("g2", "b", 2, 6.0),
    ]);
}

#[test]
fn cleanup_of_a_complete_table_changes_nothing() {
    let df = vec![
        stat("g1", "a", 1, 5.0),
        stat("g2", "b", 1, 7.0),
        stat("g2", "b", 2, 6.0),
    ];
    let once = cleanup_missing_rows(&df, 2).unwrap();
    let twice = cleanup_missing_rows(&once, 2).unwrap();
    assert_eq!(once, twice);
    assert_eq!(twice.len(), 8);
}

#[test]
fn cleanup_for_no_replicas_is_empty() {
    let df = vec![stat("g1", "a", 1, 5.0)];
    assert_eq!(cleanup_missing_rows(&df, 0).unwrap(), vec![]);
}

#[test]
fn cleanup_refuses_a_table_beyond_memory() {
    // 2^17 instances with an algorithm each, for up to 2^32 - 1 replicas
    let df: Vec<StatRow> = (0..1u32 << 17)
        .map(|i| StatRow {
            instance: Instance::named(&format!("graph{i:06}")),
            algorithm: Algorithm::new(format!("algo{i:06}"), 1),
            sample_size: 1,
            e_min: 1,
        })
        .collect();
    assert_eq!(cleanup_missing_rows(&df, u32::MAX), Err(CleanupError::TooLarge));
}

#[test]
fn sampling_estimates_are_qualities_of_the_pair() {
    let df = table(
        &["g2", "g1", "g2", "g1", "g2"],
        &["b", "a", "a", "a", "b"],
        &[5.0, 3.0, 8.0, 4.0, 6.0],
        &[1.0; 5],
    );
    let stats = stats_by_sampling(&df, 3).unwrap();
    let keys: Vec<(&str, &str, u32)> = stats
        .iter()
        .map(|r| (r.instance.name.as_str(), r.algorithm.algorithm.as_str(), r.sample_size))
        .collect();
    assert_eq!(keys, vec![
        ("g1", "a", 1),
        ("g1", "a", 2),
        ("g1", "a", 3),
        ("g2", "a", 1),
        ("g2", "a", 2),
        ("g2", "a", 3),
        ("g2", "b", 1),
        ("g2", "b", 2),
        ("g2", "b", 3)
    ]);
    // one replica gives one of the runs, as many replicas as runs give the best of them
    assert!(stats[0].e_min == fixed(3.0) || stats[0].e_min == fixed(4.0));
    assert_eq!(stats[1].e_min, fixed(3.0));
    assert_eq!(stats[2].e_min, fixed(3.0));
    for row in &stats[3..6] {
        assert_eq!(row.e_min, fixed(8.0));
    }
    assert!(stats[6].e_min == fixed(5.0) || stats[6].e_min == fixed(6.0));
    assert_eq!(stats[7].e_min, fixed(5.0));
    assert_eq!(stats[8].e_min, fixed(5.0));
    assert_eq!(stats_by_sampling(&df, 0), Ok(vec![]));
    assert_eq!(stats_by_sampling(&vec![], 3), Ok(vec![]));
}

#[test]
fn slowdown_reference_is_the_mean_of_the_best_runs() {
    // the best runs take 2 and 8 seconds: (ln 2 + ln 8) / 2 = ln 4 = 1.386294
    let df = table(
        &["g1", "g1", "g2", "g2"],
        &["a", "b", "a", "b"],
        &[1.0, 2.0, 2.0, 1.0],
        &[2.0, 5.0, 7.0, 8.0],
    );
    assert_eq!(slowdown_reference(&df), Some(Reference { log_time: 1_386_294, clamped: false }));
    // (ln 1 + ln 0.5) / 2 = -0.3465735, rounded down
    let df = table(&["g1", "g2"], &["a", "a"], &[1.0, 2.0], &[1.0, 0.5]);
    assert_eq!(slowdown_reference(&df), Some(Reference { log_time: -346_574, clamped: false }));
    // best runs that take next to no time leave nothing to measure against
    let df = table(&["g1", "g2"], &["a", "a"], &[1.0, 2.0], &[1e-16, 1e-17]);
    assert_eq!(slowdown_reference(&df), Some(Reference { log_time: 0, clamped: true }));
    assert_eq!(slowdown_reference(&vec![]), None);
}

#[test]
fn slowdown_filter_compares_geometric_means() {
    // the best run takes e^10 seconds, the other e^15: far more than twice as long
    let df = table(
        &["g1", "g1"],
        &["best", "slow"],
        &[1.0, 2.0],
        &[10f64.exp(), 15f64.exp()],
    );
    assert_eq!(filter_algorithms_by_slowdown(&df, log_ratio(2.0)).unwrap(), vec![df[0].clone()]);
    // e^15 < e^5.01 * e^10
    assert_eq!(filter_algorithms_by_slowdown(&df, 5_010_000).unwrap(), df);
    assert_eq!(filter_algorithms_by_slowdown(&df, 5_000_000).unwrap(), vec![df[0].clone()]);
    // the geometric mean of 2 and 8 seconds is 4 seconds; the best run takes 3
    let df = table(
        &["g1", "g1", "g1"],
        &["best", "other", "other"],
        &[1.0, 2.0, 2.0],
        &[3.0, 2.0, 8.0],
    );
    assert_eq!(filter_algorithms_by_slowdown(&df, log_ratio(1.3)).unwrap(), vec![df[0].clone()]);
    assert_eq!(filter_algorithms_by_slowdown(&df, log_ratio(1.4)).unwrap(), df);
}

#[test]
fn slowdown_filter_measures_against_one_second_only_next_to_zero() {
    // the best run takes no time to speak of, the other e seconds
    let df = table(&["g1", "g1"], &["best", "other"], &[1.0, 2.0], &[1e-17, 1f64.exp()]);
    assert_eq!(slowdown_reference(&df), Some(Reference { log_time: 0, clamped: true }));
    assert_eq!(filter_algorithms_by_slowdown(&df, log_ratio(2.0)).unwrap(), vec![df[0].clone()]);
    assert_eq!(filter_algorithms_by_slowdown(&df, log_ratio(3.0)).unwrap(), df);
    // half a second is a time like any other
    let df = table(&["g1", "g1"], &["best", "other"], &[1.0, 2.0], &[0.5, 1.2]);
    assert_eq!(slowdown_reference(&df), Some(Reference { log_time: -693_147, clamped: false }));
    assert_eq!(filter_algorithms_by_slowdown(&df, log_ratio(2.0)).unwrap(), vec![df[0].clone()]);
    assert_eq!(filter_algorithms_by_slowdown(&df, log_ratio(2.5)).unwrap(), df);
}
