use portfolio_solver::csv_parser::utils::best_per_instance_time;
use portfolio_solver::csv_parser::{considered_rows, normalized_rows, Data};
use portfolio_solver::datastructures::{Algorithm, Instance, Portfolio};
use portfolio_solver::fixed::SCALE;
use portfolio_solver::portfolio_simulator::{portfolio_run_from_samples, simulate};
use portfolio_solver::table::RunRecord;

fn fixed(x: f64) -> u64 {
    (x * SCALE as f64).round() as u64
}

/// The natural logarithm of a slowdown ratio, on the grid.
fn log_ratio(ratio: f64) -> i64 {
    (ratio.ln() * SCALE as f64).round() as i64
}

fn units(x: u64) -> f64 {
    x as f64 / SCALE as f64
}

const GRAPHS: [&str; 4] = ["graph1", "graph2", "graph3", "graph4"];

fn run(algorithm: &str, instance: &str, quality: f64, time: f64, valid: bool) -> RunRecord {
    RunRecord {
        algorithm: Algorithm::new(algorithm.to_string(), 1),
        instance: Instance::named(instance),
        quality: fixed(quality),
        time: fixed(time),
        log_time: (time.ln() * SCALE as f64).round() as i32,
        valid,
    }
}

/// Two runs of an algorithm on each of the graphs.
fn two_runs(algorithm: &str, first: [f64; 4], second: [f64; 4], times: [f64; 4]) -> Vec<RunRecord> {
    let mut rows = Vec::new();
    for i in 0..4 {
        rows.push(run(algorithm, GRAPHS[i], first[i], times[i] + 0.5, true));
        rows.push(run(algorithm, GRAPHS[i], second[i], times[i], true));
    }
    rows
}

fn algo1() -> Vec<RunRecord> {
    two_runs("algo1", [20.0, 10.0, 20.0, 10.0], [18.0, 9.0, 18.0, 9.0], [1.2, 4.2, 2.0, 3.0])
}

fn algo2() -> Vec<RunRecord> {
    two_runs("algo2", [18.0, 11.0, 24.0, 9.0], [16.0, 7.0, 22.0, 9.0], [1.0, 1.0, 1.0, 1.0])
}

fn algo3() -> Vec<RunRecord> {
    two_runs("algo3", [0.0, 8.0, 30.0, 0.0], [2.0, 9.0, 31.0, 3.0], [1.0, 1.0, 1.0, 1.0])
}

fn algo5() -> Vec<RunRecord> {
    two_runs("algo5", [30.0, 30.0, 30.0, 30.0], [31.0, 31.0, 31.0, 31.0], [1.0, 1.0, 1.0, 1.0])
        .into_iter()
        .filter(|r| r.instance.name != "graph4")
        .collect()
}

fn algo6() -> Vec<RunRecord> {
    let mut rows = Vec::new();
    for graph in GRAPHS {
        rows.push(run("algo6", graph, 20.0, 2.0, true));
        rows.push(run("algo6", graph, 10.0, 2.0, false));
    }
    rows
}

/// The same runs, the last one first.
fn backwards(mut rows: Vec<RunRecord>) -> Vec<RunRecord> {
    rows.reverse();
    rows
}

fn parse(tables: &[Vec<RunRecord>], num_cores: u32) -> Vec<RunRecord> {
    tables.iter().flat_map(|rows| normalized_rows(rows, num_cores, None)).collect()
}

#[test]
fn test_dataframe() {
    let k = 2;
    // the estimate for one replica is the run that the draw of one takes
    let df = parse(&[backwards(algo1()), backwards(algo2())], k);
    let data = Data::from_normalized_dataframe(&df, k, i64::MAX).unwrap();
    assert_eq!(data.num_instances, 4);
    assert_eq!(data.num_algorithms, 2);
    let best: Vec<f64> = data.best_per_instance.to_vec().iter().map(|&b| units(b)).collect();
    assert_eq!(best, vec![16.0, 7.0, 18.0, 9.0]);
    let first: Vec<[f64; 2]> = (0..4)
        .map(|i| {
            [
                units(data.expected_best_quality.get(i, 0, 0).unwrap()),
                units(data.expected_best_quality.get(i, 1, 0).unwrap()),
            ]
        })
        .collect();
    assert_eq!(first, vec![[18.0, 16.0], [9.0, 7.0], [18.0, 22.0], [9.0, 9.0]]);
    // with two replicas both runs are drawn, and the better one counts
    let second: Vec<[f64; 2]> = (0..4)
        .map(|i| {
            [
                units(data.expected_best_quality.get(i, 0, 1).unwrap()),
                units(data.expected_best_quality.get(i, 1, 1).unwrap()),
            ]
        })
        .collect();
    assert_eq!(second, vec![[18.0, 16.0], [9.0, 7.0], [18.0, 22.0], [9.0, 9.0]]);
}

#[test]
fn test_invalid_rows() {
    let k = 2;
    let df = parse(&[algo6()], k);
    let data = Data::from_normalized_dataframe(&df, k, i64::MAX).unwrap();
    assert_eq!(data.num_instances, 4);
    assert_eq!(data.num_algorithms, 1);
    let best: Vec<f64> = data.best_per_instance.to_vec().iter().map(|&b| units(b)).collect();
    assert_eq!(best, vec![20.0, 20.0, 20.0, 20.0]);
}

#[test]
fn test_missing_algo_for_instance() {
    let k = 2;
    let df = parse(&[algo2(), algo5()], k);
    let data = Data::from_normalized_dataframe(&df, k, i64::MAX).unwrap();
    assert_eq!(data.num_instances, 4);
    assert_eq!(data.num_algorithms, 2);
    let best: Vec<f64> = data.best_per_instance.to_vec().iter().map(|&b| units(b)).collect();
    assert_eq!(best, vec![16.0, 7.0, 22.0, 9.0]);
}

#[test]
fn test_quality_zero() {
    let df = parse(&[algo2(), algo3()], 2);
    let data = Data::from_normalized_dataframe(&df, 2, i64::MAX).unwrap();
    assert_eq!(data.num_instances, 4);
    assert_eq!(data.num_algorithms, 2);
    let best: Vec<f64> = data.best_per_instance.to_vec().iter().map(|&b| units(b)).collect();
    assert_eq!(best, vec![1.0, 7.0, 22.0, 1.0]);
}

#[test]
fn test_slowdown_ratio_filter() {
    let df = parse(&[algo1(), algo6()], 2);
    let slowdown_ratio = log_ratio(2.0);
    let data = Data::from_normalized_dataframe(&df, 2, slowdown_ratio).unwrap();
    assert_eq!(data.num_instances, 4);
    assert_eq!(data.num_algorithms, 2);
    let rows = considered_rows(&df, slowdown_ratio).unwrap();
    let best_time: Vec<f64>
        = best_per_instance_time(&rows).iter().map(|b| units(b.best_time)).collect();
    assert_eq!(best_time, vec![1.2, 4.2, 2.0, 3.0]);
}

#[test]
fn portfolio_simulator_test_simple_model_simulation_test_simple_model_simulation() {
    let df = parse(&[algo1(), algo2()], 2);
    let portfolio = Portfolio {
        name: "final_portfolio_opt".to_string(),
        resource_assignments: vec![
            (Algorithm { algorithm: "algo1".into(), num_threads: 1 }, 0),
            (Algorithm { algorithm: "algo2".into(), num_threads: 1 }, 2),
        ],
    };
    let simulation_df = simulate(&df, &portfolio, 42).unwrap();
    assert_eq!(simulation_df.len(), 8);
    assert!(!simulation_df.iter().any(|s| s.run.algorithm.algorithm == "algo1"));
    let portfolio_df = portfolio_run_from_samples(&simulation_df, 2, "portfolio");
    assert_eq!(portfolio_df.len(), 4);
    let mut qualities: Vec<f64> = portfolio_df.iter().map(|row| units(row.run.quality)).collect();
    qualities.sort_by(|a, b| a.partial_cmp(b).unwrap());
    assert_eq!(qualities, vec![9.0, 11.0, 18.0, 24.0]);
}
