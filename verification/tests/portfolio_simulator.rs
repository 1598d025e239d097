use portfolio_solver::datastructures::{Algorithm, Instance, Portfolio};
use portfolio_solver::fixed::SCALE;
use portfolio_solver::portfolio_simulator::{
    portfolio_run_from_samples, replicas_for, simulate, simulate_algorithms_as_portfolio,
    simulate_portfolio_execution, simulation_df, SampledRun, SimulationError,
};
use portfolio_solver::table::RunRecord;
use portfolio_solver::tensor::AlgorithmArray;

fn fixed(x: f64) -> u64 {
    (x * SCALE as f64).round() as u64
}

fn units(x: u64) -> f64 {
    x as f64 / SCALE as f64
}

fn run(algorithm: &str, num_threads: u32, instance: &str, quality: f64, time: f64) -> RunRecord {
    RunRecord {
        algorithm: Algorithm::new(algorithm.to_string(), num_threads),
        instance: Instance::named(instance),
        quality: fixed(quality),
        time: fixed(time),
        log_time: (time.ln() * SCALE as f64).round() as i32,
        valid: true,
    }
}

fn table(algorithms: &[&str], instances: &[&str], qualities: &[f64], times: &[f64])
    -> Vec<RunRecord> {
    (0..algorithms.len())
        .map(|i| run(algorithms[i], 1, instances[i], qualities[i], times[i]))
        .collect()
}

#[test]
fn tests_test_simple_model_simulation() {
    let df = table(
        &["algo1", "algo1", "algo2", "algo2", "algo3", "algo3"],
        &["graph1", "graph2", "graph1", "graph2", "graph1", "graph2"],
        &[1.0, 1.0, 1.0, 1.0, 1.0, 1.0],
        &[1.0, 1.0, 1.0, 1.0, 1.0, 1.0],
    );
    let portfolio = Portfolio {
        name: "final_portfolio_opt".to_string(),
        resource_assignments: vec![
            (Algorithm { algorithm: "algo1".into(), num_threads: 1 }, 0),
            (Algorithm { algorithm: "algo2".into(), num_threads: 1 }, 2),
        ],
    };
    let simulation_df = simulate(&df, &portfolio, 42).unwrap();
    assert_eq!(simulation_df.len(), 4);
    assert!(!simulation_df.iter().any(|s| s.run.algorithm.algorithm == "algo1"));
}

#[test]
fn test_simple_model_simulation_from_samples() {
    let df: Vec<SampledRun> = table(
        &["algo2", "algo2", "algo2", "algo2"],
        &["graph1", "graph2", "graph1", "graph2"],
        &[1.0, 2.0, 3.0, 4.0],
        &[1.0, 1.0, 1.0, 1.0],
    )
    .into_iter()
    .map(|run| SampledRun { run, seed: 0 })
    .collect();
    let portfolio_df = portfolio_run_from_samples(&df, 4, "portfolio");
    assert_eq!(portfolio_df.len(), 2);
    let mut qualities: Vec<f64> = portfolio_df.iter().map(|row| units(row.run.quality)).collect();
    qualities.sort_by(|a, b| a.partial_cmp(b).unwrap());
    assert_eq!(qualities, vec![1.0, 2.0]);
}

#[test]
fn portfolio_run_takes_the_best_quality_and_the_longest_time() {
    let mut df: Vec<SampledRun> = table(
        &["a", "b", "a", "b", "a"],
        &["g2", "g1", "g1", "g2", "g1"],
        &[5.0, 3.0, 2.0, 5.0, 2.0],
        &[1.0, 8.0, 2.0, 4.0, 3.0],
    )
    .into_iter()
    .enumerate()
    .map(|(i, run)| SampledRun { run, seed: i as u64 })
    .collect();
    df[2].run.valid = false;
    let rows = portfolio_run_from_samples(&df, 16, "portfolio");
    assert_eq!(rows.len(), 2);
    assert_eq!(rows[0].run.instance.name, "g1");
    assert_eq!(rows[0].run.algorithm, Algorithm::new("portfolio".into(), 16));
    assert_eq!(rows[0].run.quality, fixed(2.0));
    assert_eq!(rows[0].run.time, fixed(8.0));
    assert_eq!(rows[0].run.log_time, df[1].run.log_time);
    // the first of the two best runs decides the rest
    assert_eq!(rows[0].run.valid, false);
    assert_eq!(rows[0].seed, 2);
    assert_eq!(rows[1].run.instance.name, "g2");
    assert_eq!(rows[1].run.quality, fixed(5.0));
    assert_eq!(rows[1].run.time, fixed(4.0));
    assert_eq!(rows[1].seed, 0);
    assert!(portfolio_run_from_samples(&vec![], 16, "portfolio").is_empty());
}

#[test]
fn simulation_draws_runs_of_the_algorithm_on_the_instance() {
    let df = table(
        &["a", "a", "a", "b", "a", "b"],
        &["g2", "g1", "g2", "g1", "g2", "g3"],
        &[1.0, 2.0, 3.0, 4.0, 5.0, 6.0],
        &[1.0; 6],
    );
    let portfolio = Portfolio {
        name: "p".to_string(),
        resource_assignments: vec![
            (Algorithm::new("b".into(), 1), 1),
            (Algorithm::new("a".into(), 1), 3),
            (Algorithm::new("missing".into(), 1), 2),
        ],
    };
    let samples = simulate(&df, &portfolio, 7).unwrap();
    let drawn_from: Vec<(&str, &str)> = samples
        .iter()
        .map(|s| (s.run.algorithm.algorithm.as_str(), s.run.instance.name.as_str()))
        .collect();
    assert_eq!(drawn_from, vec![
        ("b", "g1"),
        ("b", "g3"),
        ("a", "g1"),
        ("a", "g1"),
        ("a", "g1"),
        ("a", "g2"),
        ("a", "g2"),
        ("a", "g2")
    ]);
    for sample in &samples {
        assert_eq!(sample.seed, 7);
        assert!(df.contains(&sample.run));
    }
    assert_eq!(simulate(&df, &portfolio, 7).unwrap(), samples);
}

#[test]
fn simulation_rejects_more_replicas_than_can_be_drawn() {
    let df = table(&["a"], &["g1"], &[1.0], &[1.0]);
    let portfolio = Portfolio {
        name: "p".to_string(),
        resource_assignments: vec![(Algorithm::new("a".into(), 1), 1 << 32)],
    };
    assert_eq!(simulate(&df, &portfolio, 0), Err(SimulationError::TooManyReplicas));
}

#[test]
fn replicas_are_rounded_by_the_draw() {
    // 10 / 4 = 2.5: the upper half of the draws rounds down
    assert_eq!(replicas_for(10, 4, u64::MAX), 2);
    assert_eq!(replicas_for(10, 4, 1 << 63), 2);
    assert_eq!(replicas_for(10, 4, (1 << 63) - 2048), 3);
    assert_eq!(replicas_for(10, 4, 0), 3);
    // 12 / 4 = 3 needs no rounding
    assert_eq!(replicas_for(12, 4, 0), 3);
    assert_eq!(replicas_for(12, 4, u64::MAX), 3);
    assert_eq!(replicas_for(3, 4, 0), 1);
    assert_eq!(replicas_for(3, 4, u64::MAX), 0);
}

#[test]
fn portfolio_execution_has_a_run_per_seed_and_instance() {
    let df = table(
        &["a", "a", "b", "b"],
        &["g1", "g2", "g1", "g2"],
        &[4.0, 3.0, 2.0, 5.0],
        &[1.0, 2.0, 3.0, 4.0],
    );
    let portfolio = Portfolio {
        name: "both".to_string(),
        resource_assignments: vec![(Algorithm::new("a".into(), 1), 1), (Algorithm::new("b".into(), 1), 1)],
    };
    let rows = simulate_portfolio_execution(&df, &portfolio, 3, 2);
    assert_eq!(rows.len(), 6);
    for (i, row) in rows.iter().enumerate() {
        assert_eq!(row.seed, (i / 2) as u64);
        assert_eq!(row.run.algorithm, Algorithm::new("both".into(), 2));
        assert_eq!(row.run.instance.name, if i % 2 == 0 { "g1" } else { "g2" });
        assert_eq!(row.run.quality, if i % 2 == 0 { fixed(2.0) } else { fixed(3.0) });
        assert_eq!(row.run.time, if i % 2 == 0 { fixed(3.0) } else { fixed(4.0) });
    }
}

#[test]
fn algorithms_are_simulated_as_portfolios_of_their_own() {
    let mut df = table(&["a", "a", "b"], &["g1", "g2", "g1"], &[4.0, 3.0, 2.0], &[1.0; 3]);
    df[2].algorithm.num_threads = 2;
    let listed = vec![
        Algorithm::new("a".into(), 1),
        Algorithm::new("b".into(), 2),
        Algorithm::new("wide".into(), 64),
    ];
    let algorithms = AlgorithmArray::from_vec(listed.clone());
    let rows = simulate_algorithms_as_portfolio(&df, &algorithms, 2, 4);
    let names: Vec<&str> = rows.iter().map(|r| r.run.algorithm.algorithm.as_str()).collect();
    assert_eq!(names, vec!["a 1", "a 1", "a 1", "a 1", "b 2", "b 2"]);
    assert!(rows.iter().all(|r| r.run.algorithm.num_threads == 4));
    let portfolios = vec![
        Portfolio { name: "empty".to_string(), resource_assignments: vec![] },
        Portfolio { name: "one".to_string(), resource_assignments: vec![(listed[0].clone(), 2)] },
    ];
    let all = simulation_df(&df, &algorithms, &portfolios, 2, 4);
    let names: Vec<&str> = all.iter().map(|r| r.run.algorithm.algorithm.as_str()).collect();
    assert_eq!(names, vec!["one", "one", "one", "one", "a 1", "a 1", "a 1", "a 1", "b 2", "b 2"]);
}
