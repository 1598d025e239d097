use portfolio_solver::config::{
    assignments_equal, default_config, default_feasibility_thresholds, default_ks, file_stem,
    portfolios_to_execute, Args, Config, UNBOUNDED_SLOWDOWN,
};
use portfolio_solver::datastructures::{Algorithm, Portfolio, Timeout};

fn no_args() -> Args {
    Args {
        config: "config.json".to_string(),
        files: None,
        ks: None,
        feasibility_thresholds: None,
        graphs: None,
        slowdown_ratio: None,
        num_seeds: None,
        out_dir: None,
        timeout: None,
        num_cores: None,
        initial_portfolio: false,
        random_portfolio: false,
    }
}

#[test]
fn configuration_without_arguments_is_the_one_of_the_file() {
    let configured = default_config();
    assert_eq!(Config::from_cli(configured.clone(), no_args()), configured);
    assert_eq!(configured.ks, vec![2, 4]);
    assert_eq!(configured.feasibility_thresholds, vec![30_000]);
    assert_eq!(configured.num_cores, 2);
    assert_eq!(configured.slowdown_ratio, u64::MAX);
    assert_eq!(configured.num_seeds, 1);
    assert_eq!(configured.timeout, Timeout::default());
    assert!(configured.files.is_empty() && configured.graphs.is_empty()
        && configured.out_dir.is_empty());
}

#[test]
fn arguments_replace_the_entries_of_the_file() {
    let args = Args {
        files: Some(vec!["a.csv".to_string(), "b.csv".to_string()]),
        ks: Some(vec![8]),
        feasibility_thresholds: Some(vec![10_000, 50_000]),
        graphs: Some("graphs.csv".to_string()),
        slowdown_ratio: Some(1_500_000),
        num_seeds: Some(5),
        out_dir: Some("out".to_string()),
        timeout: Some(Timeout(60_000_000)),
        num_cores: Some(64),
        ..no_args()
    };
    let config = Config::from_cli(default_config(), args);
    assert_eq!(config, Config {
        files: vec!["a.csv".to_string(), "b.csv".to_string()],
        graphs: "graphs.csv".to_string(),
        ks: vec![8],
        feasibility_thresholds: vec![10_000, 50_000],
        num_cores: 64,
        slowdown_ratio: 1_500_000,
        num_seeds: 5,
        out_dir: "out".to_string(),
        timeout: Timeout(60_000_000),
    });
}

#[test]
fn slowdown_ratio_of_zero_switches_the_filter_off() {
    let mut configured = default_config();
    configured.slowdown_ratio = 0;
    assert_eq!(Config::from_cli(configured.clone(), no_args()).slowdown_ratio, UNBOUNDED_SLOWDOWN);
    configured.slowdown_ratio = 2_000_000;
    let args = Args { slowdown_ratio: Some(0), ..no_args() };
    assert_eq!(Config::from_cli(configured, args).slowdown_ratio, UNBOUNDED_SLOWDOWN);
    assert_eq!(UNBOUNDED_SLOWDOWN, u32::MAX as u64 * 1_000_000);
}

#[test]
fn defaults_of_the_instance_filter() {
    assert_eq!(default_ks(), vec![2, 4, 8, 16, 32, 64, 128]);
    assert_eq!(default_feasibility_thresholds(), vec![30_000]);
}

fn portfolio(name: &str, replicas: &[u64]) -> Portfolio {
    Portfolio {
        name: name.to_string(),
        resource_assignments: replicas
            .iter()
            .enumerate()
            .map(|(i, &r)| (Algorithm::new(format!("algo{i}"), 1), r))
            .collect(),
    }
}

#[test]
fn the_final_portfolio_is_always_executed() {
    let last = portfolio("final_portfolio_opt", &[3, 1]);
    let first = portfolio("initial_portfolio", &[2, 2]);
    let random = portfolio("random_portfolio", &[4, 0]);
    let executed = |initial: Option<Portfolio>, write_random: bool, write_initial: bool| {
        let args = Args { random_portfolio: write_random, initial_portfolio: write_initial, ..no_args() };
        portfolios_to_execute(last.clone(), initial, random.clone(), &args)
    };
    assert_eq!(executed(Some(first.clone()), false, false), vec![last.clone()]);
    assert_eq!(executed(Some(first.clone()), true, false), vec![last.clone(), random.clone()]);
    assert_eq!(executed(Some(first.clone()), false, true), vec![last.clone(), first.clone()]);
    assert_eq!(executed(Some(first.clone()), true, true), vec![
        last.clone(),
        random.clone(),
        first.clone()
    ]);
    assert_eq!(executed(None, true, true), vec![last.clone(), random.clone()]);
    // an initial portfolio with the assignments of the final one is left out
    let same = portfolio("initial_portfolio", &[3, 1]);
    assert_eq!(executed(Some(same), false, true), vec![last.clone()]);
}

#[test]
fn assignments_are_compared_by_algorithm_and_replicas() {
    let a = portfolio("a", &[3, 1]).resource_assignments;
    assert!(assignments_equal(&a, &portfolio("b", &[3, 1]).resource_assignments));
    assert!(!assignments_equal(&a, &portfolio("b", &[3, 2]).resource_assignments));
    assert!(!assignments_equal(&a, &portfolio("b", &[3]).resource_assignments));
    let mut threads = a.clone();
    threads[1].0.num_threads = 2;
    assert!(!assignments_equal(&a, &threads));
    assert!(assignments_equal(&vec![], &vec![]));
}

#[test]
fn files_are_named_without_the_mark_of_optimality() {
    assert_eq!(file_stem(&portfolio("final_portfolio_opt", &[])), "final_portfolio");
    assert_eq!(file_stem(&portfolio("initial_portfolio", &[])), "initial_portfolio");
    assert_eq!(file_stem(&portfolio("_opt_opt", &[])), "");
}
