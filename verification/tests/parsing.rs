use portfolio_solver::csv_parser::normalized_rows;
use portfolio_solver::datastructures::{Algorithm, Instance};
use portfolio_solver::fixed::SCALE;
use portfolio_solver::mt_kahypar_parser::{
    fix_instance_names, get_desired_instances, is_valid_run, is_wanted, normalize, DesiredInstance,
    HypergraphRun,
};
use portfolio_solver::table::RunRecord;

fn run(instance: &str, num_threads: u32, quality: u64) -> RunRecord {
    RunRecord {
        algorithm: Algorithm::new("algo".to_string(), num_threads),
        instance: Instance::named(instance),
        quality,
        time: SCALE,
        log_time: 0,
        valid: true,
    }
}

#[test]
fn rows_of_a_file_are_filtered_and_normalized() {
    let df = vec![run("g1", 1, 5), run("g2", 8, 5), run("g3", 2, 0), run("g1", 4, 7)];
    let expected = vec![run("g1", 1, 5), run("g3", 2, SCALE), run("g1", 4, 7)];
    assert_eq!(normalized_rows(&df, 4, None), expected);
    let wanted = vec!["g1".to_string(), "g2".to_string()];
    assert_eq!(normalized_rows(&df, 4, Some(&wanted)), vec![run("g1", 1, 5), run("g1", 4, 7)]);
    assert_eq!(normalized_rows(&df, 0, None), vec![]);
    assert_eq!(normalized_rows(&df, 8, Some(&vec![])), vec![]);
}

#[test]
fn graphs_are_known_under_one_name() {
    assert_eq!(fix_instance_names("cage.mtx.scotch"), "cage.mtx.graph");
    assert_eq!(fix_instance_names("scotch.scotch"), "graph.graph");
    assert_eq!(fix_instance_names("scotch.mtx.hgr"), "scotch.mtx.hgr");
    assert_eq!(fix_instance_names("cage.graph"), "cage.graph");
    assert_eq!(fix_instance_names(""), "");
}

fn measured(num_threads: u32, imbalance: u64, failed: &str, timeout: &str) -> HypergraphRun {
    HypergraphRun {
        algorithm: "mt-kahypar".to_string(),
        num_threads,
        graph: "cage.scotch".to_string(),
        k: 2,
        epsilon: 30_000,
        imbalance,
        km1: 0,
        total_partition_time: 2 * SCALE,
        log_time: 693_147,
        failed: failed.to_string(),
        timeout: timeout.to_string(),
    }
}

#[test]
fn runs_are_valid_if_balanced_and_finished() {
    assert!(is_valid_run(&measured(1, 30_000, "no", "no")));
    assert!(is_valid_run(&measured(1, 0, "no", "no")));
    assert!(!is_valid_run(&measured(1, 30_001, "no", "no")));
    assert!(!is_valid_run(&measured(1, 10_000, "yes", "no")));
    assert!(!is_valid_run(&measured(1, 10_000, "no", "yes")));
}

#[test]
fn runs_become_rows_of_the_table() {
    let row = normalize(&measured(4, 10_000, "no", "no"), 4).unwrap();
    assert_eq!(row, RunRecord {
        algorithm: Algorithm::new("mt-kahypar".to_string(), 4),
        instance: Instance::new("cage.graph".to_string(), Some(2), Some(30_000)),
        quality: SCALE,
        time: 2 * SCALE,
        log_time: 693_147,
        valid: true,
    });
    assert!(!normalize(&measured(4, 50_000, "no", "no"), 4).unwrap().valid);
    assert_eq!(normalize(&measured(5, 10_000, "no", "no"), 4), None);
}

#[test]
fn desired_instances_are_all_combinations() {
    let graphs = vec!["a".to_string(), "b".to_string()];
    let desired = get_desired_instances(&graphs, &vec![2, 4], &vec![30_000]).unwrap();
    let wanted = |graph: &str, k: i64| DesiredInstance { graph: graph.to_string(), k,
        epsilon: 30_000 };
    assert_eq!(desired, vec![wanted("a", 2), wanted("a", 4), wanted("b", 2), wanted("b", 4)]);
    let desired = get_desired_instances(&graphs, &vec![2], &vec![10_000, 30_000]).unwrap();
    assert_eq!(desired.iter().map(|d| d.epsilon).collect::<Vec<_>>(), vec![
        10_000, 30_000, 10_000, 30_000
    ]);
    assert_eq!(get_desired_instances(&graphs, &vec![], &vec![30_000]), Some(vec![]));
    assert_eq!(get_desired_instances(&graphs, &vec![2], &vec![]), Some(vec![]));
}

#[test]
fn runs_are_kept_by_graph_blocks_and_threshold() {
    let wanted = |graph: &str, k: i64| DesiredInstance { graph: graph.to_string(), k,
        epsilon: 30_000 };
    let desired = vec![wanted("other.graph", 2), wanted("cage.graph", 4), wanted("cage.graph", 2)];
    assert!(is_wanted(&desired, &measured(1, 0, "no", "no")));
    let others = vec![wanted("other.graph", 2), wanted("cage.graph", 4), wanted("cage.scotch", 2)];
    assert!(!is_wanted(&others, &measured(1, 0, "no", "no")));
    assert!(!is_wanted(&vec![], &measured(1, 0, "no", "no")));
}

#[test]
fn test_hypergraph_parser() {
    let k = 4;
    let mut runs = Vec::new();
    for graph in ["a.hgr", "b.hgr", "c.mtx.scotch", "d.graph"] {
        runs.push(measured(1, 10_000, "no", "no"));
        runs.push(measured(2, 40_000, "no", "no"));
        runs.push(measured(4, 30_000, "no", "no"));
        for run in runs.iter_mut().rev().take(3) {
            run.graph = graph.to_string();
        }
    }
    let df: Vec<RunRecord> = runs.iter().filter_map(|run| normalize(run, k)).collect();
    assert_eq!(df.len(), 12);
    assert_eq!(df.iter().map(|row| row.valid).collect::<Vec<_>>(), vec![
        true, false, true, true, false, true, true, false, true, true, false, true
    ]);
    assert_eq!(df[8].instance, Instance::new("c.mtx.graph".to_string(), Some(2), Some(30_000)));
}
