//! Runs of hypergraph partitioners, as they are turned into rows of the
//! table of runs.
use vstd::prelude::*;
use vstd::string::StringExecFns;
use crate::datastructures::{Algorithm, Instance};
use crate::fixed::{normalize_quality, normalized};
use crate::table::RunRecord;
use crate::text::{ends_with, has_suffix, replace_all, replaced};

verus! {

/// One run of a partitioner, as measured.
#[derive(Debug, Clone, PartialEq, Eq)]
pub struct HypergraphRun {
    /// The partitioner
    pub algorithm: String,
    /// The number of threads it ran with
    pub num_threads: u32,
    /// The graph that was partitioned
    pub graph: String,
    /// The number of blocks it was partitioned into
    pub k: u32,
    /// The feasibility threshold (fixed-point)
    pub epsilon: u64,
    /// The imbalance of the partition (fixed-point)
    pub imbalance: u64,
    /// The connectivity of the partition (fixed-point)
    pub km1: u64,
    /// The running time in seconds (fixed-point)
    pub total_partition_time: u64,
    /// The natural logarithm of the running time in seconds (fixed-point)
    pub log_time: i32,
    /// Whether the run failed: "no" if it did not
    pub failed: String,
    /// Whether the run timed out: "no" if it did not
    pub timeout: String,
}

/// The name under which a graph is known: graphs whose name ends in
/// `scotch` are listed with `graph` in place of every `scotch`.
pub open spec fn fixed_name(instance: Seq<char>) -> Seq<char> {
    if has_suffix(instance, "scotch"@) {
        replaced(instance, "scotch"@, "graph"@)
    } else {
        instance
    }
}

/// Gives a graph the name under which it is known.
pub fn fix_instance_names(instance: &str) -> (r: String)
    ensures
        r@ == fixed_name(instance@),
{
    proof {
        reveal_strlit("scotch");
    }
    if ends_with(instance, "scotch") {
        replace_all(instance, "scotch", "graph")
    } else {
        String::from_str(instance)
    }
}

/// A run is valid if its partition is balanced within the threshold and it
/// neither failed nor timed out.
pub open spec fn valid_run(run: HypergraphRun) -> bool {
    run.imbalance <= run.epsilon && run.failed@ == "no"@ && run.timeout@ == "no"@
}

/// Decides whether a run is valid.
pub fn is_valid_run(run: &HypergraphRun) -> (r: bool)
    ensures
        r == valid_run(*run),
{
    let no = String::from_str("no");
    run.imbalance <= run.epsilon && run.failed == no && run.timeout == no
}

/// Turns a run of a partitioner into a row of the table of runs, unless it
/// used more than `num_cores` threads: the instance is the graph, under the
/// name it is known by, with the number of blocks and the threshold; the
/// connectivity is the quality, a connectivity of zero counts as one; and the
/// row is valid if the run is.
pub fn normalize(run: &HypergraphRun, num_cores: u32) -> (r: Option<RunRecord>)
    ensures
        r is Some <==> run.num_threads <= num_cores,
        r is Some ==> {
            let row = r->Some_0;
            &&& row.algorithm.algorithm@ == run.algorithm@
            &&& row.algorithm.num_threads == run.num_threads
            &&& row.instance.name@ == fixed_name(run.graph@)
            &&& row.instance.k == Some(run.k)
            &&& row.instance.feasibility_threshold == Some(run.epsilon)
            &&& row.quality == normalized(run.km1)
            &&& row.time == run.total_partition_time
            &&& row.log_time == run.log_time
            &&& row.valid == valid_run(*run)
        },
{
    if run.num_threads > num_cores {
        return None;
    }
    Some(
        RunRecord {
            algorithm: Algorithm::new(run.algorithm.clone(), run.num_threads),
            instance: Instance::new(
                fix_instance_names(run.graph.as_str()),
                Some(run.k),
                Some(run.epsilon),
            ),
            quality: normalize_quality(run.km1),
            time: run.total_partition_time,
            log_time: run.log_time,
            valid: is_valid_run(run),
        },
    )
}

/// One instance to keep: a graph, a number of blocks and a feasibility
/// threshold.
#[derive(Debug, PartialEq, Eq)]
pub struct DesiredInstance {
    pub graph: String,
    pub k: i64,
    pub epsilon: u64,
}

/// Whether an instance is one to keep.
pub open spec fn is_desired(desired: Seq<DesiredInstance>, graph: Seq<char>, k: u32,
    epsilon: u64) -> bool {
    exists|i: int|
        0 <= i < desired.len() && (#[trigger] desired[i]).graph@ == graph && desired[i].k == k
            && desired[i].epsilon == epsilon
}

/// Decides whether a run is on an instance to keep, by the name under which
/// its graph is known.
pub fn is_wanted(desired: &Vec<DesiredInstance>, run: &HypergraphRun) -> (r: bool)
    ensures
        r == is_desired(desired@, fixed_name(run.graph@), run.k, run.epsilon),
{
    let graph = fix_instance_names(run.graph.as_str());
    let mut i: usize = 0;
    while i < desired.len()
        invariant
            i <= desired@.len(),
            graph@ == fixed_name(run.graph@),
            forall|j: int|
                0 <= j < i ==> !((#[trigger] desired@[j]).graph@ == graph@ && desired@[j].k == run.k
                    && desired@[j].epsilon == run.epsilon),
        decreases desired@.len() - i,
    {
        let d = &desired[i];
        if d.graph == graph && d.k == run.k as i64 && d.epsilon == run.epsilon {
            return true;
        }
        i += 1;
    }
    false
}

/// `desired` holds every combination of a graph, a number of blocks and a
/// threshold: graph by graph, for each graph block number by block number,
/// for each of these threshold by threshold.
pub open spec fn is_cross_product(
    desired: Seq<DesiredInstance>,
    graphs: Seq<String>,
    ks: Seq<i64>,
    thresholds: Seq<u64>,
) -> bool {
    &&& desired.len() == graphs.len() * ks.len() * thresholds.len()
    &&& forall|t: int|
        0 <= t < desired.len() ==> {
            &&& (#[trigger] desired[t]).graph@ == graphs[(t / (thresholds.len() as int)) / (
            ks.len() as int)]@
            &&& desired[t].k == ks[(t / (thresholds.len() as int)) % (ks.len() as int)]
            &&& desired[t].epsilon == thresholds[t % (thresholds.len() as int)]
        }
}

/// The instances to keep: every graph with every number of blocks under
/// every threshold. `None` if they are more than fit into memory.
pub fn get_desired_instances(graphs: &Vec<String>, num_parts: &Vec<i64>,
    feasibility_thresholds: &Vec<u64>) -> (r: Option<Vec<DesiredInstance>>)
    ensures
        r is Some <==> graphs@.len() * num_parts@.len() * feasibility_thresholds@.len() <= usize::MAX,
        r is Some ==> is_cross_product(r->Some_0@, graphs@, num_parts@, feasibility_thresholds@),
{
    let m = graphs.len();
    let n = num_parts.len();
    let k = feasibility_thresholds.len();
    proof {
        assert(m * n * 0 == 0) by (nonlinear_arith);
    }
    if k == 0 {
        return Some(Vec::new());
    }
    let pairs = match m.checked_mul(n) {
        Some(pairs) => pairs,
        None => {
            proof {
                assert(m * n * k > usize::MAX) by (nonlinear_arith)
                    requires
                        m * n > usize::MAX,
                        k >= 1,
                ;
            }
            return None;
        },
    };
    let total = match pairs.checked_mul(k) {
        Some(total) => total,
        None => {
            return None;
        },
    };
    let mut desired: Vec<DesiredInstance> = Vec::new();
    let mut t: usize = 0;
    while t < total
        invariant
            t <= total,
            k > 0,
            m == graphs@.len(),
            n == num_parts@.len(),
            k == feasibility_thresholds@.len(),
            total == m * n * k,
            desired@.len() == t,
            forall|x: int|
                0 <= x < t ==> {
                    &&& (#[trigger] desired@[x]).graph@ == graphs@[(x / (k as int)) / (n as int)]@
                    &&& desired@[x].k == num_parts@[(x / (k as int)) % (n as int)]
                    &&& desired@[x].epsilon == feasibility_thresholds@[x % (k as int)]
                },
        decreases total - t,
    {
        proof {
            crate::csv_parser::completion::lemma_cell_parts(t as int, m as int, n as int, k as int);
        }
        let pair = t / k;
        desired.push(
            DesiredInstance {
                graph: graphs[pair / n].clone(),
                k: num_parts[pair % n],
                epsilon: feasibility_thresholds[t % k],
            },
        );
        t += 1;
    }
    Some(desired)
}

} // verus!
