//! The input of the solver, built from a table of runs.
use vstd::prelude::*;
use vstd::slice::slice_to_vec;
use crate::datastructures::{Algorithm, AlgorithmId, InstanceId};
use crate::estimator::SpreadTable;
use crate::text::{decimal, decimal_string};
use vstd::string::StringExecFns;
use crate::fixed::{normalize_quality, normalized, WORST};
use crate::table::{
    algorithm_ids, algorithm_list, instance_list, instance_names, key_eq, keys,
    lemma_algorithm_list, lemma_filter_push, lemma_instance_list, lists_algorithms, lists_groups,
    lists_instances, Key, KeyKind, Keyed, RunRecord, StatRow,
};
use crate::tensor::{shape_fits, AlgorithmArray, QualityTensor, ValueArray};
use completion::{
    cell_key, cell_value, cleanup_missing_rows, first_match_upto, is_completion, lemma_first_match,
};
use estimates::{
    estimated, group_qualities, is_stat_table, is_table_over, lemma_group_size, least_drawn,
    stats_by_normal_approximation, stats_by_sampling, StatsError,
};
use slowdown::{filter_algorithms_by_slowdown, survivor};
pub use utils::extract_algorithm_columns;
use utils::{
    best_per_instance, best_row, counted_algorithms, ids_of,
    lemma_best_row, quality_instances, win_counts, wins, InstanceQuality,
};

pub mod completion;
pub mod estimates;
pub mod slowdown;
pub mod utils;

verus! {

/// Input data structure for the solver.
pub struct Data {
    /// The algorithms to consider for the portfolio, in ascending order
    pub algorithms: AlgorithmArray,
    /// The best quality for each instance
    pub best_per_instance: ValueArray,
    /// For each algorithm the number of instances on which it is best, used
    /// for the initial solution of the solver where none is given
    pub best_per_instance_count: Option<ValueArray>,
    /// Expected best quality for each instance, for each algorithm, for each
    /// possible number of replicas, in this order of the axes
    pub expected_best_quality: QualityTensor,
    /// number of instances
    pub num_instances: usize,
    /// number of algorithms
    pub num_algorithms: usize,
}

/// Why the input of the solver could not be built.
#[derive(Debug, Clone, Copy, PartialEq, Eq)]
pub enum DataError {
    /// The expected best qualities do not fill the shape given by the numbers
    /// of instances, algorithms and replicas.
    Shape,
    /// The table has no valid run.
    EmptyDataframe,
    /// No algorithm is as fast as the slowdown ratio asks for.
    NoPortfolio,
    /// The table has more rows than can be sampled from.
    TooManyRows,
    /// The expected best qualities do not fit into memory.
    TooLarge,
    /// The table of spreads does not reach the number of replicas.
    MissingSpread,
}

/// The values of an optional array.
pub open spec fn optional_view(v: Option<ValueArray>) -> Option<Seq<u64>> {
    match v {
        Some(v) => Some(v@),
        None => None,
    }
}

/// The values of an optional slice.
pub open spec fn optional_slice_view(v: Option<&[u64]>) -> Option<Seq<u64>> {
    match v {
        Some(v) => Some(v@),
        None => None,
    }
}

impl Data {
    /// How the size of the data is written: the number of instances as `m`
    /// and the number of algorithms as `n`.
    pub open spec fn label(self) -> Seq<char> {
        "m: "@ + decimal(self.num_instances as nat) + ", n: "@ + decimal(self.num_algorithms as nat)
    }

    /// Writes the size of the data.
    pub fn to_text(&self) -> (r: String)
        ensures
            r@ == self.label(),
    {
        let mut text = String::from_str("m: ");
        let instances = decimal_string(self.num_instances as u64);
        text.append(instances.as_str());
        text.append(", n: ");
        let algorithms = decimal_string(self.num_algorithms as u64);
        text.append(algorithms.as_str());
        text
    }

    /// Create a new set of input data for the solver from existing vectors:
    /// `stats` holds the expected best qualities instance by instance, for
    /// each instance algorithm by algorithm, for each algorithm for 1 to `k`
    /// replicas.
    pub fn new(
        algorithms: &[Algorithm],
        best_per_instance: &[u64],
        best_per_instance_count: Option<&[u64]>,
        stats: &[u64],
        k: u32,
    ) -> (r: Result<Data, DataError>)
        ensures
            r is Ok <==> shape_fits(
                best_per_instance@.len() as int,
                algorithms@.len() as int,
                k as int,
                stats@.len() as int,
            ),
            r is Err ==> r->Err_0 == DataError::Shape,
            r is Ok ==> {
                let data = r->Ok_0;
                &&& data.algorithms@ == algorithms@
                &&& data.best_per_instance@ == best_per_instance@
                &&& optional_view(data.best_per_instance_count) == optional_slice_view(
                    best_per_instance_count,
                )
                &&& data.expected_best_quality.cells() == stats@
                &&& data.expected_best_quality.shape() == seq![
                    best_per_instance@.len() as int,
                    algorithms@.len() as int,
                    k as int,
                ]
                &&& data.num_instances == best_per_instance@.len()
                &&& data.num_algorithms == algorithms@.len()
            },
    {
        let num_algorithms = algorithms.len();
        let num_instances = best_per_instance.len();
        let expected_best_quality = match QualityTensor::from_cells(
            num_instances,
            num_algorithms,
            k as usize,
            slice_to_vec(stats),
        ) {
            Ok(tensor) => tensor,
            Err(_) => {
                return Err(DataError::Shape);
            },
        };
        let mut owned_algorithms: Vec<Algorithm> = Vec::new();
        let mut i: usize = 0;
        while i < num_algorithms
            invariant
                i <= num_algorithms,
                num_algorithms == algorithms@.len(),
                owned_algorithms@ == algorithms@.take(i as int),
            decreases num_algorithms - i,
        {
            owned_algorithms.push(algorithms[i].clone());
            proof {
                assert(algorithms@.take(i
                    + 1) =~= algorithms@.take(i as int).push(algorithms@[i as int]));
            }
            i += 1;
        }
        proof {
            assert(algorithms@.take(num_algorithms as int) =~= algorithms@);
        }
        let best = slice_to_vec(best_per_instance);
        let counts: Option<ValueArray> = match best_per_instance_count {
            None => None,
            Some(given) => Some(ValueArray::from_vec(slice_to_vec(given))),
        };
        Ok(
            Data {
                algorithms: AlgorithmArray::from_vec(owned_algorithms),
                best_per_instance: ValueArray::from_vec(best),
                best_per_instance_count: counts,
                expected_best_quality,
                num_instances,
                num_algorithms,
            },
        )
    }
}

/// Whether a run counts.
pub open spec fn is_valid() -> spec_fn(RunRecord) -> bool {
    |r: RunRecord| r.valid
}

/// A run with a degenerate quality reading replaced by one.
pub open spec fn prepare_row(r: RunRecord) -> RunRecord {
    RunRecord {
        algorithm: r.algorithm,
        instance: r.instance,
        quality: normalized(r.quality),
        time: r.time,
        log_time: r.log_time,
        valid: r.valid,
    }
}

/// The valid runs of a table, with degenerate quality readings replaced by
/// one.
pub open spec fn prepared(df: Seq<RunRecord>) -> Seq<RunRecord> {
    df.filter(is_valid()).map_values(|r: RunRecord| prepare_row(r))
}

/// Keeps the valid runs of a table and replaces degenerate quality readings
/// by one.
pub fn prepare(df: &Vec<RunRecord>) -> (rows: Vec<RunRecord>)
    ensures
        rows@ == prepared(df@),
        forall|i: int| 0 <= i < rows@.len() ==> (#[trigger] rows@[i]).quality > 0,
{
    let mut rows: Vec<RunRecord> = Vec::new();
    let mut i: usize = 0;
    proof {
        reveal(Seq::filter);
        assert(df@.take(0).filter(is_valid()) =~= Seq::<RunRecord>::empty());
        assert(prepared(df@.take(0)) =~= Seq::<RunRecord>::empty());
    }
    while i < df.len()
        invariant
            i <= df@.len(),
            rows@ == prepared(df@.take(i as int)),
            forall|j: int| 0 <= j < rows@.len() ==> (#[trigger] rows@[j]).quality > 0,
        decreases df@.len() - i,
    {
        proof {
            assert(df@.take(i + 1) =~= df@.take(i as int).push(df@[i as int]));
            lemma_filter_push(df@.take(i as int), df@[i as int], is_valid());
        }
        if df[i].valid {
            let row = &df[i];
            rows.push(
                RunRecord {
                    algorithm: row.algorithm.clone(),
                    instance: row.instance.clone(),
                    quality: normalize_quality(row.quality),
                    time: row.time,
                    log_time: row.log_time,
                    valid: row.valid,
                },
            );
            proof {
                let kept = df@.take(i as int).filter(is_valid());
                assert(kept.push(df@[i as int]).map_values(|r: RunRecord| prepare_row(r)) =~= kept.map_values(
                    |r: RunRecord| prepare_row(r),
                ).push(prepare_row(df@[i as int])));
            }
        }
        i += 1;
    }
    proof {
        assert(df@.take(df@.len() as int) =~= df@);
    }
    rows
}

/// Whether a cell of the table of expected best qualities holds what it
/// may: for a pair that has runs a value that `accepts` admits, and the worst
/// value for a pair without runs.
pub open spec fn fits_cell(
    rows: Seq<RunRecord>,
    key: Key,
    size: int,
    value: u64,
    accepts: spec_fn(Key, int, u64) -> bool,
) -> bool {
    if group_qualities(rows, key, rows.len()).len() == 0 {
        value == WORST
    } else {
        accepts(key, size, value)
    }
}

/// `cells` holds an expected best quality for every instance of the table,
/// every algorithm of the table and every number of replicas from 1 to `k`,
/// in ascending order of the three.
pub open spec fn is_cell_table_over(
    cells: Seq<u64>,
    rows: Seq<RunRecord>,
    k: int,
    accepts: spec_fn(Key, int, u64) -> bool,
) -> bool {
    let names = instance_list(keys(rows));
    let ids = algorithm_list(keys(rows));
    &&& cells.len() == names.len() * ids.len() * k
    &&& forall|t: int|
        0 <= t < cells.len() ==> fits_cell(
            rows,
            cell_key(names, ids, k, t),
            t % k + 1,
            #[trigger] cells[t],
            accepts,
        )
}

/// `cells` holds, for every instance, algorithm and number of replicas from
/// 1 to `k`, the least of a draw of that many of the qualities that the
/// algorithm reached on the instance, or the worst value where it has no run
/// there.
pub open spec fn is_cell_table(cells: Seq<u64>, rows: Seq<RunRecord>, k: int) -> bool {
    is_cell_table_over(cells, rows, k, least_drawn(rows))
}

/// A pair that has a quality has a run.
pub proof fn lemma_group_member(rows: Seq<RunRecord>, key: Key, n: nat)
    requires
        n <= rows.len(),
        group_qualities(rows, key, n).len() > 0,
    ensures
        exists|x: int| 0 <= x < n && key_eq(KeyKind::Group, (#[trigger] rows[x]).key(), key),
    decreases n,
{
    if n > 0 {
        if key_eq(KeyKind::Group, rows[n - 1].key(), key) {
        } else {
            lemma_group_member(rows, key, (n - 1) as nat);
        }
    }
}

/// The table of expected best qualities speaks of the pairs of instance and
/// algorithm that the runs speak of.
pub proof fn lemma_stat_keys(
    rows: Seq<RunRecord>,
    stats: Seq<StatRow>,
    k: int,
    groups: Seq<Key>,
    accepts: spec_fn(Key, int, u64) -> bool,
)
    requires
        k >= 1,
        lists_groups(groups, keys(rows)),
        is_table_over(stats, k, groups, accepts),
    ensures
        instance_names(keys(stats)) == instance_names(keys(rows)),
        algorithm_ids(keys(stats)) == algorithm_ids(keys(rows)),
{
    let sk = keys(stats);
    let rk = keys(rows);
    assert forall|key: Key| sk.to_set().contains(key) <==> rk.to_set().contains(key) by {
        if sk.contains(key) {
            let t = choose|t: int| 0 <= t < sk.len() && sk[t] == key;
            assert(stats[t].key() == groups[t / k]);
            assert(0 <= t / k < groups.len()) by (nonlinear_arith)
                requires
                    0 <= t < groups.len() * k,
                    k >= 1,
            ;
            assert(groups.to_set().contains(groups[t / k]));
        }
        if rk.contains(key) {
            assert(rk.to_set().contains(key));
            assert(groups.contains(key));
            let g = choose|g: int| 0 <= g < groups.len() && groups[g] == key;
            let t = g * k;
            assert(0 <= t < groups.len() * k && t / k == g) by (nonlinear_arith)
                requires
                    0 <= g < groups.len(),
                    k >= 1,
                    t == g * k,
            ;
            assert(stats[t].key() == groups[t / k]);
            assert(sk[t] == key);
        }
    }
    assert forall|name: InstanceId| instance_names(sk).contains(name)
        <==> instance_names(rk).contains(
        name,
    ) by {
        if instance_names(sk).contains(name) {
            let x = choose|x: int| 0 <= x < sk.len() && #[trigger] sk[x].instance == name;
            assert(sk.to_set().contains(sk[x]));
            assert(rk.contains(sk[x]));
            let y = choose|y: int| 0 <= y < rk.len() && rk[y] == sk[x];
            assert(rk[y].instance == name);
        }
        if instance_names(rk).contains(name) {
            let x = choose|x: int| 0 <= x < rk.len() && #[trigger] rk[x].instance == name;
            assert(rk.to_set().contains(rk[x]));
            assert(sk.contains(rk[x]));
            let y = choose|y: int| 0 <= y < sk.len() && sk[y] == rk[x];
            assert(sk[y].instance == name);
        }
    }
    assert(instance_names(sk) =~= instance_names(rk));
    assert forall|id: AlgorithmId| algorithm_ids(sk).contains(id)
        <==> algorithm_ids(rk).contains(id) by {
        if algorithm_ids(sk).contains(id) {
            let x = choose|x: int| 0 <= x < sk.len() && #[trigger] sk[x].algorithm == id;
            assert(sk.to_set().contains(sk[x]));
            assert(rk.contains(sk[x]));
            let y = choose|y: int| 0 <= y < rk.len() && rk[y] == sk[x];
            assert(rk[y].algorithm == id);
        }
        if algorithm_ids(rk).contains(id) {
            let x = choose|x: int| 0 <= x < rk.len() && #[trigger] rk[x].algorithm == id;
            assert(rk.to_set().contains(rk[x]));
            assert(sk.contains(rk[x]));
            let y = choose|y: int| 0 <= y < sk.len() && sk[y] == rk[x];
            assert(sk[y].algorithm == id);
        }
    }
    assert(algorithm_ids(sk) =~= algorithm_ids(rk));
}

/// What a complete table holds for a pair and a number of replicas fits the
/// runs of the pair.
pub proof fn lemma_cell_fits(
    rows: Seq<RunRecord>,
    stats: Seq<StatRow>,
    k: int,
    groups: Seq<Key>,
    accepts: spec_fn(Key, int, u64) -> bool,
    key: Key,
    size: int,
)
    requires
        1 <= size <= k,
        lists_groups(groups, keys(rows)),
        is_table_over(stats, k, groups, accepts),
    ensures
        fits_cell(rows, key, size, cell_value(stats, key, size), accepts),
{
    let first = first_match_upto(stats, key, size, stats.len());
    lemma_first_match(stats, key, size, stats.len());
    let runs = group_qualities(rows, key, rows.len());
    if runs.len() > 0 {
        lemma_group_member(rows, key, rows.len());
        let x = choose|x: int| 0 <= x < rows.len() && key_eq(KeyKind::Group,
            (#[trigger] rows[x]).key(), key);
        let rk = keys(rows);
        assert(rk[x].instance == key.instance);
        assert(rk[x].algorithm == key.algorithm);
        assert(rk[x] == key);
        assert(rk.to_set().contains(key));
        assert(groups.contains(key));
        let g = choose|g: int| 0 <= g < groups.len() && groups[g] == key;
        let t = g * k + (size - 1);
        assert(0 <= t < groups.len() * k) by (nonlinear_arith)
            requires
                0 <= g < groups.len(),
                1 <= size <= k,
                t == g * k + (size - 1),
        ;
        vstd::arithmetic::div_mod::lemma_fundamental_div_mod_converse(t, k, g, size - 1);
        assert(stats[t].key() == groups[t / k]);
        assert(key_eq(KeyKind::Group, stats[t].key(), key));
        assert(first >= 0);
        assert(stats[first].key() == groups[first / k]);
        assert(stats[first].key().instance == key.instance);
        assert(stats[first].key().algorithm == key.algorithm);
        assert(groups[first / k] == key);
        vstd::arithmetic::div_mod::lemma_mod_bound(first, k);
        assert(accepts(groups[first / k], first % k + 1, stats[first].e_min));
    } else {
        if first >= 0 {
            assert(stats[first].key() == groups[first / k]);
            assert(0 <= first / k < groups.len()) by (nonlinear_arith)
                requires
                    0 <= first < groups.len() * k,
                    k >= 1,
            ;
            assert(groups.to_set().contains(groups[first / k]));
            assert(keys(rows).contains(groups[first / k]));
            let x = choose|x: int| 0 <= x < keys(rows).len() && keys(rows)[x] == groups[first / k];
            assert(key_eq(KeyKind::Group, rows[x].key(), key));
            lemma_group_size(rows, key, rows.len());
            assert(false);
        }
    }
}

/// The number of expected best qualities that the input of the solver holds
/// for the runs `rows` and up to `k` replicas: one for every instance, every
/// algorithm and every number of replicas.
pub open spec fn cell_count(rows: Seq<RunRecord>, k: int) -> int {
    instance_names(keys(rows)).len() * algorithm_ids(keys(rows)).len() * k
}

/// Whether the expected best qualities for the runs `rows` and up to `k`
/// replicas can be arranged as an array.
pub open spec fn tensor_fits(rows: Seq<RunRecord>, k: int) -> bool {
    shape_fits(
        instance_names(keys(rows)).len() as int,
        algorithm_ids(keys(rows)).len() as int,
        k,
        cell_count(rows, k),
    )
}

/// The expected best qualities of a table, row by row.
pub fn e_min_column(table: &Vec<StatRow>) -> (cells: Vec<u64>)
    ensures
        cells@.len() == table@.len(),
        forall|x: int| 0 <= x < table@.len() ==> #[trigger] cells@[x] == table@[x].e_min,
{
    let mut cells: Vec<u64> = Vec::new();
    let mut t: usize = 0;
    while t < table.len()
        invariant
            t <= table@.len(),
            cells@.len() == t,
            forall|x: int| 0 <= x < t ==> #[trigger] cells@[x] == table@[x].e_min,
        decreases table@.len() - t,
    {
        cells.push(table[t].e_min);
        t += 1;
    }
    cells
}

/// Makes a table of expected best qualities complete and reads its values,
/// row by row.
fn complete_cells(
    rows: &Vec<RunRecord>,
    stats: &Vec<StatRow>,
    k: u32,
    Ghost(groups): Ghost<Seq<Key>>,
    Ghost(accepts): Ghost<spec_fn(Key, int, u64) -> bool>,
) -> (r: Result<Vec<u64>, DataError>)
    requires
        lists_groups(groups, keys(rows@)),
        is_table_over(stats@, k as int, groups, accepts),
    ensures
        r is Ok <==> cell_count(rows@, k as int) <= usize::MAX,
        r is Ok ==> is_cell_table_over(r->Ok_0@, rows@, k as int, accepts) && r->Ok_0@.len()
            == cell_count(rows@, k as int),
        r is Err ==> r->Err_0 == DataError::TooLarge,
{
    proof {
        if k >= 1 {
            lemma_stat_keys(rows@, stats@, k as int, groups, accepts);
        } else {
            assert(instance_names(keys(rows@)).len() * algorithm_ids(keys(rows@)).len() * 0 == 0)
                by (nonlinear_arith);
            assert(instance_names(keys(stats@)).len() * algorithm_ids(keys(stats@)).len() * 0 == 0)
                by (nonlinear_arith);
        }
    }
    let table = match cleanup_missing_rows(stats, k) {
        Ok(table) => table,
        Err(_) => {
            return Err(DataError::TooLarge);
        },
    };
    let ghost axes = choose|names: Seq<InstanceId>, ids: Seq<AlgorithmId>|
        lists_instances(names, keys(stats@)) && lists_algorithms(ids, keys(stats@))
            && #[trigger] is_completion(table@, stats@, k as int, names, ids);
    let ghost names = axes.0;
    let ghost ids = axes.1;
    let cells = e_min_column(&table);
    proof {
        if k >= 1 {
            lemma_instance_list(names, keys(rows@));
            lemma_algorithm_list(ids, keys(rows@));
            assert forall|x: int| 0 <= x < cells@.len() implies fits_cell(
                rows@,
                cell_key(names, ids, k as int, x),
                x % (k as int) + 1,
                #[trigger] cells@[x],
                accepts,
            ) by {
                vstd::arithmetic::div_mod::lemma_mod_bound(x, k as int);
                assert(table@[x].e_min == cell_value(
                    stats@,
                    cell_key(names, ids, k as int, x),
                    x % (k as int) + 1,
                ));
                lemma_cell_fits(
                    rows@,
                    stats@,
                    k as int,
                    groups,
                    accepts,
                    cell_key(names, ids, k as int, x),
                    x % (k as int) + 1,
                );
            }
        } else {
            assert(names.len() * ids.len() * 0 == 0) by (nonlinear_arith);
            assert(instance_list(keys(rows@)).len() * algorithm_list(keys(rows@)).len() * 0 == 0)
                by (nonlinear_arith);
        }
    }
    Ok(cells)
}

/// Estimates the expected best quality for every instance, every algorithm
/// and every number of replicas from 1 to `k`: by sampling where the
/// algorithm ran on the instance, as the worst value where it did not.
pub fn expected_cells(rows: &Vec<RunRecord>, k: u32) -> (r: Result<Vec<u64>, DataError>)
    ensures
        match r {
            Ok(cells) => rows@.len() <= u32::MAX && cells@.len() == cell_count(rows@, k as int)
                && cells@.len() <= usize::MAX && is_cell_table(cells@, rows@, k as int),
            Err(DataError::TooManyRows) => rows@.len() > u32::MAX,
            Err(DataError::TooLarge) => rows@.len() <= u32::MAX && cell_count(rows@, k as int)
                > usize::MAX,
            Err(_) => false,
        },
{
    let stats = match stats_by_sampling(rows, k) {
        Ok(stats) => stats,
        Err(StatsError::TooManyRows) => {
            return Err(DataError::TooManyRows);
        },
    };
    let ghost groups = choose|groups: Seq<Key>|
        lists_groups(groups, keys(rows@)) && #[trigger] is_stat_table(stats@, rows@, k as int,
            groups);
    complete_cells(rows, &stats, k, Ghost(groups), Ghost(least_drawn(rows@)))
}

/// Estimates the expected best quality for every instance, every algorithm
/// and every number of replicas from 1 to `k`: under the normal
/// approximation where the algorithm ran on the instance, as the worst value
/// where it did not.
pub fn estimated_cells(
    rows: &Vec<RunRecord>,
    k: u32,
    spreads: &SpreadTable,
    lower_bounds: &Vec<InstanceQuality>,
) -> (r: Result<Vec<u64>, DataError>)
    ensures
        match r {
            Ok(cells) => k <= spreads@.len() && cells@.len() == cell_count(rows@, k as int)
                && cells@.len() <= usize::MAX && is_cell_table_over(
                cells@,
                rows@,
                k as int,
                estimated(rows@, spreads@, lower_bounds@),
            ),
            Err(DataError::MissingSpread) => k > spreads@.len(),
            Err(DataError::TooLarge) => k <= spreads@.len() && cell_count(rows@, k as int)
                > usize::MAX,
            Err(_) => false,
        },
{
    let stats = match stats_by_normal_approximation(rows, k, spreads, lower_bounds) {
        Ok(stats) => stats,
        Err(_) => {
            return Err(DataError::MissingSpread);
        },
    };
    let ghost accepts = estimated(rows@, spreads@, lower_bounds@);
    let ghost groups = choose|groups: Seq<Key>|
        lists_groups(groups, keys(rows@)) && #[trigger] is_table_over(
            stats@,
            k as int,
            groups,
            accepts,
        );
    complete_cells(rows, &stats, k, Ghost(groups), Ghost(accepts))
}

/// `data` holds the aggregates of the runs `rows`: its algorithms are those
/// of the runs in ascending order; for each instance, in ascending order, it
/// holds the least quality that a run reached on it; and for each algorithm
/// the number of instances on which it has the best run, where of several
/// runs with the least quality the one whose algorithm comes first is the
/// best.
pub open spec fn holds_aggregates(data: Data, rows: Seq<RunRecord>) -> bool {
    let names = instance_list(keys(rows));
    let ids = algorithm_list(keys(rows));
    &&& ids_of(data.algorithms@) == ids
    &&& data.num_algorithms == ids.len()
    &&& data.num_instances == names.len()
    &&& names.len() == instance_names(keys(rows)).len()
    &&& ids.len() == algorithm_ids(keys(rows)).len()
    &&& data.best_per_instance@.len() == names.len()
    &&& forall|i: int|
        0 <= i < names.len() ==> #[trigger] data.best_per_instance@[i] == rows[best_row(
            rows,
            names[i],
            false,
        )].quality
    &&& data.best_per_instance_count is Some
    &&& data.best_per_instance_count->Some_0@.len() == ids.len()
    &&& forall|j: int|
        0 <= j < ids.len() ==> #[trigger] data.best_per_instance_count->Some_0@[j] == wins(
            rows,
            ids[j],
            true,
        )
}

/// `data` is the input of the solver for the runs `rows` and up to `k`
/// replicas: it holds the aggregates of the runs and, for each instance,
/// algorithm and number of replicas, an expected best quality that `accepts`
/// admits.
pub open spec fn describes_over(
    data: Data,
    rows: Seq<RunRecord>,
    k: int,
    accepts: spec_fn(Key, int, u64) -> bool,
) -> bool {
    &&& holds_aggregates(data, rows)
    &&& data.expected_best_quality.shape() == seq![
        instance_list(keys(rows)).len() as int,
        algorithm_list(keys(rows)).len() as int,
        k,
    ]
    &&& is_cell_table_over(data.expected_best_quality.cells(), rows, k, accepts)
}

/// `data` is the input of the solver for the runs `rows` and up to `k`
/// replicas, with expected best qualities drawn from what the runs reached.
pub open spec fn describes(data: Data, rows: Seq<RunRecord>, k: int) -> bool {
    describes_over(data, rows, k, least_drawn(rows))
}

/// The runs that the input of the solver is built from: the valid runs of
/// the algorithms that are fast enough, with degenerate quality readings
/// replaced by one. The slowdown ratio is given by its natural logarithm.
pub open spec fn considered(df: Seq<RunRecord>, log_slowdown_ratio: i64) -> Seq<RunRecord> {
    prepared(df).filter(survivor(prepared(df), log_slowdown_ratio))
}

/// The runs that the input of the solver is built from, unless there are
/// none.
pub fn considered_rows(df: &Vec<RunRecord>, log_slowdown_ratio: i64) -> (r: Result<
    Vec<RunRecord>,
    DataError,
>)
    ensures
        match r {
            Ok(rows) => rows@ == considered(df@, log_slowdown_ratio) && rows@.len() > 0
                && forall|i: int| 0 <= i < rows@.len() ==> (#[trigger] rows@[i]).quality > 0,
            Err(DataError::EmptyDataframe) => prepared(df@).len() == 0,
            Err(DataError::NoPortfolio) => prepared(df@).len() > 0 && considered(
                df@,
                log_slowdown_ratio,
            ).len() == 0,
            Err(_) => false,
        },
{
    let valid = prepare(df);
    let rows = match filter_algorithms_by_slowdown(&valid, log_slowdown_ratio) {
        Ok(rows) => rows,
        Err(_) => {
            return Err(DataError::EmptyDataframe);
        },
    };
    if rows.len() == 0 {
        return Err(DataError::NoPortfolio);
    }
    proof {
        assert forall|i: int| 0 <= i < rows@.len() implies (#[trigger] rows@[i]).quality > 0 by {
            assert(rows@.contains(rows@[i]));
            valid@.lemma_filter_contains_rev(survivor(valid@, log_slowdown_ratio), rows@[i]);
            let origin = choose|z: int| 0 <= z < valid@.len() && valid@[z] == rows@[i];
            assert(valid@[origin].quality > 0);
        }
    }
    Ok(rows)
}

/// Puts the input of the solver together from the runs and the expected
/// best qualities, given instance by instance, for each instance algorithm
/// by algorithm, for each algorithm for 1 to `k` replicas.
pub fn assemble(rows: &Vec<RunRecord>, cells: Vec<u64>, k: u32) -> (r: Result<Data, DataError>)
    ensures
        r is Ok <==> shape_fits(
            instance_names(keys(rows@)).len() as int,
            algorithm_ids(keys(rows@)).len() as int,
            k as int,
            cells@.len() as int,
        ),
        r is Err ==> r->Err_0 == DataError::Shape,
        r is Ok ==> {
            let data = r->Ok_0;
            &&& holds_aggregates(data, rows@)
            &&& data.expected_best_quality.cells() == cells@
            &&& data.expected_best_quality.shape() == seq![
                instance_list(keys(rows@)).len() as int,
                algorithm_list(keys(rows@)).len() as int,
                k as int,
            ]
            &&& (forall|i: int| 0 <= i < rows@.len() ==> (#[trigger] rows@[i]).quality > 0)
                ==> forall|i: int|
                0 <= i < data.best_per_instance@.len() ==> #[trigger] data.best_per_instance@[i]
                    > 0
        },
{
    let ghost ks = keys(rows@);
    let algorithms = extract_algorithm_columns(rows);
    let best = best_per_instance(rows);
    let tally = win_counts(rows, true);
    let num_algorithms = algorithms.len();
    let num_instances = best.len();
    proof {
        lemma_instance_list(quality_instances(best@), ks);
        lemma_algorithm_list(ids_of(algorithms@), ks);
        lemma_algorithm_list(counted_algorithms(tally@), ks);
    }
    let mut best_per_instance: Vec<u64> = Vec::new();
    let mut i: usize = 0;
    while i < num_instances
        invariant
            i <= num_instances,
            num_instances == best@.len(),
            best_per_instance@.len() == i,
            forall|x: int| 0 <= x < i ==> #[trigger] best_per_instance@[x] == best@[x].best_quality,
        decreases num_instances - i,
    {
        best_per_instance.push(best[i].best_quality);
        i += 1;
    }
    let mut counts: Vec<u64> = Vec::new();
    let mut j: usize = 0;
    while j < num_algorithms
        invariant
            j <= num_algorithms,
            num_algorithms == tally@.len(),
            counts@.len() == j,
            forall|x: int|
                0 <= x < tally@.len() ==> (#[trigger] tally@[x]).count == wins(
                    rows@,
                    tally@[x].algorithm@,
                    true,
                ),
            forall|x: int| 0 <= x < j ==> #[trigger] counts@[x] == tally@[x].count,
        decreases num_algorithms - j,
    {
        counts.push(tally[j].count as u64);
        j += 1;
    }
    let expected_best_quality = match QualityTensor::from_cells(
        num_instances,
        num_algorithms,
        k as usize,
        cells,
    ) {
        Ok(tensor) => tensor,
        Err(_) => {
            return Err(DataError::Shape);
        },
    };
    let data = Data {
        algorithms,
        best_per_instance: ValueArray::from_vec(best_per_instance),
        best_per_instance_count: Some(ValueArray::from_vec(counts)),
        expected_best_quality,
        num_instances,
        num_algorithms,
    };
    proof {
        let names = instance_list(ks);
        let ids = algorithm_list(ks);
        assert forall|x: int| 0 <= x < names.len() implies #[trigger] data.best_per_instance@[x]
            == rows@[best_row(rows@, names[x], false)].quality by {
            assert(best@[x].instance@ == names[x]);
        }
        assert forall|x: int| 0 <= x < ids.len()
            implies #[trigger] data.best_per_instance_count->Some_0@[x]
            == wins(rows@, ids[x], true) by {
            assert(tally@[x].algorithm@ == ids[x]);
        }
        assert(holds_aggregates(data, rows@));
        if forall|i: int| 0 <= i < rows@.len() ==> (#[trigger] rows@[i]).quality > 0 {
            assert forall|x: int| 0 <= x < data.best_per_instance@.len()
                implies #[trigger] data.best_per_instance@[x]
                > 0 by {
                assert(best@[x].instance@ == names[x]);
                assert(instance_names(ks).contains(names[x])) by {
                    assert(names.to_set().contains(names[x]));
                }
                let member = choose|y: int| 0 <= y < ks.len() && #[trigger] ks[y].instance == names[x];
                assert(rows@[member].instance@ == names[x]);
                lemma_best_row(rows@, names[x], false, rows@.len());
            }
        }
    }
    Ok(data)
}

impl Data {
    /// Create a new set of input data for the solver from a table of runs,
    /// for up to `k` replicas of an algorithm. Only valid runs count, and
    /// only those of the algorithms that pass the slowdown filter, whose
    /// ratio is given by its natural logarithm. The expected best qualities
    /// are estimated by sampling.
    pub fn from_normalized_dataframe(df: &Vec<RunRecord>, k: u32, log_slowdown_ratio: i64)
        -> (r: Result<Data, DataError>)
        ensures
            match r {
                Ok(data) => {
                    let rows = considered(df@, log_slowdown_ratio);
                    &&& 0 < rows.len() <= u32::MAX
                    &&& cell_count(rows, k as int) <= usize::MAX
                    &&& tensor_fits(rows, k as int)
                    &&& describes(data, rows, k as int)
                    &&& forall|i: int|
                        0 <= i < data.best_per_instance@.len()
                            ==> #[trigger] data.best_per_instance@[i] > 0
                },
                Err(DataError::EmptyDataframe) => prepared(df@).len() == 0,
                Err(DataError::NoPortfolio) => prepared(df@).len() > 0 && considered(
                    df@,
                    log_slowdown_ratio,
                ).len() == 0,
                Err(DataError::TooManyRows) => considered(df@, log_slowdown_ratio).len()
                    > u32::MAX,
                Err(DataError::TooLarge) => {
                    let rows = considered(df@, log_slowdown_ratio);
                    0 < rows.len() <= u32::MAX && cell_count(rows, k as int) > usize::MAX
                },
                Err(DataError::Shape) => {
                    let rows = considered(df@, log_slowdown_ratio);
                    0 < rows.len() <= u32::MAX && cell_count(rows, k as int) <= usize::MAX
                        && !tensor_fits(rows, k as int)
                },
                Err(DataError::MissingSpread) => false,
            },
    {
        let rows = match considered_rows(df, log_slowdown_ratio) {
            Ok(rows) => rows,
            Err(e) => {
                return Err(e);
            },
        };
        let cells = match expected_cells(&rows, k) {
            Ok(cells) => cells,
            Err(e) => {
                return Err(e);
            },
        };
        assemble(&rows, cells, k)
    }

    /// Create a new set of input data for the solver from a table of runs,
    /// for up to `k` replicas of an algorithm. Only valid runs count, and
    /// only those of the algorithms that pass the slowdown filter, whose
    /// ratio is given by its natural logarithm. The expected best qualities
    /// are estimated under the normal approximation, with the given spreads
    /// and, for the instances that have one, the given lower bounds.
    pub fn from_statistics(
        df: &Vec<RunRecord>,
        k: u32,
        log_slowdown_ratio: i64,
        spreads: &SpreadTable,
        lower_bounds: &Vec<InstanceQuality>,
    ) -> (r: Result<Data, DataError>)
        ensures
            match r {
                Ok(data) => {
                    let rows = considered(df@, log_slowdown_ratio);
                    &&& 0 < rows.len()
                    &&& k <= spreads@.len()
                    &&& cell_count(rows, k as int) <= usize::MAX
                    &&& tensor_fits(rows, k as int)
                    &&& describes_over(
                        data,
                        rows,
                        k as int,
                        estimated(rows, spreads@, lower_bounds@),
                    )
                    &&& forall|i: int|
                        0 <= i < data.best_per_instance@.len()
                            ==> #[trigger] data.best_per_instance@[i] > 0
                },
                Err(DataError::EmptyDataframe) => prepared(df@).len() == 0,
                Err(DataError::NoPortfolio) => prepared(df@).len() > 0 && considered(
                    df@,
                    log_slowdown_ratio,
                ).len() == 0,
                Err(DataError::MissingSpread) => 0 < considered(df@, log_slowdown_ratio).len() && k
                    > spreads@.len(),
                Err(DataError::TooLarge) => {
                    let rows = considered(df@, log_slowdown_ratio);
                    0 < rows.len() && k <= spreads@.len() && cell_count(rows, k as int)
                        > usize::MAX
                },
                Err(DataError::Shape) => {
                    let rows = considered(df@, log_slowdown_ratio);
                    0 < rows.len() && k <= spreads@.len() && cell_count(rows, k as int)
                        <= usize::MAX && !tensor_fits(rows, k as int)
                },
                Err(DataError::TooManyRows) => false,
            },
    {
        let rows = match considered_rows(df, log_slowdown_ratio) {
            Ok(rows) => rows,
            Err(e) => {
                return Err(e);
            },
        };
        let cells = match estimated_cells(&rows, k, spreads, lower_bounds) {
            Ok(cells) => cells,
            Err(e) => {
                return Err(e);
            },
        };
        assemble(&rows, cells, k)
    }
}

/// The names in a list.
pub open spec fn name_views(names: Seq<String>) -> Seq<Seq<char>> {
    Seq::new(names.len(), |i: int| names[i]@)
}

/// The rows that are read from a file of runs: those of algorithms with at
/// most `num_cores` threads and, where instances are asked for, of one of
/// these.
pub open spec fn is_read(num_cores: u32, desired: Option<Seq<Seq<char>>>) -> spec_fn(RunRecord)
    -> bool {
    |r: RunRecord|
        r.algorithm.num_threads <= num_cores && match desired {
            Some(names) => names.contains(r.instance.name@),
            None => true,
        }
}

/// What is asked for by an optional list of names.
pub open spec fn optional_names(desired: Option<&Vec<String>>) -> Option<Seq<Seq<char>>> {
    match desired {
        Some(names) => Some(name_views(names@)),
        None => None,
    }
}

/// Whether a name is in a list.
pub fn is_listed(names: &Vec<String>, name: &String) -> (r: bool)
    ensures
        r == name_views(names@).contains(name@),
{
    let mut i: usize = 0;
    while i < names.len()
        invariant
            i <= names@.len(),
            forall|j: int| 0 <= j < i ==> name_views(names@)[j] != name@,
        decreases names@.len() - i,
    {
        if names[i] == *name {
            proof {
                assert(name_views(names@)[i as int] == name@);
            }
            return true;
        }
        i += 1;
    }
    false
}

/// Turns the runs of a file into rows of the table: keeps the runs of
/// algorithms with at most `num_cores` threads and, where instances are asked
/// for, of these instances, and replaces degenerate quality readings by one.
pub fn normalized_rows(df: &Vec<RunRecord>, num_cores: u32,
    desired_instances: Option<&Vec<String>>) -> (rows:
    Vec<RunRecord>)
    ensures
        rows@ == df@.filter(is_read(num_cores, optional_names(desired_instances))).map_values(
            |r: RunRecord| prepare_row(r),
        ),
{
    let ghost pred = is_read(num_cores, optional_names(desired_instances));
    let mut rows: Vec<RunRecord> = Vec::new();
    let mut i: usize = 0;
    proof {
        reveal(Seq::filter);
        assert(df@.take(0).filter(pred) =~= Seq::<RunRecord>::empty());
        assert(df@.take(0).filter(pred).map_values(|r: RunRecord| prepare_row(r)) =~= Seq::<
            RunRecord,
        >::empty());
    }
    while i < df.len()
        invariant
            i <= df@.len(),
            pred == is_read(num_cores, optional_names(desired_instances)),
            rows@ == df@.take(i as int).filter(pred).map_values(|r: RunRecord| prepare_row(r)),
        decreases df@.len() - i,
    {
        proof {
            assert(df@.take(i + 1) =~= df@.take(i as int).push(df@[i as int]));
            lemma_filter_push(df@.take(i as int), df@[i as int], pred);
        }
        let row = &df[i];
        let wanted = match desired_instances {
            Some(names) => is_listed(names, &row.instance.name),
            None => true,
        };
        if row.algorithm.num_threads <= num_cores && wanted {
            rows.push(
                RunRecord {
                    algorithm: row.algorithm.clone(),
                    instance: row.instance.clone(),
                    quality: normalize_quality(row.quality),
                    time: row.time,
                    log_time: row.log_time,
                    valid: row.valid,
                },
            );
            proof {
                let kept = df@.take(i as int).filter(pred);
                assert(kept.push(df@[i as int]).map_values(|r: RunRecord| prepare_row(r)) =~= kept.map_values(
                    |r: RunRecord| prepare_row(r),
                ).push(prepare_row(df@[i as int])));
            }
        }
        i += 1;
    }
    proof {
        assert(df@.take(df@.len() as int) =~= df@);
    }
    rows
}

} // verus!
