//! Aggregates of a table of runs: the algorithms, the best quality and the
//! time of the best run per instance, and the number of instances that each
//! algorithm wins.
use vstd::prelude::*;
use crate::datastructures::{
    algorithm_lt, lemma_algorithm_asymmetric, lemma_algorithm_transitive, Algorithm, AlgorithmId,
    Instance, InstanceId,
};
use crate::tensor::AlgorithmArray;
use crate::table::{
    algorithm_ids, find, instance_names, is_index, key_eq, key_index, keys,
    lemma_index_lists_algorithms, lemma_index_lists_instances, lemma_key_order, lists_algorithms,
    lists_instances, KeyKind, Keyed, RunRecord,
};
pub use super::completion::{cleanup_missing_rows, CleanupError};
pub use super::estimates::{
    stats_by_normal_approximation, stats_by_sampling, EstimateError, StatsError,
};
pub use super::slowdown::{filter_algorithms_by_slowdown, FilterError};

verus! {

/// Whether the run `a` is better than the run `b`: its quality is lower, or,
/// where ties go by algorithm, the qualities are equal and its algorithm
/// comes first.
pub open spec fn beats(a: RunRecord, b: RunRecord, ties: bool) -> bool {
    a.quality < b.quality || (ties && a.quality == b.quality && algorithm_lt(a.algorithm@,
        b.algorithm@))
}

/// Decides whether the run `a` is better than the run `b`.
pub fn is_better(a: &RunRecord, b: &RunRecord, ties: bool) -> (r: bool)
    ensures
        r == beats(*a, *b, ties),
{
    a.quality < b.quality || (ties && a.quality == b.quality && a.algorithm.precedes(&b.algorithm))
}

/// Among the first `n` rows, the best run of the instance `name`: the one
/// with the least quality, and among several of these the first, or, where
/// ties go by algorithm, the first of those whose algorithm comes first; `-1`
/// if none of these rows is of that instance.
pub open spec fn best_row_upto(rows: Seq<RunRecord>, name: InstanceId, ties: bool, n: nat) -> int
    decreases n,
{
    if n == 0 {
        -1
    } else {
        let best = best_row_upto(rows, name, ties, (n - 1) as nat);
        let r = n - 1;
        if rows[r].instance@ != name {
            best
        } else if best < 0 || beats(rows[r], rows[best], ties) {
            r
        } else {
            best
        }
    }
}

/// The best run of an instance in the whole table.
pub open spec fn best_row(rows: Seq<RunRecord>, name: InstanceId, ties: bool) -> int {
    best_row_upto(rows, name, ties, rows.len())
}

/// Whether row `k` is the best run of its instance.
pub open spec fn is_best(rows: Seq<RunRecord>, k: int, ties: bool) -> bool {
    best_row(rows, rows[k].instance@, ties) == k
}

/// The best run of an instance is a run of that instance, and no run of the
/// instance has a lower quality. Of the runs with that quality it is the
/// first, or, where ties go by algorithm, one whose algorithm comes first.
/// There is one as soon as the instance has a run.
pub proof fn lemma_best_row(rows: Seq<RunRecord>, name: InstanceId, ties: bool, n: nat)
    requires
        n <= rows.len(),
    ensures
        ({
            let b = best_row_upto(rows, name, ties, n);
            &&& -1 <= b < n
            &&& b >= 0 ==> rows[b].instance@ == name
            &&& forall|k: int|
                0 <= k < n && (#[trigger] rows[k]).instance@ == name ==> {
                    &&& b >= 0
                    &&& rows[b].quality <= rows[k].quality
                    &&& !ties && k < b ==> rows[b].quality < rows[k].quality
                    &&& ties && rows[b].quality == rows[k].quality ==> !algorithm_lt(
                        rows[k].algorithm@,
                        rows[b].algorithm@,
                    )
                }
        }),
    decreases n,
{
    if n > 0 {
        lemma_best_row(rows, name, ties, (n - 1) as nat);
        let before = best_row_upto(rows, name, ties, (n - 1) as nat);
        let b = best_row_upto(rows, name, ties, n);
        assert forall|k: int| 0 <= k < n && (#[trigger] rows[k]).instance@ == name && ties
            && rows[b].quality == rows[k].quality implies !algorithm_lt(
            rows[k].algorithm@,
            rows[b].algorithm@,
        ) by {
            lemma_algorithm_asymmetric(rows[k].algorithm@, rows[b].algorithm@);
            if before >= 0 && algorithm_lt(rows[k].algorithm@, rows[b].algorithm@) && algorithm_lt(
                rows[b].algorithm@,
                rows[before].algorithm@,
            ) {
                lemma_algorithm_transitive(
                    rows[k].algorithm@,
                    rows[b].algorithm@,
                    rows[before].algorithm@,
                );
            }
        }
    }
}

/// For every instance in the index, finds its best run.
pub(crate) fn best_rows(rows: &Vec<RunRecord>, index: &Vec<usize>, ties: bool) -> (best: Vec<usize>)
    requires
        is_index(keys(rows@), KeyKind::Instance, index@),
    ensures
        best@.len() == index@.len(),
        forall|i: int|
            0 <= i < index@.len() ==> 0 <= (#[trigger] best@[i]) < rows@.len() && best@[i] as int
                == best_row(rows@, rows@[index@[i] as int].instance@, ties),
{
    let n = rows.len();
    let m = index.len();
    let ghost ks = keys(rows@);
    let mut best: Vec<usize> = vec![n; m];
    let mut r: usize = 0;
    while r < n
        invariant
            r <= n,
            n == rows@.len(),
            m == index@.len(),
            ks == keys(rows@),
            is_index(ks, KeyKind::Instance, index@),
            best@.len() == m,
            forall|i: int|
                0 <= i < m ==> (if best_row_upto(rows@, rows@[index@[i] as int].instance@, ties,
                    r as nat)
                    < 0 {
                    (#[trigger] best@[i]) == n
                } else {
                    best@[i] as int == best_row_upto(rows@, rows@[index@[i] as int].instance@,
                        ties, r as nat)
                }),
        decreases n - r,
    {
        let ghost before = best@;
        proof {
            assert(ks[r as int] == rows@[r as int].key());
        }
        match find(rows, KeyKind::Instance, index, &rows[r]) {
            None => {
                proof {
                    assert(key_eq(KeyKind::Instance, ks[r as int], rows@[r as int].key()));
                }
            },
            Some(q) => {
                let ghost name = rows@[index@[q as int] as int].instance@;
                proof {
                    assert(ks[index@[q as int] as int] == rows@[index@[q as int] as int].key());
                    lemma_best_row(rows@, name, ties, r as nat);
                }
                let current = best[q];
                if current == n || is_better(&rows[r], &rows[current], ties) {
                    best.set(q, r);
                }
                proof {
                    assert forall|i: int| 0 <= i < m implies (if best_row_upto(
                        rows@,
                        rows@[index@[i] as int].instance@,
                        ties,
                        (r + 1) as nat,
                    ) < 0 {
                        (#[trigger] best@[i]) == n
                    } else {
                        best@[i] as int == best_row_upto(
                            rows@,
                            rows@[index@[i] as int].instance@,
                            ties,
                            (r + 1) as nat,
                        )
                    }) by {
                        let other = rows@[index@[i] as int].instance@;
                        assert(ks[index@[i] as int] == rows@[index@[i] as int].key());
                        if i != q {
                            assert(best@[i] == before[i]);
                            if i < q {
                                lemma_key_order(
                                    KeyKind::Instance,
                                    ks[index@[i] as int],
                                    ks[index@[q as int] as int],
                                    ks[index@[q as int] as int],
                                );
                            } else {
                                lemma_key_order(
                                    KeyKind::Instance,
                                    ks[index@[q as int] as int],
                                    ks[index@[i] as int],
                                    ks[index@[i] as int],
                                );
                            }
                            assert(other != name);
                        }
                    }
                }
            },
        }
        r += 1;
    }
    proof {
        assert forall|i: int| 0 <= i < m implies 0 <= (#[trigger] best@[i]) < n && best@[i] as int
            == best_row(rows@, rows@[index@[i] as int].instance@, ties) by {
            lemma_best_row(rows@, rows@[index@[i] as int].instance@, ties, n as nat);
        }
    }
    best
}

/// The best quality reached on an instance.
#[derive(Debug, Clone, PartialEq, Eq)]
pub struct InstanceQuality {
    pub instance: Instance,
    pub best_quality: u64,
}

/// The running time of the best run on an instance.
#[derive(Debug, Clone, PartialEq, Eq)]
pub struct InstanceTime {
    pub instance: Instance,
    pub best_time: u64,
}

/// The number of instances on which an algorithm is best.
#[derive(Debug, Clone, PartialEq, Eq)]
pub struct AlgorithmCount {
    pub algorithm: Algorithm,
    pub count: usize,
}

/// The instances named by the rows of a result.
pub open spec fn quality_instances(rows: Seq<InstanceQuality>) -> Seq<InstanceId> {
    Seq::new(rows.len(), |i: int| rows[i].instance@)
}

/// The instances named by the rows of a result.
pub open spec fn time_instances(rows: Seq<InstanceTime>) -> Seq<InstanceId> {
    Seq::new(rows.len(), |i: int| rows[i].instance@)
}

/// The algorithms named by the rows of a result.
pub open spec fn counted_algorithms(rows: Seq<AlgorithmCount>) -> Seq<AlgorithmId> {
    Seq::new(rows.len(), |i: int| rows[i].algorithm@)
}

/// The algorithms of a list.
pub open spec fn ids_of(algorithms: Seq<Algorithm>) -> Seq<AlgorithmId> {
    Seq::new(algorithms.len(), |i: int| algorithms[i]@)
}

/// The algorithms of a table, each once, in ascending order.
pub fn extract_algorithm_columns(df: &Vec<RunRecord>) -> (algorithms: AlgorithmArray)
    ensures
        lists_algorithms(ids_of(algorithms@), keys(df@)),
        algorithms@.len() == algorithm_ids(keys(df@)).len(),
{
    let index = key_index(df, KeyKind::Algorithm);
    let mut listed: Vec<Algorithm> = Vec::new();
    let mut i: usize = 0;
    while i < index.len()
        invariant
            i <= index@.len(),
            is_index(keys(df@), KeyKind::Algorithm, index@),
            listed@.len() == i,
            forall|j: int| 0 <= j < i ==> (#[trigger] listed@[j])@
                == df@[index@[j] as int].algorithm@,
        decreases index@.len() - i,
    {
        listed.push(df[index[i]].algorithm.clone());
        i += 1;
    }
    let algorithms = AlgorithmArray::from_vec(listed);
    proof {
        let ids = ids_of(algorithms@);
        assert forall|j: int| 0 <= j < index@.len() implies #[trigger] ids[j] == keys(
            df@,
        )[index@[j] as int].algorithm by {
            assert(algorithms@[j]@ == df@[index@[j] as int].algorithm@);
        }
        lemma_index_lists_algorithms(keys(df@), index@, ids);
        ids.unique_seq_to_set();
    }
    algorithms
}

/// The least quality reached on each instance, in ascending order of the
/// instances.
pub fn best_per_instance(df: &Vec<RunRecord>) -> (best: Vec<InstanceQuality>)
    ensures
        lists_instances(quality_instances(best@), keys(df@)),
        best@.len() == instance_names(keys(df@)).len(),
        forall|i: int|
            0 <= i < best@.len() ==> (#[trigger] best@[i]).best_quality == df@[best_row(
                df@,
                best@[i].instance@,
                false,
            )].quality,
{
    let index = key_index(df, KeyKind::Instance);
    let rows = best_rows(df, &index, false);
    let mut best: Vec<InstanceQuality> = Vec::new();
    let mut i: usize = 0;
    while i < index.len()
        invariant
            i <= index@.len(),
            is_index(keys(df@), KeyKind::Instance, index@),
            rows@.len() == index@.len(),
            forall|j: int|
                0 <= j < index@.len() ==> 0 <= (#[trigger] rows@[j]) < df@.len() && rows@[j] as int
                    == best_row(df@, df@[index@[j] as int].instance@, false),
            best@.len() == i,
            forall|j: int|
                0 <= j < i ==> (#[trigger] best@[j]).instance@ == df@[index@[j] as int].instance@
                    && best@[j].best_quality == df@[best_row(df@, best@[j].instance@,
                        false)].quality,
        decreases index@.len() - i,
    {
        best.push(
            InstanceQuality {
                instance: df[index[i]].instance.clone(),
                best_quality: df[rows[i]].quality,
            },
        );
        i += 1;
    }
    proof {
        let names = quality_instances(best@);
        assert forall|j: int| 0 <= j < index@.len() implies #[trigger] names[j] == keys(
            df@,
        )[index@[j] as int].instance by {
            assert(best@[j].instance@ == df@[index@[j] as int].instance@);
        }
        lemma_index_lists_instances(keys(df@), index@, names);
        names.unique_seq_to_set();
    }
    best
}

/// The running time of the best run on each instance, in ascending order of
/// the instances. The best run is the first of those with the least quality.
pub fn best_per_instance_time(df: &Vec<RunRecord>) -> (best: Vec<InstanceTime>)
    ensures
        lists_instances(time_instances(best@), keys(df@)),
        best@.len() == instance_names(keys(df@)).len(),
        forall|i: int|
            0 <= i < best@.len() ==> (#[trigger] best@[i]).best_time == df@[best_row(
                df@,
                best@[i].instance@,
                false,
            )].time,
{
    let index = key_index(df, KeyKind::Instance);
    let rows = best_rows(df, &index, false);
    let mut best: Vec<InstanceTime> = Vec::new();
    let mut i: usize = 0;
    while i < index.len()
        invariant
            i <= index@.len(),
            is_index(keys(df@), KeyKind::Instance, index@),
            rows@.len() == index@.len(),
            forall|j: int|
                0 <= j < index@.len() ==> 0 <= (#[trigger] rows@[j]) < df@.len() && rows@[j] as int
                    == best_row(df@, df@[index@[j] as int].instance@, false),
            best@.len() == i,
            forall|j: int|
                0 <= j < i ==> (#[trigger] best@[j]).instance@ == df@[index@[j] as int].instance@
                    && best@[j].best_time == df@[best_row(df@, best@[j].instance@, false)].time,
        decreases index@.len() - i,
    {
        best.push(
            InstanceTime { instance: df[index[i]].instance.clone(), best_time: df[rows[i]].time },
        );
        i += 1;
    }
    proof {
        let names = time_instances(best@);
        assert forall|j: int| 0 <= j < index@.len() implies #[trigger] names[j] == keys(
            df@,
        )[index@[j] as int].instance by {
            assert(best@[j].instance@ == df@[index@[j] as int].instance@);
        }
        lemma_index_lists_instances(keys(df@), index@, names);
        names.unique_seq_to_set();
    }
    best
}

/// Marks the rows that are the best run of their instance.
pub fn best_flags(rows: &Vec<RunRecord>, ties: bool) -> (flags: Vec<bool>)
    ensures
        flags@.len() == rows@.len(),
        forall|k: int| 0 <= k < rows@.len() ==> #[trigger] flags@[k] == is_best(rows@, k, ties),
{
    let index = key_index(rows, KeyKind::Instance);
    let best = best_rows(rows, &index, ties);
    let ghost ks = keys(rows@);
    let mut flags: Vec<bool> = Vec::new();
    let mut k: usize = 0;
    while k < rows.len()
        invariant
            k <= rows@.len(),
            ks == keys(rows@),
            is_index(ks, KeyKind::Instance, index@),
            best@.len() == index@.len(),
            forall|i: int|
                0 <= i < index@.len() ==> 0 <= (#[trigger] best@[i]) < rows@.len()
                    && best@[i] as int
                    == best_row(rows@, rows@[index@[i] as int].instance@, ties),
            flags@.len() == k,
            forall|j: int| 0 <= j < k ==> #[trigger] flags@[j] == is_best(rows@, j, ties),
        decreases rows@.len() - k,
    {
        proof {
            assert(ks[k as int] == rows@[k as int].key());
        }
        match find(rows, KeyKind::Instance, &index, &rows[k]) {
            None => {
                proof {
                    assert(key_eq(KeyKind::Instance, ks[k as int], rows@[k as int].key()));
                }
                flags.push(false);
            },
            Some(q) => {
                proof {
                    assert(ks[index@[q as int] as int] == rows@[index@[q as int] as int].key());
                }
                flags.push(best[q] == k);
            },
        }
        k += 1;
    }
    flags
}

/// The number of rows among the first `n` that are the best run of their
/// instance and are runs of the algorithm `id`.
pub open spec fn wins_upto(rows: Seq<RunRecord>, id: AlgorithmId, ties: bool, n: nat) -> nat
    decreases n,
{
    if n == 0 {
        0
    } else {
        wins_upto(rows, id, ties, (n - 1) as nat) + (if is_best(rows, n - 1, ties)
            && rows[n - 1].algorithm@ == id {
            1nat
        } else {
            0nat
        })
    }
}

/// The number of instances on which the algorithm `id` has the best run.
pub open spec fn wins(rows: Seq<RunRecord>, id: AlgorithmId, ties: bool) -> nat {
    wins_upto(rows, id, ties, rows.len())
}

/// An algorithm wins at most as many instances as there are rows.
pub proof fn lemma_wins_bounded(rows: Seq<RunRecord>, id: AlgorithmId, ties: bool, n: nat)
    ensures
        wins_upto(rows, id, ties, n) <= n,
    decreases n,
{
    if n > 0 {
        lemma_wins_bounded(rows, id, ties, (n - 1) as nat);
    }
}

/// For every algorithm of the table, in ascending order, the number of
/// instances on which it has the best run. An algorithm that is nowhere best
/// is listed with the count zero. Where several runs on an instance share the
/// least quality, the first of them is the best run.
pub fn best_per_instance_count(df: &Vec<RunRecord>) -> (counts: Vec<AlgorithmCount>)
    ensures
        lists_algorithms(counted_algorithms(counts@), keys(df@)),
        counts@.len() == algorithm_ids(keys(df@)).len(),
        forall|j: int|
            0 <= j < counts@.len() ==> (#[trigger] counts@[j]).count == wins(
                df@,
                counts@[j].algorithm@,
                false,
            ),
{
    win_counts(df, false)
}

/// For every algorithm of the table, in ascending order, the number of
/// instances on which it has the best run, with ties between runs decided by
/// the order of the rows or by that of the algorithms.
pub fn win_counts(df: &Vec<RunRecord>, ties: bool) -> (counts: Vec<AlgorithmCount>)
    ensures
        lists_algorithms(counted_algorithms(counts@), keys(df@)),
        counts@.len() == algorithm_ids(keys(df@)).len(),
        forall|j: int|
            0 <= j < counts@.len() ==> (#[trigger] counts@[j]).count == wins(df@,
                counts@[j].algorithm@, ties),
{
    let index = key_index(df, KeyKind::Algorithm);
    let flags = best_flags(df, ties);
    let ghost ks = keys(df@);
    let m = index.len();
    let mut tally: Vec<usize> = vec![0; m];
    let mut k: usize = 0;
    while k < df.len()
        invariant
            k <= df@.len(),
            ks == keys(df@),
            m == index@.len(),
            is_index(ks, KeyKind::Algorithm, index@),
            flags@.len() == df@.len(),
            forall|r: int| 0 <= r < df@.len() ==> #[trigger] flags@[r] == is_best(df@, r, ties),
            tally@.len() == m,
            forall|j: int|
                0 <= j < m ==> (#[trigger] tally@[j]) == wins_upto(
                    df@,
                    df@[index@[j] as int].algorithm@,
                    ties,
                    k as nat,
                ),
        decreases df@.len() - k,
    {
        let ghost before = tally@;
        proof {
            assert(ks[k as int] == df@[k as int].key());
        }
        if flags[k] {
            match find(df, KeyKind::Algorithm, &index, &df[k]) {
                None => {
                    proof {
                        assert(key_eq(KeyKind::Algorithm, ks[k as int], df@[k as int].key()));
                    }
                },
                Some(a) => {
                    proof {
                        assert(ks[index@[a as int] as int] == df@[index@[a as int] as int].key());
                        lemma_wins_bounded(df@, df@[index@[a as int] as int].algorithm@, ties,
                            k as nat);
                    }
                    let raised = tally[a] + 1;
                    tally.set(a, raised);
                    proof {
                        assert forall|j: int| 0 <= j < m && j != a
                            implies df@[index@[j] as int].algorithm@
                            != df@[k as int].algorithm@ by {
                            assert(ks[index@[j] as int] == df@[index@[j] as int].key());
                            if j < a {
                                lemma_key_order(
                                    KeyKind::Algorithm,
                                    ks[index@[j] as int],
                                    ks[index@[a as int] as int],
                                    ks[index@[a as int] as int],
                                );
                            } else {
                                lemma_key_order(
                                    KeyKind::Algorithm,
                                    ks[index@[a as int] as int],
                                    ks[index@[j] as int],
                                    ks[index@[j] as int],
                                );
                            }
                        }
                        assert forall|j: int| 0 <= j < m implies (#[trigger] tally@[j])
                            == wins_upto(
                            df@,
                            df@[index@[j] as int].algorithm@,
                            ties,
                            (k + 1) as nat,
                        ) by {
                            if j != a {
                                assert(tally@[j] == before[j]);
                            }
                        }
                    }
                },
            }
        }
        k += 1;
    }
    let mut counts: Vec<AlgorithmCount> = Vec::new();
    let mut j: usize = 0;
    while j < m
        invariant
            j <= m,
            m == index@.len(),
            is_index(keys(df@), KeyKind::Algorithm, index@),
            tally@.len() == m,
            forall|i: int|
                0 <= i < m ==> (#[trigger] tally@[i]) == wins(df@,
                    df@[index@[i] as int].algorithm@, ties),
            counts@.len() == j,
            forall|i: int|
                0 <= i < j ==> (#[trigger] counts@[i]).algorithm@
                    == df@[index@[i] as int].algorithm@
                    && counts@[i].count == wins(df@, counts@[i].algorithm@, ties),
        decreases m - j,
    {
        counts.push(AlgorithmCount { algorithm: df[index[j]].algorithm.clone(), count: tally[j] });
        j += 1;
    }
    proof {
        let ids = counted_algorithms(counts@);
        assert forall|i: int| 0 <= i < index@.len() implies #[trigger] ids[i] == keys(
            df@,
        )[index@[i] as int].algorithm by {
            assert(counts@[i].algorithm@ == df@[index@[i] as int].algorithm@);
        }
        lemma_index_lists_algorithms(keys(df@), index@, ids);
        ids.unique_seq_to_set();
    }
    counts
}

} // verus!
