//! The slowdown filter: the algorithms that are fast enough, measured
//! against the best runs.
//!
//! An algorithm is fast enough if the geometric mean of its running times is
//! less than the slowdown ratio times the geometric mean of the running times
//! of the best runs, one per instance. Running times and the ratio come as
//! their natural logarithms, so the comparison is one of means and a sum:
//! the mean logarithm of the algorithm against the logarithm of the ratio
//! plus the mean logarithm of the best runs.
use vstd::prelude::*;
use crate::datastructures::{Algorithm, AlgorithmId};
use crate::fixed::{lemma_mean_bounded, mean, mean_of};
use crate::table::{
    find, is_index, key_eq, key_index, keys, lemma_key_order, lemma_filter_push, KeyKind, Keyed,
    RunRecord,
};
use super::utils::{best_flags, best_row, is_best, lemma_best_row};

verus! {

/// The sum of the logarithmic running times of the runs of the algorithm
/// `id` among the first `n` rows.
pub open spec fn log_sum_upto(rows: Seq<RunRecord>, id: AlgorithmId, n: nat) -> int
    decreases n,
{
    if n == 0 {
        0
    } else {
        log_sum_upto(rows, id, (n - 1) as nat) + (if rows[n - 1].algorithm@ == id {
            rows[n - 1].log_time as int
        } else {
            0
        })
    }
}

/// The number of runs of the algorithm `id` among the first `n` rows.
pub open spec fn runs_upto(rows: Seq<RunRecord>, id: AlgorithmId, n: nat) -> nat
    decreases n,
{
    if n == 0 {
        0
    } else {
        runs_upto(rows, id, (n - 1) as nat) + (if rows[n - 1].algorithm@ == id {
            1nat
        } else {
            0nat
        })
    }
}

/// The sum of the logarithmic running times of those among the first `n`
/// rows that are the best run of their instance.
pub open spec fn best_log_sum_upto(rows: Seq<RunRecord>, n: nat) -> int
    decreases n,
{
    if n == 0 {
        0
    } else {
        best_log_sum_upto(rows, (n - 1) as nat) + (if is_best(rows, n - 1, false) {
            rows[n - 1].log_time as int
        } else {
            0
        })
    }
}

/// The number of those among the first `n` rows that are the best run of
/// their instance.
pub open spec fn best_runs_upto(rows: Seq<RunRecord>, n: nat) -> nat
    decreases n,
{
    if n == 0 {
        0
    } else {
        best_runs_upto(rows, (n - 1) as nat) + (if is_best(rows, n - 1, false) {
            1nat
        } else {
            0nat
        })
    }
}

/// The mean logarithmic running time of the algorithm `id`.
pub open spec fn mean_log_time(rows: Seq<RunRecord>, id: AlgorithmId) -> int {
    mean(log_sum_upto(rows, id, rows.len()), runs_upto(rows, id, rows.len()) as int)
}

/// The mean logarithmic running time of the best runs, one per instance.
pub open spec fn best_mean_log_time(rows: Seq<RunRecord>) -> int {
    mean(best_log_sum_upto(rows, rows.len()), best_runs_upto(rows, rows.len()) as int)
}

/// The natural logarithm of the machine epsilon of double precision,
/// -36.0436533..., rounded down to the grid. A geometric mean whose
/// logarithm is no larger counts as zero.
pub const LOG_EPSILON: i64 = -36_043_654;

/// Whether the geometric mean of the best runs counts as zero.
pub open spec fn is_degenerate(rows: Seq<RunRecord>) -> bool {
    best_mean_log_time(rows) <= LOG_EPSILON
}

/// The logarithm of what the algorithms are measured against: the mean
/// logarithmic running time of the best runs, one per instance. Where their
/// geometric mean counts as zero, one stands in for it, whose logarithm is
/// zero.
pub open spec fn reference_log(rows: Seq<RunRecord>) -> int {
    if is_degenerate(rows) {
        0
    } else {
        best_mean_log_time(rows)
    }
}

/// What the algorithms of a table are measured against.
#[derive(Debug, Clone, Copy, PartialEq, Eq)]
pub struct Reference {
    /// The logarithm of the running time to measure against (fixed-point)
    pub log_time: i64,
    /// Whether the geometric mean of the best runs counted as zero and one
    /// stands in for it
    pub clamped: bool,
}

/// Whether the algorithm `id` is fast enough: the geometric mean of its
/// running times is less than the slowdown ratio times the reference; in
/// logarithms, its mean logarithmic running time is less than the logarithm
/// of the ratio plus that of the reference.
pub open spec fn within_slowdown(rows: Seq<RunRecord>, id: AlgorithmId, log_slowdown_ratio: i64)
    -> bool {
    mean_log_time(rows, id) < log_slowdown_ratio + reference_log(rows)
}

/// The rows of the algorithms that are fast enough.
pub open spec fn survivor(rows: Seq<RunRecord>, log_slowdown_ratio: i64) -> spec_fn(
    RunRecord,
) -> bool {
    |r: RunRecord| within_slowdown(rows, r.algorithm@, log_slowdown_ratio)
}

/// Why a table cannot be filtered.
#[derive(Debug, Clone, Copy, PartialEq, Eq)]
pub enum FilterError {
    /// The table has no rows, so there is nothing to measure against.
    EmptyDataframe,
}

/// Sums and counts stay within what the rows can add up to.
pub proof fn lemma_sums_bounded(rows: Seq<RunRecord>, id: AlgorithmId, n: nat)
    ensures
        -0x8000_0000 * n <= log_sum_upto(rows, id, n) <= 0x8000_0000 * n,
        -0x8000_0000 * n <= best_log_sum_upto(rows, n) <= 0x8000_0000 * n,
        runs_upto(rows, id, n) <= n,
        best_runs_upto(rows, n) <= n,
        -0x8000_0000 * runs_upto(rows, id, n) <= log_sum_upto(rows, id,
            n) <= 0x8000_0000 * runs_upto(
            rows,
            id,
            n,
        ),
        -0x8000_0000 * best_runs_upto(rows, n) <= best_log_sum_upto(rows, n) <= 0x8000_0000
            * best_runs_upto(rows, n),
    decreases n,
{
    if n > 0 {
        lemma_sums_bounded(rows, id, (n - 1) as nat);
    }
}

/// A row that is the best run of its instance counts among the best runs.
pub proof fn lemma_best_runs_positive(rows: Seq<RunRecord>, k: int, n: nat)
    requires
        0 <= k < n,
        is_best(rows, k, false),
    ensures
        best_runs_upto(rows, n) >= 1,
    decreases n,
{
    if k < n - 1 {
        lemma_best_runs_positive(rows, k, (n - 1) as nat);
    }
}

/// A row of an algorithm counts among the runs of the algorithm.
pub proof fn lemma_runs_positive(rows: Seq<RunRecord>, id: AlgorithmId, k: int, n: nat)
    requires
        0 <= k < n,
        rows[k].algorithm@ == id,
    ensures
        runs_upto(rows, id, n) >= 1,
    decreases n,
{
    if k < n - 1 {
        lemma_runs_positive(rows, id, k, (n - 1) as nat);
    }
}

/// What the algorithms of a table are measured against, if the table has a
/// row.
pub fn slowdown_reference(df: &Vec<RunRecord>) -> (r: Option<Reference>)
    ensures
        r is Some <==> df@.len() > 0,
        r is Some ==> r->Some_0.log_time == reference_log(df@) && r->Some_0.clamped
            == is_degenerate(df@),
        r is Some ==> -0x8000_0000 <= r->Some_0.log_time <= 0x8000_0000,
{
    let n = df.len();
    if n == 0 {
        return None;
    }
    let flags = best_flags(df, false);
    let mut best_sum: i128 = 0;
    let mut best_count: usize = 0;
    let mut k: usize = 0;
    while k < n
        invariant
            k <= n,
            n == df@.len(),
            flags@.len() == n,
            forall|r: int| 0 <= r < n ==> #[trigger] flags@[r] == is_best(df@, r, false),
            best_sum == best_log_sum_upto(df@, k as nat),
            best_count == best_runs_upto(df@, k as nat),
        decreases n - k,
    {
        proof {
            lemma_sums_bounded(df@, df@[k as int].algorithm@, k as nat);
            assert(0x8000_0000 * k <= 0x8000_0000 * 0xffff_ffff_ffff_ffff) by (nonlinear_arith)
                requires
                    k <= 0xffff_ffff_ffff_ffff,
            ;
        }
        if flags[k] {
            best_sum = best_sum + df[k].log_time as i128;
            best_count = best_count + 1;
        }
        k += 1;
    }
    proof {
        let first = best_row(df@, df@[0].instance@, false);
        lemma_best_row(df@, df@[0].instance@, false, n as nat);
        lemma_best_runs_positive(df@, first, n as nat);
        lemma_sums_bounded(df@, df@[0].algorithm@, n as nat);
        lemma_mean_bounded(best_sum as int, best_count as int, 0x8000_0000);
    }
    let best_mean = mean_of(best_sum, best_count);
    if best_mean <= LOG_EPSILON as i128 {
        Some(Reference { log_time: 0, clamped: true })
    } else {
        Some(Reference { log_time: best_mean as i64, clamped: false })
    }
}

/// Keeps the rows of the algorithms that are fast enough, in their order. An
/// algorithm is fast enough if the geometric mean of its running times is
/// less than the slowdown ratio times that of the best runs, one per
/// instance. The ratio is given by its natural logarithm (fixed-point).
/// Means of logarithms are rounded down to the grid, and a reference that
/// counts as zero is taken as one.
pub fn filter_algorithms_by_slowdown(df: &Vec<RunRecord>, log_slowdown_ratio: i64) -> (r: Result<
    Vec<RunRecord>,
    FilterError,
>)
    ensures
        match r {
            Ok(kept) => df@.len() > 0 && kept@ == df@.filter(survivor(df@, log_slowdown_ratio)),
            Err(FilterError::EmptyDataframe) => df@.len() == 0,
        },
{
    let n = df.len();
    let reference: i128 = match slowdown_reference(df) {
        Some(reference) => reference.log_time as i128,
        None => {
            return Err(FilterError::EmptyDataframe);
        },
    };
    let ghost ks = keys(df@);
    let index = key_index(df, KeyKind::Algorithm);
    let m = index.len();
    let mut sums: Vec<i128> = vec![0; m];
    let mut counts: Vec<usize> = vec![0; m];
    let mut k: usize = 0;
    while k < n
        invariant
            k <= n,
            n == df@.len(),
            ks == keys(df@),
            m == index@.len(),
            is_index(ks, KeyKind::Algorithm, index@),
            reference == reference_log(df@),
            -0x8000_0000 <= reference <= 0x8000_0000,
            sums@.len() == m,
            counts@.len() == m,
            forall|j: int|
                0 <= j < m ==> (#[trigger] sums@[j]) == log_sum_upto(
                    df@,
                    df@[index@[j] as int].algorithm@,
                    k as nat,
                ),
            forall|j: int|
                0 <= j < m ==> (#[trigger] counts@[j]) == runs_upto(
                    df@,
                    df@[index@[j] as int].algorithm@,
                    k as nat,
                ),
        decreases n - k,
    {
        let ghost sums_before = sums@;
        let ghost counts_before = counts@;
        let log_time: i128 = df[k].log_time as i128;
        proof {
            assert(ks[k as int] == df@[k as int].key());
            lemma_sums_bounded(df@, df@[k as int].algorithm@, k as nat);
            assert(0x8000_0000 * k <= 0x8000_0000 * 0xffff_ffff_ffff_ffff) by (nonlinear_arith)
                requires
                    k <= 0xffff_ffff_ffff_ffff,
            ;
        }
        match find(df, KeyKind::Algorithm, &index, &df[k]) {
            None => {
                proof {
                    assert(key_eq(KeyKind::Algorithm, ks[k as int], df@[k as int].key()));
                }
            },
            Some(a) => {
                proof {
                    assert(ks[index@[a as int] as int] == df@[index@[a as int] as int].key());
                }
                let sum = sums[a] + log_time;
                sums.set(a, sum);
                let count = counts[a] + 1;
                counts.set(a, count);
                proof {
                    assert forall|j: int| 0 <= j < m && j != a
                        implies df@[index@[j] as int].algorithm@
                        != df@[k as int].algorithm@ by {
                        assert(ks[index@[j] as int] == df@[index@[j] as int].key());
                        if j < a {
                            lemma_key_order(
                                KeyKind::Algorithm,
                                ks[index@[j] as int],
                                ks[index@[a as int] as int],
                                ks[index@[a as int] as int],
                            );
                        } else {
                            lemma_key_order(
                                KeyKind::Algorithm,
                                ks[index@[a as int] as int],
                                ks[index@[j] as int],
                                ks[index@[j] as int],
                            );
                        }
                    }
                    assert forall|j: int| 0 <= j < m implies (#[trigger] sums@[j]) == log_sum_upto(
                        df@,
                        df@[index@[j] as int].algorithm@,
                        (k + 1) as nat,
                    ) by {
                        if j != a {
                            assert(sums@[j] == sums_before[j]);
                        }
                    }
                    assert forall|j: int| 0 <= j < m implies (#[trigger] counts@[j]) == runs_upto(
                        df@,
                        df@[index@[j] as int].algorithm@,
                        (k + 1) as nat,
                    ) by {
                        if j != a {
                            assert(counts@[j] == counts_before[j]);
                        }
                    }
                }
            },
        }
        k += 1;
    }
    let bound: i128 = (log_slowdown_ratio as i128) + reference;
    let mut keep: Vec<bool> = Vec::new();
    let mut j: usize = 0;
    while j < m
        invariant
            j <= m,
            n == df@.len(),
            m == index@.len(),
            ks == keys(df@),
            is_index(ks, KeyKind::Algorithm, index@),
            bound == log_slowdown_ratio + reference_log(df@),
            sums@.len() == m,
            counts@.len() == m,
            forall|i: int|
                0 <= i < m ==> (#[trigger] sums@[i]) == log_sum_upto(
                    df@,
                    df@[index@[i] as int].algorithm@,
                    n as nat,
                ),
            forall|i: int|
                0 <= i < m ==> (#[trigger] counts@[i]) == runs_upto(
                    df@,
                    df@[index@[i] as int].algorithm@,
                    n as nat,
                ),
            keep@.len() == j,
            forall|i: int|
                0 <= i < j ==> #[trigger] keep@[i] == within_slowdown(
                    df@,
                    df@[index@[i] as int].algorithm@,
                    log_slowdown_ratio,
                ),
        decreases m - j,
    {
        let ghost id = df@[index@[j as int] as int].algorithm@;
        proof {
            lemma_runs_positive(df@, id, index@[j as int] as int, n as nat);
            lemma_sums_bounded(df@, id, n as nat);
            lemma_mean_bounded(sums@[j as int] as int, counts@[j as int] as int, 0x8000_0000);
        }
        let average = mean_of(sums[j], counts[j]);
        keep.push(average < bound);
        j += 1;
    }
    let mut kept: Vec<RunRecord> = Vec::new();
    let ghost pred = survivor(df@, log_slowdown_ratio);
    k = 0;
    proof {
        reveal(Seq::filter);
        assert(df@.take(0).filter(pred) =~= Seq::<RunRecord>::empty());
    }
    while k < n
        invariant
            k <= n,
            n == df@.len(),
            m == index@.len(),
            ks == keys(df@),
            pred == survivor(df@, log_slowdown_ratio),
            is_index(ks, KeyKind::Algorithm, index@),
            keep@.len() == m,
            forall|i: int|
                0 <= i < m ==> #[trigger] keep@[i] == within_slowdown(
                    df@,
                    df@[index@[i] as int].algorithm@,
                    log_slowdown_ratio,
                ),
            kept@ == df@.take(k as int).filter(pred),
        decreases n - k,
    {
        proof {
            assert(ks[k as int] == df@[k as int].key());
            assert(df@.take(k + 1) =~= df@.take(k as int).push(df@[k as int]));
            lemma_filter_push(df@.take(k as int), df@[k as int], pred);
        }
        match find(df, KeyKind::Algorithm, &index, &df[k]) {
            None => {
                proof {
                    assert(key_eq(KeyKind::Algorithm, ks[k as int], df@[k as int].key()));
                }
            },
            Some(a) => {
                proof {
                    assert(ks[index@[a as int] as int] == df@[index@[a as int] as int].key());
                }
                if keep[a] {
                    kept.push(df[k].clone());
                }
            },
        }
        k += 1;
    }
    proof {
        assert(df@.take(n as int) =~= df@);
    }
    Ok(kept)
}

} // verus!
