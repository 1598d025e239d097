//! The completeness pass: a table of expected best qualities with a row for
//! every instance, algorithm and number of replicas.
use vstd::prelude::*;
use crate::datastructures::{Algorithm, AlgorithmId, Instance, InstanceId};
use crate::fixed::WORST;
use crate::table::{
    algorithm_ids, find, instance_names, is_index, key_eq, key_index, keys,
    lemma_index_lists_algorithms, lemma_algorithm_list, lemma_algorithms_unique,
    lemma_index_lists_instances, lemma_instance_list, lemma_instances_unique, lists_algorithms,
    lists_instances, Key, KeyKind, Keyed, StatRow,
};
use vstd::arithmetic::div_mod::{
    lemma_fundamental_div_mod, lemma_fundamental_div_mod_converse, lemma_mod_bound,
};

verus! {

/// Among the first `n` rows, the first one that gives the expected best
/// quality of the pair `key` for `size` replicas; `-1` if none does.
pub open spec fn first_match_upto(rows: Seq<StatRow>, key: Key, size: int, n: nat) -> int
    decreases n,
{
    if n == 0 {
        -1
    } else {
        let first = first_match_upto(rows, key, size, (n - 1) as nat);
        if first >= 0 {
            first
        } else if key_eq(KeyKind::Group, rows[n - 1].key(), key) && rows[n - 1].sample_size
            == size {
            n - 1
        } else {
            -1
        }
    }
}

/// What a complete table holds for the pair `key` and `size` replicas: the
/// value of the first row that gives one, and the worst value if none does.
pub open spec fn cell_value(rows: Seq<StatRow>, key: Key, size: int) -> u64 {
    let first = first_match_upto(rows, key, size, rows.len());
    if first < 0 {
        WORST
    } else {
        rows[first].e_min
    }
}

/// The pair of instance and algorithm that row `t` of a complete table
/// speaks of, where the table runs through the instances in `names`, for
/// each of them through the algorithms in `ids`, and for each of these
/// through the numbers of replicas from 1 to `k`.
pub open spec fn cell_key(names: Seq<InstanceId>, ids: Seq<AlgorithmId>, k: int, t: int) -> Key {
    Key { instance: names[(t / k) / (ids.len() as int)],
        algorithm: ids[(t / k) % (ids.len() as int)] }
}

/// `table` is the table `rows` made complete over the instances `names`,
/// the algorithms `ids` and the numbers of replicas from 1 to `k`: it has
/// one row for every combination of them, in ascending order, with the value
/// that `rows` gives for it, or the worst value.
pub open spec fn is_completion(
    table: Seq<StatRow>,
    rows: Seq<StatRow>,
    k: int,
    names: Seq<InstanceId>,
    ids: Seq<AlgorithmId>,
) -> bool {
    &&& table.len() == names.len() * ids.len() * k
    &&& forall|t: int|
        0 <= t < table.len() ==> {
            &&& (#[trigger] table[t]).key() == cell_key(names, ids, k, t)
            &&& table[t].sample_size == t % k + 1
            &&& table[t].e_min == cell_value(rows, cell_key(names, ids, k, t), t % k + 1)
        }
}

/// The first match is a row that matches, no earlier row matches, and there
/// is one as soon as a row matches.
pub proof fn lemma_first_match(rows: Seq<StatRow>, key: Key, size: int, n: nat)
    requires
        n <= rows.len(),
    ensures
        ({
            let f = first_match_upto(rows, key, size, n);
            &&& -1 <= f < n
            &&& f >= 0 ==> key_eq(KeyKind::Group, rows[f].key(), key) && rows[f].sample_size == size
            &&& forall|r: int|
                0 <= r < n && key_eq(KeyKind::Group, (#[trigger] rows[r]).key(), key)
                    && rows[r].sample_size == size ==> 0 <= f <= r
        }),
    decreases n,
{
    if n > 0 {
        lemma_first_match(rows, key, size, (n - 1) as nat);
    }
}

/// Row `(i * n + j) * k + s` of a table of `m` blocks of `n` blocks of `k`
/// rows lies in block `i`, in block `j` of that, at place `s` of that.
pub proof fn lemma_cell_place(i: int, j: int, s: int, m: int, n: int, k: int)
    requires
        0 <= i < m,
        0 <= j < n,
        0 <= s < k,
    ensures
        ({
            let t = (i * n + j) * k + s;
            &&& 0 <= t < m * n * k
            &&& t / k == i * n + j
            &&& t % k == s
            &&& (t / k) / n == i
            &&& (t / k) % n == j
        }),
{
    let c = i * n + j;
    let t = c * k + s;
    assert(0 <= c < m * n) by (nonlinear_arith)
        requires
            0 <= i < m,
            0 <= j < n,
            c == i * n + j,
    ;
    assert(0 <= t < m * n * k) by (nonlinear_arith)
        requires
            0 <= c < m * n,
            0 <= s < k,
            t == c * k + s,
    ;
    lemma_fundamental_div_mod_converse(t, k, c, s);
    lemma_fundamental_div_mod_converse(c, n, i, j);
}

/// Every row of a table of `m` blocks of `n` blocks of `k` rows has a place.
pub proof fn lemma_cell_parts(t: int, m: int, n: int, k: int)
    requires
        0 <= t < m * n * k,
        0 <= m,
        0 <= n,
        0 <= k,
    ensures
        0 < k,
        0 < n,
        0 <= t % k < k,
        0 <= (t / k) % n < n,
        0 <= (t / k) / n < m,
        t == (((t / k) / n) * n + (t / k) % n) * k + t % k,
{
    assert(0 < k && 0 < n) by (nonlinear_arith)
        requires
            0 <= t < m * n * k,
            0 <= m,
            0 <= n,
            0 <= k,
    ;
    let c = t / k;
    lemma_fundamental_div_mod(t, k);
    lemma_mod_bound(t, k);
    lemma_fundamental_div_mod(c, n);
    lemma_mod_bound(c, n);
    assert(0 <= c < m * n) by (nonlinear_arith)
        requires
            t == k * c + t % k,
            0 <= t % k < k,
            0 <= t < m * n * k,
    ;
    assert(0 <= c / n < m) by (nonlinear_arith)
        requires
            c == n * (c / n) + c % n,
            0 <= c % n < n,
            0 <= c < m * n,
    ;
    assert(t == ((c / n) * n + c % n) * k + t % k) by (nonlinear_arith)
        requires
            t == k * c + t % k,
            c == n * (c / n) + c % n,
    ;
}

/// What is known of a cell after the first `n` rows: whether it has a value
/// yet, and which.
pub open spec fn holds_cell(rows: Seq<StatRow>, key: Key, size: int, n: nat, filled: bool,
    value: u64) -> bool {
    let first = first_match_upto(rows, key, size, n);
    &&& filled <==> first >= 0
    &&& value == if first < 0 {
        WORST
    } else {
        rows[first].e_min
    }
}

/// Why a table could not be made complete.
#[derive(Debug, Clone, Copy, PartialEq, Eq)]
pub enum CleanupError {
    /// The complete table has more rows than fit into memory.
    TooLarge,
}

/// Makes a table of expected best qualities complete: the result has one
/// row for every instance of the table, every algorithm of the table and
/// every number of replicas from 1 to `k`, in ascending order. A combination
/// that the table has a row for keeps the value of the first such row; one
/// that it has no row for gets the worst value. Rows for other numbers of
/// replicas take no part but for the instance and the algorithm they name.
pub fn cleanup_missing_rows(df: &Vec<StatRow>, k: u32) -> (r: Result<Vec<StatRow>, CleanupError>)
    ensures
        r is Ok ==> exists|names: Seq<InstanceId>, ids: Seq<AlgorithmId>|
            lists_instances(names, keys(df@)) && lists_algorithms(ids, keys(df@))
                && #[trigger] is_completion(r->Ok_0@, df@, k as int, names, ids),
        r is Err <==> instance_names(keys(df@)).len() * algorithm_ids(keys(df@)).len() * k
            > usize::MAX,
{
    let ghost ks = keys(df@);
    let by_instance = key_index(df, KeyKind::Instance);
    let by_algorithm = key_index(df, KeyKind::Algorithm);
    let m = by_instance.len();
    let n = by_algorithm.len();
    let ghost names = Seq::new(m as nat, |i: int| ks[by_instance@[i] as int].instance);
    let ghost ids = Seq::new(n as nat, |j: int| ks[by_algorithm@[j] as int].algorithm);
    proof {
        lemma_index_lists_instances(ks, by_instance@, names);
        lemma_index_lists_algorithms(ks, by_algorithm@, ids);
        names.unique_seq_to_set();
        ids.unique_seq_to_set();
        assert(m * n * 0 == 0) by (nonlinear_arith);
    }
    if k == 0 {
        let result: Result<Vec<StatRow>, CleanupError> = Ok(Vec::new());
        proof {
            assert(is_completion(result->Ok_0@, df@, k as int, names, ids));
        }
        return result;
    }
    let pairs = match m.checked_mul(n) {
        Some(pairs) => pairs,
        None => {
            proof {
                assert(m * n * k > usize::MAX) by (nonlinear_arith)
                    requires
                        m * n > usize::MAX,
                        k >= 1,
                ;
            }
            return Err(CleanupError::TooLarge);
        },
    };
    let total = match pairs.checked_mul(k as usize) {
        Some(total) => total,
        None => {
            return Err(CleanupError::TooLarge);
        },
    };
    let mut cells: Vec<u64> = vec![WORST; total];
    let mut filled: Vec<bool> = vec![false; total];
    let mut row: usize = 0;
    while row < df.len()
        invariant
            row <= df@.len(),
            ks == keys(df@),
            k > 0,
            m == by_instance@.len(),
            n == by_algorithm@.len(),
            total == m * n * k,
            is_index(ks, KeyKind::Instance, by_instance@),
            is_index(ks, KeyKind::Algorithm, by_algorithm@),
            names == Seq::new(m as nat, |i: int| ks[by_instance@[i] as int].instance),
            ids == Seq::new(n as nat, |j: int| ks[by_algorithm@[j] as int].algorithm),
            names.no_duplicates(),
            ids.no_duplicates(),
            cells@.len() == total,
            filled@.len() == total,
            forall|t: int|
                0 <= t < total ==> #[trigger] holds_cell(
                    df@,
                    cell_key(names, ids, k as int, t),
                    t % (k as int) + 1,
                    row as nat,
                    filled@[t],
                    cells@[t],
                ),
        decreases df@.len() - row,
    {
        let ghost cells_before = cells@;
        let ghost filled_before = filled@;
        let size = df[row].sample_size;
        let ghost mut target: int = -1;
        proof {
            assert(ks[row as int] == df@[row as int].key());
        }
        if 1 <= size && size <= k {
            match find(df, KeyKind::Instance, &by_instance, &df[row]) {
                None => {
                    proof {
                        assert(key_eq(KeyKind::Instance, ks[row as int], df@[row as int].key()));
                    }
                },
                Some(i) => {
                    match find(df, KeyKind::Algorithm, &by_algorithm, &df[row]) {
                        None => {
                            proof {
                                assert(key_eq(KeyKind::Algorithm, ks[row as int],
                                    df@[row as int].key()));
                            }
                        },
                        Some(j) => {
                            proof {
                                lemma_cell_place(
                                    i as int,
                                    j as int,
                                    size - 1,
                                    m as int,
                                    n as int,
                                    k as int,
                                );
                                assert(0 <= i * n <= i * n + j < m * n) by (nonlinear_arith)
                                    requires
                                        0 <= i < m,
                                        0 <= j < n,
                                ;
                                assert((i * n + j) * k <= (i * n + j) * k + (size - 1));
                                assert(0 <= (i * n + j) * k) by (nonlinear_arith)
                                    requires
                                        0 <= i * n + j,
                                        k > 0,
                                ;
                                target = (i * n + j) * k + (size - 1);
                            }
                            let t0: usize = (i * n + j) * (k as usize) + (size as usize - 1);
                            if !filled[t0] {
                                cells.set(t0, df[row].e_min);
                                filled.set(t0, true);
                            }
                        },
                    }
                },
            }
        }
        let ghost done = row as nat;
        row += 1;
        proof {
            assert forall|t: int| 0 <= t < total implies #[trigger] holds_cell(
                df@,
                cell_key(names, ids, k as int, t),
                t % (k as int) + 1,
                row as nat,
                filled@[t],
                cells@[t],
            ) by {
                lemma_cell_parts(t, m as int, n as int, k as int);
                let key = cell_key(names, ids, k as int, t);
                let i = (t / (k as int)) / (n as int);
                let j = (t / (k as int)) % (n as int);
                assert(key.instance == names[i]);
                assert(key.algorithm == ids[j]);
                assert(holds_cell(
                    df@,
                    key,
                    t % (k as int) + 1,
                    done,
                    filled_before[t],
                    cells_before[t],
                ));
                if t == target {
                    assert(key_eq(KeyKind::Group, df@[done as int].key(), key));
                } else {
                    assert(filled@[t] == filled_before[t]);
                    assert(cells@[t] == cells_before[t]);
                    if key_eq(KeyKind::Group, df@[done as int].key(), key) && size == t % (k as int)
                        + 1 {
                        assert(target >= 0);
                        let i0 = (target / (k as int)) / (n as int);
                        let j0 = (target / (k as int)) % (n as int);
                        assert(names[i0] == names[i]);
                        assert(ids[j0] == ids[j]);
                        assert(false);
                    }
                }
            }
        }
    }
    proof {
        assert forall|x: int| 0 <= x < total implies #[trigger] cells@[x] == cell_value(
            df@,
            cell_key(names, ids, k as int, x),
            x % (k as int) + 1,
        ) by {
            assert(holds_cell(
                df@,
                cell_key(names, ids, k as int, x),
                x % (k as int) + 1,
                row as nat,
                filled@[x],
                cells@[x],
            ));
        }
    }
    let mut table: Vec<StatRow> = Vec::new();
    let mut t: usize = 0;
    while t < total
        invariant
            t <= total,
            ks == keys(df@),
            k > 0,
            m == by_instance@.len(),
            n == by_algorithm@.len(),
            total == m * n * k,
            is_index(ks, KeyKind::Instance, by_instance@),
            is_index(ks, KeyKind::Algorithm, by_algorithm@),
            names == Seq::new(m as nat, |i: int| ks[by_instance@[i] as int].instance),
            ids == Seq::new(n as nat, |j: int| ks[by_algorithm@[j] as int].algorithm),
            cells@.len() == total,
            forall|x: int|
                0 <= x < total ==> #[trigger] cells@[x] == cell_value(
                    df@,
                    cell_key(names, ids, k as int, x),
                    x % (k as int) + 1,
                ),
            table@.len() == t,
            forall|x: int|
                0 <= x < t ==> {
                    &&& (#[trigger] table@[x]).key() == cell_key(names, ids, k as int, x)
                    &&& table@[x].sample_size == x % (k as int) + 1
                    &&& table@[x].e_min == cell_value(
                        df@,
                        cell_key(names, ids, k as int, x),
                        x % (k as int) + 1,
                    )
                },
        decreases total - t,
    {
        proof {
            lemma_cell_parts(t as int, m as int, n as int, k as int);
        }
        let pair = t / (k as usize);
        let i = pair / n;
        let j = pair % n;
        let size: u32 = (t % (k as usize)) as u32 + 1;
        proof {
            assert(ks[by_instance@[i as int] as int] == df@[by_instance@[i as int] as int].key());
            assert(ks[by_algorithm@[j as int] as int] == df@[by_algorithm@[j as int] as int].key());
        }
        table.push(
            StatRow {
                instance: df[by_instance[i]].instance.clone(),
                algorithm: df[by_algorithm[j]].algorithm.clone(),
                sample_size: size,
                e_min: cells[t],
            },
        );
        t += 1;
    }
    let result: Result<Vec<StatRow>, CleanupError> = Ok(table);
    proof {
        assert(is_completion(result->Ok_0@, df@, k as int, names, ids));
    }
    result
}

/// A complete table speaks of the instances and algorithms it was made
/// complete over, as long as it has a row at all.
pub proof fn lemma_completion_axes(
    table: Seq<StatRow>,
    rows: Seq<StatRow>,
    k: int,
    names: Seq<InstanceId>,
    ids: Seq<AlgorithmId>,
)
    requires
        k >= 0,
        table.len() > 0,
        is_completion(table, rows, k, names, ids),
    ensures
        names.to_set() == instance_names(keys(table)),
        ids.to_set() == algorithm_ids(keys(table)),
{
    let m = names.len() as int;
    let n = ids.len() as int;
    let tk = keys(table);
    assert(m * n * k == (m * n) * k) by (nonlinear_arith);
    assert(k > 0 && n > 0 && m > 0) by (nonlinear_arith)
        requires
            m * n * k > 0,
            m >= 0,
            n >= 0,
            k >= 0,
    ;
    assert forall|name: InstanceId| names.to_set().contains(name) <==> instance_names(tk).contains(
        name,
    ) by {
        if names.contains(name) {
            let i = choose|i: int| 0 <= i < names.len() && names[i] == name;
            lemma_cell_place(i, 0, 0, m, n, k);
            let t = (i * n + 0) * k + 0;
            assert(table[t].key() == cell_key(names, ids, k, t));
            assert(tk[t].instance == name);
        }
        if instance_names(tk).contains(name) {
            let t = choose|t: int| 0 <= t < tk.len() && #[trigger] tk[t].instance == name;
            lemma_cell_parts(t, m, n, k);
            assert(table[t].key() == cell_key(names, ids, k, t));
            assert(names[(t / k) / n] == name);
        }
    }
    assert(names.to_set() =~= instance_names(tk));
    assert forall|id: AlgorithmId| ids.to_set().contains(id) <==> algorithm_ids(tk).contains(id)
        by {
        if ids.contains(id) {
            let j = choose|j: int| 0 <= j < ids.len() && ids[j] == id;
            lemma_cell_place(0, j, 0, m, n, k);
            let t = (0 * n + j) * k + 0;
            assert(table[t].key() == cell_key(names, ids, k, t));
            assert(tk[t].algorithm == id);
        }
        if algorithm_ids(tk).contains(id) {
            let t = choose|t: int| 0 <= t < tk.len() && #[trigger] tk[t].algorithm == id;
            lemma_cell_parts(t, m, n, k);
            assert(table[t].key() == cell_key(names, ids, k, t));
            assert(ids[(t / k) % n] == id);
        }
    }
    assert(ids.to_set() =~= algorithm_ids(tk));
}

/// Making a complete table complete once more changes nothing: the second
/// result has the rows of the first, with the same values, and no row gets
/// the worst value that did not have it.
pub proof fn lemma_completion_idempotent(
    rows: Seq<StatRow>,
    table: Seq<StatRow>,
    again: Seq<StatRow>,
    k: int,
    names: Seq<InstanceId>,
    ids: Seq<AlgorithmId>,
    names_again: Seq<InstanceId>,
    ids_again: Seq<AlgorithmId>,
)
    requires
        k >= 0,
        lists_instances(names, keys(rows)),
        lists_algorithms(ids, keys(rows)),
        is_completion(table, rows, k, names, ids),
        lists_instances(names_again, keys(table)),
        lists_algorithms(ids_again, keys(table)),
        is_completion(again, table, k, names_again, ids_again),
    ensures
        again.len() == table.len(),
        forall|t: int|
            0 <= t < table.len() ==> {
                &&& (#[trigger] again[t]).key() == table[t].key()
                &&& again[t].sample_size == table[t].sample_size
                &&& again[t].e_min == table[t].e_min
            },
{
    let m = names.len() as int;
    let n = ids.len() as int;
    if table.len() == 0 {
        assert(instance_names(keys(table)) =~= Set::<InstanceId>::empty());
        if names_again.len() > 0 {
            assert(names_again.to_set().contains(names_again[0]));
        }
        assert(names_again.len() * ids_again.len() * k == 0) by (nonlinear_arith)
            requires
                names_again.len() == 0,
        ;
    } else {
        lemma_completion_axes(table, rows, k, names, ids);
        lemma_instance_list(names, keys(rows));
        lemma_algorithm_list(ids, keys(rows));
        lemma_instances_unique(names, keys(table), names_again, keys(table));
        lemma_algorithms_unique(ids, keys(table), ids_again, keys(table));
        assert forall|t: int| 0 <= t < table.len() implies {
            &&& (#[trigger] again[t]).key() == table[t].key()
            &&& again[t].sample_size == table[t].sample_size
            &&& again[t].e_min == table[t].e_min
        } by {
            let key = cell_key(names, ids, k, t);
            let size = t % k + 1;
            assert(table[t].key() == key);
            lemma_cell_parts(t, m, n, k);
            lemma_first_match(table, key, size, table.len());
            let first = first_match_upto(table, key, size, table.len());
            assert(key_eq(KeyKind::Group, table[t].key(), key));
            assert(0 <= first <= t);
            if first < t {
                lemma_cell_parts(first, m, n, k);
                assert(table[first].key() == cell_key(names, ids, k, first));
                assert(names[(first / k) / n] == names[(t / k) / n]);
                assert(ids[(first / k) % n] == ids[(t / k) % n]);
                assert(false);
            }
        }
    }
}

} // verus!
