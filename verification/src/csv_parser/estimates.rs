//! The expected best quality per instance, algorithm and number of replicas,
//! estimated by sampling or under the normal approximation.
use vstd::prelude::*;
use crate::datastructures::{Instance, InstanceId};
use crate::estimator::{estimate, expected_min_with_spread, SpreadTable};
use crate::fixed::{isqrt, lemma_mean_bounded, mean, sqrt_floor};
use crate::sampling::{draw, sample_minimum, sample_request};
use crate::table::{
    find, is_index, key_eq, key_index, keys, lemma_index_lists_groups, lemma_key_order, lists,
    lists_groups, Key, KeyKind, Keyed, RunRecord, StatRow,
};
use vstd::arithmetic::div_mod::lemma_fundamental_div_mod_converse;
use super::utils::{best_row, best_rows, InstanceQuality};

verus! {

/// The qualities of the runs of a pair of instance and algorithm among the
/// first `n` rows, in the order of the rows.
pub open spec fn group_qualities(rows: Seq<RunRecord>, key: Key, n: nat) -> Seq<u64>
    decreases n,
{
    if n == 0 {
        Seq::empty()
    } else {
        let front = group_qualities(rows, key, (n - 1) as nat);
        if key_eq(KeyKind::Group, rows[n - 1].key(), key) {
            front.push(rows[n - 1].quality)
        } else {
            front
        }
    }
}

/// A pair has at most as many runs as there are rows, and at least one as
/// soon as a row is of that pair.
pub proof fn lemma_group_size(rows: Seq<RunRecord>, key: Key, n: nat)
    ensures
        group_qualities(rows, key, n).len() <= n,
        forall|k: int|
            0 <= k < n && key_eq(KeyKind::Group, (#[trigger] rows[k]).key(), key)
                ==> group_qualities(
                rows,
                key,
                n,
            ).len() > 0,
    decreases n,
{
    if n > 0 {
        lemma_group_size(rows, key, (n - 1) as nat);
    }
}

/// `stats` holds, for the pairs in `groups` in turn, one row for each number
/// of replicas from 1 to `k` in turn, and the expected best quality in each
/// row is one that `accepts` admits for the pair and the number of replicas.
pub open spec fn is_table_over(
    stats: Seq<StatRow>,
    k: int,
    groups: Seq<Key>,
    accepts: spec_fn(Key, int, u64) -> bool,
) -> bool {
    &&& stats.len() == groups.len() * k
    &&& forall|t: int|
        0 <= t < stats.len() ==> {
            &&& (#[trigger] stats[t]).key() == groups[t / k]
            &&& stats[t].sample_size == t % k + 1
            &&& accepts(groups[t / k], t % k + 1, stats[t].e_min)
        }
}

/// `value` is the least of the values of `sample`.
pub open spec fn is_least_of(sample: Seq<u64>, value: u64) -> bool {
    &&& sample.contains(value)
    &&& forall|i: int| 0 <= i < sample.len() ==> value <= sample[i]
}

/// `sample` is a draw of `size` of the values without replacement: it holds
/// no value more often than it is there.
pub open spec fn is_draw(sample: Seq<u64>, values: Seq<u64>, size: int) -> bool {
    &&& sample.len() == size
    &&& sample.to_multiset().subset_of(values.to_multiset())
}

/// Whether `value` can be the least of `size` of the values, drawn without
/// replacement: it is the least of such a draw or, where there are no more
/// than `size` values, the least of them all.
pub open spec fn is_least_drawn(values: Seq<u64>, size: int, value: u64) -> bool {
    if size >= values.len() {
        is_least_of(values, value)
    } else {
        exists|sample: Seq<u64>| #[trigger]
            is_draw(sample, values, size) && is_least_of(sample, value)
    }
}

/// The least of a draw is one of the values that were drawn from.
pub proof fn lemma_least_drawn_is_value(values: Seq<u64>, size: int, value: u64)
    requires
        is_least_drawn(values, size, value),
    ensures
        values.contains(value),
{
    if size < values.len() {
        let sample = choose|sample: Seq<u64>| #[trigger]
            is_draw(sample, values, size) && is_least_of(sample, value);
        sample.to_multiset_ensures();
        values.to_multiset_ensures();
        assert(sample.to_multiset().count(value) > 0);
        assert(values.to_multiset().count(value) > 0);
    }
}

/// Admits, for every pair and number of replicas, what can be the least of
/// that many qualities of the pair, drawn without replacement.
pub open spec fn least_drawn(rows: Seq<RunRecord>) -> spec_fn(Key, int, u64) -> bool {
    |key: Key, size: int, value: u64|
        is_least_drawn(group_qualities(rows, key, rows.len()), size, value)
}

/// `stats` holds, for the pairs in `groups` in turn, one row for each number
/// of replicas from 1 to `k` in turn, and the expected best quality in each
/// row is the least of a draw of that many qualities of the pair.
pub open spec fn is_stat_table(stats: Seq<StatRow>, rows: Seq<RunRecord>, k: int,
    groups: Seq<Key>) -> bool {
    is_table_over(stats, k, groups, least_drawn(rows))
}

/// Why the expected best qualities could not be estimated.
#[derive(Debug, Clone, Copy, PartialEq, Eq)]
pub enum StatsError {
    /// The table has more rows than can be sampled from.
    TooManyRows,
}

/// For every row of the table, finds the place of its pair of instance and
/// algorithm in the index.
fn group_places(df: &Vec<RunRecord>, index: &Vec<usize>) -> (place: Vec<usize>)
    requires
        is_index(keys(df@), KeyKind::Group, index@),
    ensures
        place@.len() == df@.len(),
        forall|x: int|
            0 <= x < df@.len() ==> (#[trigger] place@[x]) < index@.len() && key_eq(
                KeyKind::Group,
                keys(df@)[x],
                keys(df@)[index@[place@[x] as int] as int],
            ),
{
    let ghost ks = keys(df@);
    let mut place: Vec<usize> = Vec::new();
    let mut row: usize = 0;
    while row < df.len()
        invariant
            row <= df@.len(),
            ks == keys(df@),
            is_index(ks, KeyKind::Group, index@),
            place@.len() == row,
            forall|x: int|
                0 <= x < row ==> (#[trigger] place@[x]) < index@.len() && key_eq(
                    KeyKind::Group,
                    ks[x],
                    ks[index@[place@[x] as int] as int],
                ),
        decreases df@.len() - row,
    {
        proof {
            assert(ks[row as int] == df@[row as int].key());
        }
        match find(df, KeyKind::Group, index, &df[row]) {
            None => {
                proof {
                    assert(key_eq(KeyKind::Group, ks[row as int], df@[row as int].key()));
                }
                place.push(0);
            },
            Some(q) => {
                proof {
                    lemma_key_order(KeyKind::Group, ks[row as int], ks[row as int], ks[row as int]);
                }
                place.push(q);
            },
        }
        row += 1;
    }
    place
}

/// Collects the qualities of the runs of the pair at place `q` of the index.
fn bucket(df: &Vec<RunRecord>, index: &Vec<usize>, place: &Vec<usize>, q: usize)
    -> (values: Vec<u64>)
    requires
        is_index(keys(df@), KeyKind::Group, index@),
        q < index@.len(),
        place@.len() == df@.len(),
        forall|x: int|
            0 <= x < df@.len() ==> (#[trigger] place@[x]) < index@.len() && key_eq(
                KeyKind::Group,
                keys(df@)[x],
                keys(df@)[index@[place@[x] as int] as int],
            ),
    ensures
        values@ == group_qualities(df@, keys(df@)[index@[q as int] as int], df@.len()),
        0 < values@.len() <= df@.len(),
{
    let ghost ks = keys(df@);
    let ghost key = ks[index@[q as int] as int];
    let n = df.len();
    let mut values: Vec<u64> = Vec::new();
    let mut x: usize = 0;
    while x < n
        invariant
            x <= n,
            n == df@.len(),
            ks == keys(df@),
            q < index@.len(),
            is_index(ks, KeyKind::Group, index@),
            key == ks[index@[q as int] as int],
            place@.len() == n,
            forall|y: int|
                0 <= y < n ==> (#[trigger] place@[y]) < index@.len() && key_eq(
                    KeyKind::Group,
                    ks[y],
                    ks[index@[place@[y] as int] as int],
                ),
            values@ == group_qualities(df@, key, x as nat),
        decreases n - x,
    {
        proof {
            assert(ks[x as int] == df@[x as int].key());
            let other = place@[x as int];
            if other != q {
                if other < q {
                    lemma_key_order(
                        KeyKind::Group,
                        ks[index@[other as int] as int],
                        ks[index@[q as int] as int],
                        ks[index@[q as int] as int],
                    );
                } else {
                    lemma_key_order(
                        KeyKind::Group,
                        ks[index@[q as int] as int],
                        ks[index@[other as int] as int],
                        ks[index@[other as int] as int],
                    );
                }
            }
        }
        if place[x] == q {
            values.push(df[x].quality);
        }
        x += 1;
    }
    proof {
        lemma_group_size(df@, key, n as nat);
        assert(ks[index@[q as int] as int] == df@[index@[q as int] as int].key());
        lemma_key_order(KeyKind::Group, key, key, key);
    }
    values
}

/// The pairs of instance and algorithm that an index lists.
pub open spec fn listed_groups(keys: Seq<Key>, index: Seq<usize>) -> Seq<Key> {
    Seq::new(index.len(), |i: int| keys[index[i] as int])
}

/// Estimates the expected best quality of every algorithm on every instance
/// where it ran, for every number of replicas from 1 to `sample_size`: for `s`
/// replicas, the least of `s` of its qualities on the instance, drawn without
/// replacement by a generator seeded with `s`. Where the algorithm has no
/// more than `s` qualities on the instance, the draw is all of them. The rows
/// are in ascending order of instance, algorithm and number of replicas.
pub fn stats_by_sampling(df: &Vec<RunRecord>, sample_size: u32) -> (r: Result<
    Vec<StatRow>,
    StatsError,
>)
    ensures
        r is Ok <==> df@.len() <= u32::MAX,
        r is Ok ==> exists|groups: Seq<Key>|
            lists_groups(groups, keys(df@)) && #[trigger] is_stat_table(
                r->Ok_0@,
                df@,
                sample_size as int,
                groups,
            ),
{
    let n = df.len();
    if n > u32::MAX as usize {
        return Err(StatsError::TooManyRows);
    }
    let ghost ks = keys(df@);
    let index = key_index(df, KeyKind::Group);
    let g = index.len();
    let ghost groups = listed_groups(ks, index@);
    proof {
        lemma_index_lists_groups(ks, index@, groups);
    }
    let place = group_places(df, &index);
    let mut stats: Vec<StatRow> = Vec::new();
    let mut q: usize = 0;
    while q < g
        invariant
            q <= g,
            n == df@.len(),
            n <= u32::MAX,
            ks == keys(df@),
            g == index@.len(),
            g == groups.len(),
            is_index(ks, KeyKind::Group, index@),
            groups == listed_groups(ks, index@),
            lists_groups(groups, ks),
            place@.len() == n,
            forall|x: int|
                0 <= x < n ==> (#[trigger] place@[x]) < g && key_eq(
                    KeyKind::Group,
                    ks[x],
                    ks[index@[place@[x] as int] as int],
                ),
            is_stat_table(stats@, df@, sample_size as int, groups.take(q as int)),
        decreases g - q,
    {
        let ghost key = groups[q as int];
        let values = bucket(df, &index, &place, q);
        proof {
            assert(ks[index@[q as int] as int] == df@[index@[q as int] as int].key());
            let before = groups.take(q as int);
            assert forall|t: int| 0 <= t < stats@.len() implies {
                &&& (#[trigger] stats@[t]).key() == groups[t / (sample_size as int)]
                &&& stats@[t].sample_size == t % (sample_size as int) + 1
                &&& is_least_drawn(
                    group_qualities(df@, groups[t / (sample_size as int)], df@.len()),
                    t % (sample_size as int) + 1,
                    stats@[t].e_min,
                )
            } by {
                assert(0 <= t / (sample_size as int) < q) by (nonlinear_arith)
                    requires
                        0 <= t < q * sample_size,
                ;
                assert(before[t / (sample_size as int)] == groups[t / (sample_size as int)]);
            }
        }
        let mut s: u32 = 0;
        while s < sample_size
            invariant
                s <= sample_size,
                q < g,
                n == df@.len(),
                0 < n <= u32::MAX,
                g == groups.len(),
                key == groups[q as int],
                0 < values@.len() <= u32::MAX,
                values@ == group_qualities(df@, key, n as nat),
                df@[index@[q as int] as int].key() == key,
                index@[q as int] < n,
                g == index@.len(),
                stats@.len() == q * sample_size + s,
                forall|t: int|
                    0 <= t < stats@.len() ==> {
                        &&& (#[trigger] stats@[t]).key() == groups[t / (sample_size as int)]
                        &&& stats@[t].sample_size == t % (sample_size as int) + 1
                        &&& is_least_drawn(
                            group_qualities(df@, groups[t / (sample_size as int)], df@.len()),
                            t % (sample_size as int) + 1,
                            stats@[t].e_min,
                        )
                    },
            decreases sample_size - s,
        {
            let size: u32 = s + 1;
            let (wanted, seed) = sample_request(size);
            let sample = if wanted >= values.len() {
                values.clone()
            } else {
                draw(&values, wanted, false, seed)
            };
            let e_min = match sample_minimum(&sample) {
                Some(least) => least,
                None => 0,
            };
            proof {
                if size < values@.len() {
                    assert(is_draw(sample@, values@, size as int));
                } else {
                    assert(sample@ =~= values@);
                }
                assert(is_least_drawn(values@, size as int, e_min));
            }
            let representative = &df[index[q]];
            proof {
                lemma_fundamental_div_mod_converse(
                    stats@.len() as int,
                    sample_size as int,
                    q as int,
                    s as int,
                );
            }
            stats.push(
                StatRow {
                    instance: representative.instance.clone(),
                    algorithm: representative.algorithm.clone(),
                    sample_size: size,
                    e_min,
                },
            );
            s += 1;
        }
        proof {
            assert((q + 1) * sample_size == q * sample_size + sample_size) by (nonlinear_arith);
            assert(groups.take(q + 1).len() == q + 1);
            let next = groups.take(q + 1);
            assert forall|t: int| 0 <= t < stats@.len() implies {
                &&& (#[trigger] stats@[t]).key() == next[t / (sample_size as int)]
                &&& stats@[t].sample_size == t % (sample_size as int) + 1
                &&& is_least_drawn(
                    group_qualities(df@, next[t / (sample_size as int)], df@.len()),
                    t % (sample_size as int) + 1,
                    stats@[t].e_min,
                )
            } by {
                assert(0 <= t / (sample_size as int) < q + 1) by (nonlinear_arith)
                    requires
                        0 <= t < (q + 1) * sample_size,
                ;
            }
        }
        q += 1;
    }
    proof {
        assert(groups.take(g as int) =~= groups);
    }
    let result: Result<Vec<StatRow>, StatsError> = Ok(stats);
    proof {
        assert(is_stat_table(result->Ok_0@, df@, sample_size as int, groups));
    }
    result
}

/// The sum of the first `n` values.
pub open spec fn total(values: Seq<u64>, n: nat) -> int
    decreases n,
{
    if n == 0 {
        0
    } else {
        total(values, (n - 1) as nat) + values[n - 1]
    }
}

/// The mean of the values, rounded down to the grid.
pub open spec fn mean_quality(values: Seq<u64>) -> int {
    mean(total(values, values.len()), values.len() as int)
}

/// The sum of the squared distances of the first `n` values from `center`.
pub open spec fn squared_deviations(values: Seq<u64>, center: int, n: nat) -> int
    decreases n,
{
    if n == 0 {
        0
    } else {
        squared_deviations(values, center, (n - 1) as nat)
            + (values[n - 1] - center) * (values[n - 1]
            - center)
    }
}

/// The standard deviation of the values, rounded down to the grid: the
/// square root of the sum of the squared distances from the mean over one
/// less than the number of values. Fewer than two values have none, nor have
/// values whose squared distances add up beyond 128 bits; it then counts as
/// zero.
pub open spec fn std_quality(values: Seq<u64>) -> int {
    let spread = squared_deviations(values, mean_quality(values), values.len());
    if values.len() < 2 || spread > u128::MAX {
        0
    } else {
        sqrt_floor(spread / (values.len() - 1))
    }
}

/// Sums of values and of squares grow with the number of values summed.
pub proof fn lemma_totals(values: Seq<u64>, center: int, m: nat, n: nat)
    requires
        m <= n,
    ensures
        0 <= total(values, n) <= n * 0xffff_ffff_ffff_ffff,
        0 <= squared_deviations(values, center, m) <= squared_deviations(values, center, n),
    decreases n,
{
    if n > 0 {
        assert((values[n - 1] - center) * (values[n - 1] - center) >= 0) by (nonlinear_arith);
        if m < n {
            lemma_totals(values, center, m, (n - 1) as nat);
        } else {
            lemma_totals(values, center, (n - 1) as nat, (n - 1) as nat);
        }
    }
}

/// The mean and the standard deviation of qualities, if there are any.
pub fn quality_statistics(values: &Vec<u64>) -> (r: Option<(u64, u64)>)
    ensures
        r is Some <==> values@.len() > 0,
        r is Some ==> r->Some_0.0 == mean_quality(values@) && r->Some_0.1 == std_quality(values@),
{
    let n = values.len();
    if n == 0 {
        return None;
    }
    let mut sum: u128 = 0;
    let mut i: usize = 0;
    while i < n
        invariant
            i <= n,
            n == values@.len(),
            sum == total(values@, i as nat),
        decreases n - i,
    {
        proof {
            lemma_totals(values@, 0, i as nat, i as nat);
            assert((i + 1) * 0xffff_ffff_ffff_ffff <= 0xffff_ffff_ffff_ffff * 0xffff_ffff_ffff_ffff)
                by (nonlinear_arith)
                requires
                    i + 1 <= 0xffff_ffff_ffff_ffff,
            ;
            lemma_totals(values@, 0, (i + 1) as nat, (i + 1) as nat);
        }
        sum = sum + values[i] as u128;
        i += 1;
    }
    proof {
        lemma_totals(values@, 0, n as nat, n as nat);
        lemma_mean_bounded(sum as int, n as int, 0xffff_ffff_ffff_ffff);
    }
    let center: u64 = (sum / (n as u128)) as u64;
    if n < 2 {
        return Some((center, 0));
    }
    let mut spread: u128 = 0;
    i = 0;
    while i < n
        invariant
            i <= n,
            n == values@.len(),
            center == mean_quality(values@),
            spread == squared_deviations(values@, center as int, i as nat),
        decreases n - i,
    {
        let value = values[i];
        let distance: u128 = if value >= center {
            (value - center) as u128
        } else {
            (center - value) as u128
        };
        assert(distance * distance <= 0xffff_ffff_ffff_ffff * 0xffff_ffff_ffff_ffff
            && distance * distance == (value - center) * (value - center)) by (nonlinear_arith)
            requires
                0 <= distance <= 0xffff_ffff_ffff_ffff,
                distance == value - center || distance == center - value,
        ;
        match spread.checked_add(distance * distance) {
            Some(next) => {
                spread = next;
            },
            None => {
                proof {
                    lemma_totals(values@, center as int, (i + 1) as nat, n as nat);
                }
                return Some((center, 0));
            },
        }
        i += 1;
    }
    Some((center, isqrt(spread / ((n - 1) as u128))))
}

/// Among the first `n` lower bounds, the first one for the instance `name`;
/// `-1` if there is none.
pub open spec fn bound_upto(bounds: Seq<InstanceQuality>, name: InstanceId, n: nat) -> int
    decreases n,
{
    if n == 0 {
        -1
    } else {
        let first = bound_upto(bounds, name, (n - 1) as nat);
        if first >= 0 {
            first
        } else if bounds[n - 1].instance@ == name {
            n - 1
        } else {
            -1
        }
    }
}

/// The quality that is known to be reachable on an instance: the first
/// lower bound given for it, and the best quality that a run reached on it
/// where none is given.
pub open spec fn lower_bound_for(bounds: Seq<InstanceQuality>, rows: Seq<RunRecord>,
    name: InstanceId) -> u64 {
    let given = bound_upto(bounds, name, bounds.len());
    if given >= 0 {
        bounds[given].best_quality
    } else {
        rows[best_row(rows, name, false)].quality
    }
}

/// Admits, for every pair and number of replicas, the estimate under the
/// normal approximation: from the mean and the standard deviation of the
/// qualities of the pair, the spread for that many replicas and the lower
/// bound of the instance.
pub open spec fn estimated(rows: Seq<RunRecord>, spreads: Seq<u64>,
    bounds: Seq<InstanceQuality>) -> spec_fn(
    Key,
    int,
    u64,
) -> bool {
    |key: Key, size: int, value: u64|
        {
            let qualities = group_qualities(rows, key, rows.len());
            value == estimate(
                mean_quality(qualities),
                std_quality(qualities),
                spreads[size - 1] as int,
                lower_bound_for(bounds, rows, key.instance) as int,
            )
        }
}

/// Why the expected best qualities could not be estimated from means and
/// standard deviations.
#[derive(Debug, Clone, Copy, PartialEq, Eq)]
pub enum EstimateError {
    /// The table of spreads does not reach the number of replicas.
    MissingSpread,
}

/// Finds the first lower bound given for an instance.
pub fn given_bound(bounds: &Vec<InstanceQuality>, name: &Instance) -> (r: Option<u64>)
    ensures
        match r {
            Some(bound) => bound_upto(bounds@, name@, bounds@.len()) >= 0 && bound
                == bounds@[bound_upto(bounds@, name@, bounds@.len())].best_quality,
            None => bound_upto(bounds@, name@, bounds@.len()) < 0,
        },
{
    let mut i: usize = 0;
    while i < bounds.len()
        invariant
            i <= bounds@.len(),
            bound_upto(bounds@, name@, i as nat) < 0,
        decreases bounds@.len() - i,
    {
        if bounds[i].instance.same_as(name) {
            proof {
                lemma_bound_stays(bounds@, name@, (i + 1) as nat, bounds@.len());
            }
            return Some(bounds[i].best_quality);
        }
        i += 1;
    }
    None
}

/// The first lower bound for an instance stays the first when more bounds
/// follow.
pub proof fn lemma_bound_stays(bounds: Seq<InstanceQuality>, name: InstanceId, m: nat, n: nat)
    requires
        m <= n,
        bound_upto(bounds, name, m) >= 0,
    ensures
        bound_upto(bounds, name, n) == bound_upto(bounds, name, m),
    decreases n,
{
    if m < n {
        lemma_bound_stays(bounds, name, m, (n - 1) as nat);
    }
}

/// Estimates the expected best quality of every algorithm on every instance
/// where it ran, for every number of replicas from 1 to `sample_size`, under
/// the normal approximation: the mean of its qualities on the instance less
/// their standard deviation times the spread for the number of replicas, but
/// not less than the lower bound of the instance. The rows are in ascending
/// order of instance, algorithm and number of replicas.
pub fn stats_by_normal_approximation(
    df: &Vec<RunRecord>,
    sample_size: u32,
    spreads: &SpreadTable,
    lower_bounds: &Vec<InstanceQuality>,
) -> (r: Result<Vec<StatRow>, EstimateError>)
    ensures
        r is Ok <==> sample_size <= spreads@.len(),
        r is Ok ==> exists|groups: Seq<Key>|
            lists_groups(groups, keys(df@)) && #[trigger] is_table_over(
                r->Ok_0@,
                sample_size as int,
                groups,
                estimated(df@, spreads@, lower_bounds@),
            ),
{
    if sample_size as usize > spreads.len() {
        return Err(EstimateError::MissingSpread);
    }
    let n = df.len();
    let ghost ks = keys(df@);
    let ghost accepts = estimated(df@, spreads@, lower_bounds@);
    let index = key_index(df, KeyKind::Group);
    let g = index.len();
    let ghost groups = listed_groups(ks, index@);
    proof {
        lemma_index_lists_groups(ks, index@, groups);
    }
    let place = group_places(df, &index);
    let by_instance = key_index(df, KeyKind::Instance);
    let best = best_rows(df, &by_instance, false);
    let mut stats: Vec<StatRow> = Vec::new();
    let mut q: usize = 0;
    while q < g
        invariant
            q <= g,
            n == df@.len(),
            ks == keys(df@),
            g == index@.len(),
            g == groups.len(),
            sample_size <= spreads@.len(),
            accepts == estimated(df@, spreads@, lower_bounds@),
            is_index(ks, KeyKind::Group, index@),
            is_index(ks, KeyKind::Instance, by_instance@),
            best@.len() == by_instance@.len(),
            forall|i: int|
                0 <= i < by_instance@.len() ==> 0 <= (#[trigger] best@[i]) < df@.len()
                    && best@[i] as int
                    == best_row(df@, df@[by_instance@[i] as int].instance@, false),
            groups == listed_groups(ks, index@),
            place@.len() == n,
            forall|x: int|
                0 <= x < n ==> (#[trigger] place@[x]) < g && key_eq(
                    KeyKind::Group,
                    ks[x],
                    ks[index@[place@[x] as int] as int],
                ),
            is_table_over(stats@, sample_size as int, groups.take(q as int), accepts),
        decreases g - q,
    {
        let ghost key = groups[q as int];
        let values = bucket(df, &index, &place, q);
        let (center, deviation) = match quality_statistics(&values) {
            Some(statistics) => statistics,
            None => (0, 0),
        };
        let representative = &df[index[q]];
        proof {
            assert(ks[index@[q as int] as int] == df@[index@[q as int] as int].key());
        }
        let bound = match given_bound(lower_bounds, &representative.instance) {
            Some(bound) => bound,
            None => match find(df, KeyKind::Instance, &by_instance, representative) {
                Some(i) => {
                    proof {
                        assert(ks[by_instance@[i as int] as int]
                            == df@[by_instance@[i as int] as int].key());
                    }
                    df[best[i]].quality
                },
                None => {
                    proof {
                        assert(key_eq(
                            KeyKind::Instance,
                            ks[index@[q as int] as int],
                            representative.key(),
                        ));
                    }
                    0
                },
            },
        };
        assert(bound == lower_bound_for(lower_bounds@, df@, key.instance));
        proof {
            let before = groups.take(q as int);
            assert forall|t: int| 0 <= t < stats@.len() implies {
                &&& (#[trigger] stats@[t]).key() == groups[t / (sample_size as int)]
                &&& stats@[t].sample_size == t % (sample_size as int) + 1
                &&& accepts(groups[t / (sample_size as int)], t % (sample_size as int) + 1,
                    stats@[t].e_min)
            } by {
                assert(0 <= t / (sample_size as int) < q) by (nonlinear_arith)
                    requires
                        0 <= t < q * sample_size,
                ;
                assert(before[t / (sample_size as int)] == groups[t / (sample_size as int)]);
            }
        }
        let mut s: u32 = 0;
        while s < sample_size
            invariant
                s <= sample_size,
                q < g,
                n == df@.len(),
                g == groups.len(),
                key == groups[q as int],
                sample_size <= spreads@.len(),
                accepts == estimated(df@, spreads@, lower_bounds@),
                values@ == group_qualities(df@, key, n as nat),
                center == mean_quality(values@),
                deviation == std_quality(values@),
                bound == lower_bound_for(lower_bounds@, df@, key.instance),
                df@[index@[q as int] as int].key() == key,
                index@[q as int] < n,
                g == index@.len(),
                stats@.len() == q * sample_size + s,
                forall|t: int|
                    0 <= t < stats@.len() ==> {
                        &&& (#[trigger] stats@[t]).key() == groups[t / (sample_size as int)]
                        &&& stats@[t].sample_size == t % (sample_size as int) + 1
                        &&& accepts(
                            groups[t / (sample_size as int)],
                            t % (sample_size as int) + 1,
                            stats@[t].e_min,
                        )
                    },
            decreases sample_size - s,
        {
            let size: u32 = s + 1;
            let spread = match spreads.spread(size) {
                Some(spread) => spread,
                None => 0,
            };
            let e_min = expected_min_with_spread(center, deviation, spread, bound);
            let representative = &df[index[q]];
            proof {
                lemma_fundamental_div_mod_converse(
                    stats@.len() as int,
                    sample_size as int,
                    q as int,
                    s as int,
                );
                assert(accepts(key, size as int, e_min));
            }
            stats.push(
                StatRow {
                    instance: representative.instance.clone(),
                    algorithm: representative.algorithm.clone(),
                    sample_size: size,
                    e_min,
                },
            );
            s += 1;
        }
        proof {
            assert((q + 1) * sample_size == q * sample_size + sample_size) by (nonlinear_arith);
            assert(groups.take(q + 1).len() == q + 1);
            let next = groups.take(q + 1);
            assert forall|t: int| 0 <= t < stats@.len() implies {
                &&& (#[trigger] stats@[t]).key() == next[t / (sample_size as int)]
                &&& stats@[t].sample_size == t % (sample_size as int) + 1
                &&& accepts(next[t / (sample_size as int)], t % (sample_size as int) + 1,
                    stats@[t].e_min)
            } by {
                assert(0 <= t / (sample_size as int) < q + 1) by (nonlinear_arith)
                    requires
                        0 <= t < (q + 1) * sample_size,
                ;
            }
        }
        q += 1;
    }
    proof {
        assert(groups.take(g as int) =~= groups);
    }
    let result: Result<Vec<StatRow>, EstimateError> = Ok(stats);
    proof {
        assert(is_table_over(result->Ok_0@, sample_size as int, groups, accepts));
    }
    result
}

} // verus!
