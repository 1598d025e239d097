//! Simulation of the execution of a portfolio from observed runs.
//!
//! A portfolio runs every algorithm as often as it has replicas of it, and
//! keeps the best result. Its execution on an instance is simulated by
//! drawing, for every algorithm, that many of the observed runs of the
//! algorithm on the instance.
use vstd::prelude::*;
use vstd::string::StringExecFns;
use crate::csv_parser::utils::{best_row, best_rows, lemma_best_row};
use crate::datastructures::{Algorithm, AlgorithmId, Instance, InstanceId, Portfolio};
use crate::random::random_bits;
use crate::sampling::draw;
use crate::tensor::AlgorithmArray;
use crate::table::{
    find, instance_list, is_index, key_eq, key_index, keys, lemma_index_lists_instances,
    lemma_instance_list, lemma_key_order, lists_instances, Key, KeyKind, Keyed, RunRecord,
};

verus! {

/// A run that takes part in a simulation, with the seed of the simulation.
#[derive(Debug, PartialEq, Eq)]
pub struct SampledRun {
    /// The run
    pub run: RunRecord,
    /// The seed of the simulation
    pub seed: u64,
}

impl Clone for SampledRun {
    fn clone(&self) -> (r: Self)
        ensures
            r == *self,
    {
        SampledRun { run: self.run.clone(), seed: self.seed }
    }
}

impl Keyed for SampledRun {
    open spec fn key(&self) -> Key {
        self.run.key()
    }

    fn instance_of(&self) -> (r: &Instance) {
        &self.run.instance
    }

    fn algorithm_of(&self) -> (r: &Algorithm) {
        &self.run.algorithm
    }
}

/// Why a portfolio could not be simulated.
#[derive(Debug, Clone, Copy, PartialEq, Eq)]
pub enum SimulationError {
    /// The table has more rows than can be sampled from.
    TooManyRows,
    /// The portfolio has more replicas of an algorithm than can be drawn.
    TooManyReplicas,
}

/// The rows among the first `n` that are runs of the pair `key`, in their
/// order.
pub open spec fn group_members(df: Seq<RunRecord>, key: Key, n: nat) -> Seq<u64>
    decreases n,
{
    if n == 0 {
        Seq::empty()
    } else {
        let front = group_members(df, key, (n - 1) as nat);
        if key_eq(KeyKind::Group, df[n - 1].key(), key) {
            front.push((n - 1) as u64)
        } else {
            front
        }
    }
}

/// Whether the algorithm of `key` ran on the instance of `key`.
pub open spec fn has_runs(df: Seq<RunRecord>, key: Key) -> bool {
    group_members(df, key, df.len()).len() > 0
}

/// The members of a pair are rows of that pair.
pub proof fn lemma_group_members(df: Seq<RunRecord>, key: Key, n: nat)
    requires
        n <= df.len(),
        n <= u64::MAX,
    ensures
        group_members(df, key, n).len() <= n,
        forall|x: int|
            0 <= x < group_members(df, key, n).len() ==> (#[trigger] group_members(df, key,
                n)[x]) < n
                && df[group_members(df, key, n)[x] as int].key() == key,
    decreases n,
{
    if n > 0 {
        lemma_group_members(df, key, (n - 1) as nat);
        if key_eq(KeyKind::Group, df[n - 1].key(), key) {
            assert(df[n - 1].key().instance == key.instance);
            assert(df[n - 1].key().algorithm == key.algorithm);
        }
    }
}

/// `count` times the pair `key`.
pub open spec fn block(key: Key, count: nat) -> Seq<Key> {
    Seq::new(count, |i: int| key)
}

/// What the replicas of one algorithm draw from: for each of the first `n`
/// instances in `names` on which the algorithm ran, `replicas` times the
/// pair of that instance and the algorithm.
pub open spec fn assignment_keys(
    df: Seq<RunRecord>,
    names: Seq<InstanceId>,
    id: AlgorithmId,
    replicas: nat,
    n: nat,
) -> Seq<Key>
    decreases n,
{
    if n == 0 {
        Seq::empty()
    } else {
        let front = assignment_keys(df, names, id, replicas, (n - 1) as nat);
        let key = Key { instance: names[n - 1], algorithm: id };
        if has_runs(df, key) {
            front + block(key, replicas)
        } else {
            front
        }
    }
}

/// What the first `a` assignments of a portfolio draw from, in turn, each
/// over the instances of the table in ascending order.
pub open spec fn simulation_keys(df: Seq<RunRecord>, assignments: Seq<(Algorithm, u64)>, a: nat)
    -> Seq<Key>
    decreases a,
{
    if a == 0 {
        Seq::empty()
    } else {
        simulation_keys(df, assignments, (a - 1) as nat) + assignment_keys(
            df,
            instance_list(keys(df)),
            assignments[a - 1].0@,
            assignments[a - 1].1 as nat,
            instance_list(keys(df)).len(),
        )
    }
}

/// `samples` holds, for the pairs in `drawn_from` in turn, a run of that pair
/// from the table, tagged with the seed.
pub open spec fn draws_from(samples: Seq<SampledRun>, df: Seq<RunRecord>, drawn_from: Seq<Key>,
    seed: u64) -> bool {
    &&& samples.len() == drawn_from.len()
    &&& forall|x: int|
        0 <= x < samples.len() ==> {
            &&& (#[trigger] samples[x]).seed == seed
            &&& samples[x].run.key() == drawn_from[x]
            &&& df.contains(samples[x].run)
        }
}

/// Simulates one execution of a portfolio: for every assignment in turn and
/// every instance, in ascending order, on which the algorithm ran, as many
/// runs of the algorithm on the instance as it has replicas, drawn with
/// replacement by a generator seeded with `seed`.
pub fn simulate(df: &Vec<RunRecord>, portfolio: &Portfolio, seed: u64) -> (r: Result<
    Vec<SampledRun>,
    SimulationError,
>)
    ensures
        r is Ok ==> draws_from(
            r->Ok_0@,
            df@,
            simulation_keys(
                df@,
                portfolio.resource_assignments@,
                portfolio.resource_assignments@.len(),
            ),
            seed,
        ),
        r == Err::<Vec<SampledRun>, SimulationError>(SimulationError::TooManyRows) <==> df@.len()
            > u32::MAX,
        r == Err::<Vec<SampledRun>, SimulationError>(SimulationError::TooManyReplicas)
            <==> df@.len()
            <= u32::MAX && exists|a: int|
            0 <= a < portfolio.resource_assignments@.len()
                && (#[trigger] portfolio.resource_assignments@[a]).1 > u32::MAX,
{
    let n = df.len();
    if n > u32::MAX as usize {
        return Err(SimulationError::TooManyRows);
    }
    let assignments = &portfolio.resource_assignments;
    let mut a: usize = 0;
    while a < assignments.len()
        invariant
            a <= assignments@.len(),
            n == df@.len(),
            n <= u32::MAX,
            assignments@ == portfolio.resource_assignments@,
            forall|x: int| 0 <= x < a ==> (#[trigger] assignments@[x]).1 <= u32::MAX,
        decreases assignments@.len() - a,
    {
        if assignments[a].1 > u32::MAX as u64 {
            return Err(SimulationError::TooManyReplicas);
        }
        a += 1;
    }
    let ghost ks = keys(df@);
    let by_instance = key_index(df, KeyKind::Instance);
    let m = by_instance.len();
    let ghost names = Seq::new(m as nat, |i: int| ks[by_instance@[i] as int].instance);
    proof {
        lemma_index_lists_instances(ks, by_instance@, names);
        lemma_instance_list(names, ks);
    }
    let mut samples: Vec<SampledRun> = Vec::new();
    let ghost mut drawn_from: Seq<Key> = Seq::empty();
    a = 0;
    while a < assignments.len()
        invariant
            a <= assignments@.len(),
            n == df@.len(),
            n <= u32::MAX,
            ks == keys(df@),
            m == by_instance@.len(),
            is_index(ks, KeyKind::Instance, by_instance@),
            names == Seq::new(m as nat, |i: int| ks[by_instance@[i] as int].instance),
            names == instance_list(ks),
            assignments@ == portfolio.resource_assignments@,
            forall|x: int| 0 <= x < assignments@.len()
                ==> (#[trigger] assignments@[x]).1 <= u32::MAX,
            drawn_from == simulation_keys(df@, assignments@, a as nat),
            draws_from(samples@, df@, drawn_from, seed),
        decreases assignments@.len() - a,
    {
        let algorithm = &assignments[a].0;
        let replicas: usize = assignments[a].1 as usize;
        let ghost id = algorithm@;
        let ghost before = drawn_from;
        // the place of the instance of every run of the algorithm
        let mut place: Vec<usize> = Vec::new();
        let mut row: usize = 0;
        while row < n
            invariant
                row <= n,
                n == df@.len(),
                ks == keys(df@),
                m == by_instance@.len(),
                is_index(ks, KeyKind::Instance, by_instance@),
                id == algorithm@,
                place@.len() == row,
                forall|x: int|
                    0 <= x < row ==> (if df@[x].algorithm@ == id {
                        (#[trigger] place@[x]) < m
                            && ks[by_instance@[place@[x] as int] as int].instance
                            == df@[x].instance@
                    } else {
                        place@[x] == m
                    }),
            decreases n - row,
        {
            proof {
                assert(ks[row as int] == df@[row as int].key());
            }
            if df[row].algorithm.same_as(algorithm) {
                match find(df, KeyKind::Instance, &by_instance, &df[row]) {
                    None => {
                        proof {
                            assert(key_eq(KeyKind::Instance, ks[row as int],
                                df@[row as int].key()));
                        }
                        place.push(0);
                    },
                    Some(q) => {
                        place.push(q);
                    },
                }
            } else {
                place.push(m);
            }
            row += 1;
        }
        let mut q: usize = 0;
        while q < m
            invariant
                q <= m,
                n == df@.len(),
                n <= u32::MAX,
                replicas <= u32::MAX,
                a < assignments@.len(),
                id == assignments@[a as int].0@,
                replicas == assignments@[a as int].1,
                names == instance_list(ks),
                assignments@ == portfolio.resource_assignments@,
                forall|x: int|
                    0 <= x < assignments@.len() ==> (#[trigger] assignments@[x]).1 <= u32::MAX,
                ks == keys(df@),
                m == by_instance@.len(),
                m == names.len(),
                is_index(ks, KeyKind::Instance, by_instance@),
                names == Seq::new(m as nat, |i: int| ks[by_instance@[i] as int].instance),
                place@.len() == n,
                forall|x: int|
                    0 <= x < n ==> (if df@[x].algorithm@ == id {
                        (#[trigger] place@[x]) < m
                            && ks[by_instance@[place@[x] as int] as int].instance
                            == df@[x].instance@
                    } else {
                        place@[x] == m
                    }),
                drawn_from == before + assignment_keys(df@, names, id, replicas as nat, q as nat),
                draws_from(samples@, df@, drawn_from, seed),
            decreases m - q,
        {
            let ghost key = Key { instance: names[q as int], algorithm: id };
            let mut members: Vec<u64> = Vec::new();
            let mut x: usize = 0;
            while x < n
                invariant
                    x <= n,
                    q < m,
                    n == df@.len(),
                    n <= u32::MAX,
                    ks == keys(df@),
                    m == by_instance@.len(),
                    is_index(ks, KeyKind::Instance, by_instance@),
                    names == Seq::new(m as nat, |i: int| ks[by_instance@[i] as int].instance),
                    key == (Key { instance: names[q as int], algorithm: id }),
                    place@.len() == n,
                    forall|y: int|
                        0 <= y < n ==> (if df@[y].algorithm@ == id {
                            (#[trigger] place@[y]) < m
                                && ks[by_instance@[place@[y] as int] as int].instance
                                == df@[y].instance@
                        } else {
                            place@[y] == m
                        }),
                    members@ == group_members(df@, key, x as nat),
                decreases n - x,
            {
                proof {
                    let other = place@[x as int];
                    if other < m && other != q {
                        if other < q {
                            lemma_key_order(
                                KeyKind::Instance,
                                ks[by_instance@[other as int] as int],
                                ks[by_instance@[q as int] as int],
                                ks[by_instance@[q as int] as int],
                            );
                        } else {
                            lemma_key_order(
                                KeyKind::Instance,
                                ks[by_instance@[q as int] as int],
                                ks[by_instance@[other as int] as int],
                                ks[by_instance@[other as int] as int],
                            );
                        }
                    }
                }
                if place[x] == q {
                    members.push(x as u64);
                }
                x += 1;
            }
            let ghost prefix = drawn_from;
            if members.len() > 0 && replicas > 0 {
                proof {
                    lemma_group_members(df@, key, n as nat);
                }
                let sample = draw(&members, replicas, true, seed);
                let mut j: usize = 0;
                while j < replicas
                    invariant
                        j <= replicas,
                        n == df@.len(),
                        sample@.len() == replicas,
                        forall|y: int| 0 <= y < replicas
                            ==> members@.contains(#[trigger] sample@[y]),
                        forall|y: int|
                            0 <= y < members@.len() ==> (#[trigger] members@[y]) < n
                                && df@[members@[y] as int].key() == key,
                        drawn_from == prefix + block(key, j as nat),
                        draws_from(samples@, df@, drawn_from, seed),
                    decreases replicas - j,
                {
                    let picked = sample[j] as usize;
                    proof {
                        assert(members@.contains(sample@[j as int]));
                        let y = choose|y: int| 0 <= y < members@.len() && members@[y]
                            == sample@[j as int];
                        assert(members@[y] < n);
                        assert(df@.contains(df@[picked as int]));
                        assert(block(key, (j + 1) as nat) =~= block(key, j as nat).push(key));
                        assert(prefix + block(key, (j + 1) as nat) =~= (prefix + block(key,
                            j as nat)).push(
                            key,
                        ));
                        drawn_from = drawn_from.push(key);
                    }
                    samples.push(SampledRun { run: df[picked].clone(), seed });
                    j += 1;
                }
            } else {
                proof {
                    assert(block(key, 0) =~= Seq::<Key>::empty());
                    assert(prefix + block(key, 0) =~= prefix);
                }
            }
            proof {
                let front = assignment_keys(df@, names, id, replicas as nat, q as nat);
                assert((before + front) + block(key, replicas as nat) =~= before + (front + block(
                    key,
                    replicas as nat,
                )));
            }
            q += 1;
        }
        a += 1;
    }
    Ok(samples)
}

/// The runs of a table of samples.
pub open spec fn runs_of(samples: Seq<SampledRun>) -> Seq<RunRecord> {
    Seq::new(samples.len(), |i: int| samples[i].run)
}

/// The longest running time among the runs of the instance `name` among the
/// first `n` rows; zero if there is none.
pub open spec fn longest_time(runs: Seq<RunRecord>, name: InstanceId, n: nat) -> u64
    decreases n,
{
    if n == 0 {
        0
    } else {
        let longest = longest_time(runs, name, (n - 1) as nat);
        if runs[n - 1].instance@ == name && runs[n - 1].time > longest {
            runs[n - 1].time
        } else {
            longest
        }
    }
}

/// The largest logarithmic running time among the runs of the instance
/// `name` among the first `n` rows; the least value if there is none.
pub open spec fn longest_log_time(runs: Seq<RunRecord>, name: InstanceId, n: nat) -> i32
    decreases n,
{
    if n == 0 {
        i32::MIN
    } else {
        let longest = longest_log_time(runs, name, (n - 1) as nat);
        if runs[n - 1].instance@ == name && runs[n - 1].log_time > longest {
            runs[n - 1].log_time
        } else {
            longest
        }
    }
}

/// `row` is the run of a portfolio called `name` on `num_cores` cores that
/// the sampled runs of one instance amount to: the portfolio is as good as
/// the best of them and takes as long as the longest; everything else is as
/// in the best of them, the first of several.
pub open spec fn summarizes(row: SampledRun, samples: Seq<SampledRun>, name: Seq<char>,
    num_cores: u32) -> bool {
    let runs = runs_of(samples);
    let instance = row.run.instance@;
    let best = best_row(runs, instance, false);
    &&& row.run.algorithm@ == (AlgorithmId { name, threads: num_cores })
    &&& 0 <= best < samples.len()
    &&& row.run.quality == runs[best].quality
    &&& row.run.time == longest_time(runs, instance, runs.len())
    &&& row.run.log_time == longest_log_time(runs, instance, runs.len())
    &&& row.run.valid == runs[best].valid
    &&& row.seed == samples[best].seed
}

/// The instances named by the rows of a result.
pub open spec fn sampled_instances(rows: Seq<SampledRun>) -> Seq<InstanceId> {
    Seq::new(rows.len(), |i: int| rows[i].run.instance@)
}

/// The run of the portfolio `algorithm` on `num_cores` cores on every
/// instance of the samples, in ascending order of the instances.
pub fn portfolio_run_from_samples(df: &Vec<SampledRun>, num_cores: u32, algorithm: &str)
    -> (rows: Vec<SampledRun>)
    ensures
        lists_instances(sampled_instances(rows@), keys(df@)),
        forall|i: int| 0 <= i < rows@.len() ==> summarizes(#[trigger] rows@[i], df@, algorithm@,
            num_cores),
{
    let n = df.len();
    let mut runs: Vec<RunRecord> = Vec::new();
    let mut i: usize = 0;
    while i < n
        invariant
            i <= n,
            n == df@.len(),
            runs@.len() == i,
            forall|x: int| 0 <= x < i ==> #[trigger] runs@[x] == df@[x].run,
        decreases n - i,
    {
        runs.push(df[i].run.clone());
        i += 1;
    }
    proof {
        assert(runs@ =~= runs_of(df@));
        assert(keys(runs@) =~= keys(df@));
    }
    let ghost ks = keys(runs@);
    let index = key_index(&runs, KeyKind::Instance);
    let best = best_rows(&runs, &index, false);
    let m = index.len();
    let mut times: Vec<u64> = vec![0; m];
    let mut log_times: Vec<i32> = vec![i32::MIN; m];
    let mut row: usize = 0;
    while row < n
        invariant
            row <= n,
            n == runs@.len(),
            ks == keys(runs@),
            m == index@.len(),
            is_index(ks, KeyKind::Instance, index@),
            times@.len() == m,
            log_times@.len() == m,
            forall|q: int|
                0 <= q < m ==> #[trigger] times@[q] == longest_time(
                    runs@,
                    runs@[index@[q] as int].instance@,
                    row as nat,
                ),
            forall|q: int|
                0 <= q < m ==> #[trigger] log_times@[q] == longest_log_time(
                    runs@,
                    runs@[index@[q] as int].instance@,
                    row as nat,
                ),
        decreases n - row,
    {
        let ghost times_before = times@;
        let ghost log_times_before = log_times@;
        let ghost done = row as nat;
        proof {
            assert(ks[row as int] == runs@[row as int].key());
        }
        match find(&runs, KeyKind::Instance, &index, &runs[row]) {
            None => {
                proof {
                    assert(key_eq(KeyKind::Instance, ks[row as int], runs@[row as int].key()));
                }
            },
            Some(q) => {
                proof {
                    assert(ks[index@[q as int] as int] == runs@[index@[q as int] as int].key());
                }
                if runs[row].time > times[q] {
                    times.set(q, runs[row].time);
                }
                if runs[row].log_time > log_times[q] {
                    log_times.set(q, runs[row].log_time);
                }
                proof {
                    assert forall|other: int| 0 <= other < m && other != q
                        implies runs@[index@[other] as int].instance@
                        != runs@[done as int].instance@ by {
                        assert(ks[index@[other] as int] == runs@[index@[other] as int].key());
                        if other < q {
                            lemma_key_order(
                                KeyKind::Instance,
                                ks[index@[other] as int],
                                ks[index@[q as int] as int],
                                ks[index@[q as int] as int],
                            );
                        } else {
                            lemma_key_order(
                                KeyKind::Instance,
                                ks[index@[q as int] as int],
                                ks[index@[other] as int],
                                ks[index@[other] as int],
                            );
                        }
                    }
                }
            },
        }
        row += 1;
        proof {
            assert forall|q: int| 0 <= q < m implies #[trigger] times@[q] == longest_time(
                runs@,
                runs@[index@[q] as int].instance@,
                row as nat,
            ) by {
                assert(times_before[q] == longest_time(runs@, runs@[index@[q] as int].instance@,
                    done));
            }
            assert forall|q: int| 0 <= q < m implies #[trigger] log_times@[q] == longest_log_time(
                runs@,
                runs@[index@[q] as int].instance@,
                row as nat,
            ) by {
                assert(log_times_before[q] == longest_log_time(
                    runs@,
                    runs@[index@[q] as int].instance@,
                    done,
                ));
            }
        }
    }
    let mut rows: Vec<SampledRun> = Vec::new();
    let mut q: usize = 0;
    while q < m
        invariant
            q <= m,
            n == runs@.len(),
            n == df@.len(),
            runs@ == runs_of(df@),
            ks == keys(runs@),
            m == index@.len(),
            is_index(ks, KeyKind::Instance, index@),
            best@.len() == m,
            forall|i: int|
                0 <= i < m ==> 0 <= (#[trigger] best@[i]) < n && best@[i] as int == best_row(
                    runs@,
                    runs@[index@[i] as int].instance@,
                    false,
                ),
            times@.len() == m,
            log_times@.len() == m,
            forall|i: int|
                0 <= i < m ==> #[trigger] times@[i] == longest_time(
                    runs@,
                    runs@[index@[i] as int].instance@,
                    n as nat,
                ),
            forall|i: int|
                0 <= i < m ==> #[trigger] log_times@[i] == longest_log_time(
                    runs@,
                    runs@[index@[i] as int].instance@,
                    n as nat,
                ),
            rows@.len() == q,
            forall|i: int|
                0 <= i < q ==> (#[trigger] rows@[i]).run.instance@
                    == runs@[index@[i] as int].instance@
                    && summarizes(rows@[i], df@, algorithm@, num_cores),
        decreases m - q,
    {
        let winner = &df[best[q]];
        proof {
            assert(runs@[best@[q as int] as int] == df@[best@[q as int] as int].run);
        }
        rows.push(
            SampledRun {
                run: RunRecord {
                    algorithm: Algorithm::new(String::from_str(algorithm), num_cores),
                    instance: runs[index[q]].instance.clone(),
                    quality: winner.run.quality,
                    time: times[q],
                    log_time: log_times[q],
                    valid: winner.run.valid,
                },
                seed: winner.seed,
            },
        );
        q += 1;
    }
    proof {
        let names = sampled_instances(rows@);
        assert forall|i: int| 0 <= i < index@.len() implies #[trigger] names[i]
            == ks[index@[i] as int].instance by {
            assert(rows@[i].run.instance@ == runs@[index@[i] as int].instance@);
        }
        lemma_index_lists_instances(ks, index@, names);
    }
    rows
}

/// The number of replicas of an algorithm with `threads` threads that stand
/// for `num_cores` cores: the quotient, rounded up or down at random so that
/// the expected number is the quotient. The upper 53 bits of `draw` decide:
/// as a fraction of one they round down if they are at least the fractional
/// part of the quotient.
pub open spec fn rounded_replicas(num_cores: u32, threads: u32, draw: u64) -> int {
    let whole = num_cores as int / threads as int;
    let rest = num_cores as int % threads as int;
    if (draw as int / 2048) * threads >= rest * 0x20_0000_0000_0000 {
        whole
    } else {
        whole + 1
    }
}

/// Rounds the number of replicas that fit into `num_cores` cores by the
/// random bits `draw`.
pub fn replicas_for(num_cores: u32, threads: u32, draw: u64) -> (replicas: u64)
    requires
        threads >= 1,
    ensures
        replicas == rounded_replicas(num_cores, threads, draw),
        num_cores / threads <= replicas <= num_cores / threads + 1,
        num_cores % threads == 0 ==> replicas == num_cores / threads,
{
    let whole: u64 = (num_cores / threads) as u64;
    let rest: u128 = (num_cores % threads) as u128;
    let fraction: u128 = (draw / 2048) as u128;
    assert(fraction * threads <= 0xffff_ffff_ffff_ffff * 0xffff_ffff) by (nonlinear_arith)
        requires
            0 <= fraction <= 0xffff_ffff_ffff_ffff,
            0 <= threads <= 0xffff_ffff,
    ;
    assert(fraction * threads >= 0) by (nonlinear_arith)
        requires
            fraction >= 0,
            threads >= 0,
    ;
    if fraction * (threads as u128) >= rest * 0x20_0000_0000_0000 {
        whole
    } else {
        whole + 1
    }
}

/// `row` is a run of a portfolio called `name` on `num_cores` cores in one of
/// `num_seeds` simulations: its seed is one of theirs, and its quality is one
/// that a run of the table reached on the instance.
pub open spec fn is_portfolio_run(
    row: SampledRun,
    df: Seq<RunRecord>,
    name: Seq<char>,
    num_cores: u32,
    num_seeds: u32,
) -> bool {
    &&& row.run.algorithm@ == (AlgorithmId { name, threads: num_cores })
    &&& row.seed < num_seeds
    &&& exists|r: int|
        0 <= r < df.len() && (#[trigger] df[r]).instance@ == row.run.instance@ && df[r].quality
            == row.run.quality
}

/// `row` is a run of one of the algorithms with at least one and at most
/// `num_cores` threads as a portfolio of its own.
pub open spec fn runs_alone(
    row: SampledRun,
    df: Seq<RunRecord>,
    algorithms: Seq<Algorithm>,
    num_cores: u32,
    num_seeds: u32,
) -> bool {
    exists|a: int|
        0 <= a < algorithms.len() && 1 <= algorithms[a].num_threads <= num_cores
            && #[trigger] is_portfolio_run(row, df, algorithms[a].label(), num_cores, num_seeds)
}

/// `row` is a run of one of the portfolios that assign anything.
pub open spec fn runs_listed(
    row: SampledRun,
    df: Seq<RunRecord>,
    portfolios: Seq<Portfolio>,
    num_cores: u32,
    num_seeds: u32,
) -> bool {
    exists|p: int|
        0 <= p < portfolios.len() && portfolios[p].resource_assignments@.len() > 0
            && #[trigger] is_portfolio_run(row, df, portfolios[p].name@, num_cores, num_seeds)
}

/// `row` is a run of one of the portfolios that assign anything, or of one
/// of the algorithms as a portfolio of its own.
pub open spec fn is_simulated_run(
    row: SampledRun,
    df: Seq<RunRecord>,
    portfolios: Seq<Portfolio>,
    algorithms: Seq<Algorithm>,
    num_cores: u32,
    num_seeds: u32,
) -> bool {
    runs_listed(row, df, portfolios, num_cores, num_seeds) || runs_alone(
        row,
        df,
        algorithms,
        num_cores,
        num_seeds,
    )
}

/// The rows of the first `n` blocks, one block after the other.
pub open spec fn joined(blocks: Seq<Seq<SampledRun>>, n: nat) -> Seq<SampledRun>
    decreases n,
{
    if n == 0 {
        Seq::empty()
    } else {
        joined(blocks, (n - 1) as nat) + blocks[n - 1]
    }
}

/// One more block changes nothing of what the blocks before it join to.
pub proof fn lemma_joined_push(blocks: Seq<Seq<SampledRun>>, next: Seq<SampledRun>, n: nat)
    requires
        n <= blocks.len(),
    ensures
        joined(blocks.push(next), n) == joined(blocks, n),
    decreases n,
{
    if n > 0 {
        lemma_joined_push(blocks, next, (n - 1) as nat);
        assert(blocks.push(next)[n - 1] == blocks[n - 1]);
    }
}

/// `rows` is what the sampled runs amount to for a portfolio called `name`
/// on `num_cores` cores: one run of the portfolio for every instance of the
/// samples, in ascending order of the instances.
pub open spec fn is_summary(
    rows: Seq<SampledRun>,
    samples: Seq<SampledRun>,
    name: Seq<char>,
    num_cores: u32,
) -> bool {
    &&& lists_instances(sampled_instances(rows), keys(samples))
    &&& forall|i: int|
        0 <= i < rows.len() ==> summarizes(#[trigger] rows[i], samples, name, num_cores)
}

/// Whether the assignments cannot be simulated on the table at all: the
/// table has more rows, or an assignment more replicas, than can be drawn.
pub open spec fn beyond_sampling(df: Seq<RunRecord>, assignments: Seq<(Algorithm, u64)>) -> bool {
    df.len() > u32::MAX || exists|a: int|
        0 <= a < assignments.len() && (#[trigger] assignments[a]).1 > u32::MAX
}

/// `block` is what the simulation with the seed `seed` contributes. Where
/// the assignments can be simulated, the simulation is made, with the samples
/// `outcome`: these are drawn as the assignments ask and the block is what
/// they amount to. Where they cannot, no simulation is made and the block is
/// empty.
pub open spec fn is_block(
    block: Seq<SampledRun>,
    outcome: Option<Seq<SampledRun>>,
    df: Seq<RunRecord>,
    name: Seq<char>,
    assignments: Seq<(Algorithm, u64)>,
    seed: u64,
    num_cores: u32,
) -> bool {
    match outcome {
        Some(samples) => {
            &&& !beyond_sampling(df, assignments)
            &&& draws_from(
                samples,
                df,
                simulation_keys(df, assignments, assignments.len()),
                seed,
            )
            &&& is_summary(block, samples, name, num_cores)
        },
        None => block.len() == 0 && beyond_sampling(df, assignments),
    }
}

/// `rows` holds the executions of a portfolio with the seeds `0, 1, ...` up
/// to `num_seeds`, one after the other: `blocks` are their contributions and
/// `outcomes` the samples of the simulations that were made.
pub open spec fn is_execution(
    rows: Seq<SampledRun>,
    df: Seq<RunRecord>,
    name: Seq<char>,
    assignments: Seq<(Algorithm, u64)>,
    num_seeds: u32,
    num_cores: u32,
    blocks: Seq<Seq<SampledRun>>,
    outcomes: Seq<Option<Seq<SampledRun>>>,
) -> bool {
    &&& blocks.len() == num_seeds
    &&& outcomes.len() == num_seeds
    &&& rows == joined(blocks, num_seeds as nat)
    &&& forall|s: int|
        0 <= s < num_seeds ==> #[trigger] is_block(
            blocks[s],
            outcomes[s],
            df,
            name,
            assignments,
            s as u64,
            num_cores,
        )
}

/// `rows` holds `num_seeds` executions of the portfolio called `name` with
/// the given assignments, simulated on the table with the seeds `0, 1, ...`.
pub open spec fn executes(
    rows: Seq<SampledRun>,
    df: Seq<RunRecord>,
    name: Seq<char>,
    assignments: Seq<(Algorithm, u64)>,
    num_seeds: u32,
    num_cores: u32,
) -> bool {
    exists|blocks: Seq<Seq<SampledRun>>, outcomes: Seq<Option<Seq<SampledRun>>>|
        #[trigger] is_execution(
            rows,
            df,
            name,
            assignments,
            num_seeds,
            num_cores,
            blocks,
            outcomes,
        )
}

/// Whether an algorithm is simulated as a portfolio of its own on
/// `num_cores` cores: it has at least one thread and at most that many.
pub open spec fn runs_on(algorithm: Algorithm, num_cores: u32) -> bool {
    1 <= algorithm.num_threads <= num_cores
}

/// The assignments of the portfolio that an algorithm is on its own: as many
/// replicas as fit into `num_cores` cores, rounded by the random bits `draw`.
pub open spec fn on_its_own(algorithm: Algorithm, num_cores: u32, draw: u64) -> Seq<
    (Algorithm, u64),
> {
    seq![(algorithm, rounded_replicas(num_cores, algorithm.num_threads, draw) as u64)]
}

/// `part` is what an algorithm contributes as a portfolio of its own, with
/// the random bits `draw`: the executions of that portfolio, called as the
/// algorithm is written, or nothing if the algorithm is not simulated.
pub open spec fn is_part_alone(
    part: Seq<SampledRun>,
    df: Seq<RunRecord>,
    algorithm: Algorithm,
    draw: u64,
    num_seeds: u32,
    num_cores: u32,
) -> bool {
    if runs_on(algorithm, num_cores) {
        executes(
            part,
            df,
            algorithm.label(),
            on_its_own(algorithm, num_cores, draw),
            num_seeds,
            num_cores,
        )
    } else {
        part.len() == 0
    }
}

/// `rows` holds what the algorithms contribute as portfolios of their own,
/// in their order: `parts` are the contributions and `draws` the random bits
/// that round their replicas.
pub open spec fn is_execution_alone(
    rows: Seq<SampledRun>,
    df: Seq<RunRecord>,
    algorithms: Seq<Algorithm>,
    num_seeds: u32,
    num_cores: u32,
    parts: Seq<Seq<SampledRun>>,
    draws: Seq<u64>,
) -> bool {
    &&& parts.len() == algorithms.len()
    &&& draws.len() == algorithms.len()
    &&& rows == joined(parts, algorithms.len())
    &&& forall|a: int|
        0 <= a < algorithms.len() ==> #[trigger] is_part_alone(
            parts[a],
            df,
            algorithms[a],
            draws[a],
            num_seeds,
            num_cores,
        )
}

/// `rows` holds the executions of every algorithm as a portfolio of its own,
/// in the order of the algorithms.
pub open spec fn executes_alone(
    rows: Seq<SampledRun>,
    df: Seq<RunRecord>,
    algorithms: Seq<Algorithm>,
    num_seeds: u32,
    num_cores: u32,
) -> bool {
    exists|parts: Seq<Seq<SampledRun>>, draws: Seq<u64>|
        #[trigger] is_execution_alone(rows, df, algorithms, num_seeds, num_cores, parts, draws)
}

/// `part` is what a portfolio contributes to a simulation: its executions,
/// or nothing if it assigns nothing.
pub open spec fn is_part_listed(
    part: Seq<SampledRun>,
    df: Seq<RunRecord>,
    portfolio: Portfolio,
    num_seeds: u32,
    num_cores: u32,
) -> bool {
    if portfolio.resource_assignments@.len() > 0 {
        executes(
            part,
            df,
            portfolio.name@,
            portfolio.resource_assignments@,
            num_seeds,
            num_cores,
        )
    } else {
        part.len() == 0
    }
}

/// `rows` holds what the portfolios contribute, in their order, and then
/// `alone`, the executions of every algorithm as a portfolio of its own.
pub open spec fn is_simulation(
    rows: Seq<SampledRun>,
    df: Seq<RunRecord>,
    portfolios: Seq<Portfolio>,
    algorithms: Seq<Algorithm>,
    num_seeds: u32,
    num_cores: u32,
    parts: Seq<Seq<SampledRun>>,
    alone: Seq<SampledRun>,
) -> bool {
    &&& parts.len() == portfolios.len()
    &&& rows == joined(parts, portfolios.len()) + alone
    &&& executes_alone(alone, df, algorithms, num_seeds, num_cores)
    &&& forall|p: int|
        0 <= p < portfolios.len() ==> #[trigger] is_part_listed(
            parts[p],
            df,
            portfolios[p],
            num_seeds,
            num_cores,
        )
}

/// Simulates `num_seeds` executions of a portfolio, with the seeds
/// `0, 1, ...`, and reduces each to the runs of the portfolio on the
/// instances. Where the portfolio cannot be simulated, the result is empty.
pub fn simulate_portfolio_execution(
    df: &Vec<RunRecord>,
    portfolio: &Portfolio,
    num_seeds: u32,
    num_cores: u32,
) -> (rows: Vec<SampledRun>)
    ensures
        executes(
            rows@,
            df@,
            portfolio.name@,
            portfolio.resource_assignments@,
            num_seeds,
            num_cores,
        ),
        forall|x: int|
            0 <= x < rows@.len() ==> is_portfolio_run(
                #[trigger] rows@[x],
                df@,
                portfolio.name@,
                num_cores,
                num_seeds,
            ),
{
    let ghost assignments = portfolio.resource_assignments@;
    let ghost mut blocks: Seq<Seq<SampledRun>> = Seq::empty();
    let ghost mut outcomes: Seq<Option<Seq<SampledRun>>> = Seq::empty();
    let mut rows: Vec<SampledRun> = Vec::new();
    let mut seed: u32 = 0;
    while seed < num_seeds
        invariant
            seed <= num_seeds,
            assignments == portfolio.resource_assignments@,
            blocks.len() == seed,
            outcomes.len() == seed,
            rows@ == joined(blocks, seed as nat),
            forall|s: int|
                0 <= s < seed ==> #[trigger] is_block(
                    blocks[s],
                    outcomes[s],
                    df@,
                    portfolio.name@,
                    assignments,
                    s as u64,
                    num_cores,
                ),
            forall|x: int|
                0 <= x < rows@.len() ==> is_portfolio_run(
                    #[trigger] rows@[x],
                    df@,
                    portfolio.name@,
                    num_cores,
                    num_seeds,
                ),
        decreases num_seeds - seed,
    {
        let ghost before = rows@;
        let ghost earlier = blocks;
        let ghost made = outcomes;
        let ghost current = seed as int;
        match simulate(df, portfolio, seed as u64) {
            Err(e) => {
                proof {
                    match e {
                        SimulationError::TooManyRows => {},
                        SimulationError::TooManyReplicas => {},
                    }
                    blocks = blocks.push(Seq::empty());
                    outcomes = outcomes.push(None);
                    lemma_joined_push(earlier, Seq::empty(), current as nat);
                    assert(rows@ =~= joined(blocks, (current + 1) as nat));
                    assert(is_block(
                        blocks[current],
                        outcomes[current],
                        df@,
                        portfolio.name@,
                        assignments,
                        current as u64,
                        num_cores,
                    ));
                }
            },
            Ok(samples) => {
                let mut runs = portfolio_run_from_samples(&samples, num_cores,
                    portfolio.name.as_str());
                proof {
                    assert forall|x: int| 0 <= x < runs@.len() implies is_portfolio_run(
                        #[trigger] runs@[x],
                        df@,
                        portfolio.name@,
                        num_cores,
                        num_seeds,
                    ) by {
                        assert(summarizes(runs@[x], samples@, portfolio.name@, num_cores));
                        let taken = runs_of(samples@);
                        let best = best_row(taken, runs@[x].run.instance@, false);
                        lemma_best_row(taken, runs@[x].run.instance@, false, taken.len());
                        assert(samples@[best].seed == seed);
                        assert(df@.contains(samples@[best].run));
                        let r = choose|r: int| 0 <= r < df@.len() && df@[r] == samples@[best].run;
                        assert(df@[r].instance@ == runs@[x].run.instance@);
                    }
                }
                let ghost added = runs@;
                rows.append(&mut runs);
                proof {
                    assert forall|x: int| 0 <= x < rows@.len() implies is_portfolio_run(
                        #[trigger] rows@[x],
                        df@,
                        portfolio.name@,
                        num_cores,
                        num_seeds,
                    ) by {
                        if x < before.len() {
                            assert(rows@[x] == before[x]);
                        } else {
                            assert(rows@[x] == added[x - before.len()]);
                        }
                    }
                    blocks = blocks.push(added);
                    outcomes = outcomes.push(Some(samples@));
                    lemma_joined_push(earlier, added, current as nat);
                    assert(rows@ =~= joined(blocks, (current + 1) as nat));
                    assert(is_summary(added, samples@, portfolio.name@, num_cores));
                    assert(is_block(
                        blocks[current],
                        outcomes[current],
                        df@,
                        portfolio.name@,
                        assignments,
                        current as u64,
                        num_cores,
                    ));
                }
            },
        }
        proof {
            assert forall|s: int| 0 <= s < current + 1 implies #[trigger] is_block(
                blocks[s],
                outcomes[s],
                df@,
                portfolio.name@,
                assignments,
                s as u64,
                num_cores,
            ) by {
                if s < current {
                    assert(blocks[s] == earlier[s]);
                    assert(outcomes[s] == made[s]);
                    assert(is_block(
                        earlier[s],
                        made[s],
                        df@,
                        portfolio.name@,
                        assignments,
                        s as u64,
                        num_cores,
                    ));
                }
            }
        }
        seed += 1;
    }
    proof {
        assert(is_execution(
            rows@,
            df@,
            portfolio.name@,
            assignments,
            num_seeds,
            num_cores,
            blocks,
            outcomes,
        ));
    }
    rows
}

/// Simulates every algorithm with at least one thread and at most
/// `num_cores` threads as a portfolio of its own: as many replicas of it as
/// fit into `num_cores` cores, rounded up or down at random.
pub fn simulate_algorithms_as_portfolio(
    df: &Vec<RunRecord>,
    algorithms: &AlgorithmArray,
    num_seeds: u32,
    num_cores: u32,
) -> (rows: Vec<SampledRun>)
    ensures
        executes_alone(rows@, df@, algorithms@, num_seeds, num_cores),
        forall|x: int|
            0 <= x < rows@.len() ==> #[trigger] runs_alone(rows@[x], df@, algorithms@, num_cores,
                num_seeds),
{
    let ghost mut parts: Seq<Seq<SampledRun>> = Seq::empty();
    let ghost mut draws: Seq<u64> = Seq::empty();
    let mut rows: Vec<SampledRun> = Vec::new();
    let mut a: usize = 0;
    while a < algorithms.len()
        invariant
            a <= algorithms@.len(),
            parts.len() == a,
            draws.len() == a,
            rows@ == joined(parts, a as nat),
            forall|i: int|
                0 <= i < a ==> #[trigger] is_part_alone(
                    parts[i],
                    df@,
                    algorithms@[i],
                    draws[i],
                    num_seeds,
                    num_cores,
                ),
            forall|x: int|
                0 <= x < rows@.len() ==> #[trigger] runs_alone(rows@[x], df@, algorithms@,
                    num_cores, num_seeds),
        ensures
            a == algorithms@.len(),
        decreases algorithms@.len() - a,
    {
        let ghost before = rows@;
        let ghost earlier = parts;
        let ghost drawn = draws;
        let ghost current = a as int;
        let algorithm = match algorithms.get(a) {
            Some(algorithm) => algorithm,
            None => {
                break;
            },
        };
        if 1 <= algorithm.num_threads && algorithm.num_threads <= num_cores {
            let draw = random_bits();
            let replicas = replicas_for(num_cores, algorithm.num_threads, draw);
            let mut resource_assignments: Vec<(Algorithm, u64)> = Vec::new();
            resource_assignments.push((algorithm.clone(), replicas));
            let portfolio = Portfolio { name: algorithm.to_text(), resource_assignments };
            proof {
                assert(portfolio.resource_assignments@ =~= on_its_own(
                    algorithms@[current],
                    num_cores,
                    draw,
                ));
            }
            let mut runs = simulate_portfolio_execution(df, &portfolio, num_seeds, num_cores);
            let ghost added = runs@;
            rows.append(&mut runs);
            proof {
                assert forall|x: int| 0 <= x < rows@.len() implies #[trigger] runs_alone(rows@[x],
                    df@, algorithms@, num_cores, num_seeds) by {
                    if x < before.len() {
                        assert(rows@[x] == before[x]);
                    } else {
                        assert(rows@[x] == added[x - before.len()]);
                        assert(is_portfolio_run(
                            rows@[x],
                            df@,
                            algorithms@[current].label(),
                            num_cores,
                            num_seeds,
                        ));
                    }
                }
                parts = parts.push(added);
                draws = draws.push(draw);
                lemma_joined_push(earlier, added, current as nat);
                assert(rows@ =~= joined(parts, (current + 1) as nat));
                assert(is_part_alone(
                    parts[current],
                    df@,
                    algorithms@[current],
                    draws[current],
                    num_seeds,
                    num_cores,
                ));
            }
        } else {
            proof {
                parts = parts.push(Seq::empty());
                draws = draws.push(0);
                lemma_joined_push(earlier, Seq::empty(), current as nat);
                assert(rows@ =~= joined(parts, (current + 1) as nat));
                assert(is_part_alone(
                    parts[current],
                    df@,
                    algorithms@[current],
                    draws[current],
                    num_seeds,
                    num_cores,
                ));
            }
        }
        proof {
            assert forall|i: int| 0 <= i < current + 1 implies #[trigger] is_part_alone(
                parts[i],
                df@,
                algorithms@[i],
                draws[i],
                num_seeds,
                num_cores,
            ) by {
                if i < current {
                    assert(parts[i] == earlier[i]);
                    assert(draws[i] == drawn[i]);
                    assert(is_part_alone(
                        earlier[i],
                        df@,
                        algorithms@[i],
                        drawn[i],
                        num_seeds,
                        num_cores,
                    ));
                }
            }
        }
        a += 1;
    }
    proof {
        assert(is_execution_alone(
            rows@,
            df@,
            algorithms@,
            num_seeds,
            num_cores,
            parts,
            draws,
        ));
    }
    rows
}

/// Simulates the execution of portfolios: of every portfolio that assigns
/// anything, and then of every algorithm as a portfolio of its own, each
/// `num_seeds` times.
pub fn simulation_df(
    df: &Vec<RunRecord>,
    algorithms: &AlgorithmArray,
    portfolios: &Vec<Portfolio>,
    num_seeds: u32,
    num_cores: u32,
) -> (rows: Vec<SampledRun>)
    ensures
        exists|parts: Seq<Seq<SampledRun>>, alone: Seq<SampledRun>|
            #[trigger] is_simulation(
                rows@,
                df@,
                portfolios@,
                algorithms@,
                num_seeds,
                num_cores,
                parts,
                alone,
            ),
        forall|x: int|
            0 <= x < rows@.len() ==> #[trigger] is_simulated_run(
                rows@[x],
                df@,
                portfolios@,
                algorithms@,
                num_cores,
                num_seeds,
            ),
{
    let ghost mut parts: Seq<Seq<SampledRun>> = Seq::empty();
    let mut rows: Vec<SampledRun> = Vec::new();
    let mut p: usize = 0;
    while p < portfolios.len()
        invariant
            p <= portfolios@.len(),
            parts.len() == p,
            rows@ == joined(parts, p as nat),
            forall|i: int|
                0 <= i < p ==> #[trigger] is_part_listed(
                    parts[i],
                    df@,
                    portfolios@[i],
                    num_seeds,
                    num_cores,
                ),
            forall|x: int|
                0 <= x < rows@.len() ==> #[trigger] runs_listed(rows@[x], df@, portfolios@,
                    num_cores, num_seeds),
        decreases portfolios@.len() - p,
    {
        let ghost before = rows@;
        let ghost earlier = parts;
        let ghost current = p as int;
        if portfolios[p].resource_assignments.len() > 0 {
            let mut runs = simulate_portfolio_execution(df, &portfolios[p], num_seeds, num_cores);
            let ghost added = runs@;
            rows.append(&mut runs);
            proof {
                assert forall|x: int| 0 <= x < rows@.len() implies #[trigger] runs_listed(rows@[x],
                    df@, portfolios@, num_cores, num_seeds) by {
                    if x < before.len() {
                        assert(rows@[x] == before[x]);
                    } else {
                        assert(rows@[x] == added[x - before.len()]);
                        assert(is_portfolio_run(
                            rows@[x],
                            df@,
                            portfolios@[current].name@,
                            num_cores,
                            num_seeds,
                        ));
                    }
                }
                parts = parts.push(added);
                lemma_joined_push(earlier, added, current as nat);
                assert(rows@ =~= joined(parts, (current + 1) as nat));
            }
        } else {
            proof {
                parts = parts.push(Seq::empty());
                lemma_joined_push(earlier, Seq::empty(), current as nat);
                assert(rows@ =~= joined(parts, (current + 1) as nat));
            }
        }
        proof {
            assert(is_part_listed(parts[current], df@, portfolios@[current], num_seeds, num_cores));
            assert forall|i: int| 0 <= i < current + 1 implies #[trigger] is_part_listed(
                parts[i],
                df@,
                portfolios@[i],
                num_seeds,
                num_cores,
            ) by {
                if i < current {
                    assert(parts[i] == earlier[i]);
                    assert(is_part_listed(earlier[i], df@, portfolios@[i], num_seeds, num_cores));
                }
            }
        }
        p += 1;
    }
    let mut single = simulate_algorithms_as_portfolio(df, algorithms, num_seeds, num_cores);
    let ghost before = rows@;
    let ghost added = single@;
    rows.append(&mut single);
    proof {
        assert forall|x: int| 0 <= x < rows@.len() implies #[trigger] is_simulated_run(
                rows@[x],
                df@,
                portfolios@,
                algorithms@,
                num_cores,
                num_seeds,
            ) by {
            if x < before.len() {
                assert(rows@[x] == before[x]);
            } else {
                assert(rows@[x] == added[x - before.len()]);
            }
        }
        assert(rows@ =~= joined(parts, portfolios@.len()) + added);
        assert(is_simulation(
            rows@,
            df@,
            portfolios@,
            algorithms@,
            num_seeds,
            num_cores,
            parts,
            added,
        ));
    }
    rows
}

} // verus!
