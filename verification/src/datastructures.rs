//! Algorithms, portfolios and the result of an optimization.
use vstd::prelude::*;
use vstd::string::StringExecFns;
use vstd::seq_lib::group_to_multiset_ensures;
use crate::fixed::SCALE;
use crate::random::{choose_some, draw_u32, draw_usize, seeded, sorted};
use crate::text::{
    decimal, decimal_string, lemma_lex_asymmetric, lemma_lex_irreflexive, lemma_lex_total,
    lemma_lex_transitive, lex_lt, str_lt,
};

verus! {

/// What identifies a benchmark problem: its name and, where the runs tell
/// them, the number of blocks to partition it into and the feasibility
/// threshold.
pub struct InstanceId {
    pub name: Seq<char>,
    pub k: Option<u32>,
    pub feasibility_threshold: Option<u64>,
}

/// An instance: one benchmark problem.
#[derive(Debug, PartialEq, Eq, Hash)]
pub struct Instance {
    /// Name of the instance
    pub name: String,
    /// Number of blocks, where the runs tell it
    pub k: Option<u32>,
    /// Feasibility threshold (fixed-point), where the runs tell it
    pub feasibility_threshold: Option<u64>,
}

impl View for Instance {
    type V = InstanceId;

    open spec fn view(&self) -> InstanceId {
        InstanceId {
            name: self.name@,
            k: self.k,
            feasibility_threshold: self.feasibility_threshold,
        }
    }
}

impl Clone for Instance {
    fn clone(&self) -> (r: Self)
        ensures
            r == *self,
    {
        Instance {
            name: self.name.clone(),
            k: self.k,
            feasibility_threshold: self.feasibility_threshold,
        }
    }
}

/// An attribute that is missing comes before one that is there, and of two
/// that are there the smaller comes first.
pub open spec fn attribute_lt(a: Option<int>, b: Option<int>) -> bool {
    match (a, b) {
        (None, Some(_)) => true,
        (Some(x), Some(y)) => x < y,
        _ => false,
    }
}

/// The number of blocks as an attribute.
pub open spec fn blocks(id: InstanceId) -> Option<int> {
    match id.k {
        Some(k) => Some(k as int),
        None => None,
    }
}

/// The feasibility threshold as an attribute.
pub open spec fn threshold(id: InstanceId) -> Option<int> {
    match id.feasibility_threshold {
        Some(t) => Some(t as int),
        None => None,
    }
}

/// Instances are ordered by name, under one name by the number of blocks,
/// and under one number of blocks by the feasibility threshold.
pub open spec fn instance_lt(a: InstanceId, b: InstanceId) -> bool {
    lex_lt(a.name, b.name) || (a.name == b.name && (attribute_lt(blocks(a), blocks(b)) || (a.k
        == b.k
        && attribute_lt(threshold(a), threshold(b)))))
}

/// Of two instances one comes first, unless they are the same.
pub proof fn lemma_instance_total(a: InstanceId, b: InstanceId)
    ensures
        instance_lt(a, b) || a == b || instance_lt(b, a),
{
    lemma_lex_total(a.name, b.name);
}

/// No instance comes before itself, and no two come before each other.
pub proof fn lemma_instance_asymmetric(a: InstanceId, b: InstanceId)
    ensures
        !(instance_lt(a, b) && instance_lt(b, a)),
        !instance_lt(a, a),
{
    lemma_lex_asymmetric(a.name, b.name);
    lemma_lex_irreflexive(a.name);
    lemma_lex_irreflexive(b.name);
}

/// The order of instances is transitive.
pub proof fn lemma_instance_transitive(a: InstanceId, b: InstanceId, c: InstanceId)
    requires
        instance_lt(a, b),
        instance_lt(b, c),
    ensures
        instance_lt(a, c),
{
    if lex_lt(a.name, b.name) && lex_lt(b.name, c.name) {
        lemma_lex_transitive(a.name, b.name, c.name);
    }
}

/// Whether the attribute `a` comes before the attribute `b`.
fn number_precedes(a: Option<u64>, b: Option<u64>) -> (r: bool)
    ensures
        r == attribute_lt(
            match a {
                Some(x) => Some(x as int),
                None => None,
            },
            match b {
                Some(y) => Some(y as int),
                None => None,
            },
        ),
{
    match (a, b) {
        (None, Some(_)) => true,
        (Some(x), Some(y)) => x < y,
        _ => false,
    }
}

/// An attribute as a 64-bit number.
fn widened(a: Option<u32>) -> (r: Option<u64>)
    ensures
        match a {
            Some(x) => r == Some(x as u64),
            None => r is None,
        },
{
    match a {
        Some(x) => Some(x as u64),
        None => None,
    }
}

impl Instance {
    /// Construct a new instance
    pub fn new(name: String, k: Option<u32>, feasibility_threshold: Option<u64>) -> (r: Self)
        ensures
            r.name == name,
            r.k == k,
            r.feasibility_threshold == feasibility_threshold,
    {
        Self { name, k, feasibility_threshold }
    }

    /// An instance that is known by its name alone.
    pub fn named(name: &str) -> (r: Self)
        ensures
            r@ == (InstanceId { name: name@, k: None, feasibility_threshold: None }),
    {
        Self { name: String::from_str(name), k: None, feasibility_threshold: None }
    }

    /// Whether `self` comes strictly before `other`.
    pub fn precedes(&self, other: &Instance) -> (r: bool)
        ensures
            r == instance_lt(self@, other@),
    {
        if str_lt(self.name.as_str(), other.name.as_str()) {
            true
        } else if self.name == other.name {
            if number_precedes(widened(self.k), widened(other.k)) {
                true
            } else if self.k == other.k {
                number_precedes(self.feasibility_threshold, other.feasibility_threshold)
            } else {
                false
            }
        } else {
            false
        }
    }

    /// Whether `self` and `other` are the same instance.
    pub fn same_as(&self, other: &Instance) -> (r: bool)
        ensures
            r == (self@ == other@),
    {
        self.k == other.k && self.feasibility_threshold == other.feasibility_threshold && self.name
            == other.name
    }
}

/// What identifies an algorithm configuration: its name and thread count.
pub struct AlgorithmId {
    pub name: Seq<char>,
    pub threads: u32,
}

/// An algorithm of the portfolio: a name and the number of threads one
/// replica of it occupies.
#[derive(Debug, PartialEq, Eq, Hash)]
pub struct Algorithm {
    /// Algorithm name
    pub algorithm: String,
    /// Number of threads the algorithm was executed with
    pub num_threads: u32,
}

impl View for Algorithm {
    type V = AlgorithmId;

    open spec fn view(&self) -> AlgorithmId {
        AlgorithmId { name: self.algorithm@, threads: self.num_threads }
    }
}

impl Clone for Algorithm {
    fn clone(&self) -> (r: Self)
        ensures
            r == *self,
    {
        Algorithm { algorithm: self.algorithm.clone(), num_threads: self.num_threads }
    }
}

/// Algorithms are ordered by name, and by thread count under one name.
pub open spec fn algorithm_lt(a: AlgorithmId, b: AlgorithmId) -> bool {
    lex_lt(a.name, b.name) || (a.name == b.name && a.threads < b.threads)
}

/// Of two algorithms one comes first, unless they are the same.
pub proof fn lemma_algorithm_total(a: AlgorithmId, b: AlgorithmId)
    ensures
        algorithm_lt(a, b) || a == b || algorithm_lt(b, a),
{
    lemma_lex_total(a.name, b.name);
}

/// No algorithm comes before itself, and no two come before each other.
pub proof fn lemma_algorithm_asymmetric(a: AlgorithmId, b: AlgorithmId)
    ensures
        !(algorithm_lt(a, b) && algorithm_lt(b, a)),
        !algorithm_lt(a, a),
{
    lemma_lex_asymmetric(a.name, b.name);
    lemma_lex_irreflexive(a.name);
    lemma_lex_irreflexive(b.name);
}

/// The order of algorithms is transitive.
pub proof fn lemma_algorithm_transitive(a: AlgorithmId, b: AlgorithmId, c: AlgorithmId)
    requires
        algorithm_lt(a, b),
        algorithm_lt(b, c),
    ensures
        algorithm_lt(a, c),
{
    if lex_lt(a.name, b.name) && lex_lt(b.name, c.name) {
        lemma_lex_transitive(a.name, b.name, c.name);
    }
}

impl Algorithm {
    /// Construct a new algorithm object
    pub fn new(algorithm: String, num_threads: u32) -> (r: Self)
        ensures
            r.algorithm == algorithm,
            r.num_threads == num_threads,
    {
        Self { algorithm, num_threads }
    }

    /// Whether `self` comes strictly before `other`.
    pub fn precedes(&self, other: &Algorithm) -> (r: bool)
        ensures
            r == algorithm_lt(self@, other@),
    {
        if str_lt(self.algorithm.as_str(), other.algorithm.as_str()) {
            true
        } else if self.algorithm == other.algorithm {
            self.num_threads < other.num_threads
        } else {
            false
        }
    }

    /// How the algorithm is written: its name, a space and its thread count.
    pub open spec fn label(self) -> Seq<char> {
        self.algorithm@ + " "@ + decimal(self.num_threads as nat)
    }

    /// Writes the algorithm as its name, a space and its thread count.
    pub fn to_text(&self) -> (r: String)
        ensures
            r@ == self.label(),
    {
        let mut text = self.algorithm.clone();
        text.append(" ");
        let threads = decimal_string(self.num_threads as u64);
        text.append(threads.as_str());
        text
    }

    /// Whether `self` and `other` are the same configuration.
    pub fn same_as(&self, other: &Algorithm) -> (r: bool)
        ensures
            r == (self@ == other@),
    {
        self.num_threads == other.num_threads && self.algorithm == other.algorithm
    }
}

/// Timeout for the solver, in seconds (fixed-point).
#[derive(Debug, Clone, Copy, PartialEq, Eq)]
pub struct Timeout(pub u64);

impl Default for Timeout {
    fn default() -> (r: Self)
        ensures
            r.0 == 900 * SCALE,
    {
        Timeout(900 * SCALE)
    }
}

/// How many cores a list of assignments occupies: for each algorithm its
/// replicas times its threads, summed.
pub open spec fn cores_used(assignments: Seq<(Algorithm, u64)>) -> int
    decreases assignments.len(),
{
    if assignments.len() == 0 {
        0
    } else {
        cores_used(assignments.drop_last())
            + assignments.last().1 * assignments.last().0.num_threads
    }
}

/// An algorithm portfolio with resource assignment
#[derive(Debug, PartialEq, Eq, Clone)]
pub struct Portfolio {
    /// Name of the portfolio
    pub name: String,
    /// Pairs of algorithms and the number of replicas assigned to them
    pub resource_assignments: Vec<(Algorithm, u64)>,
}

/// How a list of assignments is written: a line for each, with the
/// algorithm, a colon, a space and the number of replicas.
pub open spec fn assignment_lines(assignments: Seq<(Algorithm, u64)>) -> Seq<char>
    decreases assignments.len(),
{
    if assignments.len() == 0 {
        Seq::empty()
    } else {
        assignment_lines(assignments.drop_last()) + assignments.last().0.label() + ": "@ + decimal(
            assignments.last().1 as nat,
        ) + "\n"@
    }
}

/// Whether assignments keep to a budget of `num_cores` cores: they occupy no
/// more, and exactly as many as soon as one of the algorithms is
/// single-threaded.
pub open spec fn keeps_budget(assignments: Seq<(Algorithm, u64)>, num_cores: int) -> bool {
    if exists|j: int| 0 <= j < assignments.len() && (#[trigger] assignments[j]).0.num_threads == 1 {
        cores_used(assignments) == num_cores
    } else {
        cores_used(assignments) <= num_cores
    }
}

/// What a list of assignments occupies is not negative.
pub proof fn lemma_cores_used_bounds(assignments: Seq<(Algorithm, u64)>)
    ensures
        cores_used(assignments) >= 0,
    decreases assignments.len(),
{
    if assignments.len() > 0 {
        lemma_cores_used_bounds(assignments.drop_last());
        assert(assignments.last().1 * assignments.last().0.num_threads >= 0) by (nonlinear_arith);
    }
}

/// What the first assignments of a list occupy is no more than what all
/// occupy.
pub proof fn lemma_cores_used_prefix(assignments: Seq<(Algorithm, u64)>, n: int)
    requires
        0 <= n <= assignments.len(),
    ensures
        0 <= cores_used(assignments.take(n)) <= cores_used(assignments),
    decreases assignments.len() - n,
{
    lemma_cores_used_bounds(assignments.take(n));
    if n < assignments.len() {
        lemma_cores_used_prefix(assignments, n + 1);
        let longer = assignments.take(n + 1);
        assert(longer.drop_last() =~= assignments.take(n));
        assert(longer.last().1 * longer.last().0.num_threads >= 0) by (nonlinear_arith);
    } else {
        assert(assignments.take(n) =~= assignments);
    }
}

impl Portfolio {
    /// The number of cores that the portfolio occupies, unless it is beyond
    /// 64 bits.
    pub fn occupied_cores(&self) -> (r: Option<u64>)
        ensures
            r is Some <==> cores_used(self.resource_assignments@) <= u64::MAX,
            r is Some ==> r->Some_0 == cores_used(self.resource_assignments@),
    {
        let mut total: u64 = 0;
        let mut i: usize = 0;
        proof {
            assert(self.resource_assignments@.take(0) =~= Seq::<(Algorithm, u64)>::empty());
        }
        while i < self.resource_assignments.len()
            invariant
                i <= self.resource_assignments@.len(),
                total == cores_used(self.resource_assignments@.take(i as int)),
            decreases self.resource_assignments@.len() - i,
        {
            let replicas: u64 = self.resource_assignments[i].1;
            let threads: u64 = self.resource_assignments[i].0.num_threads as u64;
            proof {
                let next = self.resource_assignments@.take(i + 1);
                assert(next.drop_last() =~= self.resource_assignments@.take(i as int));
                assert(next.last() == self.resource_assignments@[i as int]);
                lemma_cores_used_prefix(self.resource_assignments@, i + 1);
            }
            let occupied = match replicas.checked_mul(threads) {
                Some(occupied) => occupied,
                None => {
                    return None;
                },
            };
            total = match total.checked_add(occupied) {
                Some(total) => total,
                None => {
                    return None;
                },
            };
            i += 1;
        }
        proof {
            assert(self.resource_assignments@.take(self.resource_assignments@.len() as int)
                =~= self.resource_assignments@);
        }
        Some(total)
    }

    /// Whether the portfolio keeps to a budget of `num_cores` cores.
    pub fn respects_budget(&self, num_cores: u32) -> (r: bool)
        ensures
            r == keeps_budget(self.resource_assignments@, num_cores as int),
    {
        let mut single_threaded = false;
        let mut i: usize = 0;
        while i < self.resource_assignments.len()
            invariant
                i <= self.resource_assignments@.len(),
                single_threaded <==> exists|j: int|
                    0 <= j < i && (#[trigger] self.resource_assignments@[j]).0.num_threads == 1,
            decreases self.resource_assignments@.len() - i,
        {
            if self.resource_assignments[i].0.num_threads == 1 {
                single_threaded = true;
            }
            i += 1;
        }
        match self.occupied_cores() {
            None => false,
            Some(occupied) => if single_threaded {
                occupied == num_cores as u64
            } else {
                occupied <= num_cores as u64
            },
        }
    }

    /// Writes the portfolio, one line for each assignment.
    pub fn to_text(&self) -> (r: String)
        ensures
            r@ == assignment_lines(self.resource_assignments@),
    {
        let mut text = String::new();
        let mut i: usize = 0;
        while i < self.resource_assignments.len()
            invariant
                i <= self.resource_assignments@.len(),
                text@ == assignment_lines(self.resource_assignments@.take(i as int)),
            decreases self.resource_assignments@.len() - i,
        {
            let label = self.resource_assignments[i].0.to_text();
            let replicas = decimal_string(self.resource_assignments[i].1);
            proof {
                let next = self.resource_assignments@.take(i + 1);
                assert(next.drop_last() =~= self.resource_assignments@.take(i as int));
                assert(next.last() == self.resource_assignments@[i as int]);
            }
            text.append(label.as_str());
            text.append(": ");
            text.append(replicas.as_str());
            text.append("\n");
            i += 1;
        }
        proof {
            assert(self.resource_assignments@.take(self.resource_assignments@.len() as int)
                =~= self.resource_assignments@);
        }
        text
    }
}

/// Result of the solver
#[derive(Debug, PartialEq, Eq, Clone)]
pub struct OptimizationResult {
    /// Portfolio the solver started from, if any
    pub initial_portfolio: Option<Portfolio>,
    /// Portfolio the solver ended with
    pub final_portfolio: Portfolio,
    /// Remaining relative gap between the objective value and its lower
    /// bound (fixed-point); zero if the solution is optimal
    pub gap: u64,
}

/// The positions of the single-threaded algorithms among the first `n`, in
/// ascending order.
pub open spec fn single_positions(algorithms: Seq<Algorithm>, n: nat) -> Seq<usize>
    decreases n,
{
    if n == 0 {
        Seq::empty()
    } else {
        let front = single_positions(algorithms, (n - 1) as nat);
        if algorithms[n - 1].num_threads == 1 {
            front.push((n - 1) as usize)
        } else {
            front
        }
    }
}

/// The positions of the single-threaded algorithms are positions of
/// single-threaded algorithms, each listed once.
pub proof fn lemma_single_positions(algorithms: Seq<Algorithm>, n: nat)
    requires
        n <= algorithms.len(),
        n <= usize::MAX,
    ensures
        ({
            let singles = single_positions(algorithms, n);
            &&& singles.len() <= n
            &&& forall|i: int|
                0 <= i < singles.len() ==> (#[trigger] singles[i]) < n
                    && algorithms[singles[i] as int].num_threads == 1
            &&& forall|i: int, j: int| 0 <= i < j < singles.len() ==> singles[i] < singles[j]
            &&& singles.no_duplicates()
            &&& forall|x: int|
                0 <= x < n && (#[trigger] algorithms[x]).num_threads == 1 ==> singles.len() > 0
        }),
    decreases n,
{
    if n > 0 {
        lemma_single_positions(algorithms, (n - 1) as nat);
    }
}

/// `assignments` gives replicas to the algorithms at `positions`, in turn.
pub open spec fn assigns(
    assignments: Seq<(Algorithm, u64)>,
    algorithms: Seq<Algorithm>,
    positions: Seq<usize>,
) -> bool {
    &&& positions.len() == assignments.len()
    &&& positions.no_duplicates()
    &&& forall|i: int|
        0 <= i < positions.len() ==> (#[trigger] positions[i]) < algorithms.len()
            && assignments[i].0 == algorithms[positions[i] as int]
}

/// One more assignment occupies its replicas times its threads more.
pub proof fn lemma_cores_used_push(assignments: Seq<(Algorithm, u64)>, next: (Algorithm, u64))
    ensures
        cores_used(assignments.push(next)) == cores_used(assignments) + next.1 * next.0.num_threads,
{
    assert(assignments.push(next).drop_last() =~= assignments);
}

impl Portfolio {
    /// Generates a random portfolio from a list of algorithms: a random
    /// number of the single-threaded algorithms, chosen at random, share all
    /// the cores at random. Every choice is drawn from a generator seeded
    /// with `seed`. Without a single-threaded algorithm the portfolio is
    /// empty.
    pub fn random(algorithms: &Vec<Algorithm>, num_cores: u32, seed: u64) -> (p: Portfolio)
        requires
            single_positions(algorithms@, algorithms@.len()).len() > 0 ==> num_cores >= 1,
        ensures
            p.name@ == "random_portfolio"@,
            single_positions(algorithms@, algorithms@.len()).len() == 0
                ==> p.resource_assignments@.len() == 0,
            single_positions(algorithms@, algorithms@.len()).len() > 0 ==> {
                &&& 1 <= p.resource_assignments@.len() <= single_positions(
                    algorithms@,
                    algorithms@.len(),
                ).len()
                &&& p.resource_assignments@.len() <= num_cores
                &&& cores_used(p.resource_assignments@) == num_cores
                &&& keeps_budget(p.resource_assignments@, num_cores as int)
                &&& forall|i: int|
                    0 <= i < p.resource_assignments@.len() ==> (
                    #[trigger] p.resource_assignments@[i]).0.num_threads == 1
                &&& exists|positions: Seq<usize>|
                    #[trigger] assigns(p.resource_assignments@, algorithms@, positions)
            },
    {
        let n = algorithms.len();
        let mut singles: Vec<usize> = Vec::new();
        let mut i: usize = 0;
        while i < n
            invariant
                i <= n,
                n == algorithms@.len(),
                singles@ == single_positions(algorithms@, i as nat),
            decreases n - i,
        {
            if algorithms[i].num_threads == 1 {
                singles.push(i);
            }
            i += 1;
        }
        proof {
            lemma_single_positions(algorithms@, n as nat);
        }
        let available = singles.len();
        if available == 0 {
            return Portfolio {
                name: String::from_str("random_portfolio"),
                resource_assignments: Vec::new(),
            };
        }
        let mut rng = seeded(seed);
        let most: usize = if available <= num_cores as usize {
            available
        } else {
            num_cores as usize
        };
        let count = draw_usize(&mut rng, 1, most);
        let mut draws: Vec<u32> = Vec::new();
        let mut d: usize = 0;
        while d < count - 1
            invariant
                d <= count - 1,
                count >= 1,
                num_cores >= 1,
                draws@.len() == d,
                forall|x: int| 0 <= x < d ==> 1 <= #[trigger] draws@[x] <= num_cores,
            decreases count - 1 - d,
        {
            let drawn = draw_u32(&mut rng, 1, num_cores);
            draws.push(drawn);
            d += 1;
        }
        let ghost drawn_values = draws@;
        let cuts = sorted(draws);
        proof {
            broadcast use group_to_multiset_ensures;

            cuts@.to_multiset_ensures();
            drawn_values.to_multiset_ensures();
            assert(cuts@.len() == count - 1);
            assert forall|x: int| 0 <= x < cuts@.len() implies 1 <= #[trigger] cuts@[x]
                <= num_cores by {
                assert(cuts@.contains(cuts@[x]));
                assert(cuts@.to_multiset().count(cuts@[x]) > 0);
                assert(drawn_values.contains(cuts@[x]));
            }
        }
        let ghost all_singles = singles@;
        let chosen = choose_some(&mut singles, &mut rng, count);
        proof {
            broadcast use group_to_multiset_ensures;

            all_singles.lemma_multiset_has_no_duplicates();
            singles@.lemma_multiset_has_no_duplicates_conv();
            singles@.to_multiset_ensures();
            all_singles.to_multiset_ensures();
            assert(singles@.len() == all_singles.len());
            assert(chosen@.len() == count);
            assert forall|x: int| 0 <= x < chosen@.len() implies (#[trigger] chosen@[x]) < n
                && algorithms@[chosen@[x] as int].num_threads == 1 by {
                let at = all_singles.len() - count + x;
                assert(chosen@[x] == singles@[at]);
                assert(singles@.contains(singles@[at]));
                assert(singles@.to_multiset().count(singles@[at]) > 0);
                assert(all_singles.contains(chosen@[x]));
            }
            assert forall|x: int, y: int| 0 <= x < chosen@.len() && 0 <= y < chosen@.len() && x
                != y implies chosen@[x] != chosen@[y] by {
                assert(chosen@[x] == singles@[all_singles.len() - count + x]);
                assert(chosen@[y] == singles@[all_singles.len() - count + y]);
            }
        }
        let mut resource_assignments: Vec<(Algorithm, u64)> = Vec::new();
        let mut a: usize = 0;
        while a < count
            invariant
                a <= count,
                count >= 1,
                n == algorithms@.len(),
                cuts@.len() == count - 1,
                chosen@.len() == count,
                forall|x: int| 0 <= x < cuts@.len() ==> 1 <= #[trigger] cuts@[x] <= num_cores,
                forall|x: int, y: int| 0 <= x <= y < cuts@.len() ==> cuts@[x] <= cuts@[y],
                forall|x: int|
                    0 <= x < chosen@.len() ==> (#[trigger] chosen@[x]) < n
                        && algorithms@[chosen@[x] as int].num_threads == 1,
                resource_assignments@.len() == a,
                forall|x: int|
                    0 <= x < a ==> (#[trigger] resource_assignments@[x]).0
                        == algorithms@[chosen@[x] as int],
                cores_used(resource_assignments@) == if a == 0 {
                    0
                } else if a == count {
                    num_cores as int
                } else {
                    cuts@[a - 1] as int
                },
            decreases count - a,
        {
            let upper: u32 = if a < count - 1 {
                cuts[a]
            } else {
                num_cores
            };
            let lower: u32 = if a == 0 {
                0
            } else {
                cuts[a - 1]
            };
            let share: u32 = upper - lower;
            let algorithm = algorithms[chosen[a]].clone();
            proof {
                lemma_cores_used_push(resource_assignments@, (algorithm, share as u64));
                assert(share * 1 == share) by (nonlinear_arith);
            }
            resource_assignments.push((algorithm, share as u64));
            a += 1;
        }
        proof {
            assert(assigns(resource_assignments@, algorithms@, chosen@));
        }
        Portfolio { name: String::from_str("random_portfolio"), resource_assignments }
    }
}

} // verus!
