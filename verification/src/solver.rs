//! The starting point handed to the allocation solver, and the portfolio read
//! back from its solution.
//!
//! The initial assignment gives every algorithm a share of the cores in
//! proportion to the number of instances it wins, rounds the shares down, and
//! hands the cores that are left to the algorithms that lost most by the
//! rounding.
use vstd::prelude::*;
use vstd::string::StringExecFns;
use crate::csv_parser::Data;
use crate::datastructures::{cores_used, keeps_budget, Algorithm, Portfolio};

verus! {

/// A non-negative rational number.
#[derive(Debug, Clone, Copy, PartialEq, Eq)]
pub struct Fraction {
    pub numerator: u64,
    pub denominator: u64,
}

impl Fraction {
    /// The integer part.
    pub open spec fn floor(self) -> int {
        self.numerator as int / self.denominator as int
    }

    /// What rounding down loses: the fractional part, over the same
    /// denominator.
    pub open spec fn loss(self) -> Fraction {
        Fraction {
            numerator: (self.numerator % self.denominator) as u64,
            denominator: self.denominator,
        }
    }

    /// Zero, over the same denominator.
    pub open spec fn cleared(self) -> Fraction {
        Fraction { numerator: 0, denominator: self.denominator }
    }

    /// `self > other` as rational numbers (both denominators positive).
    pub open spec fn exceeds(self, other: Fraction) -> bool {
        self.numerator * other.denominator > other.numerator * self.denominator
    }

    /// Decides `self > other` exactly, by cross-multiplication.
    pub fn is_greater(&self, other: &Fraction) -> (r: bool)
        ensures
            r == self.exceeds(*other),
    {
        let a: u128 = self.numerator as u128;
        let b: u128 = other.denominator as u128;
        let c: u128 = other.numerator as u128;
        let d: u128 = self.denominator as u128;
        assert(a * b <= 0xffff_ffff_ffff_ffff * 0xffff_ffff_ffff_ffff) by (nonlinear_arith)
            requires
                a <= 0xffff_ffff_ffff_ffff,
                b <= 0xffff_ffff_ffff_ffff,
        ;
        assert(c * d <= 0xffff_ffff_ffff_ffff * 0xffff_ffff_ffff_ffff) by (nonlinear_arith)
            requires
                c <= 0xffff_ffff_ffff_ffff,
                d <= 0xffff_ffff_ffff_ffff,
        ;
        a * b > c * d
    }
}

/// Why shares cannot be rounded.
#[derive(Debug, Clone, Copy, PartialEq, Eq)]
pub enum RoundingError {
    /// There is not one step per fraction.
    LengthMismatch,
    /// A fraction has the denominator zero.
    ZeroDenominator,
    /// A step is zero.
    ZeroStep,
    /// The shares, rounded down, already occupy more than the sum.
    BudgetExceeded,
}

/// The integer parts of the fractions.
pub open spec fn floors(fractions: Seq<Fraction>) -> Seq<int> {
    Seq::new(fractions.len(), |i: int| fractions[i].floor())
}

/// The fractional parts of the fractions.
pub open spec fn losses(fractions: Seq<Fraction>) -> Seq<Fraction> {
    Seq::new(fractions.len(), |i: int| fractions[i].loss())
}

/// The sum of `shares[i] * steps[i]` over the first `n` indices.
pub open spec fn weighted_sum_upto(shares: Seq<int>, steps: Seq<u32>, n: nat) -> int
    decreases n,
{
    if n == 0 {
        0
    } else {
        weighted_sum_upto(shares, steps, (n - 1) as nat) + shares[n - 1] * steps[n - 1]
    }
}

/// The sum of `shares[i] * steps[i]` over all indices.
pub open spec fn weighted_sum(shares: Seq<int>, steps: Seq<u32>) -> int {
    weighted_sum_upto(shares, steps, shares.len())
}

/// Among the first `n` indices whose step is at most `remainder`, the one
/// with the largest loss, and the first of these where several are equal;
/// `-1` if no step fits.
pub open spec fn pick_upto(loss: Seq<Fraction>, steps: Seq<u32>, remainder: int, n: nat) -> int
    decreases n,
{
    if n == 0 {
        -1
    } else {
        let best = pick_upto(loss, steps, remainder, (n - 1) as nat);
        let j = n - 1;
        if steps[j] > remainder {
            best
        } else if best < 0 || loss[j].exceeds(loss[best]) {
            j
        } else {
            best
        }
    }
}

/// The index that receives the next step, or `-1` if none fits.
pub open spec fn pick(loss: Seq<Fraction>, steps: Seq<u32>, remainder: int) -> int {
    pick_upto(loss, steps, remainder, loss.len())
}

/// Hands out `remainder` step by step: the picked index gets one more share,
/// gives up its loss, and its step leaves the remainder; this ends when
/// nothing is left or no step fits what is left.
pub open spec fn distribute(
    shares: Seq<int>,
    loss: Seq<Fraction>,
    steps: Seq<u32>,
    remainder: int,
) -> Seq<int>
    decreases remainder,
{
    if remainder <= 0 {
        shares
    } else {
        let i = pick(loss, steps, remainder);
        if i < 0 || steps[i] == 0 || steps[i] > remainder {
            shares
        } else {
            distribute(
                shares.update(i, shares[i] + 1),
                loss.update(i, loss[i].cleared()),
                steps,
                remainder - steps[i],
            )
        }
    }
}

/// The inputs for which shares are defined: one positive step per fraction,
/// positive denominators, and integer parts that fit into `sum`.
pub open spec fn roundable(fractions: Seq<Fraction>, steps: Seq<u32>, sum: int) -> bool {
    &&& fractions.len() == steps.len()
    &&& forall|i: int| 0 <= i < fractions.len() ==> fractions[i].denominator > 0
    &&& forall|i: int| 0 <= i < steps.len() ==> steps[i] > 0
    &&& weighted_sum(floors(fractions), steps) <= sum
}

/// The shares: the fractions rounded down, plus what is left of `sum`
/// handed out by largest loss.
pub open spec fn rounded_shares(fractions: Seq<Fraction>, steps: Seq<u32>, sum: int) -> Seq<int> {
    distribute(
        floors(fractions),
        losses(fractions),
        steps,
        sum - weighted_sum(floors(fractions), steps),
    )
}

/// What rounding yields on any input: the shares, or the first reason in
/// the order of [`RoundingError`] why there are none.
pub open spec fn rounding_outcome(fractions: Seq<Fraction>, steps: Seq<u32>, sum: int) -> Result<
    Seq<int>,
    RoundingError,
> {
    if fractions.len() != steps.len() {
        Err(RoundingError::LengthMismatch)
    } else if exists|i: int| 0 <= i < fractions.len() && fractions[i].denominator == 0 {
        Err(RoundingError::ZeroDenominator)
    } else if exists|i: int| 0 <= i < steps.len() && steps[i] == 0 {
        Err(RoundingError::ZeroStep)
    } else if weighted_sum(floors(fractions), steps) > sum {
        Err(RoundingError::BudgetExceeded)
    } else {
        Ok(rounded_shares(fractions, steps, sum))
    }
}

/// The values of a computed result.
pub open spec fn outcome(r: Result<Vec<u32>, RoundingError>) -> Result<Seq<int>, RoundingError> {
    match r {
        Ok(shares) => Ok(as_ints(shares@)),
        Err(e) => Err(e),
    }
}

/// The values of a vector of shares.
pub open spec fn as_ints(shares: Seq<u32>) -> Seq<int> {
    Seq::new(shares.len(), |i: int| shares[i] as int)
}

/// What `pick_upto` returns is an index whose step fits, and it returns none
/// only if no step fits.
pub proof fn lemma_pick_fits(loss: Seq<Fraction>, steps: Seq<u32>, remainder: int, n: nat)
    ensures
        ({
            let p = pick_upto(loss, steps, remainder, n);
            &&& -1 <= p < n
            &&& p >= 0 ==> steps[p] <= remainder
            &&& p < 0 ==> forall|j: int| 0 <= j < n ==> steps[j] > remainder
        }),
    decreases n,
{
    if n > 0 {
        lemma_pick_fits(loss, steps, remainder, (n - 1) as nat);
    }
}

/// One more share at index `i` adds the step of `i` to the weighted sum.
pub proof fn lemma_weighted_sum_update(shares: Seq<int>, steps: Seq<u32>, i: int, n: nat)
    requires
        0 <= i < shares.len(),
        n <= shares.len(),
    ensures
        weighted_sum_upto(shares.update(i, shares[i] + 1), steps, n) == weighted_sum_upto(
            shares,
            steps,
            n,
        ) + (if i < n {
            steps[i] as int
        } else {
            0
        }),
    decreases n,
{
    if n > 0 {
        lemma_weighted_sum_update(shares, steps, i, (n - 1) as nat);
        let updated = shares.update(i, shares[i] + 1);
        if i == n - 1 {
            assert(updated[n - 1] * steps[n - 1] == shares[n - 1] * steps[n - 1] + steps[n - 1])
                by (nonlinear_arith)
                requires
                    updated[n - 1] == shares[n - 1] + 1,
            ;
        }
    }
}

/// The weighted sum of non-negative shares grows with the number of indices
/// summed, and bounds each share whose step is positive.
pub proof fn lemma_weighted_sum_monotone(shares: Seq<int>, steps: Seq<u32>, m: nat, n: nat)
    requires
        m <= n <= shares.len(),
        forall|i: int| 0 <= i < shares.len() ==> shares[i] >= 0,
    ensures
        0 <= weighted_sum_upto(shares, steps, m) <= weighted_sum_upto(shares, steps, n),
        forall|i: int| 0 <= i < n && steps[i] > 0 ==> shares[i] <= weighted_sum_upto(shares, steps,
            n),
    decreases n,
{
    if n > 0 {
        assert(shares[n - 1] * steps[n - 1] >= 0) by (nonlinear_arith)
            requires
                shares[n - 1] >= 0,
                steps[n - 1] >= 0,
        ;
        if steps[n - 1] > 0 {
            assert(shares[n - 1] * steps[n - 1] >= shares[n - 1]) by (nonlinear_arith)
                requires
                    shares[n - 1] >= 0,
                    steps[n - 1] >= 1,
            ;
        }
        if m < n {
            lemma_weighted_sum_monotone(shares, steps, m, (n - 1) as nat);
        } else {
            lemma_weighted_sum_monotone(shares, steps, (n - 1) as nat, (n - 1) as nat);
        }
    }
}

/// Handing out a remainder keeps the number of shares, takes nothing away,
/// never occupies more than was there and the remainder together, and leaves
/// something unassigned only if every step is larger than what is left.
pub proof fn lemma_distribute(shares: Seq<int>, loss: Seq<Fraction>, steps: Seq<u32>,
    remainder: int)
    requires
        shares.len() == steps.len(),
        loss.len() == steps.len(),
        forall|i: int| 0 <= i < steps.len() ==> steps[i] > 0,
        remainder >= 0,
    ensures
        ({
            let r = distribute(shares, loss, steps, remainder);
            let left = weighted_sum(shares, steps) + remainder - weighted_sum(r, steps);
            &&& r.len() == shares.len()
            &&& forall|i: int| 0 <= i < r.len() ==> shares[i] <= r[i]
            &&& left >= 0
            &&& left > 0 ==> forall|i: int| 0 <= i < steps.len() ==> steps[i] > left
        }),
    decreases remainder,
{
    if remainder > 0 {
        let i = pick(loss, steps, remainder);
        lemma_pick_fits(loss, steps, remainder, loss.len());
        if i < 0 || steps[i] == 0 || steps[i] > remainder {
        } else {
            let next = shares.update(i, shares[i] + 1);
            lemma_weighted_sum_update(shares, steps, i, shares.len());
            lemma_distribute(next, loss.update(i, loss[i].cleared()), steps, remainder - steps[i]);
        }
    }
}

/// The rounded shares never occupy more than `sum`; they occupy exactly
/// `sum` unless every step is larger than what stayed unassigned, and so
/// whenever some step is one.
pub proof fn lemma_rounded_shares_within_budget(fractions: Seq<Fraction>, steps: Seq<u32>, sum: int)
    requires
        roundable(fractions, steps, sum),
    ensures
        ({
            let r = rounded_shares(fractions, steps, sum);
            let used = weighted_sum(r, steps);
            &&& r.len() == fractions.len()
            &&& forall|i: int| 0 <= i < r.len() ==> r[i] >= fractions[i].floor()
            &&& used <= sum
            &&& used < sum ==> forall|i: int| 0 <= i < steps.len() ==> steps[i] > sum - used
            &&& (exists|i: int| 0 <= i < steps.len() && steps[i] == 1) ==> used == sum
        }),
{
    let base = floors(fractions);
    lemma_distribute(base, losses(fractions), steps, sum - weighted_sum(base, steps));
}

/// Finds the index that receives the next step.
fn pick_index(loss: &Vec<Fraction>, steps: &Vec<u32>, remainder: u32) -> (r: Option<usize>)
    requires
        loss.len() == steps.len(),
    ensures
        match r {
            Some(i) => i as int == pick(loss@, steps@, remainder as int),
            None => pick(loss@, steps@, remainder as int) < 0,
        },
{
    let n = loss.len();
    let mut best: Option<usize> = None;
    let mut j: usize = 0;
    while j < n
        invariant
            j <= n,
            n == loss.len(),
            n == steps.len(),
            match best {
                Some(i) => i as int == pick_upto(loss@, steps@, remainder as int, j as nat),
                None => pick_upto(loss@, steps@, remainder as int, j as nat) < 0,
            },
        decreases n - j,
    {
        proof {
            lemma_pick_fits(loss@, steps@, remainder as int, j as nat);
        }
        if steps[j] <= remainder {
            match best {
                None => {
                    best = Some(j);
                },
                Some(i) => {
                    if loss[j].is_greater(&loss[i]) {
                        best = Some(j);
                    }
                },
            }
        }
        j += 1;
    }
    best
}

/// Rounds fractional shares to integers: every share is rounded down, and
/// what is then left of `sum` is handed out in steps, each time to the share
/// that lost most by the rounding among those whose step still fits, the
/// first of them where several lost the same. A share that received a step
/// counts as having lost nothing. `steps[i]` is what one unit of share `i`
/// occupies.
pub fn round_to_sum(fractions: &[Fraction], steps: &Vec<u32>, sum: u32) -> (r: Result<
    Vec<u32>,
    RoundingError,
>)
    ensures
        outcome(r) == rounding_outcome(fractions@, steps@, sum as int),
{
    let n = fractions.len();
    if n != steps.len() {
        return Err(RoundingError::LengthMismatch);
    }
    let mut i: usize = 0;
    while i < n
        invariant
            i <= n,
            n == fractions@.len(),
            n == steps@.len(),
            forall|j: int| 0 <= j < i ==> fractions@[j].denominator > 0,
        decreases n - i,
    {
        if fractions[i].denominator == 0 {
            return Err(RoundingError::ZeroDenominator);
        }
        i += 1;
    }
    i = 0;
    while i < n
        invariant
            i <= n,
            n == fractions@.len(),
            n == steps@.len(),
            forall|j: int| 0 <= j < n ==> fractions@[j].denominator > 0,
            forall|j: int| 0 <= j < i ==> steps@[j] > 0,
        decreases n - i,
    {
        if steps[i] == 0 {
            return Err(RoundingError::ZeroStep);
        }
        i += 1;
    }
    let ghost base = floors(fractions@);
    let mut rounded: Vec<u32> = Vec::new();
    let mut loss: Vec<Fraction> = Vec::new();
    let mut used: u32 = 0;
    i = 0;
    while i < n
        invariant
            i <= n,
            n == fractions@.len(),
            n == steps@.len(),
            base == floors(fractions@),
            forall|j: int| 0 <= j < n ==> fractions@[j].denominator > 0,
            forall|j: int| 0 <= j < n ==> steps@[j] > 0,
            rounded@.len() == i,
            loss@.len() == i,
            forall|j: int| 0 <= j < i ==> rounded@[j] as int == base[j],
            forall|j: int| 0 <= j < i ==> loss@[j] == fractions@[j].loss(),
            used as int == weighted_sum_upto(base, steps@, i as nat),
            used <= sum,
        decreases n - i,
    {
        let f = fractions[i];
        let whole: u64 = f.numerator / f.denominator;
        let step: u32 = steps[i];
        let room: u32 = sum - used;
        proof {
            assert(base[i as int] == whole as int);
            lemma_weighted_sum_monotone(base, steps@, (i + 1) as nat, n as nat);
            if whole > room {
                assert(whole * step >= whole) by (nonlinear_arith)
                    requires
                        whole >= 0,
                        step >= 1,
                ;
            }
        }
        if whole > room as u64 {
            return Err(RoundingError::BudgetExceeded);
        }
        assert(whole * step <= 0xffff_ffff * 0xffff_ffff) by (nonlinear_arith)
            requires
                0 <= whole <= 0xffff_ffff,
                0 <= step <= 0xffff_ffff,
        ;
        let occupied: u64 = whole * (step as u64);
        if occupied > room as u64 {
            return Err(RoundingError::BudgetExceeded);
        }
        used = used + occupied as u32;
        rounded.push(whole as u32);
        loss.push(Fraction { numerator: f.numerator % f.denominator, denominator: f.denominator });
        i += 1;
    }
    let mut remainder: u32 = sum - used;
    proof {
        assert(as_ints(rounded@) =~= base);
        assert(loss@ =~= losses(fractions@));
    }
    while remainder > 0
        invariant
            n == steps@.len(),
            roundable(fractions@, steps@, sum as int),
            rounded@.len() == n,
            loss@.len() == n,
            forall|j: int| 0 <= j < n ==> steps@[j] > 0,
            forall|j: int| 0 <= j < n ==> as_ints(rounded@)[j] >= 0,
            weighted_sum(as_ints(rounded@), steps@) + remainder == sum,
            distribute(as_ints(rounded@), loss@, steps@, remainder as int) == rounded_shares(
                fractions@,
                steps@,
                sum as int,
            ),
        decreases remainder,
    {
        let ghost before = as_ints(rounded@);
        match pick_index(&loss, steps, remainder) {
            None => {
                return Ok(rounded);
            },
            Some(best) => {
                proof {
                    lemma_pick_fits(loss@, steps@, remainder as int, n as nat);
                    lemma_weighted_sum_monotone(before, steps@, n as nat, n as nat);
                    lemma_weighted_sum_update(before, steps@, best as int, n as nat);
                }
                remainder = remainder - steps[best];
                let cleared = Fraction { numerator: 0, denominator: loss[best].denominator };
                loss.set(best, cleared);
                let raised: u32 = rounded[best] + 1;
                rounded.set(best, raised);
                proof {
                    assert(as_ints(rounded@) =~= before.update(best as int, before[best as int]
                        + 1));
                }
            },
        }
    }
    Ok(rounded)
}

/// The share of the cores that each algorithm is due before rounding: the
/// part of the `m` instances that it wins, times the number of replicas of it
/// that fit into `num_cores`.
pub open spec fn share_fractions(
    counts: Seq<u32>,
    algorithms: Seq<Algorithm>,
    m: u32,
    num_cores: u32,
) -> Seq<Fraction> {
    Seq::new(
        counts.len(),
        |i: int|
            Fraction {
                numerator: (counts[i] * num_cores) as u64,
                denominator: (m * algorithms[i].num_threads) as u64,
            },
    )
}

/// The thread count of each algorithm.
pub open spec fn thread_counts(algorithms: Seq<Algorithm>) -> Seq<u32> {
    Seq::new(algorithms.len(), |i: int| algorithms[i].num_threads)
}

/// The sum of the first `n` counts.
pub open spec fn count_sum_upto(counts: Seq<u32>, n: nat) -> int
    decreases n,
{
    if n == 0 {
        0
    } else {
        count_sum_upto(counts, (n - 1) as nat) + counts[n - 1]
    }
}

/// The sum of the counts.
pub open spec fn count_sum(counts: Seq<u32>) -> int {
    count_sum_upto(counts, counts.len())
}

/// The integer parts of the first `n` due shares occupy no larger a part of
/// the cores than the first `n` algorithms win of the instances.
pub proof fn lemma_floors_within_wins(
    counts: Seq<u32>,
    algorithms: Seq<Algorithm>,
    m: u32,
    num_cores: u32,
    n: nat,
)
    requires
        counts.len() == algorithms.len(),
        n <= counts.len(),
        m > 0,
        forall|i: int| 0 <= i < algorithms.len() ==> (#[trigger] algorithms[i]).num_threads > 0,
    ensures
        0 <= weighted_sum_upto(
            floors(share_fractions(counts, algorithms, m, num_cores)),
            thread_counts(algorithms),
            n,
        ),
        m * weighted_sum_upto(
            floors(share_fractions(counts, algorithms, m, num_cores)),
            thread_counts(algorithms),
            n,
        ) <= num_cores * count_sum_upto(counts, n),
    decreases n,
{
    if n > 0 {
        lemma_floors_within_wins(counts, algorithms, m, num_cores, (n - 1) as nat);
        let fractions = share_fractions(counts, algorithms, m, num_cores);
        let before = weighted_sum_upto(floors(fractions), thread_counts(algorithms), (n - 1) as nat);
        let count = counts[n - 1] as int;
        let threads = algorithms[n - 1].num_threads as int;
        let due = count * num_cores;
        let unit = m * threads;
        assert(0 <= due <= 0xffff_ffff * 0xffff_ffff) by (nonlinear_arith)
            requires
                due == count * num_cores,
                0 <= count <= 0xffff_ffff,
                0 <= num_cores <= 0xffff_ffff,
        ;
        assert(0 < unit <= 0xffff_ffff * 0xffff_ffff) by (nonlinear_arith)
            requires
                unit == m * threads,
                0 < m <= 0xffff_ffff,
                0 < threads <= 0xffff_ffff,
        ;
        assert(fractions[n - 1].numerator == due);
        assert(fractions[n - 1].denominator == unit);
        let floor = due / unit;
        assert(floors(fractions)[n - 1] == floor);
        assert(thread_counts(algorithms)[n - 1] == threads);
        vstd::arithmetic::div_mod::lemma_fundamental_div_mod(due, unit);
        vstd::arithmetic::div_mod::lemma_mod_bound(due, unit);
        vstd::arithmetic::div_mod::lemma_div_pos_is_pos(due, unit);
        assert(m * (before + floor * threads) == m * before + unit * floor) by (nonlinear_arith)
            requires
                unit == m * threads,
        ;
        assert(num_cores * (count_sum_upto(counts, (n - 1) as nat) + count) == num_cores
            * count_sum_upto(counts, (n - 1) as nat) + due) by (nonlinear_arith)
            requires
                due == count * num_cores,
        ;
        assert(0 <= floor * threads) by (nonlinear_arith)
            requires
                0 <= floor,
                0 < threads,
        ;
    }
}

/// Where the algorithms have at least one thread each and win no more
/// instances in all than the `m > 0` instances there are, the initial
/// replicas are defined: the integer parts of the due shares fit into the
/// cores.
pub proof fn lemma_start_roundable(
    counts: Seq<u32>,
    algorithms: Seq<Algorithm>,
    m: u32,
    num_cores: u32,
)
    requires
        counts.len() == algorithms.len(),
        m > 0,
        forall|i: int| 0 <= i < algorithms.len() ==> (#[trigger] algorithms[i]).num_threads > 0,
        count_sum(counts) <= m,
    ensures
        roundable(
            share_fractions(counts, algorithms, m, num_cores),
            thread_counts(algorithms),
            num_cores as int,
        ),
        rounding_outcome(
            share_fractions(counts, algorithms, m, num_cores),
            thread_counts(algorithms),
            num_cores as int,
        ) is Ok,
{
    let fractions = share_fractions(counts, algorithms, m, num_cores);
    let steps = thread_counts(algorithms);
    lemma_floors_within_wins(counts, algorithms, m, num_cores, counts.len());
    let occupied = weighted_sum(floors(fractions), steps);
    assert(occupied <= num_cores) by (nonlinear_arith)
        requires
            m * occupied <= num_cores * count_sum(counts),
            count_sum(counts) <= m,
            0 < m,
            0 <= num_cores,
            0 <= occupied,
    ;
    assert forall|i: int| 0 <= i < fractions.len() implies fractions[i].denominator > 0 by {
        let threads = algorithms[i].num_threads as int;
        assert(0 < m * threads <= 0xffff_ffff * 0xffff_ffff) by (nonlinear_arith)
            requires
                0 < m <= 0xffff_ffff,
                0 < threads <= 0xffff_ffff,
        ;
    }
    assert forall|i: int| 0 <= i < steps.len() implies steps[i] > 0 by {
        assert(algorithms[i].num_threads > 0);
    }
}

/// The initial number of replicas of each algorithm: its due share of the
/// cores, rounded so that the replicas occupy `num_cores` cores where the
/// thread counts allow it. `counts[i]` is the number of the `m` instances on
/// which `algorithms[i]` is best.
pub fn get_b_start(counts: &Vec<u32>, algorithms: &Vec<Algorithm>, m: u32, num_cores: u32) -> (r:
    Result<Vec<u32>, RoundingError>)
    ensures
        counts@.len() != algorithms@.len() ==> r == Err::<Vec<u32>, RoundingError>(
            RoundingError::LengthMismatch,
        ),
        counts@.len() == algorithms@.len() ==> outcome(r) == rounding_outcome(
            share_fractions(counts@, algorithms@, m, num_cores),
            thread_counts(algorithms@),
            num_cores as int,
        ),
{
    let n = counts.len();
    if n != algorithms.len() {
        return Err(RoundingError::LengthMismatch);
    }
    let mut fractions: Vec<Fraction> = Vec::new();
    let mut steps: Vec<u32> = Vec::new();
    let mut i: usize = 0;
    while i < n
        invariant
            i <= n,
            n == counts@.len(),
            n == algorithms@.len(),
            fractions@.len() == i,
            steps@.len() == i,
            forall|j: int|
                0 <= j < i ==> fractions@[j] == share_fractions(counts@, algorithms@, m,
                    num_cores)[j],
            forall|j: int| 0 <= j < i ==> steps@[j] == algorithms@[j].num_threads,
        decreases n - i,
    {
        let threads: u32 = algorithms[i].num_threads;
        let count: u32 = counts[i];
        assert(count * num_cores <= 0xffff_ffff * 0xffff_ffff) by (nonlinear_arith)
            requires
                0 <= count <= 0xffff_ffff,
                0 <= num_cores <= 0xffff_ffff,
        ;
        assert(m * threads <= 0xffff_ffff * 0xffff_ffff) by (nonlinear_arith)
            requires
                0 <= m <= 0xffff_ffff,
                0 <= threads <= 0xffff_ffff,
        ;
        fractions.push(
            Fraction {
                numerator: (count as u64) * (num_cores as u64),
                denominator: (m as u64) * (threads as u64),
            },
        );
        steps.push(threads);
        i += 1;
    }
    proof {
        assert(fractions@ =~= share_fractions(counts@, algorithms@, m, num_cores));
        assert(steps@ =~= thread_counts(algorithms@));
    }
    round_to_sum(fractions.as_slice(), &steps, num_cores)
}

/// The replicas that a row of the solver's assignment matrix selects: the
/// matrix has one row of `num_cores` entries per algorithm, and entry `k` of
/// a row stands for `k + 1` replicas. Sums the selected entries among the
/// first `upto` of row `row`.
pub open spec fn selected_replicas(solution: Seq<bool>, row: int, num_cores: int, upto: nat) -> int
    decreases upto,
{
    if upto == 0 {
        0
    } else {
        selected_replicas(solution, row, num_cores, (upto - 1) as nat) + (if solution[row
            * num_cores + upto - 1] {
            upto as int
        } else {
            0
        })
    }
}

/// The name that a portfolio carries: the given name, followed
/// by `_opt` if the solution it comes from is optimal.
pub open spec fn named_as(portfolio_name: Seq<char>, opt: bool) -> Seq<char> {
    if opt {
        portfolio_name + "_opt"@
    } else {
        portfolio_name
    }
}

/// Reads a portfolio from the solver's assignment matrix, given row by row.
pub fn postprocess_solution(
    solution: &Vec<bool>,
    n: usize,
    num_cores: u32,
    algorithms: &Vec<Algorithm>,
    portfolio_name: &str,
    opt: bool,
) -> (p: Portfolio)
    requires
        solution@.len() == n * num_cores,
        algorithms@.len() == n,
    ensures
        p.name@ == named_as(portfolio_name@, opt),
        p.resource_assignments@.len() == n,
        forall|j: int|
            0 <= j < n ==> (#[trigger] p.resource_assignments@[j]).0 == algorithms@[j]
                && p.resource_assignments@[j].1 == selected_replicas(
                solution@,
                j,
                num_cores as int,
                num_cores as nat,
            ),
{
    let total: usize = solution.len();
    let mut resource_assignments: Vec<(Algorithm, u64)> = Vec::new();
    let mut j: usize = 0;
    while j < n
        invariant
            j <= n,
            total == n * num_cores,
            solution@.len() == n * num_cores,
            algorithms@.len() == n,
            resource_assignments@.len() == j,
            forall|i: int|
                0 <= i < j ==> (#[trigger] resource_assignments@[i]).0 == algorithms@[i]
                    && resource_assignments@[i].1 == selected_replicas(
                    solution@,
                    i,
                    num_cores as int,
                    num_cores as nat,
                ),
        decreases n - j,
    {
        let mut replicas: u64 = 0;
        let mut k: u32 = 0;
        while k < num_cores
            invariant
                j < n,
                k <= num_cores,
                total == n * num_cores,
                solution@.len() == n * num_cores,
                replicas as int == selected_replicas(solution@, j as int, num_cores as int,
                    k as nat),
                replicas <= k * num_cores,
            decreases num_cores - k,
        {
            assert(0 <= j * num_cores <= j * num_cores + k < n * num_cores && (k
                + 1) * num_cores <= 0xffff_ffff
                * 0xffff_ffff && k * num_cores + k + 1 <= (k + 1) * num_cores) by (nonlinear_arith)
                requires
                    0 <= j < n,
                    0 <= k < num_cores <= 0xffff_ffff,
            ;
            if solution[j * (num_cores as usize) + (k as usize)] {
                replicas = replicas + (k as u64 + 1);
            }
            k += 1;
        }
        resource_assignments.push((algorithms[j].clone(), replicas));
        j += 1;
    }
    let mut name = String::from_str(portfolio_name);
    if opt {
        name.append("_opt");
    }
    Portfolio { name, resource_assignments }
}

/// The assignment matrix that stands for the given replica counts: in the
/// row of each algorithm with a positive count `v`, entry `v - 1` is set.
pub open spec fn is_start_matrix(matrix: Seq<bool>, assignment: Seq<u32>, n: int,
    num_cores: int) -> bool {
    &&& matrix.len() == n * num_cores
    &&& forall|i: int, k: int|
        0 <= i < n && 0 <= k < num_cores ==> (#[trigger] matrix[i * num_cores + k] <==> (i
            < assignment.len() && assignment[i] == k + 1))
}

/// Whether replica counts can be written as an assignment matrix of `n` rows:
/// there are at most `n` of them, none is larger than `num_cores`, and the
/// matrix fits into memory.
pub open spec fn fits_matrix(assignment: Seq<u32>, n: int, num_cores: int) -> bool {
    &&& assignment.len() <= n
    &&& n * num_cores <= usize::MAX
    &&& forall|i: int| 0 <= i < assignment.len() ==> assignment[i] <= num_cores
}

/// Writes replica counts as the assignment matrix that the solver starts
/// from, if they fit one.
pub fn start_matrix(assignment: &Vec<u32>, n: usize, num_cores: u32) -> (r: Option<Vec<bool>>)
    ensures
        r is Some <==> fits_matrix(assignment@, n as int, num_cores as int),
        r is Some ==> is_start_matrix(r->Some_0@, assignment@, n as int, num_cores as int),
{
    if assignment.len() > n {
        return None;
    }
    let size = match n.checked_mul(num_cores as usize) {
        Some(size) => size,
        None => {
            return None;
        },
    };
    let mut i: usize = 0;
    while i < assignment.len()
        invariant
            i <= assignment@.len(),
            forall|j: int| 0 <= j < i ==> assignment@[j] <= num_cores,
        decreases assignment@.len() - i,
    {
        if assignment[i] > num_cores {
            return None;
        }
        i += 1;
    }
    let mut matrix: Vec<bool> = Vec::new();
    let mut row: usize = 0;
    while row < n
        invariant
            row <= n,
            size == n * num_cores,
            assignment@.len() <= n,
            matrix@.len() == row * num_cores,
            forall|i: int, k: int|
                0 <= i < row && 0 <= k < num_cores ==> (#[trigger] matrix@[i * num_cores + k] <==> (
                i < assignment@.len() && assignment@[i] == k + 1)),
        decreases n - row,
    {
        let wanted: u32 = if row < assignment.len() {
            assignment[row]
        } else {
            0
        };
        let ghost before = matrix@;
        let mut k: u32 = 0;
        while k < num_cores
            invariant
                row < n,
                k <= num_cores,
                size == n * num_cores,
                matrix@.len() == row * num_cores + k,
                before.len() == row * num_cores,
                forall|x: int| 0 <= x < before.len() ==> matrix@[x] == before[x],
                forall|c: int|
                    0 <= c < k ==> (#[trigger] matrix@[row * num_cores + c] <==> wanted == c + 1),
            decreases num_cores - k,
        {
            matrix.push(wanted == k + 1);
            k += 1;
        }
        proof {
            assert((row + 1) * num_cores == row * num_cores + num_cores) by (nonlinear_arith);
            assert forall|i: int, c: int| 0 <= i < row + 1 && 0 <= c < num_cores implies (
            #[trigger] matrix@[i * num_cores + c] <==> (i < assignment@.len() && assignment@[i] == c
                + 1)) by {
                if i < row {
                    assert(i * num_cores + c < row * num_cores) by (nonlinear_arith)
                        requires
                            0 <= i < row,
                            0 <= c < num_cores,
                    ;
                    assert(before[i * num_cores + c] <==> (i < assignment@.len() && assignment@[i]
                        == c + 1));
                }
            }
        }
        row += 1;
    }
    Some(matrix)
}

/// A loss that exceeds another exceeds every loss that the other is not
/// exceeded by.
pub proof fn lemma_exceeds_chain(a: Fraction, b: Fraction, c: Fraction)
    requires
        a.denominator > 0,
        b.denominator > 0,
        c.denominator > 0,
        a.exceeds(b),
        !c.exceeds(b),
    ensures
        a.exceeds(c),
        !c.exceeds(a),
{
    let (an, ad) = (a.numerator as int, a.denominator as int);
    let (bn, bd) = (b.numerator as int, b.denominator as int);
    let (cn, cd) = (c.numerator as int, c.denominator as int);
    assert(an * cd > cn * ad) by (nonlinear_arith)
        requires
            an * bd > bn * ad,
            cn * bd <= bn * cd,
            ad > 0,
            bd > 0,
            cd > 0,
            an >= 0,
            bn >= 0,
            cn >= 0,
    {
        assert((an * bd) * cd > (bn * ad) * cd);
        assert((cn * bd) * ad <= (bn * cd) * ad);
        assert((bn * ad) * cd == (bn * cd) * ad);
        assert((an * cd) * bd == (an * bd) * cd);
        assert((cn * ad) * bd == (cn * bd) * ad);
        assert((an * cd) * bd > (cn * ad) * bd);
    }
}

/// What `pick_upto` returns has the largest loss among the indices whose
/// step fits, and is the first index with that loss.
pub proof fn lemma_pick_first_largest(loss: Seq<Fraction>, steps: Seq<u32>, remainder: int, n: nat)
    requires
        n <= loss.len(),
        forall|i: int| 0 <= i < loss.len() ==> (#[trigger] loss[i]).denominator > 0,
    ensures
        ({
            let p = pick_upto(loss, steps, remainder, n);
            p >= 0 ==> forall|j: int|
                0 <= j < n && steps[j] <= remainder ==> !(#[trigger] loss[j]).exceeds(loss[p])
                    && (j < p
                    ==> loss[p].exceeds(loss[j]))
        }),
    decreases n,
{
    if n > 0 {
        lemma_pick_first_largest(loss, steps, remainder, (n - 1) as nat);
        lemma_pick_fits(loss, steps, remainder, (n - 1) as nat);
        let best = pick_upto(loss, steps, remainder, (n - 1) as nat);
        let p = pick_upto(loss, steps, remainder, n);
        let last = n - 1;
        if p >= 0 {
            assert forall|j: int| 0 <= j < n && steps[j] <= remainder
                implies !(#[trigger] loss[j]).exceeds(
                loss[p],
            ) && (j < p ==> loss[p].exceeds(loss[j])) by {
                if steps[last] <= remainder && best >= 0 && loss[last].exceeds(loss[best])
                    && j < last {
                    lemma_exceeds_chain(loss[last], loss[best], loss[j]);
                }
            }
        }
    }
}

/// The replica counts that the solver starts from where none are given:
/// the rounded shares by wins, if the data counts wins and they can be
/// rounded.
pub open spec fn heuristic_start(data: Data, num_cores: u32) -> Option<Seq<int>> {
    match data.best_per_instance_count {
        None => None,
        Some(counts) => if data.num_instances > u32::MAX || counts@.len() != data.algorithms@.len()
            || exists|j: int| 0 <= j < counts@.len() && #[trigger] counts@[j] > u32::MAX {
            None
        } else {
            match rounding_outcome(
                share_fractions(narrowed(counts@), data.algorithms@, data.num_instances as u32,
                    num_cores),
                thread_counts(data.algorithms@),
                num_cores as int,
            ) {
                Ok(shares) => Some(shares),
                Err(_) => None,
            }
        },
    }
}

/// Counts as 32-bit numbers.
pub open spec fn narrowed(counts: Seq<u64>) -> Seq<u32> {
    Seq::new(counts.len(), |j: int| counts[j] as u32)
}

/// Holds counts as 32-bit numbers, if they fit.
pub fn narrow_counts(counts: &Vec<u64>) -> (r: Option<Vec<u32>>)
    ensures
        r is Some <==> forall|j: int| 0 <= j < counts@.len() ==> #[trigger] counts@[j] <= u32::MAX,
        r is Some ==> r->Some_0@ == narrowed(counts@),
{
    let mut narrow: Vec<u32> = Vec::new();
    let mut j: usize = 0;
    while j < counts.len()
        invariant
            j <= counts@.len(),
            narrow@.len() == j,
            forall|x: int| 0 <= x < j ==> #[trigger] counts@[x] <= u32::MAX,
            forall|x: int| 0 <= x < j ==> #[trigger] narrow@[x] == counts@[x] as u32,
        decreases counts@.len() - j,
    {
        if counts[j] > u32::MAX as u64 {
            return None;
        }
        narrow.push(counts[j] as u32);
        j += 1;
    }
    proof {
        assert(narrow@ =~= narrowed(counts@));
    }
    Some(narrow)
}

/// The values of optional replica counts.
pub open spec fn optional_ints(shares: Option<Vec<u32>>) -> Option<Seq<int>> {
    match shares {
        Some(shares) => Some(as_ints(shares@)),
        None => None,
    }
}

/// The replica counts that the solver starts from: the given ones, or else
/// the ones that the wins suggest, if any.
pub fn initial_assignment(data: &Data, num_cores: u32, given: Option<Vec<u32>>)
    -> (r: Option<Vec<u32>>)
    ensures
        given is Some ==> r == given,
        given is None ==> optional_ints(r) == heuristic_start(*data, num_cores),
{
    match given {
        Some(assignment) => Some(assignment),
        None => match &data.best_per_instance_count {
            None => None,
            Some(counts) => {
                if data.num_instances > u32::MAX as usize {
                    return None;
                }
                let narrow = match narrow_counts(&counts.to_vec()) {
                    Some(narrow) => narrow,
                    None => {
                        return None;
                    },
                };
                let algorithms = data.algorithms.to_vec();
                match get_b_start(&narrow, &algorithms, data.num_instances as u32, num_cores) {
                    Ok(shares) => Some(shares),
                    Err(_) => None,
                }
            },
        },
    }
}

/// The row of a start matrix selects the replicas that it stands for.
pub proof fn lemma_start_matrix_replicas(
    matrix: Seq<bool>,
    assignment: Seq<u32>,
    n: int,
    num_cores: int,
    row: int,
    upto: nat,
)
    requires
        0 <= row < n,
        upto <= num_cores,
        is_start_matrix(matrix, assignment, n, num_cores),
    ensures
        selected_replicas(matrix, row, num_cores, upto) == if row < assignment.len() && 1
            <= assignment[row] <= upto {
            assignment[row] as int
        } else {
            0
        },
    decreases upto,
{
    if upto > 0 {
        lemma_start_matrix_replicas(matrix, assignment, n, num_cores, row, (upto - 1) as nat);
        let k = upto - 1;
        assert(matrix[row * num_cores + k] <==> (row < assignment.len() && assignment[row] == k
            + 1));
    }
}

/// The replicas that replica counts give to the algorithm at place `j`.
pub open spec fn assigned(assignment: Seq<u32>, j: int) -> int {
    if j < assignment.len() {
        assignment[j] as int
    } else {
        0
    }
}

/// The portfolio that the solver starts from, with the assignment matrix
/// that stands for it, if the replica counts fit the algorithms and the
/// cores.
pub fn initial_portfolio(assignment: &Vec<u32>, algorithms: &Vec<Algorithm>, num_cores: u32) -> (r:
    Option<(Vec<bool>, Portfolio)>)
    ensures
        r is Some <==> fits_matrix(assignment@, algorithms@.len() as int, num_cores as int),
        r is Some ==> {
            let (matrix, portfolio) = r->Some_0;
            &&& is_start_matrix(matrix@, assignment@, algorithms@.len() as int, num_cores as int)
            &&& portfolio.name@ == "initial_portfolio"@
            &&& portfolio.resource_assignments@.len() == algorithms@.len()
            &&& forall|j: int|
                0 <= j < algorithms@.len() ==> (#[trigger] portfolio.resource_assignments@[j]).0
                    == algorithms@[j] && portfolio.resource_assignments@[j].1 == assigned(
                    assignment@,
                    j,
                )
        },
{
    match start_matrix(assignment, algorithms.len(), num_cores) {
        None => None,
        Some(matrix) => {
            let portfolio = postprocess_solution(
                &matrix,
                algorithms.len(),
                num_cores,
                algorithms,
                "initial_portfolio",
                false,
            );
            proof {
                assert forall|j: int| 0 <= j < algorithms@.len() implies (
                #[trigger] portfolio.resource_assignments@[j]).1 == assigned(assignment@, j) by {
                    lemma_start_matrix_replicas(
                        matrix@,
                        assignment@,
                        algorithms@.len() as int,
                        num_cores as int,
                        j,
                        num_cores as nat,
                    );
                }
            }
            Some((matrix, portfolio))
        },
    }
}

/// Assignments that give every algorithm its share occupy the weighted sum
/// of the shares.
pub proof fn lemma_assignments_occupy(assignments: Seq<(Algorithm, u64)>, shares: Seq<int>,
    steps: Seq<u32>, n: nat)
    requires
        n <= assignments.len(),
        assignments.len() == shares.len(),
        assignments.len() == steps.len(),
        forall|j: int|
            0 <= j < assignments.len() ==> (#[trigger] assignments[j]).1 == shares[j]
                && assignments[j].0.num_threads == steps[j],
    ensures
        cores_used(assignments.take(n as int)) == weighted_sum_upto(shares, steps, n),
    decreases n,
{
    if n > 0 {
        lemma_assignments_occupy(assignments, shares, steps, (n - 1) as nat);
        let front = assignments.take(n as int);
        assert(front.drop_last() =~= assignments.take(n - 1));
        assert(front.last() == assignments[n - 1]);
    } else {
        assert(assignments.take(0) =~= Seq::<(Algorithm, u64)>::empty());
    }
}

/// A portfolio that gives every algorithm its rounded share never occupies
/// more than the cores there are, and occupies all of them as soon as an
/// algorithm is single-threaded.
pub proof fn lemma_start_within_budget(
    assignments: Seq<(Algorithm, u64)>,
    fractions: Seq<Fraction>,
    steps: Seq<u32>,
    num_cores: int,
)
    requires
        roundable(fractions, steps, num_cores),
        assignments.len() == steps.len(),
        forall|j: int|
            0 <= j < assignments.len() ==> (#[trigger] assignments[j]).1 == rounded_shares(
                fractions,
                steps,
                num_cores,
            )[j] && assignments[j].0.num_threads == steps[j],
    ensures
        cores_used(assignments) <= num_cores,
        keeps_budget(assignments, num_cores),
{
    let shares = rounded_shares(fractions, steps, num_cores);
    lemma_rounded_shares_within_budget(fractions, steps, num_cores);
    lemma_assignments_occupy(assignments, shares, steps, assignments.len());
    assert(assignments.take(assignments.len() as int) =~= assignments);
    if exists|j: int| 0 <= j < assignments.len() && (#[trigger] assignments[j]).0.num_threads == 1 {
        let j = choose|j: int| 0 <= j < assignments.len()
            && (#[trigger] assignments[j]).0.num_threads == 1;
        assert(steps[j] == 1);
    }
}

/// Where the algorithms have at least one thread each and win no more
/// instances in all than the `m > 0` instances there are, a portfolio that
/// gives every algorithm its initial replicas never occupies more than the
/// cores there are, and occupies all of them as soon as an algorithm is
/// single-threaded.
pub proof fn lemma_initial_replicas_within_budget(
    assignments: Seq<(Algorithm, u64)>,
    counts: Seq<u32>,
    algorithms: Seq<Algorithm>,
    m: u32,
    num_cores: u32,
)
    requires
        counts.len() == algorithms.len(),
        m > 0,
        forall|i: int| 0 <= i < algorithms.len() ==> (#[trigger] algorithms[i]).num_threads > 0,
        count_sum(counts) <= m,
        assignments.len() == algorithms.len(),
        forall|j: int|
            0 <= j < assignments.len() ==> (#[trigger] assignments[j]).0 == algorithms[j]
                && assignments[j].1 == rounded_shares(
                share_fractions(counts, algorithms, m, num_cores),
                thread_counts(algorithms),
                num_cores as int,
            )[j],
    ensures
        cores_used(assignments) <= num_cores,
        keeps_budget(assignments, num_cores as int),
{
    lemma_start_roundable(counts, algorithms, m, num_cores);
    lemma_start_within_budget(
        assignments,
        share_fractions(counts, algorithms, m, num_cores),
        thread_counts(algorithms),
        num_cores as int,
    );
}

} // verus!
