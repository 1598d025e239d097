//! The expected best quality of several replicas under a normal
//! approximation.
//!
//! The minimum of `s` draws from a normal distribution with mean `m` and
//! standard deviation `d` is expected near `m - d * a(s)`, where the spread
//! `a(s)` is the square root of twice the natural logarithm of `s`. The
//! spreads are not computed here: a [`SpreadTable`] holds them, for 1, 2, ...
//! replicas in turn, and is accepted only if it starts at zero and never
//! falls.
use vstd::prelude::*;
use vstd::arithmetic::div_mod::lemma_div_is_ordered;
use crate::fixed::SCALE;

verus! {

/// Spreads for 1, 2, ... replicas: the first is zero, and none is smaller
/// than the one before.
pub open spec fn valid_spreads(spreads: Seq<u64>) -> bool {
    &&& spreads.len() > 0 ==> spreads[0] == 0
    &&& forall|i: int, j: int| 0 <= i <= j < spreads.len() ==> spreads[i] <= spreads[j]
}

/// The spreads of the expected minimum (fixed-point), by number of replicas.
pub struct SpreadTable {
    spreads: Vec<u64>,
}

impl View for SpreadTable {
    type V = Seq<u64>;

    closed spec fn view(&self) -> Seq<u64> {
        self.spreads@
    }
}

impl SpreadTable {
    /// Every table that exists holds valid spreads.
    #[verifier::type_invariant]
    closed spec fn wf(&self) -> bool {
        valid_spreads(self.spreads@)
    }

    /// Accepts `spreads[s - 1]` as the spread for `s` replicas, if the
    /// spreads are valid.
    pub fn new(spreads: Vec<u64>) -> (r: Option<SpreadTable>)
        ensures
            r is Some <==> valid_spreads(spreads@),
            r is Some ==> r->Some_0@ == spreads@,
    {
        if spreads.len() > 0 && spreads[0] != 0 {
            return None;
        }
        let mut i: usize = 1;
        while i < spreads.len()
            invariant
                1 <= i,
                spreads@.len() > 0 ==> spreads@[0] == 0,
                forall|a: int, b: int| 0 <= a <= b < i && b < spreads@.len()
                    ==> spreads@[a] <= spreads@[b],
            decreases spreads@.len() - i,
        {
            if spreads[i - 1] > spreads[i] {
                return None;
            }
            i += 1;
        }
        Some(SpreadTable { spreads })
    }

    /// The largest number of replicas that the table has a spread for.
    pub fn len(&self) -> (n: usize)
        ensures
            n == self@.len(),
    {
        self.spreads.len()
    }

    /// The spread for `sample_size` replicas, if the table has one.
    pub fn spread(&self, sample_size: u32) -> (r: Option<u64>)
        ensures
            valid_spreads(self@),
            r is Some <==> 1 <= sample_size <= self@.len(),
            r is Some ==> r->Some_0 == self@[sample_size - 1],
    {
        proof {
            use_type_invariant(self);
        }
        if 1 <= sample_size && sample_size as usize <= self.spreads.len() {
            Some(self.spreads[sample_size as usize - 1])
        } else {
            None
        }
    }
}

/// The estimate before it is held to the lower bound: the mean less the
/// standard deviation times the spread.
pub open spec fn raw_estimate(mean: int, std: int, spread: int) -> int {
    mean - (std * spread) / (SCALE as int)
}

/// The expected best quality: the raw estimate, but not less than the lower
/// bound.
pub open spec fn estimate(mean: int, std: int, spread: int, lower_bound: int) -> int {
    if raw_estimate(mean, std, spread) >= lower_bound {
        raw_estimate(mean, std, spread)
    } else {
        lower_bound
    }
}

/// The expected best quality of a number of replicas whose spread is
/// `spread`, from the mean and the standard deviation of the observed
/// qualities and a quality that is known to be reachable.
pub fn expected_min_with_spread(mean: u64, std: u64, spread: u64, lower_bound: u64) -> (e_min: u64)
    ensures
        e_min == estimate(mean as int, std as int, spread as int, lower_bound as int),
        e_min >= lower_bound,
{
    assert(std * spread <= 0xffff_ffff_ffff_ffff * 0xffff_ffff_ffff_ffff) by (nonlinear_arith)
        requires
            0 <= std <= 0xffff_ffff_ffff_ffff,
            0 <= spread <= 0xffff_ffff_ffff_ffff,
    ;
    let product: u128 = (std as u128) * (spread as u128);
    let drop: u128 = product / (SCALE as u128);
    if drop > mean as u128 {
        lower_bound
    } else {
        let raw: u64 = mean - drop as u64;
        if raw >= lower_bound {
            raw
        } else {
            lower_bound
        }
    }
}

/// The expected best quality of `sample_size` replicas, if the table has a
/// spread for that many.
pub fn expected_min(mean: u64, std: u64, sample_size: u32, lower_bound: u64,
    table: &SpreadTable) -> (r:
    Option<u64>)
    ensures
        r is Some <==> 1 <= sample_size <= table@.len(),
        r is Some ==> r->Some_0 == estimate(
            mean as int,
            std as int,
            table@[sample_size - 1] as int,
            lower_bound as int,
        ),
{
    match table.spread(sample_size) {
        Some(spread) => Some(expected_min_with_spread(mean, std, spread, lower_bound)),
        None => None,
    }
}

/// For a single replica the expected best quality is the mean, or the lower
/// bound if that is larger.
pub proof fn lemma_single_replica(mean: int, std: int, lower_bound: int, spreads: Seq<u64>)
    requires
        valid_spreads(spreads),
        spreads.len() >= 1,
    ensures
        estimate(mean, std, spreads[0] as int, lower_bound) == if mean >= lower_bound {
            mean
        } else {
            lower_bound
        },
{
    assert(std * 0 == 0) by (nonlinear_arith);
}

/// More replicas never raise the estimate: neither the raw estimate nor the
/// one held to the lower bound, which in turn never falls below that bound.
pub proof fn lemma_more_replicas(
    mean: int,
    std: int,
    lower_bound: int,
    spreads: Seq<u64>,
    fewer: int,
    more: int,
)
    requires
        valid_spreads(spreads),
        std >= 0,
        1 <= fewer <= more <= spreads.len(),
    ensures
        raw_estimate(mean, std, spreads[more - 1] as int) <= raw_estimate(
            mean,
            std,
            spreads[fewer - 1] as int,
        ),
        estimate(mean, std, spreads[more - 1] as int, lower_bound) <= estimate(
            mean,
            std,
            spreads[fewer - 1] as int,
            lower_bound,
        ),
        estimate(mean, std, spreads[more - 1] as int, lower_bound) >= lower_bound,
{
    let low = spreads[fewer - 1] as int;
    let high = spreads[more - 1] as int;
    assert(std * low <= std * high) by (nonlinear_arith)
        requires
            std >= 0,
            low <= high,
    ;
    lemma_div_is_ordered(std * low, std * high, SCALE as int);
}

} // verus!
