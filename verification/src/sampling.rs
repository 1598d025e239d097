//! Drawing samples of observed qualities.
use vstd::prelude::*;
use polars::prelude::{NamedFrom, PolarsError, Series};

verus! {

/// The error type of polars. Its values are carried through unopened.
#[verifier::external_type_specification]
#[verifier::external_body]
pub struct ExPolarsError(polars::prelude::PolarsError);

/// Calls `Series::sample_n` of polars: draws `n` of the values with a
/// generator seeded with `seed`, either with replacement, each uniformly
/// among all of them, or without, shuffled. The contract claims that the draw
/// succeeds, has `n` elements, and that each of them is one of the values;
/// without replacement no value is drawn more often than it is there. Which
/// ones it draws is left open: the generator that polars seeds differs
/// between machines. The limits are those of the row index of polars, and
/// without replacement no more can be drawn than there is.
#[verifier::external_body]
fn sample_n(values: &Vec<u64>, n: usize, with_replacement: bool, seed: u64) -> (r: Result<
    Vec<u64>,
    PolarsError,
>)
    requires
        0 < values@.len() <= u32::MAX,
        n <= u32::MAX,
        !with_replacement ==> n <= values@.len(),
    ensures
        r is Ok,
        r->Ok_0@.len() == n,
        forall|i: int| 0 <= i < n ==> values@.contains(#[trigger] r->Ok_0@[i]),
        !with_replacement ==> r->Ok_0@.to_multiset().subset_of(values@.to_multiset()),
{
    let sample =
        Series::new("quality", values.as_slice()).sample_n(n, with_replacement, true, Some(seed))?;
    Ok(sample.u64()?.into_no_null_iter().collect())
}

/// Draws `n` of the values with a generator seeded with `seed`, with or
/// without replacement.
pub(crate) fn draw(values: &Vec<u64>, n: usize, with_replacement: bool, seed: u64) -> (sample: Vec<
    u64,
>)
    requires
        0 < values@.len() <= u32::MAX,
        n <= u32::MAX,
        !with_replacement ==> n <= values@.len(),
    ensures
        sample@.len() == n,
        forall|i: int| 0 <= i < n ==> values@.contains(#[trigger] sample@[i]),
        !with_replacement ==> sample@.to_multiset().subset_of(values@.to_multiset()),
{
    match sample_n(values, n, with_replacement, seed) {
        Ok(sample) => sample,
        Err(_) => Vec::new(),
    }
}

/// What is asked of the sampler to estimate the best of `replicas` replicas:
/// as many values as there are replicas, from a generator seeded with the
/// number of replicas.
pub fn sample_request(replicas: u32) -> (r: (usize, u64))
    ensures
        r.0 == replicas,
        r.1 == replicas,
{
    (replicas as usize, replicas as u64)
}

/// The least value of a sample, if it has a value.
pub fn sample_minimum(sample: &Vec<u64>) -> (r: Option<u64>)
    ensures
        r is Some <==> sample@.len() > 0,
        r is Some ==> sample@.contains(r->Some_0) && forall|i: int|
            0 <= i < sample@.len() ==> r->Some_0 <= sample@[i],
{
    if sample.len() == 0 {
        return None;
    }
    let mut least: u64 = sample[0];
    let mut i: usize = 1;
    while i < sample.len()
        invariant
            1 <= i <= sample@.len(),
            sample@.contains(least),
            forall|j: int| 0 <= j < i ==> least <= sample@[j],
        decreases sample@.len() - i,
    {
        if sample[i] < least {
            least = sample[i];
        }
        i += 1;
    }
    Some(least)
}

} // verus!
