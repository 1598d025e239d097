//! Fixed-point representation of measured quantities.
//!
//! Qualities, running times, ratios and timeouts are non-negative decimal
//! numbers. They are stored as integers counting millionths: the number `x`
//! is held as `x * SCALE`. One step of this grid is the resolution below
//! which a value counts as zero.
use vstd::prelude::*;
use vstd::arithmetic::div_mod::{
    lemma_div_plus_one, lemma_fundamental_div_mod, lemma_fundamental_div_mod_converse,
    lemma_mod_bound,
};

verus! {

/// The fixed-point representation of the number one.
pub const SCALE: u64 = 1_000_000;

/// The value that stands for "never observed, assume the worst outcome".
pub const WORST: u64 = 0xffff_ffff_ffff_ffff;

/// A quality of zero marks a degenerate reading; it is replaced by one.
pub open spec fn normalized(quality: u64) -> u64 {
    if quality == 0 {
        SCALE
    } else {
        quality
    }
}

/// Replaces a degenerate quality reading by one and keeps every other value.
pub fn normalize_quality(quality: u64) -> (r: u64)
    ensures
        r == normalized(quality),
        r > 0,
{
    if quality == 0 {
        SCALE
    } else {
        quality
    }
}

/// The mean of `count` values with the sum `sum`, rounded down to the grid.
pub open spec fn mean(sum: int, count: int) -> int {
    sum / count
}

/// The mean of values is not below the sum where the sum is negative.
proof fn lemma_mean_at_least(sum: int, count: int)
    requires
        count > 0,
    ensures
        sum < 0 ==> mean(sum, count) >= sum,
        sum >= 0 ==> mean(sum, count) >= 0,
{
    lemma_fundamental_div_mod(sum, count);
    lemma_mod_bound(sum, count);
    let q = sum / count;
    let r = sum % count;
    assert(sum < 0 ==> q >= sum) by (nonlinear_arith)
        requires
            sum == count * q + r,
            0 <= r < count,
    ;
    assert(sum >= 0 ==> q >= 0) by (nonlinear_arith)
        requires
            sum == count * q + r,
            0 <= r < count,
    ;
}

/// Computes the mean of `count` values from their sum, rounded down.
pub fn mean_of(sum: i128, count: usize) -> (r: i128)
    requires
        count > 0,
    ensures
        r == mean(sum as int, count as int),
{
    if sum == i128::MIN {
        proof {
            lemma_div_plus_one(sum as int, count as int);
            lemma_mean_at_least(sum + count, count as int);
        }
        let shifted = mean_above_least(sum + count as i128, count);
        shifted - 1
    } else {
        mean_above_least(sum, count)
    }
}

/// Computes the mean of `count` values from their sum, rounded down, for a
/// sum whose opposite can be held.
fn mean_above_least(sum: i128, count: usize) -> (r: i128)
    requires
        count > 0,
        sum > i128::MIN,
    ensures
        r == mean(sum as int, count as int),
{
    if sum >= 0 {
        let whole: u128 = (sum as u128) / (count as u128);
        whole as i128
    } else {
        let opposite: u128 = (-sum) as u128;
        let whole: u128 = opposite / (count as u128);
        let rest: u128 = opposite % (count as u128);
        proof {
            lemma_fundamental_div_mod(opposite as int, count as int);
            assert(count * whole == whole * count) by (nonlinear_arith);
        }
        if rest == 0 {
            proof {
                assert(sum as int == (-(whole as int)) * (count as int) + 0) by (nonlinear_arith)
                    requires
                        opposite == whole * count + rest,
                        rest == 0,
                        sum as int == -(opposite as int),
                ;
                lemma_fundamental_div_mod_converse(sum as int, count as int, -(whole as int), 0);
            }
            -(whole as i128)
        } else {
            proof {
                assert(sum as int == (-(whole as int) - 1) * (count as int) + (count - rest))
                    by (nonlinear_arith)
                    requires
                        opposite == whole * count + rest,
                        sum as int == -(opposite as int),
                ;
                lemma_fundamental_div_mod_converse(
                    sum as int,
                    count as int,
                    -(whole as int) - 1,
                    count - rest,
                );
            }
            -(whole as i128) - 1
        }
    }
}

/// `root` is the square root of `n`, rounded down.
pub open spec fn is_sqrt_floor(n: int, root: int) -> bool {
    root >= 0 && root * root <= n < (root + 1) * (root + 1)
}

/// The square root of `n`, rounded down.
pub open spec fn sqrt_floor(n: int) -> int {
    choose|root: int| is_sqrt_floor(n, root)
}

/// A number has at most one rounded-down square root.
pub proof fn lemma_sqrt_floor_unique(n: int, root: int)
    requires
        is_sqrt_floor(n, root),
    ensures
        sqrt_floor(n) == root,
{
    let other = sqrt_floor(n);
    assert(is_sqrt_floor(n, other));
    if other < root {
        assert((other + 1) * (other + 1) <= root * root) by (nonlinear_arith)
            requires
                0 <= other,
                other + 1 <= root,
        ;
    }
    if root < other {
        assert((root + 1) * (root + 1) <= other * other) by (nonlinear_arith)
            requires
                0 <= root,
                root + 1 <= other,
        ;
    }
}

/// Computes the square root of `n`, rounded down.
pub fn isqrt(n: u128) -> (root: u64)
    ensures
        root == sqrt_floor(n as int),
        is_sqrt_floor(n as int, root as int),
{
    let mut low: u128 = 0;
    let mut high: u128 = 0x1_0000_0000_0000_0000;
    assert(high * high > n) by (nonlinear_arith)
        requires
            high == 0x1_0000_0000_0000_0000,
            n <= 0xffff_ffff_ffff_ffff_ffff_ffff_ffff_ffff,
    ;
    assert(low * low <= n) by (nonlinear_arith)
        requires
            low == 0,
            n >= 0,
    ;
    while high - low > 1
        invariant
            low < high <= 0x1_0000_0000_0000_0000,
            low * low <= n < high * high,
        decreases high - low,
    {
        let middle: u128 = low + (high - low) / 2;
        assert(middle * middle <= 0xffff_ffff_ffff_ffff * 0xffff_ffff_ffff_ffff)
            by (nonlinear_arith)
            requires
                0 <= middle <= 0xffff_ffff_ffff_ffff,
        ;
        if middle * middle <= n {
            low = middle;
        } else {
            high = middle;
        }
    }
    proof {
        lemma_sqrt_floor_unique(n as int, low as int);
    }
    low as u64
}

/// The mean of values between `-bound` and `bound` lies between them.
pub proof fn lemma_mean_bounded(sum: int, count: int, bound: int)
    requires
        count > 0,
        bound >= 0,
        -bound * count <= sum <= bound * count,
    ensures
        -bound <= mean(sum, count) <= bound,
{
    lemma_fundamental_div_mod(sum, count);
    let q = sum / count;
    let r = sum % count;
    lemma_mod_bound(sum, count);
    assert(-bound <= q <= bound) by (nonlinear_arith)
        requires
            sum == count * q + r,
            0 <= r < count,
            -bound * count <= sum <= bound * count,
            count > 0,
    ;
}

} // verus!
