//! Primality by trial division, and the split of one number's divisor search
//! over several workers that share a single "no divisor seen" flag.

use vstd::prelude::*;
use crate::partition::{chunk_len, lemma_partitions_cover, lemma_partitions_tile, range_end, range_start};

verus! {

pub open spec fn is_prime_spec(n: nat) -> bool {
    n >= 2 && forall|d: nat| 2 <= d < n ==> #[trigger] (n % d) != 0
}

/// Some `d` in `[lo, hi)` divides `n`.
pub open spec fn divisor_in(n: nat, lo: nat, hi: nat) -> bool {
    exists|d: nat| lo <= d < hi && #[trigger] (n % d) == 0
}

/// `r` is the integer square root of `n`.
pub open spec fn is_isqrt(n: nat, r: nat) -> bool {
    r * r <= n < (r + 1) * (r + 1)
}

/// When no `k` in `[2, d)` divides `n` and `d * d > n`, no `k` in `[d, n)`
/// does either: its cofactor would be a smaller divisor.
proof fn lemma_no_large_divisor(n: nat, d: nat, k: nat)
    requires
        2 <= d,
        d * d > n,
        forall|j: nat| 2 <= j < d ==> #[trigger] (n % j) != 0,
        d <= k < n,
    ensures
        n % k != 0,
{
    if n % k == 0 {
        let m = n / k;
        assert(n == m * k) by (nonlinear_arith)
            requires n % k == 0, m == n / k, k >= 2;
        assert(m >= 2) by (nonlinear_arith)
            requires n == m * k, k < n;
        assert(m < d) by (nonlinear_arith)
            requires n == m * k, k >= d, d * d > n, d >= 2;
        assert(n % m == 0) by (nonlinear_arith)
            requires n == m * k, m >= 2;
        assert(n % m != 0);
    }
}

/// Whether `number` is prime, trying divisors up to its square root.
pub fn is_prime(number: u64) -> (r: bool)
    ensures
        r == is_prime_spec(number as nat),
{
    if number < 2 {
        return false;
    }
    let mut d: u64 = 2;
    while d <= number / d
        invariant
            2 <= d <= number,
            forall|j: nat| 2 <= j < d ==> #[trigger] ((number as nat) % j) != 0,
        decreases number - d,
    {
        if number % d == 0 {
            assert(d * d <= number) by (nonlinear_arith)
                requires d <= number / d, d >= 2;
            assert(d < number) by (nonlinear_arith)
                requires d * d <= number, d >= 2;
            return false;
        }
        assert((d + 1) <= number) by (nonlinear_arith)
            requires d <= number / d, d >= 2;
        d = d + 1;
    }
    proof {
        assert(d * d > number) by (nonlinear_arith)
            requires d > number / d, d >= 2;
        assert forall|k: nat| 2 <= k < number implies #[trigger] ((number as nat) % k) != 0 by {
            if k >= d {
                lemma_no_large_divisor(number as nat, d as nat, k);
            }
        }
    }
    true
}

/// `floor(sqrt(n))`.
pub fn integer_sqrt(n: u64) -> (r: u64)
    ensures
        is_isqrt(n as nat, r as nat),
{
    let mut r: u64 = 0;
    while r + 1 <= n / (r + 1)
        invariant
            r * r <= n,
            r <= n,
            r <= 0xffff_ffff,
        decreases n - r,
    {
        assert((r + 1) * (r + 1) <= n) by (nonlinear_arith)
            requires r + 1 <= n / ((r + 1) as u64), r < n;
        assert(r + 1 <= n) by (nonlinear_arith)
            requires (r + 1) * (r + 1) <= n;
        assert(r + 1 <= 0xffff_ffff) by (nonlinear_arith)
            requires (r + 1) * (r + 1) <= n, n <= u64::MAX;
        r = r + 1;
    }
    assert((r + 1) * (r + 1) > n) by (nonlinear_arith)
        requires r + 1 > n / ((r + 1) as u64), r < u64::MAX;
    r
}

/// How many candidate divisors `[2, boundary]` holds.
pub open spec fn candidate_count(boundary: nat) -> nat {
    if boundary >= 2 { (boundary - 1) as nat } else { 0 }
}

/// The candidates `[lo, hi)` that worker `i` of `workers` tries.
pub open spec fn divisor_range(boundary: nat, workers: nat, i: nat) -> (nat, nat) {
    (
        2 + range_start(candidate_count(boundary), workers, i),
        2 + range_end(candidate_count(boundary), workers, i),
    )
}

/// `min(i * c, len)` without overflow.
fn clamped_product_u64(i: u64, c: u64, len: u64) -> (r: u64)
    ensures
        r == (if i * c <= len { i * c } else { len as int }),
{
    if c == 0 {
        0
    } else if i > len / c {
        assert(i * c > len) by (nonlinear_arith)
            requires i > len / c, c > 0;
        len
    } else {
        assert(i * c <= len) by (nonlinear_arith)
            requires i <= len / c, c > 0;
        i * c
    }
}

/// The candidates `[lo, hi)` that worker `index` of `workers` tries when the
/// search runs up to `boundary`.
pub fn divisor_search_range(boundary: u64, workers: usize, index: usize) -> (r: (u64, u64))
    requires
        workers >= 1,
        index < workers,
        boundary * boundary <= u64::MAX,
    ensures
        (r.0 as nat, r.1 as nat) == divisor_range(boundary as nat, workers as nat, index as nat),
{
    let count: u64 = if boundary >= 2 { boundary - 1 } else { 0 };
    let w = workers as u64;
    let per: u64 = count / w + if count % w == 0 { 0 } else { 1 };
    proof {
        assert(count / w < count || count % w == 0) by (nonlinear_arith)
            requires w >= 1, count / w <= count;
        assert(count / w <= count) by (nonlinear_arith)
            requires w >= 1;
    }
    assert(boundary <= 0xffff_ffff) by (nonlinear_arith)
        requires boundary * boundary <= u64::MAX;
    let start = clamped_product_u64(index as u64, per, count);
    let end = clamped_product_u64(index as u64 + 1, per, count);
    (2 + start, 2 + end)
}

/// Whether some `d` in `[lo, hi)` divides `n`: one worker's share of a search.
pub fn scan_divisors(n: u64, lo: u64, hi: u64) -> (r: bool)
    requires
        lo >= 2,
    ensures
        r == divisor_in(n as nat, lo as nat, hi as nat),
{
    let mut d = lo;
    while d < hi
        invariant
            lo <= d,
            lo >= 2,
            forall|j: nat| lo <= j < d ==> #[trigger] ((n as nat) % j) != 0,
        decreases hi - d,
    {
        if n % d == 0 {
            return true;
        }
        d = d + 1;
    }
    false
}

/// What the shared flag says once every worker is done: `n` is prime when it
/// is at least two and no worker saw a divisor.
pub fn prime_verdict(n: u64, divisor_seen: bool) -> (r: bool)
    ensures
        r == (n >= 2 && !divisor_seen),
{
    n >= 2 && !divisor_seen
}

/// However many workers share the search up to `floor(sqrt(n))`, "at least
/// two and no worker saw a divisor" is exactly primality.
pub proof fn lemma_split_search_decides_primality(n: nat, boundary: nat, workers: nat)
    requires
        workers >= 1,
        is_isqrt(n, boundary),
    ensures
        (n >= 2 && !exists|i: nat|
            i < workers && #[trigger] divisor_in(
                n,
                divisor_range(boundary, workers, i).0,
                divisor_range(boundary, workers, i).1,
            )) == is_prime_spec(n),
{
    let count = candidate_count(boundary);
    lemma_partitions_tile(count, workers);
    let seen = exists|i: nat|
        i < workers && #[trigger] divisor_in(
            n,
            divisor_range(boundary, workers, i).0,
            divisor_range(boundary, workers, i).1,
        );
    // A divisor seen by a worker is a divisor in `[2, boundary]`, below `n`.
    if seen {
        let i = choose|i: nat|
            i < workers && #[trigger] divisor_in(
                n,
                divisor_range(boundary, workers, i).0,
                divisor_range(boundary, workers, i).1,
            );
        let (lo, hi) = divisor_range(boundary, workers, i);
        let d = choose|d: nat| lo <= d < hi && #[trigger] (n % d) == 0;
        assert(d <= boundary);
        if n >= 2 {
            assert(d * d <= n) by (nonlinear_arith)
                requires d <= boundary, boundary * boundary <= n;
            assert(d < n) by (nonlinear_arith)
                requires d * d <= n, d >= 2;
            assert(!is_prime_spec(n));
        }
    } else if n >= 2 {
        // No worker saw one, so `[2, boundary]` holds none, and `[boundary + 1, n)`
        // holds none either.
        assert forall|j: nat| 2 <= j < boundary + 1 implies #[trigger] (n % j) != 0 by {
            let k = (j - 2) as nat;
            assert(k < count);
            lemma_partitions_cover(count, workers, k);
            let i = k / chunk_len(count, workers);
            assert(i < workers);
            assert(!divisor_in(
                n,
                divisor_range(boundary, workers, i).0,
                divisor_range(boundary, workers, i).1,
            ));
        }
        assert(boundary >= 1) by (nonlinear_arith)
            requires n >= 2, n < (boundary + 1) * (boundary + 1);
        assert forall|k: nat| 2 <= k < n implies #[trigger] (n % k) != 0 by {
            if k >= boundary + 1 {
                lemma_no_large_divisor(n, boundary + 1, k);
            }
        }
    }
}

} // verus!
