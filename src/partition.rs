//! Splitting `len` items into `workers` contiguous, balanced ranges.

use vstd::prelude::*;

verus! {

/// The size of every range but the last: `len / workers`, rounded up.
pub open spec fn chunk_len(len: nat, workers: nat) -> nat
    recommends
        workers >= 1,
{
    len / workers + if len % workers == 0 { 0nat } else { 1nat }
}

pub open spec fn min_nat(a: nat, b: nat) -> nat {
    if a <= b { a } else { b }
}

/// First index of range `i`.
pub open spec fn range_start(len: nat, workers: nat, i: nat) -> nat {
    min_nat(i * chunk_len(len, workers), len)
}

/// One past the last index of range `i`.
pub open spec fn range_end(len: nat, workers: nat, i: nat) -> nat {
    min_nat((i + 1) * chunk_len(len, workers), len)
}

/// `len / workers`, rounded up.
pub fn chunk_size(len: usize, workers: usize) -> (r: usize)
    requires
        workers >= 1,
    ensures
        r == chunk_len(len as nat, workers as nat),
{
    let q = len / workers;
    if len % workers == 0 {
        q
    } else {
        proof {
            assert(q <= len) by (nonlinear_arith)
                requires q == len / workers, workers >= 1;
            assert(q < len) by (nonlinear_arith)
                requires q == len / workers, workers >= 1, len % workers != 0, q <= len;
        }
        q + 1
    }
}

/// `min(i * c, len)` without overflow.
fn clamped_product(i: usize, c: usize, len: usize) -> (r: usize)
    ensures
        r == min_nat((i * c) as nat, len as nat),
{
    if c == 0 {
        0
    } else if i > len / c {
        proof {
            assert(i * c > len) by (nonlinear_arith)
                requires i > len / c, c > 0;
        }
        len
    } else {
        proof {
            assert(i * c <= len) by (nonlinear_arith)
                requires i <= len / c, c > 0;
        }
        i * c
    }
}

/// The half-open range `[start, end)` given to worker `index`.
pub fn partition_range(len: usize, workers: usize, index: usize) -> (r: (usize, usize))
    requires
        workers >= 1,
        index < workers,
    ensures
        r.0 == range_start(len as nat, workers as nat, index as nat),
        r.1 == range_end(len as nat, workers as nat, index as nat),
{
    let c = chunk_size(len, workers);
    let start = clamped_product(index, c, len);
    let end = clamped_product(index + 1, c, len);
    (start, end)
}

/// All `workers` ranges, in worker order.
pub fn partitions(len: usize, workers: usize) -> (r: Vec<(usize, usize)>)
    requires
        workers >= 1,
    ensures
        r@.len() == workers,
        forall|i: int|
            0 <= i < workers ==> #[trigger] r@[i] == (
                range_start(len as nat, workers as nat, i as nat) as usize,
                range_end(len as nat, workers as nat, i as nat) as usize,
            ),
{
    let mut r: Vec<(usize, usize)> = Vec::new();
    let mut i: usize = 0;
    while i < workers
        invariant
            workers >= 1,
            i <= workers,
            r@.len() == i,
            forall|j: int|
                0 <= j < i ==> #[trigger] r@[j] == (
                    range_start(len as nat, workers as nat, j as nat) as usize,
                    range_end(len as nat, workers as nat, j as nat) as usize,
                ),
        decreases workers - i,
    {
        let p = partition_range(len, workers, i);
        r.push(p);
        i = i + 1;
    }
    r
}

proof fn lemma_chunk_covers(len: nat, workers: nat)
    requires
        workers >= 1,
    ensures
        workers * chunk_len(len, workers) >= len,
        len > 0 ==> chunk_len(len, workers) >= 1,
{
    let q = len / workers;
    let r = len % workers;
    assert(len == workers * q + r) by (nonlinear_arith)
        requires workers >= 1, q == len / workers, r == len % workers;
    assert(workers * chunk_len(len, workers) >= len) by (nonlinear_arith)
        requires
            len == workers * q + r,
            r < workers,
            chunk_len(len, workers) == q + if r == 0 { 0nat } else { 1nat },
    ;
    if len > 0 && q == 0 {
        assert(r == len);
    }
}

/// The ranges tile `[0, len)`: the first starts at 0, each ends where the next
/// starts, none runs backwards, and the last ends at `len`.
pub proof fn lemma_partitions_tile(len: nat, workers: nat)
    requires
        workers >= 1,
    ensures
        range_start(len, workers, 0) == 0,
        range_end(len, workers, (workers - 1) as nat) == len,
        forall|i: nat| #[trigger]
            range_start(len, workers, i) <= range_end(len, workers, i),
        forall|i: nat|
            i + 1 < workers ==> #[trigger] range_end(len, workers, i) == range_start(
                len,
                workers,
                i + 1,
            ),
{
    let c = chunk_len(len, workers);
    lemma_chunk_covers(len, workers);
    assert(((workers - 1) as nat + 1) * c == workers * c);
    assert forall|i: nat| #[trigger] range_start(len, workers, i) <= range_end(len, workers, i) by {
        assert(i * c <= (i + 1) * c) by (nonlinear_arith);
    }
}

/// Every index below `len` lies in exactly one range: the one numbered
/// `k / chunk_len(len, workers)`.
pub proof fn lemma_partitions_cover(len: nat, workers: nat, k: nat)
    requires
        workers >= 1,
        k < len,
    ensures
        ({
            let i = k / chunk_len(len, workers);
            &&& i < workers
            &&& range_start(len, workers, i) <= k < range_end(len, workers, i)
            &&& forall|j: nat|
                j < workers && j != i ==> !(#[trigger] range_start(len, workers, j) <= k < range_end(
                    len,
                    workers,
                    j,
                ))
        }),
{
    let c = chunk_len(len, workers);
    lemma_chunk_covers(len, workers);
    let i = k / c;
    assert(i * c <= k < (i + 1) * c) by (nonlinear_arith)
        requires c >= 1, i == k / c;
    assert(i < workers) by (nonlinear_arith)
        requires i * c <= k, k < len, workers * c >= len, c >= 1;
    assert forall|j: nat|
        j < workers && j != i implies !(#[trigger] range_start(len, workers, j) <= k < range_end(
            len,
            workers,
            j,
        )) by {
        if j < i {
            assert((j + 1) * c <= i * c) by (nonlinear_arith)
                requires j < i;
        } else {
            assert((i + 1) * c <= j * c) by (nonlinear_arith)
                requires j > i;
        }
    }
}

/// A range is empty only when there are more workers than items. This holds
/// on the splits where the last worker receives an item or there are more
/// workers than items, and not beyond them: with ten items and six workers
/// each range holds two and the sixth is empty.
pub proof fn lemma_empty_ranges_need_surplus_workers(len: nat, workers: nat, i: nat)
    requires
        workers >= 1,
        workers > len || (workers - 1) * chunk_len(len, workers) < len,
        i < workers,
        range_start(len, workers, i) == range_end(len, workers, i),
    ensures
        workers > len,
{
    let c = chunk_len(len, workers);
    if workers <= len {
        lemma_chunk_covers(len, workers);
        assert(i * c <= (workers - 1) * c) by (nonlinear_arith)
            requires i <= workers - 1;
        assert(i * c < (i + 1) * c) by (nonlinear_arith)
            requires c >= 1;
    }
}

/// Once a range is empty, every later range is empty too.
pub proof fn lemma_empty_ranges_stay_empty(len: nat, workers: nat, i: nat, j: nat)
    requires
        workers >= 1,
        i <= j,
        range_start(len, workers, i) == range_end(len, workers, i),
    ensures
        range_start(len, workers, j) == range_end(len, workers, j),
{
    let c = chunk_len(len, workers);
    if c > 0 {
        assert(i * c < (i + 1) * c) by (nonlinear_arith)
            requires c > 0;
        assert(i * c <= j * c) by (nonlinear_arith)
            requires i <= j;
        assert(j * c <= (j + 1) * c) by (nonlinear_arith);
    } else {
        assert(j * c == 0 && (j + 1) * c == 0) by (nonlinear_arith)
            requires c == 0;
    }
}

} // verus!
