//! The parts of a parallel map that decide: how many workers, which items each
//! one gets, what each one reports, and how the reports are put back in input
//! order however they arrive.

use vstd::prelude::*;
use vstd::seq_lib::group_to_multiset_ensures;
use crate::basics::{factorial, factorial_of};
use crate::partition::{
    lemma_empty_ranges_stay_empty, lemma_partitions_tile, partition_range, partitions, range_end,
    range_start,
};

verus! {

/// Why a batch or a pool could not produce its results.
#[derive(Debug, Clone, Copy, PartialEq, Eq)]
pub enum EngineError {
    /// A worker count below one.
    InvalidArgument,
    /// A worker thread ended abnormally.
    WorkerPanicked,
    /// A channel closed before every expected message had passed.
    ChannelClosedUnexpectedly,
}

/// Worker count used when none is given: what the host reports, or 4 when it
/// reports nothing usable.
pub fn default_worker_count(detected: Option<usize>) -> (r: usize)
    ensures
        r == match detected {
            Some(n) => if n >= 1 { n } else { 4 },
            None => 4,
        },
        r >= 1,
{
    match detected {
        Some(n) => if n >= 1 { n } else { 4 },
        None => 4,
    }
}

/// The ranges of a batch of `len` items over `workers` workers, or
/// `InvalidArgument` when there is no worker.
pub fn plan_batch(len: usize, workers: usize) -> (r: Result<Vec<(usize, usize)>, EngineError>)
    ensures
        workers == 0 <==> r == Err::<Vec<(usize, usize)>, EngineError>(EngineError::InvalidArgument),
        workers >= 1 ==> r is Ok && r->Ok_0@.len() == workers && forall|i: int|
            0 <= i < workers ==> #[trigger] r->Ok_0@[i] == (
                range_start(len as nat, workers as nat, i as nat) as usize,
                range_end(len as nat, workers as nat, i as nat) as usize,
            ),
{
    if workers == 0 {
        Err(EngineError::InvalidArgument)
    } else {
        Ok(partitions(len, workers))
    }
}

/// The ranges of a batch that hold items, in worker order: one thread is
/// started for each. They are the first ranges of the split; every later one
/// is empty. `InvalidArgument` when there is no worker.
pub fn busy_ranges(len: usize, workers: usize) -> (r: Result<Vec<(usize, usize)>, EngineError>)
    ensures
        workers == 0 <==> r == Err::<Vec<(usize, usize)>, EngineError>(EngineError::InvalidArgument),
        workers >= 1 ==> r is Ok && is_busy_split(r->Ok_0@, len as nat, workers as nat),
        workers >= 1 ==> forall|j: int| 0 <= j < r->Ok_0@.len() ==> #[trigger] r->Ok_0@[j].0 < r->Ok_0@[j].1,
{
    if workers == 0 {
        return Err(EngineError::InvalidArgument);
    }
    let mut v: Vec<(usize, usize)> = Vec::new();
    let mut i: usize = 0;
    let mut idle = false;
    while i < workers && !idle
        invariant
            workers >= 1,
            i <= workers,
            v@.len() == i,
            forall|j: int|
                0 <= j < i ==> #[trigger] v@[j] == (
                    range_start(len as nat, workers as nat, j as nat) as usize,
                    range_end(len as nat, workers as nat, j as nat) as usize,
                ) && v@[j].0 < v@[j].1,
            idle ==> i < workers && range_start(len as nat, workers as nat, i as nat) == range_end(
                len as nat,
                workers as nat,
                i as nat,
            ),
        decreases workers - i + if idle { 0int } else { 1int },
    {
        let (start, end) = partition_range(len, workers, i);
        if start < end {
            v.push((start, end));
            i = i + 1;
        } else {
            proof {
                lemma_partitions_tile(len as nat, workers as nat);
            }
            idle = true;
        }
    }
    proof {
        assert forall|k: nat| v@.len() <= k < workers implies #[trigger] range_start(
            len as nat,
            workers as nat,
            k,
        ) == range_end(len as nat, workers as nat, k) by {
            lemma_empty_ranges_stay_empty(len as nat, workers as nat, i as nat, k);
        }
    }
    Ok(v)
}

/// Each value paired with its index.
pub open spec fn tag_all<T>(vals: Seq<T>) -> Seq<(usize, T)> {
    Seq::new(vals.len(), |k: int| (k as usize, vals[k]))
}

pub open spec fn squares_of(items: Seq<i32>) -> Seq<i32> {
    items.map_values(|x: i32| (x * x) as i32)
}

pub open spec fn factorials_of(items: Seq<u32>) -> Seq<u32> {
    items.map_values(|x: u32| factorial_of(x as nat) as u32)
}

/// The report of the worker that owns `[start, end)` in a batch of squares:
/// `(k, items[k]^2)` for each `k` of its range, in order.
pub fn square_chunk(items: &Vec<i32>, start: usize, end: usize) -> (r: Vec<(usize, i32)>)
    requires
        start <= end <= items@.len(),
        forall|k: int| start <= k < end ==> i32::MIN <= #[trigger] items@[k] * items@[k] <= i32::MAX,
    ensures
        r@ == tag_all(squares_of(items@)).subrange(start as int, end as int),
{
    let mut r: Vec<(usize, i32)> = Vec::new();
    let mut k: usize = start;
    while k < end
        invariant
            start <= k <= end <= items@.len(),
            forall|j: int| start <= j < end ==> i32::MIN <= #[trigger] items@[j] * items@[j] <= i32::MAX,
            r@ == tag_all(squares_of(items@)).subrange(start as int, k as int),
        decreases end - k,
    {
        let x = items[k];
        assert(i32::MIN <= items@[k as int] * items@[k as int] <= i32::MAX);
        r.push((k, x * x));
        k = k + 1;
        assert(r@ =~= tag_all(squares_of(items@)).subrange(start as int, k as int));
    }
    r
}

/// The report of the worker that owns `[start, end)` in a batch of factorials:
/// `(k, items[k]!)` for each `k` of its range, in order.
pub fn factorial_chunk(items: &Vec<u32>, start: usize, end: usize) -> (r: Vec<(usize, u32)>)
    requires
        start <= end <= items@.len(),
        forall|k: int| start <= k < end ==> factorial_of(#[trigger] items@[k] as nat) <= u32::MAX,
    ensures
        r@ == tag_all(factorials_of(items@)).subrange(start as int, end as int),
{
    let mut r: Vec<(usize, u32)> = Vec::new();
    let mut k: usize = start;
    while k < end
        invariant
            start <= k <= end <= items@.len(),
            forall|j: int| start <= j < end ==> factorial_of(#[trigger] items@[j] as nat) <= u32::MAX,
            r@ == tag_all(factorials_of(items@)).subrange(start as int, k as int),
        decreases end - k,
    {
        let f = factorial(items[k]);
        r.push((k, f));
        k = k + 1;
        assert(r@ =~= tag_all(factorials_of(items@)).subrange(start as int, k as int));
    }
    r
}

/// Some entry of `s` carries the key `k`.
pub open spec fn has_key<T>(s: Seq<(usize, T)>, k: int) -> bool {
    exists|i: int| 0 <= i < s.len() && s[i].0 == k
}

/// Every key is below `n`, no key repeats, and every index below `n` is a key.
pub open spec fn is_index_tagging<T>(s: Seq<(usize, T)>, n: nat) -> bool {
    &&& forall|i: int| 0 <= i < s.len() ==> (#[trigger] s[i].0 as nat) < n
    &&& forall|i: int, j: int| 0 <= i < j < s.len() ==> #[trigger] s[i].0 != #[trigger] s[j].0
    &&& forall|k: int| 0 <= k < n ==> #[trigger] has_key(s, k)
}

/// Puts every reported value at the index it is tagged with. `None` unless
/// the tags are exactly the indices below `len`, each once.
pub fn reassemble<T: Copy>(len: usize, tagged: &Vec<(usize, T)>) -> (r: Option<Vec<T>>)
    ensures
        r is Some <==> is_index_tagging(tagged@, len as nat),
        r is Some ==> r->Some_0@.len() == len && forall|i: int|
            0 <= i < tagged@.len() ==> r->Some_0@[#[trigger] tagged@[i].0 as int] == tagged@[i].1,
{
    let mut slots: Vec<Option<T>> = Vec::new();
    let mut k: usize = 0;
    while k < len
        invariant
            k <= len,
            slots@.len() == k,
            forall|j: int| 0 <= j < k ==> #[trigger] slots@[j] is None,
        decreases len - k,
    {
        slots.push(None);
        k = k + 1;
    }
    let mut m: usize = 0;
    while m < tagged.len()
        invariant
            m <= tagged@.len(),
            slots@.len() == len,
            forall|i: int| 0 <= i < m ==> (#[trigger] tagged@[i].0 as nat) < len,
            forall|i: int, j: int| 0 <= i < j < m ==> #[trigger] tagged@[i].0 != #[trigger] tagged@[j].0,
            forall|j: int|
                0 <= j < len ==> (#[trigger] slots@[j] is Some <==> exists|i: int|
                    0 <= i < m && tagged@[i].0 == j),
            forall|i: int|
                0 <= i < m ==> slots@[#[trigger] tagged@[i].0 as int] == Some(tagged@[i].1),
        decreases tagged@.len() - m,
    {
        let (key, val) = tagged[m];
        if key >= len {
            assert(!(tagged@[m as int].0 < len));
            return None;
        }
        match slots[key] {
            Some(_) => {
                proof {
                    let i = choose|i: int| 0 <= i < m && tagged@[i].0 == key;
                    assert(tagged@[i].0 == tagged@[m as int].0);
                }
                return None;
            },
            None => {},
        }
        slots.set(key, Some(val));
        proof {
            assert forall|j: int|
                0 <= j < len implies (#[trigger] slots@[j] is Some <==> exists|i: int|
                    0 <= i < m + 1 && tagged@[i].0 == j) by {
                if j == key {
                    assert(tagged@[m as int].0 == j);
                } else if slots@[j] is Some {
                    let i = choose|i: int| 0 <= i < m && tagged@[i].0 == j;
                    assert(0 <= i < m + 1 && tagged@[i].0 == j);
                }
            }
        }
        m = m + 1;
    }
    let mut out: Vec<T> = Vec::new();
    let mut k: usize = 0;
    while k < len
        invariant
            k <= len,
            slots@.len() == len,
            m == tagged@.len(),
            out@.len() == k,
            forall|j: int|
                0 <= j < len ==> (#[trigger] slots@[j] is Some <==> exists|i: int|
                    0 <= i < m && tagged@[i].0 == j),
            forall|j: int| 0 <= j < k ==> slots@[j] == Some(#[trigger] out@[j]),
            forall|j: int| 0 <= j < k ==> #[trigger] has_key(tagged@, j),
        decreases len - k,
    {
        match slots[k] {
            Some(v) => {
                out.push(v);
            },
            None => {
                assert(!has_key(tagged@, k as int));
                return None;
            },
        }
        k = k + 1;
    }
    Some(out)
}

/// The reports of workers `0..j` of a batch over `tagged`, one after another.
pub open spec fn reports_upto<T>(tagged: Seq<(usize, T)>, workers: nat, j: nat) -> Seq<(usize, T)>
    decreases j,
{
    if j == 0 {
        Seq::empty()
    } else {
        reports_upto(tagged, workers, (j - 1) as nat) + tagged.subrange(
            range_start(tagged.len(), workers, (j - 1) as nat) as int,
            range_end(tagged.len(), workers, (j - 1) as nat) as int,
        )
    }
}

/// Everything the workers of a batch over `vals` report, worker by worker.
pub open spec fn batch_reports<T>(vals: Seq<T>, workers: nat) -> Seq<(usize, T)> {
    reports_upto(tag_all(vals), workers, workers)
}

proof fn lemma_reports_upto<T>(tagged: Seq<(usize, T)>, workers: nat, j: nat)
    requires
        workers >= 1,
        1 <= j <= workers,
    ensures
        reports_upto(tagged, workers, j) == tagged.subrange(
            0,
            range_end(tagged.len(), workers, (j - 1) as nat) as int,
        ),
    decreases j,
{
    let n = tagged.len();
    lemma_partitions_tile(n, workers);
    let jj = (j - 1) as nat;
    assert(range_start(n, workers, jj) <= range_end(n, workers, jj));
    if j == 1 {
        assert(reports_upto(tagged, workers, 0) + tagged.subrange(0, range_end(n, workers, 0) as int)
            =~= tagged.subrange(0, range_end(n, workers, 0) as int));
    } else {
        lemma_reports_upto(tagged, workers, jj);
        let prev = (j - 2) as nat;
        assert(prev + 1 == jj);
        assert(range_end(n, workers, prev) == range_start(n, workers, jj));
        assert(tagged.subrange(0, range_end(n, workers, prev) as int) + tagged.subrange(
            range_start(n, workers, jj) as int,
            range_end(n, workers, jj) as int,
        ) =~= tagged.subrange(0, range_end(n, workers, jj) as int));
    }
}

/// The workers of a batch report, between them, every index once.
pub proof fn lemma_batch_reports_everything<T>(vals: Seq<T>, workers: nat)
    requires
        workers >= 1,
    ensures
        batch_reports(vals, workers) == tag_all(vals),
{
    let t = tag_all(vals);
    lemma_partitions_tile(t.len(), workers);
    lemma_reports_upto(t, workers, workers);
    assert(t.subrange(0, t.len() as int) =~= t);
}

/// However the reports of the workers of a batch interleave on their way
/// back, for every worker count, the tags are exactly the input indices, and
/// putting each value at its tag gives back the input sequence, in order.
pub proof fn lemma_parallel_map_keeps_order<T>(
    vals: Seq<T>,
    workers: nat,
    arrived: Seq<(usize, T)>,
)
    requires
        workers >= 1,
        vals.len() <= usize::MAX,
        arrived.to_multiset() == batch_reports(vals, workers).to_multiset(),
    ensures
        is_index_tagging(arrived, vals.len()),
        forall|out: Seq<T>|
            out.len() == vals.len() && (forall|i: int|
                0 <= i < arrived.len() ==> out[#[trigger] arrived[i].0 as int] == arrived[i].1)
                ==> out == vals,
{
    broadcast use group_to_multiset_ensures;

    let n = vals.len();
    let t = tag_all(vals);
    lemma_batch_reports_everything(vals, workers);
    assert(arrived.to_multiset() == t.to_multiset());
    assert(t.no_duplicates());
    t.lemma_multiset_has_no_duplicates();
    arrived.lemma_multiset_has_no_duplicates_conv();
    assert forall|i: int| 0 <= i < arrived.len() implies (#[trigger] arrived[i].0 as nat) < n
        && arrived[i].1 == vals[arrived[i].0 as int] by {
        assert(arrived.contains(arrived[i]));
        assert(arrived.to_multiset().count(arrived[i]) > 0);
        assert(t.to_multiset().count(arrived[i]) > 0);
        assert(t.contains(arrived[i]));
    }
    assert forall|i: int, j: int| 0 <= i < j < arrived.len() implies #[trigger] arrived[i].0
        != #[trigger] arrived[j].0 by {
        assert(arrived[i] != arrived[j]);
    }
    assert forall|k: int| 0 <= k < n implies #[trigger] has_key(arrived, k) by {
        assert(t[k] == (k as usize, vals[k]));
        assert(t.contains(t[k]));
        assert(t.to_multiset().count(t[k]) > 0);
        assert(arrived.to_multiset().count(t[k]) > 0);
        assert(arrived.contains(t[k]));
    }
    assert forall|out: Seq<T>|
        out.len() == vals.len() && (forall|i: int|
            0 <= i < arrived.len() ==> out[#[trigger] arrived[i].0 as int] == arrived[i].1)
        implies out == vals by {
        assert forall|k: int| 0 <= k < n implies out[k] == vals[k] by {
            assert(has_key(arrived, k));
            let i = choose|i: int| 0 <= i < arrived.len() && arrived[i].0 == k;
            assert(out[arrived[i].0 as int] == arrived[i].1);
        }
        assert(out =~= vals);
    }
}

/// The reports of the workers that own `ranges`, one after another.
pub open spec fn reports_of<T>(tagged: Seq<(usize, T)>, ranges: Seq<(usize, usize)>) -> Seq<(usize, T)>
    decreases ranges.len(),
{
    if ranges.len() == 0 {
        Seq::empty()
    } else {
        reports_of(tagged, ranges.drop_last()) + tagged.subrange(
            ranges.last().0 as int,
            ranges.last().1 as int,
        )
    }
}

/// `busy` is what `busy_ranges(len, workers)` returns.
pub open spec fn is_busy_split(busy: Seq<(usize, usize)>, len: nat, workers: nat) -> bool {
    &&& busy.len() <= workers
    &&& forall|j: int|
        0 <= j < busy.len() ==> #[trigger] busy[j] == (
            range_start(len, workers, j as nat) as usize,
            range_end(len, workers, j as nat) as usize,
        )
    &&& forall|i: nat| busy.len() <= i < workers ==> #[trigger] range_start(len, workers, i) == range_end(len, workers, i)
}

proof fn lemma_busy_reports_prefix<T>(tagged: Seq<(usize, T)>, workers: nat, busy: Seq<(usize, usize)>, j: nat)
    requires
        workers >= 1,
        tagged.len() <= usize::MAX,
        is_busy_split(busy, tagged.len(), workers),
        j <= busy.len(),
    ensures
        reports_of(tagged, busy.take(j as int)) == reports_upto(tagged, workers, j),
    decreases j,
{
    if j > 0 {
        let k = (j - 1) as nat;
        lemma_busy_reports_prefix(tagged, workers, busy, k);
        assert(busy.take(j as int).drop_last() =~= busy.take(k as int));
        lemma_partitions_tile(tagged.len(), workers);
        assert(range_end(tagged.len(), workers, k) <= tagged.len());
        assert(busy[k as int] == busy.take(j as int).last());
    } else {
        assert(busy.take(0) =~= Seq::<(usize, usize)>::empty());
    }
}

proof fn lemma_idle_reports<T>(tagged: Seq<(usize, T)>, workers: nat, busy: Seq<(usize, usize)>, j: nat)
    requires
        workers >= 1,
        tagged.len() <= usize::MAX,
        is_busy_split(busy, tagged.len(), workers),
        busy.len() <= j <= workers,
    ensures
        reports_upto(tagged, workers, j) == reports_upto(tagged, workers, busy.len()),
    decreases j,
{
    if j > busy.len() {
        let k = (j - 1) as nat;
        lemma_idle_reports(tagged, workers, busy, k);
        assert(range_start(tagged.len(), workers, k) == range_end(tagged.len(), workers, k));
        assert(reports_upto(tagged, workers, j) =~= reports_upto(tagged, workers, k));
    }
}

/// The threaded runner starts one worker per range that `busy_ranges`
/// returns, each reporting `square_chunk` or `factorial_chunk` of its range.
/// However those reports interleave on their way back, the tags are exactly
/// the input indices, and putting each value at its tag gives back the
/// mapped input, in order, for every worker count.
pub proof fn lemma_busy_workers_keep_order<T>(
    vals: Seq<T>,
    workers: nat,
    busy: Seq<(usize, usize)>,
    arrived: Seq<(usize, T)>,
)
    requires
        workers >= 1,
        vals.len() <= usize::MAX,
        is_busy_split(busy, vals.len(), workers),
        arrived.to_multiset() == reports_of(tag_all(vals), busy).to_multiset(),
    ensures
        is_index_tagging(arrived, vals.len()),
        forall|out: Seq<T>|
            out.len() == vals.len() && (forall|i: int|
                0 <= i < arrived.len() ==> out[#[trigger] arrived[i].0 as int] == arrived[i].1)
                ==> out == vals,
{
    let t = tag_all(vals);
    lemma_busy_reports_prefix(t, workers, busy, busy.len());
    assert(busy.take(busy.len() as int) =~= busy);
    lemma_idle_reports(t, workers, busy, workers);
    lemma_parallel_map_keeps_order(vals, workers, arrived);
}

} // verus!
