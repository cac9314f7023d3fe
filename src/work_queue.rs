//! The decisions of a worker pool: what a worker answers for a task, when
//! the coordinator has every result, and when a closed channel is an error.

use vstd::prelude::*;
use vstd::seq_lib::group_to_multiset_ensures;
use crate::parallel::EngineError;

verus! {

/// A pool needs at least one worker.
pub fn check_worker_count(workers: usize) -> (r: Result<usize, EngineError>)
    ensures
        workers >= 1 ==> r == Ok::<usize, EngineError>(workers),
        workers == 0 ==> r == Err::<usize, EngineError>(EngineError::InvalidArgument),
{
    if workers == 0 {
        Err(EngineError::InvalidArgument)
    } else {
        Ok(workers)
    }
}

/// What worker `worker_id` reports for `task`: its id and the square of the task.
pub fn process_task(worker_id: usize, task: i32) -> (r: (usize, i32))
    requires
        i32::MIN <= task * task <= i32::MAX,
    ensures
        r.0 == worker_id,
        r.1 == task * task,
{
    (worker_id, task * task)
}

/// The coordinator's side of a pool of `workers` workers: the results
/// received so far, in the order they came, and how many are owed. Every
/// result it holds names a worker of the pool.
pub struct ResultCollector {
    expected: usize,
    workers: usize,
    results: Vec<(usize, i32)>,
}

impl ResultCollector {
    #[verifier::type_invariant]
    spec fn inv(&self) -> bool {
        forall|i: int| 0 <= i < self.results@.len() ==> #[trigger] self.results@[i].0 < self.workers
    }

    pub closed spec fn expected(&self) -> nat {
        self.expected as nat
    }

    pub closed spec fn workers(&self) -> nat {
        self.workers as nat
    }

    pub closed spec fn received(&self) -> Seq<(usize, i32)> {
        self.results@
    }

    /// A collector owed `expected` results from `workers` workers, holding none.
    pub fn new(expected: usize, workers: usize) -> (r: Self)
        ensures
            r.expected() == expected,
            r.workers() == workers,
            r.received() == Seq::<(usize, i32)>::empty(),
    {
        ResultCollector { expected, workers, results: Vec::new() }
    }

    /// Every owed result has come.
    pub fn is_complete(&self) -> (r: bool)
        ensures
            r == (self.received().len() >= self.expected()),
    {
        self.results.len() >= self.expected
    }

    /// Records one result, and says whether it did: a result that names no
    /// worker of the pool is refused.
    pub fn accept(&mut self, result: (usize, i32)) -> (r: bool)
        ensures
            r == (result.0 < old(self).workers()),
            final(self).expected() == old(self).expected(),
            final(self).workers() == old(self).workers(),
            final(self).received() == if r { old(self).received().push(result) } else { old(self).received() },
    {
        proof {
            use_type_invariant(&*self);
        }
        if result.0 < self.workers {
            let mut held = ResultCollector { expected: 0, workers: 0, results: Vec::new() };
            core::mem::swap(self, &mut held);
            proof {
                use_type_invariant(&held);
            }
            let ResultCollector { expected, workers, mut results } = held;
            results.push(result);
            *self = ResultCollector { expected, workers, results };
            true
        } else {
            false
        }
    }

    /// Ends the collection when the result channel closes: the results in
    /// arrival order, each from a worker of the pool, when exactly the owed
    /// number came, and `ChannelClosedUnexpectedly` otherwise.
    pub fn finish(self) -> (r: Result<Vec<(usize, i32)>, EngineError>)
        ensures
            self.received().len() == self.expected() ==> r is Ok && r->Ok_0@ == self.received(),
            self.received().len() != self.expected() ==> r == Err::<Vec<(usize, i32)>, EngineError>(
                EngineError::ChannelClosedUnexpectedly,
            ),
            r is Ok ==> forall|i: int| 0 <= i < r->Ok_0@.len() ==> #[trigger] r->Ok_0@[i].0 < self.workers(),
    {
        proof {
            use_type_invariant(&self);
        }
        if self.results.len() == self.expected {
            Ok(self.results)
        } else {
            Err(EngineError::ChannelClosedUnexpectedly)
        }
    }
}

pub open spec fn square_int(t: i32) -> int {
    t as int * t as int
}

pub open spec fn result_value(r: (usize, i32)) -> int {
    r.1 as int
}

proof fn lemma_map_keeps_multiset<A, B>(s1: Seq<A>, s2: Seq<A>, f: spec_fn(A) -> B)
    requires
        s1.to_multiset() == s2.to_multiset(),
    ensures
        s1.map_values(f).to_multiset() == s2.map_values(f).to_multiset(),
    decreases s1.len(),
{
    broadcast use group_to_multiset_ensures;

    assert(s1.len() == s1.to_multiset().len());
    assert(s2.len() == s2.to_multiset().len());
    if s1.len() == 0 {
        assert(s2.len() == 0);
        assert(s1.map_values(f) =~= Seq::<B>::empty());
        assert(s2.map_values(f) =~= Seq::<B>::empty());
    } else {
        let x = s1.last();
        let s1r = s1.drop_last();
        assert(s1r.push(x) =~= s1);
        assert(s1.contains(x));
        assert(s1.to_multiset().count(x) > 0);
        assert(s2.to_multiset().count(x) > 0);
        assert(s2.contains(x));
        let j = choose|j: int| 0 <= j < s2.len() && s2[j] == x;
        let s2r = s2.remove(j);
        assert(s2r.len() == s2.len() - 1);
        assert(s1r.to_multiset() =~= s1.to_multiset().remove(x));
        assert(s2r.to_multiset() =~= s2.to_multiset().remove(x));
        lemma_map_keeps_multiset(s1r, s2r, f);
        assert(s1.map_values(f) =~= s1r.map_values(f).push(f(x)));
        assert(s2.map_values(f) =~= s2r.map_values(f).insert(j, f(x)));
        vstd::seq_lib::to_multiset_insert(s2r.map_values(f), j, f(x));
    }
}

/// Work-queue completeness. When the task channel hands each task to
/// exactly one worker (the tasks taken off it are the tasks put on it, as a
/// multiset, whatever the order) and each worker reports what
/// `process_task` returns for the task it took, then there are as many
/// results as tasks, and their values are the squares of the tasks, as a
/// multiset, for any number of workers.
pub proof fn lemma_pool_results_complete(
    tasks: Seq<i32>,
    taken: Seq<i32>,
    results: Seq<(usize, i32)>,
)
    requires
        taken.to_multiset() == tasks.to_multiset(),
        results.len() == taken.len(),
        forall|i: int| 0 <= i < results.len() ==> #[trigger] results[i].1 == square_int(taken[i]),
    ensures
        results.len() == tasks.len(),
        results.map_values(|r: (usize, i32)| result_value(r)).to_multiset() == tasks.map_values(
            |t: i32| square_int(t),
        ).to_multiset(),
{
    broadcast use group_to_multiset_ensures;

    assert(taken.len() == taken.to_multiset().len());
    assert(tasks.len() == tasks.to_multiset().len());
    lemma_map_keeps_multiset(taken, tasks, |t: i32| square_int(t));
    assert(results.map_values(|r: (usize, i32)| result_value(r)) =~= taken.map_values(
        |t: i32| square_int(t),
    ));
}

} // verus!
