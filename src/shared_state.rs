//! Values shared between threads whose every read and update happens under
//! one lock: a counter and a bank-account ledger. Each operation's critical
//! section is a plain function with an exact contract; the lock makes the
//! operations of all threads happen one at a time, so any run is some
//! sequence of those functions.

use std::sync::Arc;
use vstd::prelude::*;
use vstd::rwlock::RwLock;

verus! {

/// One increment: `+1`, held at `i32::MAX`.
pub open spec fn incremented(v: int) -> int {
    if v < i32::MAX { v + 1 } else { v }
}

/// `n` increments, one after another, from `v`.
pub open spec fn incremented_times(v: int, n: nat) -> int
    decreases n,
{
    if n == 0 { v } else { incremented(incremented_times(v, (n - 1) as nat)) }
}

/// The critical section of `SharedCounter::increment`.
pub fn increment_value(v: i32) -> (r: i32)
    ensures
        r == incremented(v as int),
{
    if v < i32::MAX { v + 1 } else { v }
}

/// The increment step counts every application: applying `incremented`
/// `threads * per_thread` times from zero gives `threads * per_thread`.
/// This is stated over the step function only; that the lock turns the
/// increments of `threads` threads into such a sequence is not stated here.
pub proof fn lemma_counter_counts_every_increment(threads: nat, per_thread: nat)
    requires
        threads * per_thread <= i32::MAX,
    ensures
        incremented_times(0, threads * per_thread) == threads * per_thread,
{
    lemma_increments_add_up(0, threads * per_thread);
}

proof fn lemma_increments_add_up(v: int, n: nat)
    requires
        v + n <= i32::MAX,
    ensures
        incremented_times(v, n) == v + n,
    decreases n,
{
    if n > 0 {
        lemma_increments_add_up(v, (n - 1) as nat);
    }
}

/// Relies on Arc::clone: a second handle on the same shared value.
#[verifier::external_body]
fn share<T>(a: &Arc<T>) -> (r: Arc<T>)
    ensures
        *r == **a,
{
    Arc::clone(a)
}

/// A counter that many threads can hold and increment at once; a clone is
/// another handle on the same counter.
pub struct SharedCounter {
    value: Arc<RwLock<i32, spec_fn(i32) -> bool>>,
    start: Ghost<i32>,
}

impl SharedCounter {
    /// The value the counter was created with; it never drops below it.
    pub closed spec fn initial(&self) -> int {
        self.start@ as int
    }

    #[verifier::type_invariant]
    spec fn inv(&self) -> bool {
        forall|v: i32| #[trigger] self.value.inv(v) <==> v >= self.start@
    }

    pub fn new(initial_value: i32) -> (r: Self)
        ensures
            r.initial() == initial_value,
    {
        let ghost start = initial_value;
        let lock = RwLock::new(initial_value, Ghost(|v: i32| v >= start));
        SharedCounter { value: Arc::new(lock), start: Ghost(start) }
    }

    /// Adds one, as one step that no other operation interleaves with.
    pub fn increment(&self) {
        proof {
            use_type_invariant(self);
        }
        let (v, handle) = self.value.acquire_write();
        let next = increment_value(v);
        handle.release_write(next);
    }

    /// The current value.
    pub fn get_value(&self) -> (r: i32)
        ensures
            r >= self.initial(),
    {
        proof {
            use_type_invariant(self);
        }
        let handle = self.value.acquire_read();
        let v = *handle.borrow();
        handle.release_read();
        v
    }
}

impl Clone for SharedCounter {
    fn clone(&self) -> Self {
        proof {
            use_type_invariant(self);
        }
        SharedCounter { value: share(&self.value), start: self.start }
    }
}

/// `v` held within the range of `i32`.
pub open spec fn clamp_i32(v: int) -> int {
    if v > i32::MAX { i32::MAX as int } else if v < i32::MIN { i32::MIN as int } else { v }
}

/// A deposit: `balance + amount`, held within the range of `i32`.
pub open spec fn deposited(balance: int, amount: int) -> int {
    clamp_i32(balance + amount)
}

/// A withdrawal: when the balance covers `amount`, the new balance and
/// `true`; otherwise the balance unchanged and `false`.
pub open spec fn withdrawn(balance: int, amount: int) -> (int, bool) {
    if balance >= amount {
        (clamp_i32(balance - amount), true)
    } else {
        (balance, false)
    }
}

fn clamp_to_i32(v: i64) -> (r: i32)
    ensures
        r == clamp_i32(v as int),
{
    if v > i32::MAX as i64 {
        i32::MAX
    } else if v < i32::MIN as i64 {
        i32::MIN
    } else {
        v as i32
    }
}

/// The critical section of `BankAccount::deposit`.
pub fn deposit_value(balance: i32, amount: i32) -> (r: i32)
    ensures
        r == deposited(balance as int, amount as int),
{
    clamp_to_i32(balance as i64 + amount as i64)
}

/// The critical section of `BankAccount::withdraw`: the check and the
/// update happen in one step.
pub fn withdraw_value(balance: i32, amount: i32) -> (r: (i32, bool))
    ensures
        (r.0 as int, r.1) == withdrawn(balance as int, amount as int),
{
    if balance < amount {
        (balance, false)
    } else {
        (clamp_to_i32(balance as i64 - amount as i64), true)
    }
}

/// Two withdrawals that together ask for more than the balance never both
/// succeed, in whichever order the lock lets them through; when each alone
/// is covered, the first succeeds and leaves `balance - first`.
pub proof fn lemma_competing_withdrawals(balance: int, first: int, second: int)
    requires
        i32::MIN <= balance <= i32::MAX,
        0 <= first <= i32::MAX,
        0 <= second <= i32::MAX,
        first + second > balance,
    ensures
        ({
            let (after_first, ok_first) = withdrawn(balance, first);
            let (after_second, ok_second) = withdrawn(after_first, second);
            &&& !(ok_first && ok_second)
            &&& first <= balance ==> ok_first && !ok_second && after_second == balance - first
        }),
{
}

/// A bank-account balance that many threads can hold and update at once;
/// a clone is another handle on the same account.
pub struct BankAccount {
    balance: Arc<RwLock<i32, spec_fn(i32) -> bool>>,
}

impl BankAccount {
    #[verifier::type_invariant]
    spec fn inv(&self) -> bool {
        forall|v: i32| #[trigger] self.balance.inv(v)
    }

    pub fn new(initial_balance: i32) -> (r: Self) {
        let lock = RwLock::new(initial_balance, Ghost(|v: i32| true));
        BankAccount { balance: Arc::new(lock) }
    }

    /// Adds `amount`, as one step that no other operation interleaves with;
    /// the balance is held within the range of `i32`.
    pub fn deposit(&self, amount: i32) {
        proof {
            use_type_invariant(self);
        }
        let (v, handle) = self.balance.acquire_write();
        let next = deposit_value(v, amount);
        handle.release_write(next);
    }

    /// Takes `amount` out when the balance covers it, and says whether it did;
    /// the check and the update form one step, and the balance is held
    /// within the range of `i32`.
    pub fn withdraw(&self, amount: i32) -> (r: bool) {
        proof {
            use_type_invariant(self);
        }
        let (v, handle) = self.balance.acquire_write();
        let (next, ok) = withdraw_value(v, amount);
        handle.release_write(next);
        ok
    }

    /// The current balance.
    pub fn get_balance(&self) -> (r: i32) {
        let handle = self.balance.acquire_read();
        let v = *handle.borrow();
        handle.release_read();
        v
    }
}

impl Clone for BankAccount {
    fn clone(&self) -> Self {
        proof {
            use_type_invariant(self);
        }
        BankAccount { balance: share(&self.balance) }
    }
}

} // verus!
