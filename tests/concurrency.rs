use rust_tasks::parallel::{
    busy_ranges, default_worker_count, factorial_chunk, plan_batch, reassemble, square_chunk,
    EngineError,
};
use rust_tasks::partition::{chunk_size, partition_range, partitions};
use rust_tasks::primes::{
    divisor_search_range, integer_sqrt, is_prime, prime_verdict, scan_divisors,
};
use rust_tasks::shared_state::{
    deposit_value, increment_value, withdraw_value, BankAccount, SharedCounter,
};
use rust_tasks::work_queue::{check_worker_count, process_task, ResultCollector};

/// Runs a batch of squares the way the threaded runner does, but with the
/// reports of the workers arriving in reverse worker order, each reversed.
fn squares_in_scrambled_order(items: &Vec<i32>, workers: usize) -> Vec<i32> {
    let ranges = plan_batch(items.len(), workers).unwrap();
    let mut arrived = Vec::new();
    for &(start, end) in ranges.iter().rev() {
        let mut report = square_chunk(items, start, end);
        report.reverse();
        arrived.extend(report);
    }
    reassemble(items.len(), &arrived).unwrap()
}

#[test]
fn parallel_map_keeps_input_order_for_any_worker_count() {
    let items = vec![3, -1, 4, 1, -5, 9, 2, 6];
    let expected: Vec<i32> = items.iter().map(|x| x * x).collect();
    let n = items.len();
    for workers in [1, 2, n, n + 5] {
        assert_eq!(squares_in_scrambled_order(&items, workers), expected);
    }
}

#[test]
fn parallel_map_of_nothing_is_nothing() {
    assert_eq!(squares_in_scrambled_order(&vec![], 3), Vec::<i32>::new());
}

#[test]
fn factorial_reports_are_tagged_with_their_index() {
    let items = vec![0u32, 1, 5, 10, 12];
    assert_eq!(factorial_chunk(&items, 1, 4), vec![(1, 1), (2, 120), (3, 3628800)]);
    let ranges = partitions(items.len(), 2);
    let mut arrived = Vec::new();
    for &(start, end) in ranges.iter().rev() {
        arrived.extend(factorial_chunk(&items, start, end));
    }
    assert_eq!(reassemble(items.len(), &arrived), Some(vec![1, 1, 120, 3628800, 479001600]));
}

#[test]
fn reassembly_refuses_missing_duplicate_or_stray_tags() {
    assert_eq!(reassemble(3, &vec![(0, 'a'), (2, 'c')]), None);
    assert_eq!(reassemble(2, &vec![(0, 'a'), (0, 'b')]), None);
    assert_eq!(reassemble(2, &vec![(0, 'a'), (5, 'b')]), None);
    assert_eq!(reassemble(2, &vec![(1, 'b'), (0, 'a')]), Some(vec!['a', 'b']));
}

#[test]
fn partitions_cover_every_index_exactly_once() {
    for len in 0..30usize {
        for workers in 1..12usize {
            let ranges = partitions(len, workers);
            assert_eq!(ranges.len(), workers);
            let mut seen = vec![0u32; len];
            let mut next = 0;
            for &(start, end) in &ranges {
                assert_eq!(start, next);
                assert!(start <= end);
                for k in start..end {
                    seen[k] += 1;
                }
                next = end;
            }
            assert_eq!(next, len);
            assert!(seen.iter().all(|&c| c == 1));
            if workers <= len && (workers - 1) * chunk_size(len, workers) < len {
                assert!(ranges.iter().all(|&(s, e)| s < e));
            }
        }
    }
}

#[test]
fn partition_sizes_are_rounded_up() {
    assert_eq!(chunk_size(10, 4), 3);
    assert_eq!(chunk_size(12, 4), 3);
    assert_eq!(chunk_size(0, 4), 0);
    assert_eq!(partitions(10, 4), vec![(0, 3), (3, 6), (6, 9), (9, 10)]);
    assert_eq!(partitions(3, 5), vec![(0, 1), (1, 2), (2, 3), (3, 3), (3, 3)]);
    assert_eq!(partition_range(10, 6, 5), (10, 10));
}

#[test]
fn worker_count_defaults_and_validation() {
    assert_eq!(default_worker_count(Some(8)), 8);
    assert_eq!(default_worker_count(None), 4);
    assert_eq!(default_worker_count(Some(0)), 4);
    assert_eq!(plan_batch(5, 0), Err(EngineError::InvalidArgument));
    assert_eq!(check_worker_count(0), Err(EngineError::InvalidArgument));
    assert_eq!(check_worker_count(3), Ok(3));
}

/// Decides primality by splitting the divisor search over `workers` workers,
/// each scanning its own range, and reading the shared flag at the end.
fn split_prime_check(n: u64, workers: usize) -> bool {
    let boundary = integer_sqrt(n);
    let mut divisor_seen = false;
    for index in 0..workers {
        let (lo, hi) = divisor_search_range(boundary, workers, index);
        if scan_divisors(n, lo, hi) {
            divisor_seen = true;
        }
    }
    prime_verdict(n, divisor_seen)
}

#[test]
fn split_primality_matches_the_sequential_check() {
    let numbers = [0u64, 1, 2, 3, 4, 17, 1000003];
    let expected = [false, false, true, true, false, true, true];
    for workers in 1..=8 {
        let got: Vec<(u64, bool)> =
            numbers.iter().map(|&n| (n, split_prime_check(n, workers))).collect();
        let want: Vec<(u64, bool)> = numbers.iter().cloned().zip(expected).collect();
        assert_eq!(got, want);
        for &n in &numbers {
            assert_eq!(split_prime_check(n, workers), is_prime(n));
        }
    }
    for n in 0..500u64 {
        assert_eq!(split_prime_check(n, 3), is_prime(n));
    }
}

#[test]
fn square_roots_and_divisor_ranges() {
    assert_eq!(integer_sqrt(0), 0);
    assert_eq!(integer_sqrt(15), 3);
    assert_eq!(integer_sqrt(16), 4);
    assert_eq!(integer_sqrt(1000003), 1000);
    assert_eq!(divisor_search_range(1000, 4, 0), (2, 252));
    assert_eq!(divisor_search_range(1000, 4, 3), (752, 1001));
    assert!(scan_divisors(91, 2, 10));
    assert!(!scan_divisors(97, 2, 10));
}

#[test]
fn test_is_prime() {
    assert!(!is_prime(1));
    assert!(is_prime(2));
    assert!(is_prime(3));
    assert!(!is_prime(4));
    assert!(is_prime(5));
    assert!(!is_prime(6));
    assert!(is_prime(7));
    assert!(!is_prime(8));
    assert!(!is_prime(9));
    assert!(!is_prime(10));
    assert!(is_prime(11));
}

#[test]
fn counter_counts_every_increment_from_every_handle() {
    for threads in [1usize, 8, 64] {
        for per_thread in [1usize, 1000] {
            let counter = SharedCounter::new(0);
            let handles: Vec<SharedCounter> = (0..threads).map(|_| counter.clone()).collect();
            for handle in &handles {
                for _ in 0..per_thread {
                    handle.increment();
                }
            }
            assert_eq!(counter.get_value(), (threads * per_thread) as i32);
        }
    }
}

#[test]
fn counter_increment_holds_at_the_maximum() {
    assert_eq!(increment_value(41), 42);
    assert_eq!(increment_value(i32::MAX), i32::MAX);
    let counter = SharedCounter::new(i32::MAX);
    counter.increment();
    assert_eq!(counter.get_value(), i32::MAX);
}

#[test]
fn competing_withdrawals_never_both_succeed() {
    let account = BankAccount::new(100);
    let other = account.clone();
    let first = account.withdraw(60);
    let second = other.withdraw(60);
    assert!(first ^ second);
    assert!(first);
    assert_eq!(account.get_balance(), 40);
}

#[test]
fn ledger_steps() {
    assert_eq!(withdraw_value(100, 60), (40, true));
    assert_eq!(withdraw_value(40, 60), (40, false));
    assert_eq!(withdraw_value(60, 60), (0, true));
    assert_eq!(deposit_value(5, 7), 12);
    assert_eq!(deposit_value(i32::MAX, 1), i32::MAX);
    let account = BankAccount::new(10);
    account.deposit(15);
    assert!(!account.withdraw(26));
    assert!(account.withdraw(25));
    assert_eq!(account.get_balance(), 0);
}

#[test]
fn work_queue_returns_one_square_per_task() {
    let tasks = vec![1, 2, 3, 4, 5, -6];
    for workers in [1usize, 2, 3, 10] {
        let mut collector = ResultCollector::new(tasks.len(), workers);
        for (i, &task) in tasks.iter().enumerate().rev() {
            assert!(!collector.is_complete());
            assert!(collector.accept(process_task(i % workers, task)));
        }
        assert!(collector.is_complete());
        let results = collector.finish().unwrap();
        assert_eq!(results.len(), tasks.len());
        let mut values: Vec<i32> = results.iter().map(|r| r.1).collect();
        values.sort();
        let mut expected: Vec<i32> = tasks.iter().map(|t| t * t).collect();
        expected.sort();
        assert_eq!(values, expected);
        assert!(results.iter().all(|r| r.0 < workers));
    }
}

#[test]
fn work_queue_closed_early_is_an_error() {
    let mut collector = ResultCollector::new(3, 2);
    assert!(collector.accept(process_task(0, 2)));
    assert_eq!(collector.finish(), Err(EngineError::ChannelClosedUnexpectedly));
    assert_eq!(ResultCollector::new(0, 1).finish(), Ok(vec![]));
}

#[test]
fn work_queue_refuses_results_from_unknown_workers() {
    let mut collector = ResultCollector::new(1, 2);
    assert!(!collector.accept((2, 9)));
    assert!(!collector.is_complete());
    assert!(collector.accept((1, 9)));
    assert_eq!(collector.finish(), Ok(vec![(1, 9)]));
}

#[test]
fn busy_ranges_skip_empty_ones() {
    assert_eq!(busy_ranges(3, 5), Ok(vec![(0, 1), (1, 2), (2, 3)]));
    assert_eq!(busy_ranges(10, 6), Ok(vec![(0, 2), (2, 4), (4, 6), (6, 8), (8, 10)]));
    assert_eq!(busy_ranges(0, 4), Ok(vec![]));
    assert_eq!(busy_ranges(10, 4), Ok(partitions(10, 4)));
    assert_eq!(busy_ranges(4, 0), Err(EngineError::InvalidArgument));
}
