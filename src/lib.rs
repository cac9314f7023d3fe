//! Exercises in everyday Rust, each with a verified contract, around a small
//! parallel-execution core: work partitioning, result reassembly, lock-guarded
//! shared state and a worker-pool protocol. Threads and channels themselves
//! live outside this crate; every decision they act on is made here.

// The parallel-execution core.
pub mod partition;
pub mod parallel;
pub mod primes;
pub mod shared_state;
pub mod work_queue;

// Words and characters of strings.
pub mod text;

// The exercises.
pub mod basics;
pub mod ownership;
pub mod structs_enums;
pub mod collections;
pub mod error_handling;
pub mod generics;
pub mod iterators;
pub mod smart_pointers;
