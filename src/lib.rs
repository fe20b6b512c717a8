//! A fixed-size worker pool whose coordination is a verified state machine:
//! an unbounded FIFO task queue that can be closed once, workers that take one
//! task at a time and survive task faults, and a shutdown that drains every
//! accepted task. Threads drive the state from outside. Beside it stand the
//! small kernels that the pool's workloads run.
use vstd::prelude::*;

pub mod partition;
pub mod pool;
pub mod primes;
pub mod task_queue;
pub mod workload;

verus! {

} // verus!
