use worker_pool::pool::{Assignment, PoolError, WorkerPool, WorkerState};

/// Runs every worker in turn until all have left their loops, executing each
/// job with `run`; a job for which `run` returns false counts as faulted.
/// Returns the tickets in the order they were handed out.
fn drain<T>(pool: &mut WorkerPool<T>, mut run: impl FnMut(T) -> bool) -> Vec<u64> {
    let mut order = Vec::new();
    pool.shutdown();
    while !pool.all_terminated() {
        for w in 0..pool.worker_count() {
            if pool.worker_state(w) == WorkerState::Idle {
                match pool.next_for(w) {
                    Assignment::Run(job) => {
                        order.push(job.ticket);
                        let ok = run(job.task);
                        pool.finish(w, !ok);
                    }
                    Assignment::Wait => {}
                    Assignment::Exit => {}
                }
            }
        }
    }
    order
}

#[test]
fn zero_workers_is_refused() {
    assert!(matches!(
        WorkerPool::<u32>::new(0),
        Err(PoolError::ZeroWorkers)
    ));
}

#[test]
fn new_pool_is_idle_and_open() {
    let pool = WorkerPool::<u32>::new(8).ok().unwrap();
    assert_eq!(pool.worker_count(), 8);
    assert!(!pool.is_shut_down());
    assert_eq!(pool.pending_count(), 0);
    assert_eq!(pool.in_flight(), 0);
    for w in 0..8 {
        assert_eq!(pool.worker_state(w), WorkerState::Idle);
    }
}

#[test]
fn every_task_runs_exactly_once() {
    let mut pool = WorkerPool::<u64>::new(8).ok().unwrap();
    for i in 0..10_000u64 {
        assert_eq!(pool.submit(i), Ok(i));
    }
    let mut counter = 0u64;
    let mut seen = vec![0u32; 10_000];
    drain(&mut pool, |i| {
        counter += 1;
        seen[i as usize] += 1;
        true
    });
    assert_eq!(counter, 10_000);
    assert!(seen.iter().all(|&n| n == 1));
    assert_eq!(pool.completed_count(), 10_000);
}

#[test]
fn shutdown_waits_for_all_submitted_tasks() {
    let mut pool = WorkerPool::<u64>::new(3).ok().unwrap();
    for i in 0..50u64 {
        pool.submit(i).ok().unwrap();
    }
    pool.shutdown();
    // Workers keep draining after shutdown; none may exit while work is pending.
    let first = pool.next_for(0);
    assert!(matches!(first, Assignment::Run(_)));
    assert!(!pool.all_terminated());
    pool.finish(0, false);
    drain(&mut pool, |_| true);
    assert!(pool.all_terminated());
    assert_eq!(pool.pending_count(), 0);
    assert_eq!(pool.completed_count(), pool.submitted_count());
    assert_eq!(pool.completed_count(), 50);
}

#[test]
fn submit_after_shutdown_is_refused() {
    let mut pool = WorkerPool::<u64>::new(2).ok().unwrap();
    pool.submit(7).ok().unwrap();
    pool.shutdown();
    assert_eq!(pool.submit(8), Err(PoolError::PoolClosed));
    assert_eq!(pool.submitted_count(), 1);
    assert_eq!(pool.pending_count(), 1);
    let mut ran = Vec::new();
    drain(&mut pool, |x| {
        ran.push(x);
        true
    });
    assert_eq!(ran, vec![7]);
}

#[test]
fn single_producer_order_is_kept() {
    let mut pool = WorkerPool::<u64>::new(4).ok().unwrap();
    for tag in 0..200u64 {
        pool.submit(tag).ok().unwrap();
    }
    let mut tags = Vec::new();
    let order = drain(&mut pool, |t| {
        tags.push(t);
        true
    });
    assert!(order.windows(2).all(|w| w[0] < w[1]));
    assert_eq!(tags, (0..200u64).collect::<Vec<_>>());
}

#[test]
fn no_more_tasks_run_at_once_than_workers() {
    let mut pool = WorkerPool::<u64>::new(3).ok().unwrap();
    for i in 0..10u64 {
        pool.submit(i).ok().unwrap();
    }
    let mut peak = 0u64;
    for w in 0..3 {
        assert!(matches!(pool.next_for(w), Assignment::Run(_)));
        peak = peak.max(pool.in_flight());
    }
    assert_eq!(pool.in_flight(), 3);
    assert_eq!(pool.pending_count(), 7);
    for w in 0..3 {
        pool.finish(w, false);
    }
    drain(&mut pool, |_| true);
    assert!(peak <= 3);
    assert_eq!(pool.in_flight(), 0);
}

#[test]
fn a_faulting_task_does_not_stop_the_others() {
    let mut pool = WorkerPool::<i64>::new(4).ok().unwrap();
    for i in 0..100i64 {
        let task = if i == 37 { -1 } else { i };
        pool.submit(task).ok().unwrap();
    }
    // Drive without shutting down, so that later submissions are still taken.
    let mut good = 0u32;
    let mut progress = true;
    while progress {
        progress = false;
        for w in 0..pool.worker_count() {
            if let Assignment::Run(job) = pool.next_for(w) {
                progress = true;
                let faulted = job.task < 0;
                if !faulted {
                    good += 1;
                }
                pool.finish(w, faulted);
            }
        }
    }
    assert_eq!(good, 99);
    assert_eq!(pool.fault_count(), 1);
    assert_eq!(pool.completed_count(), 100);
    for w in 0..4 {
        assert_eq!(pool.worker_state(w), WorkerState::Idle);
    }
    assert_eq!(pool.submit(500), Ok(100));
    let mut later = Vec::new();
    drain(&mut pool, |t| {
        later.push(t);
        true
    });
    assert_eq!(later, vec![500]);
    assert_eq!(pool.completed_count(), 101);
}
