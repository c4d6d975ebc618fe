use workpool::{Message, PoolError, ThreadPool, WorkerAction};

#[test]
fn pool_size_matches_request() {
    let one = ThreadPool::new(1);
    assert_eq!(one.num_workers(), 1);
    assert_eq!(one.live_workers(), 1);
    let four = ThreadPool::new(4);
    assert_eq!(four.num_workers(), 4);
    assert_eq!(four.live_workers(), 4);
    let eight = ThreadPool::new(8);
    assert_eq!(eight.num_workers(), 8);
    assert_eq!(eight.live_workers(), 8);
}

#[test]
fn all_jobs_run_exactly_once() {
    let mut pool = ThreadPool::new(3);
    let k: u64 = 5;
    for id in 0..k {
        pool.execute(id).unwrap();
    }
    let jobs = pool.shutdown_and_join();
    let mut counter: u64 = 0;
    for _ in &jobs {
        counter += 1;
    }
    assert_eq!(counter, k);
    for id in 0..k {
        assert_eq!(jobs.iter().filter(|&&j| j == id).count(), 1);
    }
}

#[test]
fn zero_jobs_leave_counter_at_zero() {
    let mut pool = ThreadPool::new(2);
    let jobs = pool.shutdown_and_join();
    assert!(jobs.is_empty());
    assert_eq!(pool.live_workers(), 0);
}

#[test]
fn teardown_stops_every_worker() {
    let mut pool = ThreadPool::new(6);
    pool.execute(7).unwrap();
    let _ = pool.shutdown_and_join();
    assert_eq!(pool.live_workers(), 0);
    assert_eq!(pool.pending_len(), 0);
    // a second teardown is harmless and leaves the pool stopped
    let again = pool.shutdown_and_join();
    assert!(again.is_empty());
    assert_eq!(pool.live_workers(), 0);
}

#[test]
fn single_worker_runs_jobs_in_submission_order() {
    let mut pool = ThreadPool::new(1);
    pool.execute(10).unwrap();
    pool.execute(20).unwrap();
    let log = pool.shutdown_and_join();
    assert_eq!(log, vec![10, 20]);
}

#[test]
fn interleaved_submitters_lose_nothing() {
    let mut pool = ThreadPool::new(8);
    let m: u64 = 4;
    let k: u64 = 25;
    for round in 0..k {
        for submitter in 0..m {
            pool.execute(submitter * 100 + round).unwrap();
        }
    }
    let log = pool.shutdown_and_join();
    assert_eq!(log.len(), (m * k) as usize);
    let mut seen = log.clone();
    seen.sort();
    seen.dedup();
    assert_eq!(seen.len(), (m * k) as usize);
}

#[test]
fn execute_after_shutdown_is_refused() {
    let mut pool = ThreadPool::new(2);
    pool.begin_shutdown();
    assert_eq!(pool.execute(1), Err(PoolError::SubmittedAfterShutdown));
    let mut joined = ThreadPool::new(2);
    let _ = joined.shutdown_and_join();
    assert_eq!(joined.execute(9), Err(PoolError::SubmittedAfterShutdown));
}

#[test]
fn zero_sized_pool_is_a_documented_no_op() {
    let mut pool = ThreadPool::new(0);
    assert_eq!(pool.num_workers(), 0);
    pool.execute(42).unwrap();
    let jobs = pool.shutdown_and_join();
    assert!(jobs.is_empty());
    assert_eq!(pool.live_workers(), 0);
    // the accepted job is still queued: nothing ever pops it
    assert_eq!(pool.pending_len(), 1);
}

#[test]
fn worker_steps_pop_in_order_and_stop_on_exit() {
    let mut pool = ThreadPool::new(1);
    pool.execute(5).unwrap();
    pool.execute(6).unwrap();
    assert_eq!(pool.worker_step(0), WorkerAction::Run(5));
    assert_eq!(pool.worker_step(0), WorkerAction::Run(6));
    assert_eq!(pool.worker_step(0), WorkerAction::Wait);
    assert!(pool.worker_is_running(0));
    pool.begin_shutdown();
    assert_eq!(pool.worker_step(0), WorkerAction::Stop);
    assert!(!pool.worker_is_running(0));
    assert_eq!(pool.live_workers(), 0);
}

#[test]
fn workers_carry_their_roster_identity() {
    let mut pool = ThreadPool::new(3);
    for w in 0..3 {
        assert_eq!(pool.worker(w).id(), w);
        assert!(pool.worker(w).is_running());
    }
    let _ = pool.shutdown_and_join();
    for w in 0..3 {
        assert_eq!(pool.worker(w).id(), w);
        assert!(!pool.worker(w).is_running());
    }
}

#[test]
fn message_kinds_are_told_apart() {
    assert!(Message::Job(3).is_job());
    assert!(!Message::Exit.is_job());
}
