use workpool::scheduler::{completion_event, Action, Event, JobOutcome, Scheduler, SubmitGate};
use workpool::PoolError;

fn pool(n: usize) -> Scheduler<u32> {
    match Scheduler::new(n) {
        Ok(s) => s,
        Err(_) => panic!("a pool with workers must be created"),
    }
}

#[test]
fn zero_workers_is_refused() {
    assert!(matches!(Scheduler::<u32>::new(0), Err(PoolError::ZeroWorkers)));
}

#[test]
fn new_pool_has_every_worker_idle() {
    let s = pool(4);
    assert_eq!(s.workers(), 4);
    assert_eq!(s.idle_count(), 4);
    assert_eq!(s.pending(), 0);
    assert!(!s.is_busy(0));
    assert!(!s.is_stopping());
}

#[test]
fn most_recently_idled_worker_is_picked_first() {
    let mut s = pool(3);
    assert!(matches!(s.handle(Event::NewJob(10)), Action::Dispatch(2, 10)));
    assert!(matches!(s.handle(Event::NewJob(11)), Action::Dispatch(1, 11)));
    assert!(matches!(s.handle(Event::WorkerDone(2)), Action::Parked));
    assert!(matches!(s.handle(Event::NewJob(12)), Action::Dispatch(2, 12)));
}

#[test]
fn backlog_is_first_in_first_out() {
    let mut s = pool(1);
    assert!(matches!(s.handle(Event::NewJob(1)), Action::Dispatch(0, 1)));
    assert!(matches!(s.handle(Event::NewJob(2)), Action::Queued));
    assert!(matches!(s.handle(Event::NewJob(3)), Action::Queued));
    assert_eq!(s.pending(), 2);
    assert_eq!(s.idle_count(), 0);
    assert!(matches!(s.handle(Event::WorkerDone(0)), Action::Dispatch(0, 2)));
    assert!(matches!(s.handle(Event::WorkerDone(0)), Action::Dispatch(0, 3)));
    assert!(matches!(s.handle(Event::WorkerDone(0)), Action::Parked));
}

#[test]
fn completion_of_unknown_or_idle_worker_is_ignored() {
    let mut s = pool(2);
    assert!(matches!(s.handle(Event::WorkerDone(0)), Action::Ignored));
    assert!(matches!(s.handle(Event::WorkerDone(7)), Action::Ignored));
    assert_eq!(s.idle_count(), 2);
}

/// Lets every busy worker finish once; returns how many completions were sent.
fn finish_round(s: &mut Scheduler<u32>, done: &mut Vec<u32>, running: &mut Vec<(usize, u32)>) -> usize {
    let batch: Vec<(usize, u32)> = running.drain(..).collect();
    for (w, job) in batch.iter() {
        done.push(*job);
        match s.handle(Event::WorkerDone(*w)) {
            Action::Dispatch(w2, j2) => running.push((w2, j2)),
            Action::Parked | Action::Stop => {}
            _ => panic!("unexpected action after a completion"),
        }
    }
    batch.len()
}

#[test]
fn two_workers_five_jobs_take_three_batches() {
    let mut s = pool(2);
    let mut running = Vec::new();
    for j in 0..5u32 {
        match s.handle(Event::NewJob(j)) {
            Action::Dispatch(w, job) => running.push((w, job)),
            Action::Queued => {}
            _ => panic!("unexpected action after a submission"),
        }
    }
    assert_eq!(running.len(), 2);
    assert_eq!(s.pending(), 3);
    let mut done = Vec::new();
    let mut batches = 0;
    while !running.is_empty() {
        assert!(running.len() <= 2);
        finish_round(&mut s, &mut done, &mut running);
        batches += 1;
    }
    assert_eq!(batches, 3);
    done.sort();
    assert_eq!(done, vec![0, 1, 2, 3, 4]);
    assert!(matches!(s.handle(Event::Shutdown), Action::Stop));
}

#[test]
fn three_workers_no_jobs_shutdown_stops_at_once() {
    let mut s = pool(3);
    assert!(matches!(s.handle(Event::Shutdown), Action::Stop));
    assert!(s.is_stopping());
}

#[test]
fn one_worker_second_job_starts_after_first_completes() {
    let mut s = pool(1);
    assert!(matches!(s.handle(Event::NewJob(1)), Action::Dispatch(0, 1)));
    assert!(matches!(s.handle(Event::NewJob(2)), Action::Queued));
    assert!(s.is_busy(0));
    assert!(matches!(s.handle(Event::WorkerDone(0)), Action::Dispatch(0, 2)));
}

#[test]
fn shutdown_drains_running_and_queued_jobs() {
    let mut s = pool(1);
    assert!(matches!(s.handle(Event::NewJob(1)), Action::Dispatch(0, 1)));
    assert!(matches!(s.handle(Event::NewJob(2)), Action::Queued));
    assert!(matches!(s.handle(Event::Shutdown), Action::Draining));
    assert!(matches!(s.handle(Event::WorkerDone(0)), Action::Dispatch(0, 2)));
    assert!(matches!(s.handle(Event::WorkerDone(0)), Action::Stop));
}

#[test]
fn submission_after_shutdown_is_rejected() {
    let mut s = pool(2);
    assert!(matches!(s.handle(Event::Shutdown), Action::Stop));
    assert!(matches!(s.handle(Event::NewJob(9)), Action::Rejected(9)));
    assert_eq!(s.pending(), 0);
    assert_eq!(s.idle_count(), 2);

    let mut gate = SubmitGate::new();
    assert_eq!(gate.check_submit(), Ok(()));
    assert!(gate.close());
    assert_eq!(gate.check_submit(), Err(PoolError::RejectedSubmission));
    assert!(!gate.close());
}

#[test]
fn faulted_job_leaves_worker_usable() {
    let mut s = pool(1);
    assert!(matches!(s.handle(Event::NewJob(1)), Action::Dispatch(0, 1)));
    assert!(matches!(s.handle(Event::NewJob(2)), Action::Queued));
    let e = completion_event(0, JobOutcome::Faulted);
    assert!(matches!(e, Event::WorkerDone(0)));
    assert!(matches!(s.handle(e), Action::Dispatch(0, 2)));
    let e = completion_event(0, JobOutcome::Completed);
    assert!(matches!(s.handle(e), Action::Parked));
    assert!(matches!(s.handle(Event::NewJob(3)), Action::Dispatch(0, 3)));
}

#[test]
fn abandoned_jobs_come_back_in_order() {
    let mut s = pool(1);
    s.handle(Event::NewJob(1));
    s.handle(Event::NewJob(2));
    s.handle(Event::NewJob(3));
    assert_eq!(s.into_abandoned(), vec![2, 3]);
}
