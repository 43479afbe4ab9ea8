//! The dispatch core of the worker pool.
//!
//! A `Scheduler` owns the whole dispatch state: the backlog of jobs that no
//! worker could take yet, the stack of idle workers, and which worker holds a
//! job. It is driven by one event at a time and answers each with the action
//! that the thread running it must perform. The threads, channels and job
//! bodies live outside; every decision is taken here.
//!
//! Ordering policy: the backlog is first in, first out; among idle workers the
//! one that became idle most recently is picked first.
use std::collections::VecDeque;
use vstd::prelude::*;

use crate::PoolError;

verus! {

/// What the scheduler reacts to.
pub enum Event<J> {
    /// A job was submitted.
    NewJob(J),
    /// Worker `id` finished its job (normally or with a fault).
    WorkerDone(usize),
    /// The pool stops accepting jobs; drain what is pending, then stop.
    Shutdown,
}

/// What the thread that runs the scheduler must do after an event.
pub enum Action<J> {
    /// Send the job to the worker with this identity.
    Dispatch(usize, J),
    /// The job was kept in the backlog.
    Queued,
    /// The worker was put back among the idle ones.
    Parked,
    /// Shutdown began; jobs are still running or pending.
    Draining,
    /// The job arrived after shutdown began and was not accepted.
    Rejected(J),
    /// The event did not match the state (unknown or idle worker) and changed nothing.
    Ignored,
    /// Shutdown is complete: close every worker's channel.
    Stop,
}

/// The dispatch state as mathematical values.
pub struct SchedulerModel<J> {
    pub backlog: Seq<J>,
    pub idle: Seq<usize>,
    pub busy: Seq<bool>,
    pub stopping: bool,
    /// Jobs accepted so far.
    pub accepted: nat,
    /// Completion signals handled so far.
    pub completed: nat,
}

impl<J> SchedulerModel<J> {
    pub open spec fn workers(self) -> nat {
        self.busy.len()
    }

    /// The workers that currently hold a job.
    pub open spec fn running(self) -> Set<int> {
        Set::new(|w: int| 0 <= w < self.busy.len() && self.busy[w])
    }

    pub open spec fn with_busy(self, w: int, b: bool) -> SchedulerModel<J> {
        SchedulerModel { busy: self.busy.update(w, b), ..self }
    }

    /// No job is pending and every worker is idle.
    pub open spec fn drained(self) -> bool {
        &&& self.backlog.len() == 0
        &&& forall|w: int| 0 <= w < self.busy.len() ==> !self.busy[w]
    }

    /// The invariants of the dispatch state.
    pub open spec fn wf(self) -> bool {
        &&& 0 < self.busy.len() <= usize::MAX
        &&& self.idle.no_duplicates()
        &&& forall|i: int|
            0 <= i < self.idle.len() ==> (self.idle[i] as int) < self.busy.len() && !self.busy[
                self.idle[i] as int
            ]
        &&& forall|w: int| 0 <= w < self.busy.len() && !self.busy[w] ==> self.idle.contains(w as usize)
        &&& self.backlog.len() > 0 ==> self.idle.len() == 0
        &&& self.accepted == self.completed + self.backlog.len() + self.running().len()
    }

    /// The state that a pool of `n` workers starts in.
    pub open spec fn initial(n: nat) -> SchedulerModel<J> {
        SchedulerModel {
            backlog: Seq::empty(),
            idle: Seq::new(n, |i: int| i as usize),
            busy: Seq::new(n, |i: int| false),
            stopping: false,
            accepted: 0,
            completed: 0,
        }
    }

    /// The state and action that follow an event.
    pub open spec fn next(self, e: Event<J>) -> (SchedulerModel<J>, Action<J>) {
        match e {
            Event::NewJob(j) => {
                if self.stopping {
                    (self, Action::Rejected(j))
                } else if self.idle.len() > 0 {
                    let w = self.idle.last();
                    (
                        SchedulerModel {
                            idle: self.idle.drop_last(),
                            busy: self.busy.update(w as int, true),
                            accepted: self.accepted + 1,
                            ..self
                        },
                        Action::Dispatch(w, j),
                    )
                } else {
                    (
                        SchedulerModel {
                            backlog: self.backlog.push(j),
                            accepted: self.accepted + 1,
                            ..self
                        },
                        Action::Queued,
                    )
                }
            },
            Event::WorkerDone(id) => {
                if id as int >= self.busy.len() || !self.busy[id as int] {
                    (self, Action::Ignored)
                } else if self.backlog.len() > 0 {
                    (
                        SchedulerModel {
                            backlog: self.backlog.drop_first(),
                            completed: self.completed + 1,
                            ..self
                        },
                        Action::Dispatch(id, self.backlog[0]),
                    )
                } else {
                    let m = SchedulerModel {
                        idle: self.idle.push(id),
                        busy: self.busy.update(id as int, false),
                        completed: self.completed + 1,
                        ..self
                    };
                    (m, if self.stopping && m.drained() {
                        Action::Stop
                    } else {
                        Action::Parked
                    })
                }
            },
            Event::Shutdown => {
                let m = SchedulerModel { stopping: true, ..self };
                (m, if self.drained() {
                    Action::Stop
                } else {
                    Action::Draining
                })
            },
        }
    }
}

/// The owner of the dispatch state.
pub struct Scheduler<J> {
    backlog: VecDeque<J>,
    idle: Vec<usize>,
    busy: Vec<bool>,
    stopping: bool,
    accepted: Ghost<nat>,
    completed: Ghost<nat>,
}

impl<J> View for Scheduler<J> {
    type V = SchedulerModel<J>;

    closed spec fn view(&self) -> SchedulerModel<J> {
        SchedulerModel {
            backlog: self.backlog@,
            idle: self.idle@,
            busy: self.busy@,
            stopping: self.stopping,
            accepted: self.accepted@,
            completed: self.completed@,
        }
    }
}

impl<J> Scheduler<J> {
    /// A scheduler for `n` workers, all idle, identities `0..n`.
    pub fn new(n: usize) -> (r: Result<Scheduler<J>, PoolError>)
        ensures
            n == 0 <==> r is Err,
            r is Err ==> r->Err_0 == PoolError::ZeroWorkers,
            r matches Ok(s) ==> s@ == SchedulerModel::<J>::initial(n as nat) && s@.wf(),
    {
        if n == 0 {
            return Err(PoolError::ZeroWorkers);
        }
        let mut idle: Vec<usize> = Vec::new();
        let mut busy: Vec<bool> = Vec::new();
        let mut i: usize = 0;
        while i < n
            invariant
                i <= n,
                idle@ == Seq::new(i as nat, |k: int| k as usize),
                busy@ == Seq::new(i as nat, |k: int| false),
            decreases n - i,
        {
            idle.push(i);
            busy.push(false);
            i = i + 1;
        }
        let s = Scheduler {
            backlog: VecDeque::new(),
            idle,
            busy,
            stopping: false,
            accepted: Ghost(0),
            completed: Ghost(0),
        };
        proof {
            let m = s@;
            assert(m.running() =~= Set::<int>::empty());
            assert forall|w: int| 0 <= w < m.busy.len() && !m.busy[w] implies m.idle.contains(
                w as usize,
            ) by {
                assert(m.idle[w] == w as usize);
            }
        }
        Ok(s)
    }

    pub fn workers(&self) -> (r: usize)
        ensures
            r == self@.workers(),
    {
        self.busy.len()
    }

    /// Number of jobs waiting in the backlog.
    pub fn pending(&self) -> (r: usize)
        ensures
            r == self@.backlog.len(),
    {
        self.backlog.len()
    }

    /// Number of idle workers.
    pub fn idle_count(&self) -> (r: usize)
        ensures
            r == self@.idle.len(),
    {
        self.idle.len()
    }

    /// Whether worker `id` holds a job.
    pub fn is_busy(&self, id: usize) -> (r: bool)
        ensures
            r == (id < self@.workers() && self@.busy[id as int]),
    {
        id < self.busy.len() && self.busy[id]
    }

    pub fn is_stopping(&self) -> (r: bool)
        ensures
            r == self@.stopping,
    {
        self.stopping
    }

    /// Handles one event and says what must be done.
    pub fn handle(&mut self, event: Event<J>) -> (r: Action<J>)
        requires
            old(self)@.wf(),
        ensures
            (final(self)@, r) == old(self)@.next(event),
            final(self)@.wf(),
    {
        let ghost pre = self@;
        let ghost ev = event;
        match event {
            Event::NewJob(j) => {
                if self.stopping {
                    return Action::Rejected(j);
                }
                match self.idle.pop() {
                    Some(w) => {
                        self.busy.set(w, true);
                        self.accepted = Ghost(self.accepted@ + 1);
                        proof {
                            lemma_next_wf(pre, ev);
                        }
                        Action::Dispatch(w, j)
                    },
                    None => {
                        self.backlog.push_back(j);
                        self.accepted = Ghost(self.accepted@ + 1);
                        proof {
                            lemma_next_wf(pre, ev);
                        }
                        Action::Queued
                    },
                }
            },
            Event::WorkerDone(id) => {
                if id >= self.busy.len() || !self.busy[id] {
                    return Action::Ignored;
                }
                self.completed = Ghost(self.completed@ + 1);
                match self.backlog.pop_front() {
                    Some(j) => {
                        proof {
                            lemma_next_wf(pre, ev);
                        }
                        Action::Dispatch(id, j)
                    },
                    None => {
                        self.busy.set(id, false);
                        self.idle.push(id);
                        proof {
                            lemma_next_wf(pre, ev);
                        }
                        if self.stopping && self.all_idle() {
                            Action::Stop
                        } else {
                            Action::Parked
                        }
                    },
                }
            },
            Event::Shutdown => {
                self.stopping = true;
                proof {
                    lemma_next_wf(pre, ev);
                }
                if self.backlog.len() == 0 && self.all_idle() {
                    Action::Stop
                } else {
                    Action::Draining
                }
            },
        }
    }

    fn all_idle(&self) -> (r: bool)
        ensures
            r == forall|w: int| 0 <= w < self@.busy.len() ==> !self@.busy[w],
    {
        let mut i: usize = 0;
        while i < self.busy.len()
            invariant
                i <= self.busy@.len(),
                forall|w: int| 0 <= w < i ==> !self.busy@[w],
            decreases self.busy@.len() - i,
        {
            if self.busy[i] {
                assert(self@.busy[i as int]);
                return false;
            }
            i = i + 1;
        }
        true
    }

    /// Ends the scheduler, handing back the jobs that were never dispatched.
    pub fn into_abandoned(self) -> (r: Vec<J>)
        ensures
            r@ == self@.backlog,
    {
        let mut backlog = self.backlog;
        let mut out: Vec<J> = Vec::new();
        let ghost all = backlog@;
        while backlog.len() > 0
            invariant
                out@ + backlog@ == all,
            decreases backlog@.len(),
        {
            let ghost before = backlog@;
            match backlog.pop_front() {
                Some(j) => {
                    out.push(j);
                    assert(out@ + backlog@ =~= all) by {
                        assert(before =~= seq![j] + backlog@);
                    }
                },
                None => {},
            }
        }
        assert(out@ =~= all);
        out
    }
}

proof fn lemma_running_insert<J>(m: SchedulerModel<J>, w: int)
    requires
        0 <= w < m.busy.len(),
    ensures
        m.with_busy(w, true).running() == m.running().insert(w),
        m.with_busy(w, false).running() == m.running().remove(w),
{
    assert(m.with_busy(w, true).running() =~= m.running().insert(w));
    assert(m.with_busy(w, false).running() =~= m.running().remove(w));
}

proof fn lemma_running_finite<J>(m: SchedulerModel<J>)
    ensures
        m.running().finite(),
        m.running().len() <= m.busy.len(),
{
    assert(m.running().subset_of(vstd::set_lib::set_int_range(0, m.busy.len() as int)));
    vstd::set_lib::lemma_int_range(0, m.busy.len() as int);
    vstd::set_lib::lemma_len_subset(m.running(), vstd::set_lib::set_int_range(0, m.busy.len() as int));
}

/// Every step keeps the invariants of the dispatch state.
pub proof fn lemma_next_wf<J>(m: SchedulerModel<J>, e: Event<J>)
    requires
        m.wf(),
    ensures
        m.next(e).0.wf(),
{
    lemma_running_finite(m);
    match e {
        Event::NewJob(j) => {
            if !m.stopping && m.idle.len() > 0 {
                let w = m.idle.last();
                let n = m.next(e).0;
                lemma_running_insert(m, w as int);
                assert(m.idle.contains(w));
                assert(!m.running().contains(w as int));
                assert forall|i: int| 0 <= i < n.idle.len() implies (n.idle[i] as int) < n.busy.len()
                    && !n.busy[n.idle[i] as int] by {
                    assert(n.idle[i] == m.idle[i]);
                    assert(m.idle[i] != m.idle[m.idle.len() - 1]);
                }
                assert forall|v: int| 0 <= v < n.busy.len() && !n.busy[v] implies n.idle.contains(
                    v as usize,
                ) by {
                    assert(v != w as int);
                    assert(m.idle.contains(v as usize));
                    let k = choose|k: int| 0 <= k < m.idle.len() && m.idle[k] == v as usize;
                    assert(k != m.idle.len() - 1);
                    assert(n.idle[k] == v as usize);
                }
            }
        },
        Event::WorkerDone(id) => {
            if (id as int) < m.busy.len() && m.busy[id as int] {
                let n = m.next(e).0;
                if m.backlog.len() == 0 {
                    lemma_running_insert(m, id as int);
                    assert(m.running().contains(id as int));
                    assert(!m.idle.contains(id));
                    assert forall|i: int| 0 <= i < n.idle.len() implies (n.idle[i] as int)
                        < n.busy.len() && !n.busy[n.idle[i] as int] by {
                        if i < m.idle.len() {
                            assert(n.idle[i] == m.idle[i]);
                        }
                    }
                    assert forall|v: int| 0 <= v < n.busy.len() && !n.busy[v] implies n.idle.contains(
                        v as usize,
                    ) by {
                        if v != id as int {
                            let k = choose|k: int| 0 <= k < m.idle.len() && m.idle[k] == v as usize;
                            assert(n.idle[k] == v as usize);
                        } else {
                            assert(n.idle[m.idle.len() as int] == id);
                        }
                    }
                    assert(n.idle.no_duplicates()) by {
                        assert forall|a: int, b: int|
                            0 <= a < n.idle.len() && 0 <= b < n.idle.len() && a != b implies n.idle[a]
                            != n.idle[b] by {
                            if a < m.idle.len() && b < m.idle.len() {
                            } else if a < m.idle.len() {
                                assert(m.idle.contains(n.idle[a]));
                            } else {
                                assert(m.idle.contains(n.idle[b]));
                            }
                        }
                    }
                } else {
                    assert(n.running() =~= m.running());
                }
            }
        },
        Event::Shutdown => {
            assert(m.next(e).0.running() =~= m.running());
        },
    }
}

/// How running a job on a worker ended.
pub enum JobOutcome {
    Completed,
    /// The job body failed; the worker caught the failure and lives on.
    Faulted,
}

/// The event that a worker reports after running a job.
pub open spec fn completion<J>(id: usize, outcome: JobOutcome) -> Event<J> {
    Event::WorkerDone(id)
}

/// The event that worker `id` sends once a job has ended, however it ended.
pub fn completion_event<J>(id: usize, outcome: JobOutcome) -> (e: Event<J>)
    ensures
        e == completion::<J>(id, outcome),
        e == Event::<J>::WorkerDone(id),
{
    match outcome {
        JobOutcome::Completed => Event::WorkerDone(id),
        JobOutcome::Faulted => Event::WorkerDone(id),
    }
}

/// The states and actions produced by a run of events from `m`.
pub open spec fn run<J>(m: SchedulerModel<J>, events: Seq<Event<J>>) -> (
    SchedulerModel<J>,
    Seq<Action<J>>,
)
    decreases events.len(),
{
    if events.len() == 0 {
        (m, Seq::empty())
    } else {
        let (m1, a) = m.next(events[0]);
        let (m2, rest) = run(m1, events.drop_first());
        (m2, seq![a] + rest)
    }
}

/// After any run of events from a well-formed state, the state is still
/// well formed: in particular the backlog is non-empty only while no worker
/// is idle.
pub proof fn lemma_invariant_holds_after_run<J>(m: SchedulerModel<J>, events: Seq<Event<J>>)
    requires
        m.wf(),
    ensures
        run(m, events).0.wf(),
        run(m, events).1.len() == events.len(),
    decreases events.len(),
{
    if events.len() > 0 {
        lemma_next_wf(m, events[0]);
        lemma_invariant_holds_after_run(m.next(events[0]).0, events.drop_first());
    }
}

/// A run extended by one event ends in the step from the run's last state.
pub proof fn lemma_run_push<J>(m: SchedulerModel<J>, es: Seq<Event<J>>, e: Event<J>)
    ensures
        run(m, es.push(e)) == (
            run(m, es).0.next(e).0,
            run(m, es).1.push(run(m, es).0.next(e).1),
        ),
    decreases es.len(),
{
    let es2 = es.push(e);
    assert(es2[0] == if es.len() == 0 {
        e
    } else {
        es[0]
    });
    if es.len() == 0 {
        assert(es2.drop_first() =~= Seq::<Event<J>>::empty());
        let (m1, a) = m.next(e);
        assert(run(m1, es2.drop_first()) == (m1, Seq::<Action<J>>::empty()));
        assert(run(m, es) == (m, Seq::<Action<J>>::empty()));
        assert(run(m, es2).0 == m1);
        assert(run(m, es2).1 =~= Seq::<Action<J>>::empty().push(a));
    } else {
        assert(es2.drop_first() =~= es.drop_first().push(e));
        let (m1, a) = m.next(es[0]);
        lemma_run_push(m1, es.drop_first(), e);
        let (m2, rest) = run(m1, es.drop_first());
        assert(run(m, es2).0 == m2.next(e).0);
        assert(run(m, es2).1 =~= (seq![a] + rest).push(m2.next(e).1));
    }
}

/// `jobs` submitted one after the other, then a shutdown, then `rest`.
pub open spec fn submit_then_shutdown<J>(jobs: Seq<J>, rest: Seq<Event<J>>) -> Seq<Event<J>> {
    jobs.map_values(|j: J| Event::NewJob(j)) + seq![Event::Shutdown] + rest
}

/// The state after the first `t` events of `submit_then_shutdown`: before
/// the shutdown every job is accepted; from the shutdown on, no more are.
proof fn lemma_phases<J>(n: nat, jobs: Seq<J>, rest: Seq<Event<J>>, t: nat)
    requires
        0 < n <= usize::MAX,
        t <= submit_then_shutdown(jobs, rest).len(),
    ensures
        ({
            let m = run(SchedulerModel::<J>::initial(n), submit_then_shutdown(jobs, rest).take(
                t as int,
            )).0;
            &&& m.wf()
            &&& t <= jobs.len() ==> !m.stopping && m.accepted == t
            &&& t > jobs.len() ==> m.stopping && m.accepted == jobs.len()
        }),
    decreases t,
{
    let es = submit_then_shutdown(jobs, rest);
    let m0 = SchedulerModel::<J>::initial(n);
    if t == 0 {
        lemma_initial_wf::<J>(n);
        assert(es.take(0) =~= Seq::<Event<J>>::empty());
    } else {
        lemma_phases(n, jobs, rest, (t - 1) as nat);
        let k = t - 1;
        assert(es.take(t as int) =~= es.take(k as int).push(es[k as int]));
        lemma_run_push(m0, es.take(k as int), es[k as int]);
        let prev = run(m0, es.take(k as int)).0;
        lemma_next_wf(prev, es[k as int]);
        if k < jobs.len() {
            assert(es[k as int] == Event::NewJob(jobs[k as int]));
        } else if k == jobs.len() {
            assert(es[k as int] == Event::<J>::Shutdown);
        }
    }
}

/// No job is lost: after `jobs` are submitted and the pool is shut down,
/// whatever events follow, the step that says `Stop` leaves exactly as
/// many completion signals as there were jobs.
pub proof fn lemma_every_job_completes_before_stop<J>(n: nat, jobs: Seq<J>, rest: Seq<Event<J>>)
    requires
        0 < n <= usize::MAX,
    ensures
        forall|t: int|
            0 <= t < submit_then_shutdown(jobs, rest).len() && (#[trigger] run(
                SchedulerModel::<J>::initial(n),
                submit_then_shutdown(jobs, rest).take(t + 1),
            )).1.last() is Stop ==> run(
                SchedulerModel::<J>::initial(n),
                submit_then_shutdown(jobs, rest).take(t + 1),
            ).0.completed == jobs.len(),
{
    let es = submit_then_shutdown(jobs, rest);
    let m0 = SchedulerModel::<J>::initial(n);
    assert forall|t: int|
        0 <= t < es.len() && (#[trigger] run(m0, es.take(t + 1))).1.last() is Stop implies run(
            m0,
            es.take(t + 1),
        ).0.completed == jobs.len() by {
        lemma_phases(n, jobs, rest, t as nat);
        lemma_phases(n, jobs, rest, (t + 1) as nat);
        assert(es.take(t + 1) =~= es.take(t).push(es[t]));
        lemma_run_push(m0, es.take(t), es[t]);
        let prev = run(m0, es.take(t)).0;
        lemma_no_job_loss(prev, es[t]);
        if t < jobs.len() {
            assert(es[t] == Event::NewJob(jobs[t]));
        }
    }
}

/// The initial state of a pool with at least one worker is well formed.
pub proof fn lemma_initial_wf<J>(n: nat)
    requires
        0 < n <= usize::MAX,
    ensures
        SchedulerModel::<J>::initial(n).wf(),
{
    let m = SchedulerModel::<J>::initial(n);
    assert(m.running() =~= Set::<int>::empty());
    assert forall|w: int| 0 <= w < m.busy.len() && !m.busy[w] implies m.idle.contains(
        w as usize,
    ) by {
        assert(m.idle[w] == w as usize);
    }
}

/// No job is lost: the scheduler says `Stop` only once every accepted job
/// has signalled its completion and nothing is left pending or running.
pub proof fn lemma_no_job_loss<J>(m: SchedulerModel<J>, e: Event<J>)
    requires
        m.wf(),
    ensures
        m.next(e).1 is Stop ==> m.next(e).0.completed == m.next(e).0.accepted && m.next(
            e,
        ).0.drained(),
{
    lemma_next_wf(m, e);
    let n = m.next(e).0;
    if m.next(e).1 is Stop {
        assert(n.running() =~= Set::<int>::empty());
    }
}

/// Once every worker is idle and nothing is pending, the number of
/// completion signals equals the number of accepted jobs.
pub proof fn lemma_drained_all_completed<J>(m: SchedulerModel<J>)
    requires
        m.wf(),
        m.drained(),
    ensures
        m.completed == m.accepted,
{
    assert(m.running() =~= Set::<int>::empty());
}

/// No duplicate dispatch: a job goes to a worker only if that worker holds no
/// job, or has just reported the end of its previous one; the job handed out
/// is either the new one or the head of the backlog, which leaves the backlog.
pub proof fn lemma_no_duplicate_dispatch<J>(m: SchedulerModel<J>, e: Event<J>)
    requires
        m.wf(),
    ensures
        m.next(e).1 matches Action::Dispatch(w, j) ==> {
            &&& (w as int) < m.workers()
            &&& m.next(e).0.busy[w as int]
            &&& match e {
                Event::NewJob(k) => !m.busy[w as int] && j == k && m.next(e).0.backlog
                    == m.backlog,
                Event::WorkerDone(id) => id == w && m.busy[w as int] && j == m.backlog[0]
                    && m.next(e).0.backlog == m.backlog.drop_first(),
                Event::Shutdown => false,
            }
        },
{
    if let Event::NewJob(k) = e {
        if !m.stopping && m.idle.len() > 0 {
            assert(m.idle.contains(m.idle.last()));
        }
    }
}

/// Bounded concurrency: at most as many jobs run as there are workers.
pub proof fn lemma_bounded_concurrency<J>(m: SchedulerModel<J>)
    requires
        m.wf(),
    ensures
        m.running().len() <= m.workers(),
{
    lemma_running_finite(m);
}

/// After shutdown began, a submitted job is rejected and changes nothing,
/// and the scheduler stays in shutdown whatever comes next.
pub proof fn lemma_rejected_after_shutdown<J>(m: SchedulerModel<J>, j: J, e: Event<J>)
    requires
        m.stopping,
    ensures
        m.next(Event::NewJob(j)) == (m, Action::Rejected(j)),
        m.next(e).0.stopping,
{
}

/// Fault isolation: a worker whose job failed reports the same event as one
/// whose job succeeded, and afterwards it either takes the next pending job or
/// is idle, ready for the next submission.
pub proof fn lemma_fault_isolation<J>(m: SchedulerModel<J>, id: usize)
    requires
        m.wf(),
        (id as int) < m.workers(),
        m.busy[id as int],
    ensures
        completion::<J>(id, JobOutcome::Faulted) == completion::<J>(id, JobOutcome::Completed),
        ({
            let (n, a) = m.next(completion::<J>(id, JobOutcome::Faulted));
            &&& n.wf()
            &&& a is Dispatch && a->Dispatch_0 == id || n.idle.contains(id)
        }),
{
    lemma_next_wf(m, completion::<J>(id, JobOutcome::Faulted));
    let n = m.next(completion::<J>(id, JobOutcome::Faulted)).0;
    if m.backlog.len() == 0 {
        assert(n.idle[n.idle.len() - 1] == id);
    }
}

/// Whether jobs are still accepted by a pool.
pub struct SubmitGate {
    open: bool,
}

impl SubmitGate {
    pub closed spec fn is_open(&self) -> bool {
        self.open
    }

    pub fn new() -> (r: SubmitGate)
        ensures
            r.is_open(),
    {
        SubmitGate { open: true }
    }

    /// `Ok` while jobs are still taken, `RejectedSubmission` afterwards.
    pub fn check_submit(&self) -> (r: Result<(), PoolError>)
        ensures
            r is Ok <==> self.is_open(),
            r is Err ==> r->Err_0 == PoolError::RejectedSubmission,
    {
        if self.open {
            Ok(())
        } else {
            Err(PoolError::RejectedSubmission)
        }
    }

    /// Stops taking jobs. Returns whether jobs were still taken before this
    /// call, so that only the first shutdown acts.
    pub fn close(&mut self) -> (first: bool)
        ensures
            first == old(self).is_open(),
            !final(self).is_open(),
    {
        let first = self.open;
        self.open = false;
        first
    }
}

} // verus!
