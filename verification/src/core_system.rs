//! Process table and ready-queue scheduler with cooperative round-robin
//! execution.
//!
//! Processes are created in `Ready` state with strictly increasing ids and
//! appended to the tail of the ready queue. Each scheduling step requeues
//! the currently running process (reset to `Ready`) at the tail and pops
//! the head of the queue as the new running process; an empty queue is a
//! legitimate idle condition, not an error.

use vstd::prelude::*;

verus! {

/// Failure taxonomy of the core system. The ready queue is owned,
/// single-threaded state here, so lock acquisition cannot fail; the
/// taxonomy is kept so that callers retain the retry/backoff contract at
/// the run-loop boundary.
#[derive(Clone, Copy, PartialEq, Eq, Structural, Debug)]
pub enum CoreSystemError {
    LockError,
    ProcessCreationError,
    SchedulingError,
}

impl CoreSystemError {
    /// A human-readable description of the failure.
    pub fn message(&self) -> (r: &'static str)
        ensures
            r@ == match self {
                CoreSystemError::LockError => "Failed to acquire lock"@,
                CoreSystemError::ProcessCreationError => "Failed to create process"@,
                CoreSystemError::SchedulingError => "Error during scheduling"@,
            },
    {
        match self {
            CoreSystemError::LockError => "Failed to acquire lock",
            CoreSystemError::ProcessCreationError => "Failed to create process",
            CoreSystemError::SchedulingError => "Error during scheduling",
        }
    }
}

/// Lifecycle states of a process. `Terminated` is declared but no path
/// sets it; `Blocked` likewise awaits a blocking primitive.
#[derive(Clone, Copy, PartialEq, Eq, Structural, Debug)]
pub enum ProcessState {
    Ready,
    Running,
    Blocked,
    Terminated,
}

/// A process: a unique, monotonically assigned id and a lifecycle state.
#[derive(Clone, Copy, PartialEq, Eq, Structural, Debug)]
pub struct Process {
    pub id: u32,
    pub state: ProcessState,
}

/// The ready queue after the running process (if any) has been requeued at
/// the tail, reset to `Ready`.
pub open spec fn requeued(q: Seq<Process>, cur: Option<Process>) -> Seq<Process> {
    match cur {
        Some(p) => q.push(Process { id: p.id, state: ProcessState::Ready }),
        None => q,
    }
}

/// One round-robin scheduling step: requeue the running process, then pop
/// the head of the ready queue as the new running process. Yields the new
/// (ready queue, current process) pair.
pub open spec fn sched_step(q: Seq<Process>, cur: Option<Process>) -> (Seq<Process>, Option<
    Process,
>) {
    let q1 = requeued(q, cur);
    if q1.len() > 0 {
        (q1.drop_first(), Some(Process { id: q1[0].id, state: ProcessState::Running }))
    } else {
        (q1, None::<Process>)
    }
}

/// `n` consecutive scheduling steps from the given state.
pub open spec fn sched_steps(q: Seq<Process>, cur: Option<Process>, n: nat) -> (Seq<Process>, Option<
    Process,
>)
    decreases n,
{
    if n == 0 {
        (q, cur)
    } else {
        let s = sched_steps(q, cur, (n - 1) as nat);
        sched_step(s.0, s.1)
    }
}

/// The process table and ready-queue scheduler. Exactly one process may be
/// `Running` at a time, held in `current_process`; all queued processes are
/// `Ready`.
pub struct CoreSystem {
    pub processes: Vec<Process>,
    pub current_process: Option<Process>,
    pub next_pid: u32,
}

impl CoreSystem {
    /// The scheduler's invariant: ids are unique and below the id counter,
    /// queued processes are `Ready`, and the current process is `Running`.
    pub open spec fn wf(self) -> bool {
        &&& self.next_pid >= 1
        &&& forall|i: int|
            0 <= i < self.processes@.len() ==> (#[trigger] self.processes@[i]).state
                == ProcessState::Ready && self.processes@[i].id < self.next_pid
        &&& forall|i: int, j: int|
            0 <= i < j < self.processes@.len() ==> (#[trigger] self.processes@[i]).id != (
            #[trigger] self.processes@[j]).id
        &&& match self.current_process {
            Some(p) => {
                &&& p.state == ProcessState::Running
                &&& p.id < self.next_pid
                &&& forall|i: int|
                    0 <= i < self.processes@.len() ==> (#[trigger] self.processes@[i]).id != p.id
            },
            None => true,
        }
    }

    /// A fresh scheduler: empty ready queue, nothing running, ids start at 1.
    pub fn new() -> (r: CoreSystem)
        ensures
            r.wf(),
            r.processes@ =~= Seq::<Process>::empty(),
            r.current_process is None,
            r.next_pid == 1,
    {
        CoreSystem { processes: Vec::new(), current_process: None, next_pid: 1 }
    }

    /// Allocates the next id (monotonic counter, never reused), builds a
    /// process in `Ready` state and appends it to the tail of the ready
    /// queue. In this owned-state design the queue is always available, so
    /// creation always succeeds; ids are handed out strictly increasing
    /// starting at 1.
    pub fn create_process(&mut self) -> (r: Result<u32, CoreSystemError>)
        requires
            old(self).wf(),
            old(self).next_pid < u32::MAX,
        ensures
            final(self).wf(),
            r == Ok::<u32, CoreSystemError>(old(self).next_pid),
            final(self).next_pid == old(self).next_pid + 1,
            final(self).processes@ =~= old(self).processes@.push(
                (Process { id: old(self).next_pid, state: ProcessState::Ready }),
            ),
            final(self).current_process == old(self).current_process,
    {
        let pid = self.next_pid;
        self.next_pid = self.next_pid + 1;
        self.processes.push(Process { id: pid, state: ProcessState::Ready });
        Ok(pid)
    }

    /// One cooperative round-robin step, exactly `sched_step` on the
    /// (ready queue, current process) pair: the running process, if any, is
    /// reset to `Ready` and requeued at the tail; then the head of the
    /// queue, if any, becomes the new `Running` current process. An empty
    /// queue leaves no current process and is not an error.
    pub fn schedule(&mut self) -> (r: Result<(), CoreSystemError>)
        requires
            old(self).wf(),
        ensures
            final(self).wf(),
            r == Ok::<(), CoreSystemError>(()),
            final(self).next_pid == old(self).next_pid,
            final(self).processes@ =~= sched_step(
                old(self).processes@,
                old(self).current_process,
            ).0,
            final(self).current_process == sched_step(
                old(self).processes@,
                old(self).current_process,
            ).1,
    {
        match self.current_process {
            Some(p) => {
                self.current_process = None;
                self.processes.push(Process { id: p.id, state: ProcessState::Ready });
            },
            None => {},
        }
        if self.processes.len() > 0 {
            let next = self.processes.remove(0);
            self.current_process = Some(Process { id: next.id, state: ProcessState::Running });
        } else {
            self.current_process = None;
        }
        Ok(())
    }
}

/// Law: process ids are strictly increasing starting at 1, regardless of
/// how `create_process` calls interleave with the rest of the system.
/// Every id already present is strictly below `next_pid`, the id that the
/// next creation returns, and each creation raises the counter; a fresh
/// system starts the counter at 1.
pub proof fn lemma_pids_fresh(s: CoreSystem)
    requires
        s.wf(),
    ensures
        s.next_pid >= 1,
        forall|i: int|
            0 <= i < s.processes@.len() ==> (#[trigger] s.processes@[i]).id < s.next_pid,
        s.current_process matches Some(p) ==> p.id < s.next_pid,
{
}

/// Law: round-robin fairness. Starting from a ready queue of `Ready`
/// processes and nothing running, the `k`-th consecutive scheduling step
/// makes exactly the `k`-th process (in creation order) the running one;
/// after all `n` have run, step `n + 1` cycles back to the first.
#[verifier::rlimit(60)]
pub proof fn lemma_round_robin(q: Seq<Process>, k: nat)
    requires
        q.len() >= 1,
        1 <= k <= q.len() + 1,
        forall|i: int| 0 <= i < q.len() ==> (#[trigger] q[i]).state == ProcessState::Ready,
    ensures
        sched_steps(q, None::<Process>, k).1 == Some(
            (Process {
                id: (if k <= q.len() {
                    q[k as int - 1].id
                } else {
                    q[0].id
                }),
                state: ProcessState::Running,
            }),
        ),
        sched_steps(q, None::<Process>, k).0 =~= (if k <= q.len() {
            q.subrange(k as int, q.len() as int) + q.subrange(0, k as int - 1)
        } else {
            q.subrange(1, q.len() as int)
        }),
    decreases k,
{
    let n = q.len() as int;
    if k == 1 {
        assert(requeued(q, None::<Process>) == q);
        assert(sched_steps(q, None::<Process>, 1) == sched_step(q, None::<Process>));
        assert(q.drop_first() =~= q.subrange(1, n) + q.subrange(0, 0));
    } else {
        lemma_round_robin(q, (k - 1) as nat);
        let prev = sched_steps(q, None::<Process>, (k - 1) as nat);
        let pk = (k - 2) as int;
        assert(prev.1 == Some((Process { id: q[pk].id, state: ProcessState::Running })));
        assert(q[pk].state == ProcessState::Ready);
        assert((Process { id: q[pk].id, state: ProcessState::Ready }) == q[pk]);
        let q1 = requeued(prev.0, prev.1);
        if k <= q.len() {
            assert(prev.0 =~= q.subrange(k as int - 1, n) + q.subrange(0, k as int - 2));
            assert(q1 =~= q.subrange(k as int - 1, n) + q.subrange(0, k as int - 1));
            assert(q1.len() == n >= 1);
            assert(q1[0] == q[k as int - 1]);
            assert(q1.drop_first() =~= q.subrange(k as int, n) + q.subrange(0, k as int - 1));
        } else {
            assert(k == q.len() + 1);
            assert(prev.0 =~= q.subrange(n - 1 + 1, n) + q.subrange(0, n - 1));
            assert(prev.0 =~= q.subrange(0, n - 1));
            assert(q1 =~= q);
            assert(q1[0] == q[0]);
            assert(q1.drop_first() =~= q.subrange(1, n));
        }
    }
}

} // verus!
