//! Priority/deadline task scheduler: orders pending units of work and
//! yields the most urgent one.
//!
//! A task carries a priority and an absolute deadline, stamped at
//! insertion as "now + relative deadline" in milliseconds of the monotonic
//! clock, measured from the scheduler's creation. Extraction follows a
//! strict total order: the numerically greater priority value wins, ties
//! go to the earlier deadline, and remaining ties to the smaller
//! (earlier-assigned) task id, so extraction is deterministic.

use std::time::Instant;
use vstd::prelude::*;

verus! {

#[verifier::external_type_specification]
#[verifier::external_body]
pub struct ExInstant(Instant);

/// Relies on std::time::Instant::now: an opaque reading of the monotonic
/// clock, used only as the epoch that later readings are measured from.
#[verifier::external_body]
fn clock_now() -> Instant {
    Instant::now()
}

/// Relies on std::time::Instant::elapsed and Duration::as_millis:
/// milliseconds of the monotonic clock since `epoch`. The result depends
/// on the time of the call, so nothing is promised of its value.
#[verifier::external_body]
fn millis_since(epoch: &Instant) -> u64 {
    epoch.elapsed().as_millis() as u64
}

/// Priority of a task. The numerically greater value is the more urgent.
#[derive(Clone, Copy, PartialEq, Eq, Structural, Debug)]
pub struct Priority(pub u8);

/// An immutable unit of work: a monotonically assigned id, a priority,
/// and an absolute deadline in milliseconds since the scheduler's epoch.
#[derive(Clone, Copy, PartialEq, Eq, Structural, Debug)]
pub struct Task {
    pub id: u32,
    pub priority: Priority,
    pub deadline: u64,
}

/// The strict extraction order on tasks: the numerically greater priority
/// value wins; ties go to the earlier deadline; remaining ties to the
/// smaller id.
pub open spec fn more_urgent(a: Task, b: Task) -> bool {
    ||| a.priority.0 > b.priority.0
    ||| (a.priority.0 == b.priority.0 && a.deadline < b.deadline)
    ||| (a.priority.0 == b.priority.0 && a.deadline == b.deadline && a.id < b.id)
}

/// Law: `more_urgent` is a strict total order on tasks with distinct ids:
/// irreflexive, transitive, and total (exactly one of two distinct tasks
/// is the more urgent), so extraction is deterministic.
pub proof fn lemma_urgency_strict_total_order(a: Task, b: Task, c: Task)
    ensures
        !more_urgent(a, a),
        more_urgent(a, b) && more_urgent(b, c) ==> more_urgent(a, c),
        a.id != b.id ==> (more_urgent(a, b) <==> !more_urgent(b, a)),
{
}

/// Decides `more_urgent` executably.
pub fn is_more_urgent(a: &Task, b: &Task) -> (r: bool)
    ensures
        r == more_urgent(*a, *b),
{
    if a.priority.0 != b.priority.0 {
        a.priority.0 > b.priority.0
    } else if a.deadline != b.deadline {
        a.deadline < b.deadline
    } else {
        a.id < b.id
    }
}

/// The task priority queue: pending tasks and the monotonic id counter.
pub struct Scheduler {
    tasks: Vec<Task>,
    next_task_id: u32,
    epoch: Instant,
}

impl Scheduler {
    /// The pending tasks, in insertion order.
    pub closed spec fn tasks_view(self) -> Seq<Task> {
        self.tasks@
    }

    /// The id the next added task will receive.
    pub closed spec fn next_id(self) -> u32 {
        self.next_task_id
    }

    /// The scheduler's invariant: task ids are unique and below the
    /// monotonic id counter.
    pub open spec fn wf(self) -> bool {
        &&& self.next_id() >= 1
        &&& forall|i: int|
            0 <= i < self.tasks_view().len() ==> (#[trigger] self.tasks_view()[i]).id
                < self.next_id()
        &&& forall|i: int, j: int|
            0 <= i < j < self.tasks_view().len() ==> (#[trigger] self.tasks_view()[i]).id != (
            #[trigger] self.tasks_view()[j]).id
    }

    /// A fresh scheduler: no pending tasks, ids start at 1, and the
    /// current instant as the epoch deadlines are measured from.
    pub fn new() -> (r: Scheduler)
        ensures
            r.wf(),
            r.tasks_view() =~= Seq::<Task>::empty(),
            r.next_id() == 1,
    {
        Scheduler { tasks: Vec::new(), next_task_id: 1, epoch: clock_now() }
    }

    /// Adds a task: assigns the next monotonic id and stamps the absolute
    /// deadline "now + `deadline_ms`" (saturating), where "now" is read
    /// from the monotonic clock; the stamped deadline is therefore at
    /// least `deadline_ms`. Returns the new task's id.
    pub fn add_task(&mut self, priority: u8, deadline_ms: u64) -> (r: u32)
        requires
            old(self).wf(),
            old(self).next_id() < u32::MAX,
        ensures
            final(self).wf(),
            r == old(self).next_id(),
            final(self).next_id() == old(self).next_id() + 1,
            final(self).tasks_view() =~= old(self).tasks_view().push(
                final(self).tasks_view().last(),
            ),
            final(self).tasks_view().last().id == r,
            final(self).tasks_view().last().priority == Priority(priority),
            final(self).tasks_view().last().deadline >= deadline_ms,
    {
        let task_id = self.next_task_id;
        self.next_task_id = self.next_task_id + 1;
        let now = millis_since(&self.epoch);
        let deadline = if deadline_ms > u64::MAX - now {
            u64::MAX
        } else {
            now + deadline_ms
        };
        self.tasks.push(Task { id: task_id, priority: Priority(priority), deadline });
        proof {
            assert(deadline >= deadline_ms);
            let pre = old(self).tasks_view();
            let post = self.tasks_view();
            assert(post =~= pre.push((Task { id: task_id, priority: Priority(priority), deadline
            })));
            assert forall|a: int, b: int|
                0 <= a < b < post.len() implies (#[trigger] post[a]).id != (
            #[trigger] post[b]).id by {
                if b < pre.len() {
                    assert(pre[a].id != pre[b].id);
                } else {
                    assert(pre[a].id < task_id);
                }
            }
            assert forall|k: int| 0 <= k < post.len() implies (#[trigger] post[k]).id
                < self.next_id() by {
                if k < pre.len() {
                    assert(pre[k].id < old(self).next_id());
                }
            }
        }
        task_id
    }

    /// Removes and returns the most urgent pending task under the strict
    /// extraction order, or `None` exactly when the queue is empty —
    /// never an error. All other tasks stay, in their insertion order.
    pub fn get_next_task(&mut self) -> (r: Option<Task>)
        requires
            old(self).wf(),
        ensures
            final(self).wf(),
            final(self).next_id() == old(self).next_id(),
            r is None <==> old(self).tasks_view().len() == 0,
            r is None ==> final(self).tasks_view() == old(self).tasks_view(),
            r matches Some(t) ==> exists|i: int|
                {
                    &&& 0 <= i < old(self).tasks_view().len()
                    &&& t == old(self).tasks_view()[i]
                    &&& final(self).tasks_view() =~= old(self).tasks_view().remove(i)
                    &&& forall|j: int|
                        0 <= j < old(self).tasks_view().len() && j != i ==> more_urgent(
                            t,
                            #[trigger] old(self).tasks_view()[j],
                        )
                },
    {
        let n = self.tasks.len();
        if n == 0 {
            return None;
        }
        let mut best: usize = 0;
        let mut i: usize = 1;
        while i < n
            invariant
                old(self).wf(),
                *self == *old(self),
                n == self.tasks@.len(),
                0 <= best < i <= n,
                forall|j: int|
                    0 <= j < i && j != best ==> more_urgent(
                        self.tasks@[best as int],
                        #[trigger] self.tasks@[j],
                    ),
            decreases n - i,
        {
            let more = is_more_urgent(&self.tasks[i], &self.tasks[best]);
            proof {
                assert(self.tasks@ == old(self).tasks_view());
                assert(old(self).tasks_view()[best as int].id != old(self).tasks_view()[
                    i as int].id);
            }
            if more {
                proof {
                    assert forall|j: int| 0 <= j < i + 1 && j != i implies more_urgent(
                        self.tasks@[i as int],
                        #[trigger] self.tasks@[j],
                    ) by {
                        if j != best {
                            lemma_urgency_strict_total_order(
                                self.tasks@[i as int],
                                self.tasks@[best as int],
                                self.tasks@[j],
                            );
                        }
                    }
                }
                best = i;
            } else {
                proof {
                    lemma_urgency_strict_total_order(
                        self.tasks@[i as int],
                        self.tasks@[best as int],
                        self.tasks@[best as int],
                    );
                }
            }
            i += 1;
        }
        let ghost pre = old(self).tasks_view();
        let ghost bi = best as int;
        proof {
            assert(self.tasks@ == pre);
        }
        let t = self.tasks.remove(best);
        proof {
            let post = self.tasks@;
            assert(post == final(self).tasks_view() || post == self.tasks_view());
            assert(post =~= pre.remove(bi));
            assert(t == pre[bi]);
            assert forall|a: int, b: int|
                0 <= a < b < post.len() implies (#[trigger] post[a]).id != (
            #[trigger] post[b]).id by {
                if b < bi {
                    assert(post[a] == pre[a] && post[b] == pre[b]);
                } else if a < bi {
                    assert(post[a] == pre[a] && post[b] == pre[b + 1]);
                } else {
                    assert(post[a] == pre[a + 1] && post[b] == pre[b + 1]);
                }
            }
            assert forall|k: int| 0 <= k < post.len() implies (#[trigger] post[k]).id
                < self.next_id() by {
                if k < bi {
                    assert(post[k] == pre[k]);
                } else {
                    assert(post[k] == pre[k + 1]);
                }
            }
            assert forall|j: int| 0 <= j < pre.len() && j != bi implies more_urgent(
                t,
                #[trigger] pre[j],
            ) by {}
        }
        Some(t)
    }
}

} // verus!
