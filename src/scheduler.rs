//! Bounded-concurrency admission of download tasks.

use vstd::prelude::*;

verus! {

/// Where a task stands in a batch.
#[derive(Clone, Copy, Debug, PartialEq, Eq, Structural)]
pub enum TaskState {
    Waiting,
    Running,
    Succeeded,
    Failed,
}

/// Number of running tasks in `s`.
pub open spec fn count_running(s: Seq<TaskState>) -> nat
    decreases s.len(),
{
    if s.len() == 0 {
        0
    } else {
        count_running(s.drop_last()) + if s.last() == TaskState::Running {
            1nat
        } else {
            0nat
        }
    }
}

proof fn lemma_count_update(s: Seq<TaskState>, i: int, v: TaskState)
    requires
        0 <= i < s.len(),
    ensures
        count_running(s.update(i, v)) + (if s[i] == TaskState::Running {
            1nat
        } else {
            0nat
        }) == count_running(s) + (if v == TaskState::Running {
            1nat
        } else {
            0nat
        }),
    decreases s.len(),
{
    let t = s.update(i, v);
    if i == s.len() - 1 {
        assert(t.drop_last() =~= s.drop_last());
    } else {
        assert(t.drop_last() =~= s.drop_last().update(i, v));
        lemma_count_update(s.drop_last(), i, v);
    }
}

proof fn lemma_count_none(s: Seq<TaskState>)
    requires
        forall|i: int| 0 <= i < s.len() ==> s[i] != TaskState::Running,
    ensures
        count_running(s) == 0,
    decreases s.len(),
{
    if s.len() > 0 {
        lemma_count_none(s.drop_last());
    }
}

proof fn lemma_count_positive(s: Seq<TaskState>, i: int)
    requires
        0 <= i < s.len(),
        s[i] == TaskState::Running,
    ensures
        count_running(s) >= 1,
{
    lemma_count_update(s, i, TaskState::Waiting);
}

/// The abstract state of a batch: the bound, each task's state, the index of
/// the next task to acquire, and the number of running tasks.
pub struct SchedulerView {
    pub parallelism: nat,
    pub states: Seq<TaskState>,
    pub next: nat,
    pub running: nat,
}

/// One event of a batch: an admission is asked for, or a task ends.
pub enum SchedulerEvent {
    Acquire,
    Complete { task: int, succeeded: bool },
}

impl SchedulerView {
    pub open spec fn wf(self) -> bool {
        &&& self.parallelism >= 1
        &&& self.next <= self.states.len()
        &&& forall|i: int|
            0 <= i < self.states.len() ==> (#[trigger] self.states[i] == TaskState::Waiting <==> i
                >= self.next)
        &&& self.running == count_running(self.states)
        &&& self.running <= self.parallelism
    }

    /// Admits the next waiting task when a slot is free.
    pub open spec fn acquire(self) -> (SchedulerView, Option<nat>) {
        if self.running < self.parallelism && self.next < self.states.len() {
            (
                SchedulerView {
                    states: self.states.update(self.next as int, TaskState::Running),
                    next: self.next + 1,
                    running: self.running + 1,
                    ..self
                },
                Some(self.next),
            )
        } else {
            (self, None)
        }
    }

    /// Records the end of a running task, which frees its slot.
    pub open spec fn complete(self, task: int, succeeded: bool) -> SchedulerView {
        SchedulerView {
            states: self.states.update(
                task,
                if succeeded {
                    TaskState::Succeeded
                } else {
                    TaskState::Failed
                },
            ),
            running: (self.running - 1) as nat,
            ..self
        }
    }

    /// Whether `task` can be reported as ended now.
    pub open spec fn can_complete(self, task: int) -> bool {
        0 <= task < self.states.len() && self.states[task] == TaskState::Running
    }

    /// The state after `evs`, in order; a completion of a task that is not
    /// running is ignored.
    pub open spec fn replay(self, evs: Seq<SchedulerEvent>) -> SchedulerView
        decreases evs.len(),
    {
        if evs.len() == 0 {
            self
        } else {
            let s1 = match evs[0] {
                SchedulerEvent::Acquire => self.acquire().0,
                SchedulerEvent::Complete { task, succeeded } => if self.can_complete(task) {
                    self.complete(task, succeeded)
                } else {
                    self
                },
            };
            s1.replay(evs.drop_first())
        }
    }
}

proof fn lemma_acquire_wf(s: SchedulerView)
    requires
        s.wf(),
    ensures
        s.acquire().0.wf(),
{
    if s.running < s.parallelism && s.next < s.states.len() {
        lemma_count_update(s.states, s.next as int, TaskState::Running);
        let t = s.acquire().0;
        assert forall|i: int| 0 <= i < t.states.len() implies (#[trigger] t.states[i]
            == TaskState::Waiting <==> i >= t.next) by {
            if i != s.next {
                assert(t.states[i] == s.states[i]);
            }
        }
    }
}

proof fn lemma_complete_wf(s: SchedulerView, task: int, succeeded: bool)
    requires
        s.wf(),
        s.can_complete(task),
    ensures
        s.complete(task, succeeded).wf(),
{
    let v = if succeeded {
        TaskState::Succeeded
    } else {
        TaskState::Failed
    };
    lemma_count_update(s.states, task, v);
    let t = s.complete(task, succeeded);
    assert forall|i: int| 0 <= i < t.states.len() implies (#[trigger] t.states[i]
        == TaskState::Waiting <==> i >= t.next) by {
        if i != task {
            assert(t.states[i] == s.states[i]);
        }
    }
}

/// Bounded concurrency: from a well-formed batch, whatever admissions and
/// completions happen, in whatever order and timing, the batch stays
/// well-formed, so no more than `parallelism` tasks are ever running at once.
pub proof fn lemma_running_bounded(s: SchedulerView, evs: Seq<SchedulerEvent>)
    requires
        s.wf(),
    ensures
        s.replay(evs).wf(),
        s.replay(evs).running <= s.parallelism,
        s.replay(evs).parallelism == s.parallelism,
    decreases evs.len(),
{
    if evs.len() > 0 {
        let s1 = match evs[0] {
            SchedulerEvent::Acquire => s.acquire().0,
            SchedulerEvent::Complete { task, succeeded } => if s.can_complete(task) {
                s.complete(task, succeeded)
            } else {
                s
            },
        };
        match evs[0] {
            SchedulerEvent::Acquire => lemma_acquire_wf(s),
            SchedulerEvent::Complete { task, succeeded } => if s.can_complete(task) {
                lemma_complete_wf(s, task, succeeded);
            },
        }
        lemma_running_bounded(s1, evs.drop_first());
    }
}

/// Admits at most `parallelism` tasks at a time, in submission order, and
/// records every outcome.
pub struct Scheduler {
    parallelism: usize,
    states: Vec<TaskState>,
    next: usize,
    running: usize,
}

impl Scheduler {
    pub closed spec fn view(&self) -> SchedulerView {
        SchedulerView {
            parallelism: self.parallelism as nat,
            states: self.states@,
            next: self.next as nat,
            running: self.running as nat,
        }
    }

    pub open spec fn wf(&self) -> bool {
        self.view().wf()
    }

    /// A batch of `task_count` waiting tasks; none when `parallelism` is 0,
    /// since no task could ever be admitted.
    pub fn new(task_count: usize, parallelism: usize) -> (r: Option<Scheduler>)
        ensures
            r is Some <==> parallelism >= 1,
            r matches Some(s) ==> {
                &&& s.wf()
                &&& s.view().parallelism == parallelism
                &&& s.view().states == Seq::new(task_count as nat, |i: int| TaskState::Waiting)
                &&& s.view().next == 0
                &&& s.view().running == 0
            },
    {
        if parallelism == 0 {
            return None;
        }
        let mut states: Vec<TaskState> = Vec::new();
        let mut i: usize = 0;
        while i < task_count
            invariant
                i <= task_count,
                states@ == Seq::new(i as nat, |j: int| TaskState::Waiting),
            decreases task_count - i,
        {
            states.push(TaskState::Waiting);
            i = i + 1;
            assert(states@ =~= Seq::new(i as nat, |j: int| TaskState::Waiting));
        }
        proof {
            lemma_count_none(states@);
        }
        Some(Scheduler { parallelism, states, next: 0, running: 0 })
    }

    /// Admits the next waiting task if a slot is free, and returns its index.
    pub fn acquire(&mut self) -> (r: Option<usize>)
        requires
            old(self).wf(),
        ensures
            final(self).wf(),
            final(self).view() == old(self).view().acquire().0,
            r is Some <==> old(self).view().acquire().1 is Some,
            r matches Some(t) ==> old(self).view().acquire().1 == Some(t as nat),
    {
        proof {
            lemma_acquire_wf(self.view());
        }
        if self.running < self.parallelism && self.next < self.states.len() {
            let t = self.next;
            self.states.set(t, TaskState::Running);
            self.next = t + 1;
            self.running = self.running + 1;
            Some(t)
        } else {
            None
        }
    }

    /// Records that the running task `task` ended, successfully or not.
    pub fn complete(&mut self, task: usize, succeeded: bool)
        requires
            old(self).wf(),
            old(self).view().can_complete(task as int),
        ensures
            final(self).wf(),
            final(self).view() == old(self).view().complete(task as int, succeeded),
    {
        proof {
            lemma_complete_wf(self.view(), task as int, succeeded);
            lemma_count_positive(self.states@, task as int);
        }
        let v = if succeeded {
            TaskState::Succeeded
        } else {
            TaskState::Failed
        };
        self.states.set(task, v);
        self.running = self.running - 1;
    }

    /// Whether `task` is running now.
    pub fn is_running(&self, task: usize) -> (r: bool)
        ensures
            r == self.view().can_complete(task as int),
    {
        task < self.states.len() && self.states[task] == TaskState::Running
    }

    /// Number of tasks running now.
    pub fn in_flight(&self) -> (r: usize)
        ensures
            r == self.view().running,
    {
        self.running
    }

    /// Whether every task has ended.
    pub fn is_done(&self) -> (r: bool)
        requires
            self.wf(),
        ensures
            r <==> forall|i: int|
                0 <= i < self.view().states.len() ==> (self.view().states[i] is Succeeded
                    || self.view().states[i] is Failed),
    {
        let done = self.next == self.states.len() && self.running == 0;
        proof {
            if done {
                assert forall|i: int| 0 <= i < self.view().states.len() implies (
                self.view().states[i] is Succeeded || self.view().states[i] is Failed) by {
                    if self.states@[i] == TaskState::Running {
                        lemma_count_positive(self.states@, i);
                    }
                }
            } else if self.next < self.states.len() {
                assert(self.states@[self.next as int] == TaskState::Waiting);
            } else {
                if forall|i: int|
                    0 <= i < self.view().states.len() ==> (self.view().states[i] is Succeeded
                        || self.view().states[i] is Failed) {
                    lemma_count_none(self.states@);
                }
            }
        }
        done
    }

    /// The indices of the tasks that failed, in submission order.
    pub fn failed_tasks(&self) -> (r: Vec<usize>)
        ensures
            forall|k: int| 0 <= k < r@.len() ==> self.view().states[r@[k] as int] is Failed,
            forall|i: int|
                0 <= i < self.view().states.len() && self.view().states[i] is Failed ==> r@.contains(
                    i as usize,
                ),
            forall|a: int, b: int| 0 <= a < b < r@.len() ==> r@[a] < r@[b],
    {
        let mut r: Vec<usize> = Vec::new();
        let mut i: usize = 0;
        while i < self.states.len()
            invariant
                i <= self.states@.len(),
                forall|k: int| 0 <= k < r@.len() ==> r@[k] < i && self.states@[r@[k] as int] is Failed,
                forall|j: int| 0 <= j < i && self.states@[j] is Failed ==> r@.contains(j as usize),
                forall|a: int, b: int| 0 <= a < b < r@.len() ==> r@[a] < r@[b],
            decreases self.states@.len() - i,
        {
            let ghost before = r@;
            if self.states[i] == TaskState::Failed {
                r.push(i);
                assert(r@[r@.len() - 1] == i);
                assert forall|x: usize| before.contains(x) implies r@.contains(x) by {
                    let k = choose|k: int| 0 <= k < before.len() && before[k] == x;
                    assert(r@[k] == x);
                }
            }
            i = i + 1;
        }
        r
    }
}

} // verus!
